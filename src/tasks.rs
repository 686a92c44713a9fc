//! Tasks, soft deletion, and the named task filters with their ordering:
//! priority rank first, then due date with missing dates last, then the most
//! recently updated.
use vstd::prelude::*;
use crate::chars::{chars_of, copy_opt, id_below, opt_view};
use crate::cardbox::{contains_chars, contains_seq};
use crate::error::StoreError;
use crate::habits::{lemma_lex_total, lemma_lex_trans, lex_le, lex_le_exec};

verus! {

/// The text `YYYY-MM-DD` of the day numbered `days`, counting 0001-01-01 as day 1.
pub uninterp spec fn day_text(days: i64) -> Seq<char>;

/// Relies on chrono's `NaiveDate::from_num_days_from_ce_opt` and
/// `format("%Y-%m-%d")`: the text of the day numbered `days`.
#[verifier::external_body]
fn format_day(days: i64) -> (r: String)
    requires
        i32::MIN <= days <= i32::MAX,
    ensures
        r@ == day_text(days),
{
    match chrono::NaiveDate::from_num_days_from_ce_opt(days as i32) {
        Some(d) => d.format("%Y-%m-%d").to_string(),
        None => String::new(),
    }
}

/// Relies on chrono's `Local::now`, `date_naive` and `num_days_from_ce`:
/// today's day number on the local clock.
#[verifier::external_body]
fn local_day_number() -> (r: i64)
    ensures
        i32::MIN <= r <= i32::MAX,
{
    chrono::Datelike::num_days_from_ce(&chrono::Local::now().date_naive()) as i64
}

/// The Monday of the week of day `day` (day 1 is a Monday).
pub open spec fn monday_of(day: int) -> int {
    day - (day - 1) % 7
}

/// Most tasks a filter returns.
pub const FILTER_LIMIT: usize = 20;

/// A task; `status` is `todo`, `in_progress`, `completed` or `cancelled`,
/// `priority` is `low`, `medium`, `high` or `urgent`, and dates are text
/// that starts with `YYYY-MM-DD`.
pub struct Task {
    pub id: Option<i64>,
    pub title: String,
    pub description: Option<String>,
    pub status: String,
    pub priority: String,
    pub due_date: Option<String>,
    pub completed_at: Option<String>,
    pub project_id: Option<i64>,
    pub created_at: String,
    pub updated_at: String,
    pub deleted_at: Option<String>,
}

/// The named filters over tasks.
#[derive(Debug, Clone, Copy, PartialEq, Eq, Structural)]
pub enum TaskFilter {
    /// Due today.
    Today,
    /// Due in the current week, Monday through Sunday.
    Week,
    /// To do or in progress.
    Pending,
    /// Of high or urgent priority.
    High,
    /// Completed and updated in the last seven days.
    Completed,
}

/// The dates that the filters compare with, as `YYYY-MM-DD`.
pub struct FilterDates {
    pub today: String,
    pub week_start: String,
    pub week_end: String,
    pub week_ago: String,
}

/// The dates the filters compare with on day `day`: the day itself, the
/// Monday and the Sunday of its week, and the day one week before.
pub fn filter_dates_for(day: i64) -> (r: FilterDates)
    requires
        8 <= day <= i32::MAX - 6,
    ensures
        r.today@ == day_text(day),
        r.week_start@ == day_text(monday_of(day as int) as i64),
        r.week_end@ == day_text((monday_of(day as int) + 6) as i64),
        r.week_ago@ == day_text((day - 7) as i64),
{
    let monday = day - (day - 1) % 7;
    assert(monday as int == monday_of(day as int));
    FilterDates {
        today: format_day(day),
        week_start: format_day(monday),
        week_end: format_day(monday + 6),
        week_ago: format_day(day - 7),
    }
}

/// The filter dates for today on the local clock, unless today falls in the
/// first week of the common era or beyond what the calendar holds.
pub fn filter_dates_now() -> (r: Option<FilterDates>)
    ensures
        r matches Some(d) ==> exists|day: i64| 8 <= day <= i32::MAX - 6 && d.today@ == day_text(day) && d.week_start@ == day_text(monday_of(day as int) as i64)
            && d.week_end@ == day_text((monday_of(day as int) + 6) as i64) && d.week_ago@ == day_text((day - 7) as i64),
{
    let day = local_day_number();
    if day < 8 || day > i32::MAX as i64 - 6 {
        return None;
    }
    Some(filter_dates_for(day))
}

/// The rank of a priority: `urgent` 1, `high` 2, `medium` 3, `low` 4, other 5.
pub open spec fn rank(p: Seq<char>) -> int {
    if p == "urgent"@ {
        1
    } else if p == "high"@ {
        2
    } else if p == "medium"@ {
        3
    } else if p == "low"@ {
        4
    } else {
        5
    }
}

/// Due date `a` comes no later than `b`, a missing date coming last.
pub open spec fn due_le(a: Option<Seq<char>>, b: Option<Seq<char>>) -> bool {
    match (a, b) {
        (Some(x), Some(y)) => lex_le(x, y),
        (Some(_), None) => true,
        (None, Some(_)) => false,
        (None, None) => true,
    }
}

/// `a` may be listed before `b`.
pub open spec fn task_le(a: Task, b: Task) -> bool {
    let (ra, rb) = (rank(a.priority@), rank(b.priority@));
    let (da, db) = (opt_view(a.due_date), opt_view(b.due_date));
    ra < rb || (ra == rb && (!due_le(db, da) || (due_le(da, db) && due_le(db, da) && lex_le(
        b.updated_at@,
        a.updated_at@,
    ))))
}

proof fn lemma_due_total(a: Option<Seq<char>>, b: Option<Seq<char>>)
    ensures
        due_le(a, b) || due_le(b, a),
{
    if let (Some(x), Some(y)) = (a, b) {
        lemma_lex_total(x, y);
    }
}

proof fn lemma_due_trans(a: Option<Seq<char>>, b: Option<Seq<char>>, c: Option<Seq<char>>)
    requires
        due_le(a, b),
        due_le(b, c),
    ensures
        due_le(a, c),
{
    if let (Some(x), Some(y), Some(z)) = (a, b, c) {
        lemma_lex_trans(x, y, z);
    }
}

proof fn lemma_task_total(a: Task, b: Task)
    ensures
        task_le(a, b) || task_le(b, a),
{
    lemma_due_total(opt_view(a.due_date), opt_view(b.due_date));
    lemma_lex_total(a.updated_at@, b.updated_at@);
}

proof fn lemma_task_trans(a: Task, b: Task, c: Task)
    requires
        task_le(a, b),
        task_le(b, c),
    ensures
        task_le(a, c),
{
    let (da, db, dc) = (opt_view(a.due_date), opt_view(b.due_date), opt_view(c.due_date));
    lemma_due_total(da, db);
    lemma_due_total(db, dc);
    lemma_due_total(da, dc);
    if rank(a.priority@) == rank(b.priority@) && rank(b.priority@) == rank(c.priority@) {
        if due_le(db, da) && due_le(dc, db) {
            lemma_due_trans(dc, db, da);
        }
        if due_le(da, db) && due_le(db, dc) {
            lemma_due_trans(da, db, dc);
        }
        if due_le(dc, da) && due_le(da, db) {
            lemma_due_trans(dc, da, db);
        }
        if due_le(db, dc) && due_le(dc, da) {
            lemma_due_trans(db, dc, da);
        }
        if lex_le(b.updated_at@, a.updated_at@) && lex_le(c.updated_at@, b.updated_at@) {
            lemma_lex_trans(c.updated_at@, b.updated_at@, a.updated_at@);
        }
    }
}

/// No two tasks of `ts` share an identity.
pub open spec fn task_ids_distinct(ts: Seq<Task>) -> bool {
    forall|a: int, b: int| 0 <= a < b < ts.len() ==> ts[a].id != ts[b].id
}

/// `ts` is in listing order.
pub open spec fn tasks_sorted(ts: Seq<Task>) -> bool {
    forall|a: int, b: int| 0 <= a < b < ts.len() ==> task_le(ts[a], ts[b])
}

/// The date part of a stored date: its first ten characters.
pub open spec fn date_part(s: Seq<char>) -> Seq<char> {
    if s.len() >= 10 { s.take(10) } else { s }
}

/// Task `t` passes filter `f` on the given dates; deleted tasks never do.
pub open spec fn task_selected(t: Task, f: TaskFilter, d: FilterDates) -> bool {
    &&& t.deleted_at is None
    &&& match f {
        TaskFilter::Today => t.due_date matches Some(x) && date_part(x@) == d.today@,
        TaskFilter::Week => t.due_date matches Some(x) && lex_le(d.week_start@, x@) && lex_le(x@, d.week_end@),
        TaskFilter::Pending => t.status@ == "todo"@ || t.status@ == "in_progress"@,
        TaskFilter::High => t.priority@ == "high"@ || t.priority@ == "urgent"@,
        TaskFilter::Completed => t.status@ == "completed"@ && lex_le(d.week_ago@, t.updated_at@),
    }
}

/// The filter named `name`, if it is one of `today`, `week`, `pending`,
/// `high`, `completed`.
pub open spec fn filter_named(name: Seq<char>) -> Option<TaskFilter> {
    if name == "today"@ {
        Some(TaskFilter::Today)
    } else if name == "week"@ {
        Some(TaskFilter::Week)
    } else if name == "pending"@ {
        Some(TaskFilter::Pending)
    } else if name == "high"@ {
        Some(TaskFilter::High)
    } else if name == "completed"@ {
        Some(TaskFilter::Completed)
    } else {
        None
    }
}

/// The filter named `name`; other names are refused.
pub fn parse_task_filter(name: &str) -> (r: Result<TaskFilter, StoreError>)
    ensures
        filter_named(name@) matches Some(f) ==> r == Ok::<TaskFilter, StoreError>(f),
        filter_named(name@) is None ==> r == Err::<TaskFilter, StoreError>(StoreError::UnsupportedFilter),
{
    let n = name.to_owned();
    if n == "today".to_owned() {
        Ok(TaskFilter::Today)
    } else if n == "week".to_owned() {
        Ok(TaskFilter::Week)
    } else if n == "pending".to_owned() {
        Ok(TaskFilter::Pending)
    } else if n == "high".to_owned() {
        Ok(TaskFilter::High)
    } else if n == "completed".to_owned() {
        Ok(TaskFilter::Completed)
    } else {
        Err(StoreError::UnsupportedFilter)
    }
}

fn rank_of(p: &String) -> (r: i64)
    ensures
        r == rank(p@),
{
    if *p == "urgent".to_owned() {
        1
    } else if *p == "high".to_owned() {
        2
    } else if *p == "medium".to_owned() {
        3
    } else if *p == "low".to_owned() {
        4
    } else {
        5
    }
}

fn due_le_exec(a: &Option<String>, b: &Option<String>) -> (r: bool)
    ensures
        r == due_le(opt_view(*a), opt_view(*b)),
{
    match (a, b) {
        (Some(x), Some(y)) => {
            let xc = chars_of(x.as_str());
            let yc = chars_of(y.as_str());
            lex_le_exec(&xc, &yc)
        },
        (Some(_), None) => true,
        (None, Some(_)) => false,
        (None, None) => true,
    }
}

fn task_le_exec(a: &Task, b: &Task) -> (r: bool)
    ensures
        r == task_le(*a, *b),
{
    let ra = rank_of(&a.priority);
    let rb = rank_of(&b.priority);
    if ra != rb {
        return ra < rb;
    }
    let ab = due_le_exec(&a.due_date, &b.due_date);
    let ba = due_le_exec(&b.due_date, &a.due_date);
    if !ba {
        return true;
    }
    if !ab {
        return false;
    }
    let ua = chars_of(a.updated_at.as_str());
    let ub = chars_of(b.updated_at.as_str());
    lex_le_exec(&ub, &ua)
}

fn task_selected_exec(t: &Task, f: TaskFilter, d: &FilterDates) -> (r: bool)
    ensures
        r == task_selected(*t, f, *d),
{
    if t.deleted_at.is_some() {
        return false;
    }
    match f {
        TaskFilter::Today => match &t.due_date {
            Some(x) => {
                let xc = chars_of(x.as_str());
                let mut part: Vec<char> = Vec::new();
                let n: usize = if xc.len() >= 10 { 10 } else { xc.len() };
                let mut i: usize = 0;
                while i < n
                    invariant
                        i <= n,
                        n <= xc@.len(),
                        part@ == xc@.subrange(0, i as int),
                    decreases n - i,
                {
                    part.push(xc[i]);
                    i = i + 1;
                    assert(xc@.subrange(0, i as int) =~= xc@.subrange(0, i - 1).push(xc@[i - 1]));
                }
                assert(part@ =~= date_part(x@));
                let td = chars_of(d.today.as_str());
                let ps = crate::chars::string_of(&part);
                let ts = crate::chars::string_of(&td);
                ps == ts
            },
            None => false,
        },
        TaskFilter::Week => match &t.due_date {
            Some(x) => {
                let xc = chars_of(x.as_str());
                let s = chars_of(d.week_start.as_str());
                let e = chars_of(d.week_end.as_str());
                lex_le_exec(&s, &xc) && lex_le_exec(&xc, &e)
            },
            None => false,
        },
        TaskFilter::Pending => t.status == "todo".to_owned() || t.status == "in_progress".to_owned(),
        TaskFilter::High => t.priority == "high".to_owned() || t.priority == "urgent".to_owned(),
        TaskFilter::Completed => {
            let u = chars_of(t.updated_at.as_str());
            let w = chars_of(d.week_ago.as_str());
            t.status == "completed".to_owned() && lex_le_exec(&w, &u)
        },
    }
}

fn copy_task(t: &Task) -> (r: Task)
    ensures
        r == *t,
{
    Task {
        id: t.id,
        title: t.title.clone(),
        description: copy_opt(&t.description),
        status: t.status.clone(),
        priority: t.priority.clone(),
        due_date: copy_opt(&t.due_date),
        completed_at: copy_opt(&t.completed_at),
        project_id: t.project_id,
        created_at: t.created_at.clone(),
        updated_at: t.updated_at.clone(),
        deleted_at: copy_opt(&t.deleted_at),
    }
}

/// The tasks of `v` in listing order.
pub fn sort_tasks(v: &Vec<Task>) -> (r: Vec<Task>)
    ensures
        tasks_sorted(r@),
        r@.len() == v@.len(),
        forall|t: Task| #[trigger] r@.contains(t) <==> v@.contains(t),
        task_ids_distinct(v@) ==> task_ids_distinct(r@),
{
    let mut out: Vec<Task> = Vec::new();
    let mut i: usize = 0;
    while i < v.len()
        invariant
            i <= v@.len(),
            out@.len() == i,
            tasks_sorted(out@),
            forall|t: Task| #[trigger] out@.contains(t) <==> exists|q: int| 0 <= q < i && v@[q] == t,
            task_ids_distinct(v@) ==> task_ids_distinct(out@),
        decreases v@.len() - i,
    {
        let x = copy_task(&v[i]);
        let mut pos: usize = 0;
        while pos < out.len() && task_le_exec(&out[pos], &x)
            invariant
                pos <= out@.len(),
                forall|a: int| 0 <= a < pos ==> task_le(out@[a], x),
            decreases out@.len() - pos,
        {
            pos = pos + 1;
        }
        let ghost before = out@;
        out.insert(pos, x);
        proof {
            if task_ids_distinct(v@) {
                assert forall|c: int| 0 <= c < before.len() implies before[c].id != x.id by {
                    assert(before.contains(before[c]));
                    let q = choose|q: int| 0 <= q < i && v@[q] == before[c];
                }
                assert forall|a: int, b: int| 0 <= a < b < out@.len() implies out@[a].id != out@[b].id by {
                    if a < pos && b < pos {
                    } else if a < pos && b == pos {
                    } else if a < pos {
                        assert(out@[b] == before[b - 1]);
                    } else if a == pos {
                        assert(out@[b] == before[b - 1]);
                    } else {
                        assert(out@[a] == before[a - 1] && out@[b] == before[b - 1]);
                    }
                }
            }
            assert(out@ == before.insert(pos as int, x));
            if pos < before.len() {
                lemma_task_total(before[pos as int], x);
            }
            assert forall|a: int, b: int| 0 <= a < b < out@.len() implies task_le(out@[a], out@[b]) by {
                if a < pos && b == pos {
                } else if a < pos && b > pos {
                    assert(out@[b] == before[b - 1]);
                } else if a == pos && b > pos {
                    assert(out@[b] == before[b - 1]);
                    if b - 1 > pos {
                        lemma_task_trans(x, before[pos as int], before[b - 1]);
                    }
                } else if a > pos {
                    assert(out@[a] == before[a - 1]);
                    assert(out@[b] == before[b - 1]);
                }
            }
            assert forall|t: Task| #[trigger] out@.contains(t) <==> exists|q: int| 0 <= q < i + 1 && v@[q] == t by {
                if out@.contains(t) {
                    let a = choose|a: int| 0 <= a < out@.len() && out@[a] == t;
                    if a < pos {
                        assert(before[a] == t);
                    } else if a > pos {
                        assert(before[a - 1] == t);
                    }
                    if a != pos {
                        assert(before.contains(t));
                        let q = choose|q: int| 0 <= q < i && v@[q] == t;
                        assert(0 <= q < i + 1 && v@[q] == t);
                    } else {
                        assert(v@[i as int] == t);
                    }
                }
                if exists|q: int| 0 <= q < i + 1 && v@[q] == t {
                    let q = choose|q: int| 0 <= q < i + 1 && v@[q] == t;
                    if q < i {
                        assert(exists|q2: int| 0 <= q2 < i && v@[q2] == t);
                        assert(before.contains(t));
                        let a = choose|a: int| 0 <= a < before.len() && before[a] == t;
                        if a < pos {
                            assert(out@[a] == t);
                        } else {
                            assert(out@[a + 1] == t);
                        }
                    } else {
                        assert(out@[pos as int] == t);
                    }
                }
            }
        }
        i = i + 1;
    }
    assert forall|t: Task| #[trigger] out@.contains(t) <==> v@.contains(t) by {
        if v@.contains(t) {
            let q = choose|q: int| 0 <= q < v@.len() && v@[q] == t;
        }
    }
    out
}

/// `a` is due no later than `b`, a missing due date coming last.
pub open spec fn due_task_le(a: Task, b: Task) -> bool {
    due_le(opt_view(a.due_date), opt_view(b.due_date))
}

/// `ts` is ordered by due date.
pub open spec fn due_sorted(ts: Seq<Task>) -> bool {
    forall|a: int, b: int| 0 <= a < b < ts.len() ==> due_task_le(ts[a], ts[b])
}

fn due_task_le_exec(a: &Task, b: &Task) -> (r: bool)
    ensures
        r == due_task_le(*a, *b),
{
    due_le_exec(&a.due_date, &b.due_date)
}

proof fn lemma_due_task_total(a: Task, b: Task)
    ensures
        due_task_le(a, b) || due_task_le(b, a),
{
    lemma_due_total(opt_view(a.due_date), opt_view(b.due_date));
}

proof fn lemma_due_task_trans(a: Task, b: Task, c: Task)
    requires
        due_task_le(a, b),
        due_task_le(b, c),
    ensures
        due_task_le(a, c),
{
    lemma_due_trans(opt_view(a.due_date), opt_view(b.due_date), opt_view(c.due_date));
}

/// The tasks of `v` by due date, earliest first and undated last; tasks
/// with equal due dates keep their order.
pub fn sort_tasks_by_due(v: &Vec<Task>) -> (r: Vec<Task>)
    ensures
        due_sorted(r@),
        r@.len() == v@.len(),
        forall|t: Task| #[trigger] r@.contains(t) <==> v@.contains(t),
        task_ids_distinct(v@) ==> task_ids_distinct(r@),
{
    let mut out: Vec<Task> = Vec::new();
    let mut i: usize = 0;
    while i < v.len()
        invariant
            i <= v@.len(),
            out@.len() == i,
            due_sorted(out@),
            forall|t: Task| #[trigger] out@.contains(t) <==> exists|q: int| 0 <= q < i && v@[q] == t,
            task_ids_distinct(v@) ==> task_ids_distinct(out@),
        decreases v@.len() - i,
    {
        let x = copy_task(&v[i]);
        let mut pos: usize = 0;
        while pos < out.len() && due_task_le_exec(&out[pos], &x)
            invariant
                pos <= out@.len(),
                forall|a: int| 0 <= a < pos ==> due_task_le(out@[a], x),
            decreases out@.len() - pos,
        {
            pos = pos + 1;
        }
        let ghost before = out@;
        out.insert(pos, x);
        proof {
            if task_ids_distinct(v@) {
                assert forall|c: int| 0 <= c < before.len() implies before[c].id != x.id by {
                    assert(before.contains(before[c]));
                    let q = choose|q: int| 0 <= q < i && v@[q] == before[c];
                }
                assert forall|a: int, b: int| 0 <= a < b < out@.len() implies out@[a].id != out@[b].id by {
                    if a < pos && b < pos {
                    } else if a < pos && b == pos {
                    } else if a < pos {
                        assert(out@[b] == before[b - 1]);
                    } else if a == pos {
                        assert(out@[b] == before[b - 1]);
                    } else {
                        assert(out@[a] == before[a - 1] && out@[b] == before[b - 1]);
                    }
                }
            }
            assert(out@ == before.insert(pos as int, x));
            if pos < before.len() {
                lemma_due_task_total(before[pos as int], x);
            }
            assert forall|a: int, b: int| 0 <= a < b < out@.len() implies due_task_le(out@[a], out@[b]) by {
                if a < pos && b == pos {
                } else if a < pos && b > pos {
                    assert(out@[b] == before[b - 1]);
                } else if a == pos && b > pos {
                    assert(out@[b] == before[b - 1]);
                    if b - 1 > pos {
                        lemma_due_task_trans(x, before[pos as int], before[b - 1]);
                    }
                } else if a > pos {
                    assert(out@[a] == before[a - 1]);
                    assert(out@[b] == before[b - 1]);
                }
            }
            assert forall|t: Task| #[trigger] out@.contains(t) <==> exists|q: int| 0 <= q < i + 1 && v@[q] == t by {
                if out@.contains(t) {
                    let a = choose|a: int| 0 <= a < out@.len() && out@[a] == t;
                    if a < pos {
                        assert(before[a] == t);
                    } else if a > pos {
                        assert(before[a - 1] == t);
                    }
                    if a != pos {
                        assert(before.contains(t));
                        let q = choose|q: int| 0 <= q < i && v@[q] == t;
                        assert(0 <= q < i + 1 && v@[q] == t);
                    } else {
                        assert(v@[i as int] == t);
                    }
                }
                if exists|q: int| 0 <= q < i + 1 && v@[q] == t {
                    let q = choose|q: int| 0 <= q < i + 1 && v@[q] == t;
                    if q < i {
                        assert(exists|q2: int| 0 <= q2 < i && v@[q2] == t);
                        assert(before.contains(t));
                        let a = choose|a: int| 0 <= a < before.len() && before[a] == t;
                        if a < pos {
                            assert(out@[a] == t);
                        } else {
                            assert(out@[a + 1] == t);
                        }
                    } else {
                        assert(out@[pos as int] == t);
                    }
                }
            }
        }
        i = i + 1;
    }
    assert forall|t: Task| #[trigger] out@.contains(t) <==> v@.contains(t) by {
        if v@.contains(t) {
            let q = choose|q: int| 0 <= q < v@.len() && v@[q] == t;
        }
    }
    out
}

/// The fields of a task to change; absent fields stay as they are. An empty
/// due date or completion time clears that field.
pub struct TaskUpdate {
    pub title: Option<String>,
    pub description: Option<String>,
    pub status: Option<String>,
    pub priority: Option<String>,
    pub due_date: Option<String>,
    pub completed_at: Option<String>,
    pub project_id: Option<i64>,
}

/// Some field of `u` is present.
pub open spec fn task_touched(u: TaskUpdate) -> bool {
    u.title is Some || u.description is Some || u.status is Some || u.priority is Some || u.due_date is Some
        || u.completed_at is Some || u.project_id is Some
}

/// The stored value for a date field given as `v`: empty text clears it.
pub open spec fn date_value(v: String) -> Option<String> {
    if v@.len() == 0 { None } else { Some(v) }
}

/// `t` with the present fields of `u` applied at time `now`.
pub open spec fn task_updated(t: Task, u: TaskUpdate, now: String) -> Task {
    Task {
        id: t.id,
        title: if u.title is Some { u.title->0 } else { t.title },
        description: if u.description is Some { u.description } else { t.description },
        status: if u.status is Some { u.status->0 } else { t.status },
        priority: if u.priority is Some { u.priority->0 } else { t.priority },
        due_date: if u.due_date is Some { date_value(u.due_date->0) } else { t.due_date },
        completed_at: if u.completed_at is Some { date_value(u.completed_at->0) } else { t.completed_at },
        project_id: if u.project_id is Some { u.project_id } else { t.project_id },
        created_at: t.created_at,
        updated_at: if task_touched(u) { now } else { t.updated_at },
        deleted_at: t.deleted_at,
    }
}

fn date_value_exec(v: String) -> (r: Option<String>)
    ensures
        r == date_value(v),
{
    if v.as_str().is_empty() {
        None
    } else {
        Some(v)
    }
}

/// A selection of tasks.
pub enum TaskQuery {
    /// Tasks with this status.
    Status(String),
    /// Tasks of this project.
    Project(i64),
    /// Tasks due from the first date (when given) through the second (when
    /// given); every task when neither is given.
    DueBetween(Option<String>, Option<String>),
    /// Tasks whose title or description holds this text.
    Text(String),
}

/// Task `t` is live and answers query `q`.
pub open spec fn query_matches(t: Task, q: TaskQuery) -> bool {
    &&& t.deleted_at is None
    &&& match q {
        TaskQuery::Status(s) => t.status@ == s@,
        TaskQuery::Project(p) => t.project_id == Some(p),
        TaskQuery::DueBetween(lo, hi) => (lo is None && hi is None) || (t.due_date matches Some(d) && (lo matches Some(l) ==> lex_le(l@, d@)) && (
        hi matches Some(h) ==> lex_le(d@, h@))),
        TaskQuery::Text(x) => contains_seq(t.title@, x@) || (t.description matches Some(dd) && contains_seq(dd@, x@)),
    }
}

/// A project that groups tasks.
pub struct TaskProject {
    pub id: Option<i64>,
    pub name: String,
    pub icon: String,
    pub color: Option<String>,
    pub description: Option<String>,
    pub created_at: String,
    pub updated_at: String,
}

/// Counts of a project's tasks that are not deleted.
#[derive(Debug, Clone, Copy, PartialEq, Eq, Structural)]
pub struct ProjectStats {
    pub total: u64,
    pub completed: u64,
    /// Due before today and not completed.
    pub overdue: u64,
}

/// Tasks and projects, with the next identities to hand out.
pub struct TaskStore {
    tasks: Vec<Task>,
    next_id: i64,
    projects: Vec<TaskProject>,
    next_project_id: i64,
}

/// Task `t` is a live task of project `p`.
pub open spec fn in_project(t: Task, p: i64) -> bool {
    t.project_id == Some(p) && t.deleted_at is None
}

/// Task `t` of project `p` is completed.
pub open spec fn completed_in(t: Task, p: i64) -> bool {
    in_project(t, p) && t.status@ == "completed"@
}

/// Task `t` of project `p` was due before `today` and is not completed.
pub open spec fn overdue_in(t: Task, p: i64, today: Seq<char>) -> bool {
    in_project(t, p) && t.status@ != "completed"@ && (t.due_date matches Some(d) && !lex_le(today, d@))
}

/// How many of the first `n` tasks satisfy each of the three project counts.
pub open spec fn project_counts(ts: Seq<Task>, p: i64, today: Seq<char>, n: int) -> (nat, nat, nat)
    decreases n,
{
    if n <= 0 {
        (0, 0, 0)
    } else {
        let (a, b, c) = project_counts(ts, p, today, n - 1);
        let t = ts[n - 1];
        (
            a + if in_project(t, p) { 1nat } else { 0nat },
            b + if completed_in(t, p) { 1nat } else { 0nat },
            c + if overdue_in(t, p, today) { 1nat } else { 0nat },
        )
    }
}

proof fn lemma_project_counts_bound(ts: Seq<Task>, p: i64, today: Seq<char>, n: int)
    requires
        0 <= n,
    ensures
        project_counts(ts, p, today, n).0 <= n,
        project_counts(ts, p, today, n).1 <= n,
        project_counts(ts, p, today, n).2 <= n,
    decreases n,
{
    if n > 0 {
        lemma_project_counts_bound(ts, p, today, n - 1);
    }
}

pub open spec fn has_task(ts: Seq<Task>, id: i64) -> bool {
    exists|j: int| 0 <= j < ts.len() && ts[j].id == Some(id)
}

impl TaskStore {
    pub closed spec fn tasks(&self) -> Seq<Task> {
        self.tasks@
    }

    pub closed spec fn projects(&self) -> Seq<TaskProject> {
        self.projects@
    }

    /// The identity the next task gets.
    pub closed spec fn next_task_id(&self) -> i64 {
        self.next_id
    }

    /// The identity the next project gets.
    pub closed spec fn next_project_id(&self) -> i64 {
        self.next_project_id
    }

    /// Identities are unique and below the next one.
    pub closed spec fn wf(&self) -> bool {
        &&& self.next_id >= 1
        &&& self.next_project_id >= 1
        &&& forall|i: int| 0 <= i < self.projects@.len() ==> id_below(#[trigger] self.projects@[i].id, self.next_project_id)
        &&& forall|i: int, j: int| 0 <= i < j < self.projects@.len() ==> self.projects@[i].id != self.projects@[j].id
        &&& forall|i: int| 0 <= i < self.tasks@.len() ==> id_below(#[trigger] self.tasks@[i].id, self.next_id)
        &&& forall|i: int, j: int| 0 <= i < j < self.tasks@.len() ==> self.tasks@[i].id != self.tasks@[j].id
    }

    /// An empty store.
    pub fn new() -> (r: TaskStore)
        ensures
            r.wf(),
            r.tasks().len() == 0,
    {
        TaskStore { tasks: Vec::new(), next_id: 1, projects: Vec::new(), next_project_id: 1 }
    }

    /// Adds `task` with a new identity and returns the identity.
    pub fn create_task(&mut self, task: Task) -> (r: Result<i64, StoreError>)
        requires
            old(self).wf(),
        ensures
            r is Ok <==> old(self).next_task_id() < i64::MAX,
            final(self).wf(),
            r is Err ==> *final(self) == *old(self),
            r matches Ok(id) ==> !has_task(old(self).tasks(), id) && final(self).tasks() == old(self).tasks().push(
                Task { id: Some(id), ..task },
            ),
    {
        if self.next_id == i64::MAX {
            return Err(StoreError::IdsExhausted);
        }
        let id = self.next_id;
        let ghost t0 = self.tasks@;
        self.tasks.push(Task { id: Some(id), ..task });
        self.next_id = id + 1;
        proof {
            let ts = self.tasks@;
            assert forall|a: int, b: int| 0 <= a < b < ts.len() implies ts[a].id != ts[b].id by {
                if b == ts.len() - 1 {
                    assert(id_below(t0[a].id, id));
                }
            }
            assert(!has_task(t0, id)) by {
                if has_task(t0, id) {
                    let j = choose|j: int| 0 <= j < t0.len() && t0[j].id == Some(id);
                    assert(id_below(t0[j].id, id));
                }
            }
        }
        Ok(id)
    }

    /// The tasks that are not deleted, in store order.
    pub fn get_all_tasks(&self) -> (r: Vec<Task>)
        ensures
            forall|t: Task| #[trigger] r@.contains(t) <==> self.tasks().contains(t) && t.deleted_at is None,
    {
        let mut out: Vec<Task> = Vec::new();
        let mut i: usize = 0;
        while i < self.tasks.len()
            invariant
                i <= self.tasks@.len(),
                forall|t: Task| #[trigger] out@.contains(t) <==> (exists|q: int| 0 <= q < i && self.tasks@[q] == t) && t.deleted_at is None,
            decreases self.tasks@.len() - i,
        {
            let ghost before = out@;
            if self.tasks[i].deleted_at.is_none() {
                out.push(copy_task(&self.tasks[i]));
            }
            proof {
                assert forall|x: Task| #[trigger] out@.contains(x) <==> (exists|q: int| 0 <= q < i + 1 && self.tasks@[q] == x) && x.deleted_at is None by {
                    if out@.contains(x) {
                        let a = choose|a: int| 0 <= a < out@.len() && out@[a] == x;
                        if a < before.len() {
                            assert(before[a] == x);
                            assert(before.contains(x));
                            let q = choose|q: int| 0 <= q < i && self.tasks@[q] == x;
                            assert(0 <= q < i + 1 && self.tasks@[q] == x);
                        } else {
                            assert(self.tasks@[i as int] == x);
                        }
                    }
                    if (exists|q: int| 0 <= q < i + 1 && self.tasks@[q] == x) && x.deleted_at is None {
                        let q = choose|q: int| 0 <= q < i + 1 && self.tasks@[q] == x;
                        if q < i {
                            assert(before.contains(x));
                            let a = choose|a: int| 0 <= a < before.len() && before[a] == x;
                            assert(out@[a] == x);
                        } else {
                            assert(out@[before.len() as int] == x);
                        }
                    }
                }
            }
            i = i + 1;
        }
        proof {
            assert forall|t: Task| #[trigger] out@.contains(t) <==> self.tasks@.contains(t) && t.deleted_at is None by {
                if self.tasks@.contains(t) {
                    let q = choose|q: int| 0 <= q < self.tasks@.len() && self.tasks@[q] == t;
                }
            }
        }
        out
    }

    /// Marks task `id` deleted at time `now`; it stays stored.
    pub fn delete_task(&mut self, id: i64, now: String)
        requires
            old(self).wf(),
        ensures
            final(self).wf(),
            final(self).tasks().len() == old(self).tasks().len(),
            forall|i: int|
                0 <= i < old(self).tasks().len() ==> #[trigger] final(self).tasks()[i] == if old(self).tasks()[i].id
                    == Some(id) {
                    Task { deleted_at: Some(now), ..old(self).tasks()[i] }
                } else {
                    old(self).tasks()[i]
                },
    {
        let mut k: usize = 0;
        while k < self.tasks.len() && self.tasks[k].id != Some(id)
            invariant
                k <= self.tasks@.len(),
                forall|j: int| 0 <= j < k ==> self.tasks@[j].id != Some(id),
            decreases self.tasks@.len() - k,
        {
            k = k + 1;
        }
        if k < self.tasks.len() && self.tasks[k].id == Some(id) {
            let mut t = copy_task(&self.tasks[k]);
            t.deleted_at = Some(now);
            let ghost t0 = self.tasks@;
            self.tasks.set(k, t);
            proof {
                assert forall|i: int| 0 <= i < t0.len() && i != k implies t0[i].id != Some(id) by {
                    if i < k {
                    } else {
                        assert(t0[k as int].id != t0[i].id);
                    }
                }
                let ts = self.tasks@;
                assert forall|a: int, b: int| 0 <= a < b < ts.len() implies ts[a].id != ts[b].id by {
                    assert(ts[a].id == t0[a].id && ts[b].id == t0[b].id);
                }
                assert forall|a: int| 0 <= a < ts.len() implies id_below(#[trigger] ts[a].id, self.next_id) by {
                    assert(ts[a].id == t0[a].id);
                }
            }
        }
    }

    /// The tasks that pass the filter named `filter` on the given dates, in
    /// listing order, at most `FILTER_LIMIT` of them; an unknown filter name
    /// is refused.
    pub fn get_tasks_by_filter(&self, filter: &str, dates: &FilterDates) -> (r: Result<Vec<Task>, StoreError>)
        requires
            self.wf(),
        ensures
            filter_named(filter@) is Some ==> r is Ok,
            filter_named(filter@) is None <==> r == Err::<Vec<Task>, StoreError>(StoreError::UnsupportedFilter),
            r matches Ok(ts) ==> {
                let f = filter_named(filter@)->0;
                &&& ts@.len() <= FILTER_LIMIT
                &&& task_ids_distinct(ts@)
                &&& tasks_sorted(ts@)
                &&& forall|k: int| 0 <= k < ts@.len() ==> self.tasks().contains(#[trigger] ts@[k]) && task_selected(ts@[k], f, *dates)
                &&& forall|t: Task|
                    self.tasks().contains(t) && task_selected(t, f, *dates) && !(#[trigger] ts@.contains(t)) ==> ts@.len()
                        == FILTER_LIMIT && forall|k: int| 0 <= k < ts@.len() ==> task_le(ts@[k], t)
            },
    {
        let f = match parse_task_filter(filter) {
            Ok(f) => f,
            Err(e) => {
                return Err(e);
            },
        };
        let mut picked: Vec<Task> = Vec::new();
        let mut i: usize = 0;
        while i < self.tasks.len()
            invariant
                i <= self.tasks@.len(),
                self.wf(),
                task_ids_distinct(picked@),
                forall|t: Task| #[trigger] picked@.contains(t) <==> (exists|q: int| 0 <= q < i && self.tasks@[q] == t) && task_selected(t, f, *dates),
            decreases self.tasks@.len() - i,
        {
            let ghost before = picked@;
            if task_selected_exec(&self.tasks[i], f, dates) {
                proof {
                    assert forall|c: int| 0 <= c < picked@.len() implies picked@[c].id != self.tasks@[i as int].id by {
                        assert(picked@.contains(picked@[c]));
                        let q = choose|q: int| 0 <= q < i && self.tasks@[q] == picked@[c];
                    }
                }
                picked.push(copy_task(&self.tasks[i]));
                assert forall|a: int, b: int| 0 <= a < b < picked@.len() implies picked@[a].id != picked@[b].id by {
                    if b == picked@.len() - 1 {
                        assert(picked@[b] == self.tasks@[i as int]);
                    }
                }
            }
            proof {
                assert forall|x: Task| #[trigger] picked@.contains(x) <==> (exists|q: int| 0 <= q < i + 1 && self.tasks@[q] == x) && task_selected(x, f, *dates) by {
                    if picked@.contains(x) {
                        let a = choose|a: int| 0 <= a < picked@.len() && picked@[a] == x;
                        if a < before.len() {
                            assert(before[a] == x);
                            assert(before.contains(x));
                            let q = choose|q: int| 0 <= q < i && self.tasks@[q] == x;
                            assert(0 <= q < i + 1 && self.tasks@[q] == x);
                        } else {
                            assert(self.tasks@[i as int] == x);
                        }
                    }
                    if (exists|q: int| 0 <= q < i + 1 && self.tasks@[q] == x) && task_selected(x, f, *dates) {
                        let q = choose|q: int| 0 <= q < i + 1 && self.tasks@[q] == x;
                        if q < i {
                            assert(before.contains(x));
                            let a = choose|a: int| 0 <= a < before.len() && before[a] == x;
                            assert(picked@[a] == x);
                        } else {
                            assert(picked@[before.len() as int] == x);
                        }
                    }
                }
            }
            i = i + 1;
        }
        let sorted = sort_tasks(&picked);
        let n: usize = if sorted.len() < FILTER_LIMIT { sorted.len() } else { FILTER_LIMIT };
        let mut out: Vec<Task> = Vec::new();
        let mut k: usize = 0;
        while k < n
            invariant
                k <= n,
                n <= sorted@.len(),
                out@ == sorted@.subrange(0, k as int),
                task_ids_distinct(sorted@),
            decreases n - k,
        {
            out.push(copy_task(&sorted[k]));
            k = k + 1;
            assert(sorted@.subrange(0, k as int) =~= sorted@.subrange(0, k - 1).push(sorted@[k - 1]));
        }
        proof {
            assert forall|a: int, b: int| 0 <= a < b < out@.len() implies out@[a].id != out@[b].id by {
                assert(out@[a] == sorted@[a] && out@[b] == sorted@[b]);
            }
            assert forall|k: int| 0 <= k < out@.len() implies self.tasks@.contains(#[trigger] out@[k]) && task_selected(out@[k], f, *dates) by {
                assert(out@[k] == sorted@[k]);
                assert(sorted@.contains(sorted@[k]));
                assert(picked@.contains(sorted@[k]));
                let q = choose|q: int| 0 <= q < self.tasks@.len() && self.tasks@[q] == out@[k];
            }
            assert forall|t: Task| self.tasks@.contains(t) && task_selected(t, f, *dates) && !(#[trigger] out@.contains(t)) implies out@.len() == FILTER_LIMIT && forall|k: int| 0 <= k < out@.len() ==> task_le(out@[k], t) by {
                let q = choose|q: int| 0 <= q < self.tasks@.len() && self.tasks@[q] == t;
                assert(picked@.contains(t));
                assert(sorted@.contains(t));
                let j = choose|j: int| 0 <= j < sorted@.len() && sorted@[j] == t;
                if j < n {
                    assert(out@[j] == t);
                }
                assert forall|k: int| 0 <= k < out@.len() implies task_le(out@[k], t) by {
                    assert(out@[k] == sorted@[k]);
                }
            }
        }
        Ok(out)
    }

    /// Adds a project at time `now` and returns its new identity.
    pub fn create_task_project(
        &mut self,
        name: String,
        icon: String,
        color: Option<String>,
        description: Option<String>,
        now: String,
    ) -> (r: Result<i64, StoreError>)
        requires
            old(self).wf(),
        ensures
            r is Ok <==> old(self).next_project_id() < i64::MAX,
            final(self).wf(),
            r is Err ==> *final(self) == *old(self),
            r matches Ok(id) ==> {
                &&& final(self).tasks() == old(self).tasks()
                &&& final(self).projects() == old(self).projects().push(
                    TaskProject {
                        id: Some(id),
                        name: name,
                        icon: icon,
                        color: color,
                        description: description,
                        created_at: now,
                        updated_at: now,
                    },
                )
            },
    {
        if self.next_project_id == i64::MAX {
            return Err(StoreError::IdsExhausted);
        }
        let id = self.next_project_id;
        let ghost p0 = self.projects@;
        self.projects.push(
            TaskProject { id: Some(id), name, icon, color, description, created_at: now.clone(), updated_at: now },
        );
        self.next_project_id = id + 1;
        proof {
            let ps = self.projects@;
            assert forall|a: int, b: int| 0 <= a < b < ps.len() implies ps[a].id != ps[b].id by {
                if b == ps.len() - 1 {
                    assert(id_below(p0[a].id, id));
                }
            }
        }
        Ok(id)
    }

    /// The projects in store order.
    pub fn get_all_task_projects(&self) -> (r: Vec<TaskProject>)
        ensures
            r@ == self.projects(),
    {
        let mut out: Vec<TaskProject> = Vec::new();
        let mut i: usize = 0;
        while i < self.projects.len()
            invariant
                i <= self.projects@.len(),
                out@ == self.projects@.subrange(0, i as int),
            decreases self.projects@.len() - i,
        {
            let p = &self.projects[i];
            out.push(
                TaskProject {
                    id: p.id,
                    name: p.name.clone(),
                    icon: p.icon.clone(),
                    color: copy_opt(&p.color),
                    description: copy_opt(&p.description),
                    created_at: p.created_at.clone(),
                    updated_at: p.updated_at.clone(),
                },
            );
            i = i + 1;
            assert(self.projects@.subrange(0, i as int) =~= self.projects@.subrange(0, i - 1).push(self.projects@[i - 1]));
        }
        assert(self.projects@.subrange(0, i as int) =~= self.projects@);
        out
    }

    /// The numbers of live tasks of project `project_id`: all of them, the
    /// completed ones, and those due before `today` and not completed.
    pub fn get_task_project_stats(&self, project_id: i64, today: &str) -> (r: ProjectStats)
        ensures
            r.total as int == project_counts(self.tasks(), project_id, today@, self.tasks().len() as int).0,
            r.completed as int == project_counts(self.tasks(), project_id, today@, self.tasks().len() as int).1,
            r.overdue as int == project_counts(self.tasks(), project_id, today@, self.tasks().len() as int).2,
    {
        let td = chars_of(today);
        let completed = "completed".to_owned();
        let mut st = ProjectStats { total: 0, completed: 0, overdue: 0 };
        let mut i: usize = 0;
        while i < self.tasks.len()
            invariant
                i <= self.tasks@.len(),
                td@ == today@,
                completed@ == "completed"@,
                (st.total as nat, st.completed as nat, st.overdue as nat) == project_counts(self.tasks@, project_id, today@, i as int),
            decreases self.tasks@.len() - i,
        {
            proof {
                lemma_project_counts_bound(self.tasks@, project_id, today@, i as int);
            }
            let t = &self.tasks[i];
            if t.project_id == Some(project_id) && t.deleted_at.is_none() {
                st.total = st.total + 1;
                if t.status == completed {
                    st.completed = st.completed + 1;
                } else {
                    match &t.due_date {
                        Some(d) => {
                            let dc = chars_of(d.as_str());
                            if !lex_le_exec(&td, &dc) {
                                st.overdue = st.overdue + 1;
                            }
                        },
                        None => {},
                    }
                }
            }
            i = i + 1;
        }
        st
    }

    /// Applies the present fields of `updates` to task `id` in one write at
    /// time `now`.
    pub fn update_task(&mut self, id: i64, updates: TaskUpdate, now: String)
        requires
            old(self).wf(),
        ensures
            final(self).wf(),
            final(self).projects() == old(self).projects(),
            final(self).tasks().len() == old(self).tasks().len(),
            forall|i: int|
                0 <= i < old(self).tasks().len() ==> #[trigger] final(self).tasks()[i] == if old(self).tasks()[i].id
                    == Some(id) {
                    task_updated(old(self).tasks()[i], updates, now)
                } else {
                    old(self).tasks()[i]
                },
    {
        let mut k: usize = 0;
        while k < self.tasks.len() && self.tasks[k].id != Some(id)
            invariant
                k <= self.tasks@.len(),
                forall|j: int| 0 <= j < k ==> self.tasks@[j].id != Some(id),
            decreases self.tasks@.len() - k,
        {
            k = k + 1;
        }
        if k == self.tasks.len() {
            return;
        }
        let ghost t0 = self.tasks@;
        let ghost u = updates;
        let touched = updates.title.is_some() || updates.description.is_some() || updates.status.is_some()
            || updates.priority.is_some() || updates.due_date.is_some() || updates.completed_at.is_some()
            || updates.project_id.is_some();
        let t = &self.tasks[k];
        let nt = Task {
            id: t.id,
            title: match updates.title {
                Some(x) => x,
                None => t.title.clone(),
            },
            description: if updates.description.is_some() { updates.description } else { copy_opt(&t.description) },
            status: match updates.status {
                Some(x) => x,
                None => t.status.clone(),
            },
            priority: match updates.priority {
                Some(x) => x,
                None => t.priority.clone(),
            },
            due_date: match updates.due_date {
                Some(x) => date_value_exec(x),
                None => copy_opt(&t.due_date),
            },
            completed_at: match updates.completed_at {
                Some(x) => date_value_exec(x),
                None => copy_opt(&t.completed_at),
            },
            project_id: if updates.project_id.is_some() { updates.project_id } else { t.project_id },
            created_at: t.created_at.clone(),
            updated_at: if touched { now } else { t.updated_at.clone() },
            deleted_at: copy_opt(&t.deleted_at),
        };
        self.tasks.set(k, nt);
        proof {
            assert forall|i: int| 0 <= i < t0.len() && i != k implies t0[i].id != Some(id) by {
                if i > k {
                    assert(t0[k as int].id != t0[i].id);
                }
            }
            let ts = self.tasks@;
            assert forall|a: int, b: int| 0 <= a < b < ts.len() implies ts[a].id != ts[b].id by {
                assert(ts[a].id == t0[a].id && ts[b].id == t0[b].id);
            }
            assert forall|a: int| 0 <= a < ts.len() implies id_below(#[trigger] ts[a].id, self.next_id) by {
                assert(ts[a].id == t0[a].id);
            }
        }
    }

    /// The live tasks that answer `q`, in store order.
    pub fn select_tasks(&self, q: &TaskQuery) -> (r: Vec<Task>)
        ensures
            forall|t: Task| #[trigger] r@.contains(t) <==> self.tasks().contains(t) && query_matches(t, *q),
    {
        let mut out: Vec<Task> = Vec::new();
        let mut i: usize = 0;
        while i < self.tasks.len()
            invariant
                i <= self.tasks@.len(),
                forall|t: Task| #[trigger] out@.contains(t) <==> (exists|j: int| 0 <= j < i && self.tasks@[j] == t) && query_matches(t, *q),
            decreases self.tasks@.len() - i,
        {
            let t = &self.tasks[i];
            let hit = t.deleted_at.is_none() && match q {
                TaskQuery::Status(st) => t.status == *st,
                TaskQuery::Project(p) => t.project_id == Some(*p),
                TaskQuery::DueBetween(lo, hi) => (lo.is_none() && hi.is_none()) || match &t.due_date {
                    Some(d) => {
                        let dc = chars_of(d.as_str());
                        let ok_lo = match lo {
                            Some(l) => {
                                let lc = chars_of(l.as_str());
                                lex_le_exec(&lc, &dc)
                            },
                            None => true,
                        };
                        let ok_hi = match hi {
                            Some(h) => {
                                let hc = chars_of(h.as_str());
                                lex_le_exec(&dc, &hc)
                            },
                            None => true,
                        };
                        ok_lo && ok_hi
                    },
                    None => false,
                },
                TaskQuery::Text(x) => {
                    let xc = chars_of(x.as_str());
                    let tc = chars_of(t.title.as_str());
                    contains_chars(&tc, &xc) || match &t.description {
                        Some(dd) => {
                            let dc = chars_of(dd.as_str());
                            contains_chars(&dc, &xc)
                        },
                        None => false,
                    }
                },
            };
            let ghost before = out@;
            if hit {
                out.push(copy_task(t));
            }
            proof {
                assert(hit == query_matches(*t, *q));
                assert forall|x: Task| #[trigger] out@.contains(x) <==> (exists|j: int| 0 <= j < i + 1 && self.tasks@[j] == x) && query_matches(x, *q) by {
                    if out@.contains(x) {
                        let a = choose|a: int| 0 <= a < out@.len() && out@[a] == x;
                        if a < before.len() {
                            assert(before[a] == x);
                            assert(before.contains(x));
                            let j = choose|j: int| 0 <= j < i && self.tasks@[j] == x;
                            assert(0 <= j < i + 1 && self.tasks@[j] == x);
                        } else {
                            assert(self.tasks@[i as int] == x);
                        }
                    }
                    if (exists|j: int| 0 <= j < i + 1 && self.tasks@[j] == x) && query_matches(x, *q) {
                        let j = choose|j: int| 0 <= j < i + 1 && self.tasks@[j] == x;
                        if j < i {
                            assert(before.contains(x));
                            let a = choose|a: int| 0 <= a < before.len() && before[a] == x;
                            assert(out@[a] == x);
                        } else {
                            assert(out@[before.len() as int] == x);
                        }
                    }
                }
            }
            i = i + 1;
        }
        proof {
            assert forall|t: Task| #[trigger] out@.contains(t) <==> self.tasks@.contains(t) && query_matches(t, *q) by {
                if self.tasks@.contains(t) {
                    let j = choose|j: int| 0 <= j < self.tasks@.len() && self.tasks@[j] == t;
                }
            }
        }
        out
    }

    /// The live tasks with status `status`.
    pub fn get_tasks_by_status(&self, status: String) -> (r: Vec<Task>)
        ensures
            forall|t: Task| #[trigger] r@.contains(t) <==> self.tasks().contains(t) && query_matches(t, TaskQuery::Status(status)),
    {
        self.select_tasks(&TaskQuery::Status(status))
    }

    /// The live tasks of project `project_id`.
    pub fn get_tasks_by_project(&self, project_id: i64) -> (r: Vec<Task>)
        ensures
            forall|t: Task| #[trigger] r@.contains(t) <==> self.tasks().contains(t) && query_matches(t, TaskQuery::Project(project_id)),
    {
        self.select_tasks(&TaskQuery::Project(project_id))
    }

    /// The live tasks due from `start` through `end`, each bound when given
    /// (all live tasks when neither is), earliest due date first.
    pub fn get_tasks_by_date_range(&self, start: Option<String>, end: Option<String>) -> (r: Vec<Task>)
        ensures
            due_sorted(r@),
            forall|t: Task| #[trigger] r@.contains(t) <==> self.tasks().contains(t) && query_matches(t, TaskQuery::DueBetween(start, end)),
    {
        let picked = self.select_tasks(&TaskQuery::DueBetween(start, end));
        sort_tasks_by_due(&picked)
    }

    /// The live tasks whose title or description holds `query`.
    pub fn search_tasks(&self, query: String) -> (r: Vec<Task>)
        ensures
            forall|t: Task| #[trigger] r@.contains(t) <==> self.tasks().contains(t) && query_matches(t, TaskQuery::Text(query)),
    {
        self.select_tasks(&TaskQuery::Text(query))
    }

    /// The project `id`, if present.
    pub fn get_task_project_by_id(&self, id: i64) -> (r: Option<TaskProject>)
        ensures
            r is Some <==> exists|j: int| 0 <= j < self.projects().len() && self.projects()[j].id == Some(id),
            r matches Some(p) ==> p.id == Some(id) && self.projects().contains(p),
    {
        let mut k: usize = 0;
        while k < self.projects.len() && self.projects[k].id != Some(id)
            invariant
                k <= self.projects@.len(),
                forall|j: int| 0 <= j < k ==> self.projects@[j].id != Some(id),
            decreases self.projects@.len() - k,
        {
            k = k + 1;
        }
        if k == self.projects.len() {
            return None;
        }
        let p = &self.projects[k];
        let out = TaskProject {
            id: p.id,
            name: p.name.clone(),
            icon: p.icon.clone(),
            color: copy_opt(&p.color),
            description: copy_opt(&p.description),
            created_at: p.created_at.clone(),
            updated_at: p.updated_at.clone(),
        };
        assert(self.projects@[k as int] == out);
        Some(out)
    }

    /// Deletes project `id`; its tasks stay, without a project.
    pub fn delete_task_project(&mut self, id: i64)
        requires
            old(self).wf(),
        ensures
            final(self).wf(),
            forall|p: TaskProject| #[trigger] final(self).projects().contains(p) <==> old(self).projects().contains(p) && p.id != Some(id),
            final(self).tasks().len() == old(self).tasks().len(),
            forall|i: int|
                0 <= i < old(self).tasks().len() ==> #[trigger] final(self).tasks()[i] == if old(self).tasks()[i].project_id == Some(id) {
                    Task { project_id: None, ..old(self).tasks()[i] }
                } else {
                    old(self).tasks()[i]
                },
    {
        let ghost t0 = self.tasks@;
        let ghost p0 = self.projects@;
        let mut ts: Vec<Task> = Vec::new();
        let mut i: usize = 0;
        while i < self.tasks.len()
            invariant
                i <= t0.len(),
                self.tasks@ == t0,
                ts@.len() == i,
                forall|a: int| 0 <= a < i ==> #[trigger] ts@[a] == if t0[a].project_id == Some(id) {
                    Task { project_id: None, ..t0[a] }
                } else {
                    t0[a]
                },
            decreases t0.len() - i,
        {
            let mut t = copy_task(&self.tasks[i]);
            if t.project_id == Some(id) {
                t.project_id = None;
            }
            ts.push(t);
            i = i + 1;
        }
        let mut k: usize = 0;
        while k < self.projects.len() && self.projects[k].id != Some(id)
            invariant
                k <= self.projects@.len(),
                self.projects@ == p0,
                forall|j: int| 0 <= j < k ==> p0[j].id != Some(id),
            decreases self.projects@.len() - k,
        {
            k = k + 1;
        }
        if k < self.projects.len() {
            self.projects.remove(k);
        }
        self.tasks = ts;
        proof {
            let ps = self.projects@;
            let ns = self.tasks@;
            assert forall|a: int, b: int| 0 <= a < b < ns.len() implies ns[a].id != ns[b].id by {
                assert(ns[a].id == t0[a].id && ns[b].id == t0[b].id);
            }
            assert forall|a: int| 0 <= a < ns.len() implies id_below(#[trigger] ns[a].id, self.next_id) by {
                assert(ns[a].id == t0[a].id);
            }
            if k < p0.len() {
                assert(ps == p0.remove(k as int));
                assert forall|a: int| 0 <= a < p0.len() && a != k implies p0[a].id != Some(id) by {
                    if a > k { assert(p0[k as int].id != p0[a].id); }
                }
            } else {
                assert(ps == p0);
            }
            assert forall|a: int, b: int| 0 <= a < b < ps.len() implies ps[a].id != ps[b].id by {
                if k < p0.len() {
                    let a0 = if a < k { a } else { a + 1 };
                    let b0 = if b < k { b } else { b + 1 };
                    assert(ps[a] == p0[a0] && ps[b] == p0[b0]);
                }
            }
            assert forall|a: int| 0 <= a < ps.len() implies id_below(#[trigger] ps[a].id, self.next_project_id) by {
                if k < p0.len() {
                    let a0 = if a < k { a } else { a + 1 };
                    assert(ps[a] == p0[a0]);
                }
            }
            assert forall|p: TaskProject| #[trigger] ps.contains(p) <==> p0.contains(p) && p.id != Some(id) by {
                if ps.contains(p) {
                    let a = choose|a: int| 0 <= a < ps.len() && ps[a] == p;
                    if k < p0.len() {
                        let a0 = if a < k { a } else { a + 1 };
                        assert(ps[a] == p0[a0]);
                    }
                }
                if p0.contains(p) && p.id != Some(id) {
                    let q = choose|q: int| 0 <= q < p0.len() && p0[q] == p;
                    if k < p0.len() {
                        if q < k { assert(ps[q] == p); } else { assert(q != k); assert(ps[q - 1] == p); }
                    } else {
                        assert(ps[q] == p);
                    }
                }
            }
        }
    }

    /// Applies the present fields to project `id`.
    pub fn update_task_project(
        &mut self,
        id: i64,
        name: Option<String>,
        icon: Option<String>,
        color: Option<String>,
        description: Option<String>,
    )
        requires
            old(self).wf(),
        ensures
            final(self).wf(),
            final(self).tasks() == old(self).tasks(),
            final(self).projects().len() == old(self).projects().len(),
            forall|i: int|
                0 <= i < old(self).projects().len() ==> #[trigger] final(self).projects()[i] == if old(self).projects()[i].id == Some(id) {
                    TaskProject {
                        name: if name is Some { name->0 } else { old(self).projects()[i].name },
                        icon: if icon is Some { icon->0 } else { old(self).projects()[i].icon },
                        color: if color is Some { color } else { old(self).projects()[i].color },
                        description: if description is Some { description } else { old(self).projects()[i].description },
                        ..old(self).projects()[i]
                    }
                } else {
                    old(self).projects()[i]
                },
    {
        let mut k: usize = 0;
        while k < self.projects.len() && self.projects[k].id != Some(id)
            invariant
                k <= self.projects@.len(),
                forall|j: int| 0 <= j < k ==> self.projects@[j].id != Some(id),
            decreases self.projects@.len() - k,
        {
            k = k + 1;
        }
        if k == self.projects.len() {
            return;
        }
        let ghost p0 = self.projects@;
        let p = &self.projects[k];
        let np = TaskProject {
            id: p.id,
            name: match name {
                Some(x) => x,
                None => p.name.clone(),
            },
            icon: match icon {
                Some(x) => x,
                None => p.icon.clone(),
            },
            color: if color.is_some() { color } else { copy_opt(&p.color) },
            description: if description.is_some() { description } else { copy_opt(&p.description) },
            created_at: p.created_at.clone(),
            updated_at: p.updated_at.clone(),
        };
        self.projects.set(k, np);
        proof {
            let ps = self.projects@;
            assert forall|a: int| 0 <= a < p0.len() && a != k implies p0[a].id != Some(id) by {
                if a > k { assert(p0[k as int].id != p0[a].id); }
            }
            assert forall|a: int, b: int| 0 <= a < b < ps.len() implies ps[a].id != ps[b].id by {
                assert(ps[a].id == p0[a].id && ps[b].id == p0[b].id);
            }
            assert forall|a: int| 0 <= a < ps.len() implies id_below(#[trigger] ps[a].id, self.next_project_id) by {
                assert(ps[a].id == p0[a].id);
            }
        }
    }
}

} // verus!
