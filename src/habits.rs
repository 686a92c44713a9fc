//! Habits and their daily completion records, at most one record per habit
//! and calendar date.
use vstd::prelude::*;
use crate::chars::{copy_opt, id_below, opt_str_view};
use crate::error::StoreError;

verus! {

/// A habit to keep.
pub struct Habit {
    pub id: Option<i64>,
    pub name: String,
    pub description: Option<String>,
    pub icon: String,
    pub color: String,
    /// `daily`, `weekly` or `monthly`.
    pub frequency: String,
    pub target_count: i64,
    pub is_active: bool,
    pub created_at: String,
    pub updated_at: String,
}

/// The completion of a habit on one date (`YYYY-MM-DD`).
pub struct HabitRecord {
    pub id: Option<i64>,
    pub habit_id: i64,
    pub date: String,
    pub completed_count: i64,
    pub notes: Option<String>,
    pub created_at: String,
    pub updated_at: String,
}

/// Figures about one habit.
pub struct HabitStats {
    pub total_days: i64,
    pub completed_days: u64,
    /// 1 when today has a record, else 0.
    pub current_streak: i64,
    /// Equal to the current streak.
    pub longest_streak: i64,
    /// Completed days per hundred total days, at most 100.
    pub completion_percent: i64,
}

/// Habits and records, with the next identities to hand out.
pub struct HabitStore {
    habits: Vec<Habit>,
    records: Vec<HabitRecord>,
    next_habit_id: i64,
    next_record_id: i64,
}

pub open spec fn has_habit(hs: Seq<Habit>, id: i64) -> bool {
    exists|j: int| 0 <= j < hs.len() && hs[j].id == Some(id)
}

pub open spec fn has_record_for(rs: Seq<HabitRecord>, habit_id: i64, date: Seq<char>) -> bool {
    exists|j: int| 0 <= j < rs.len() && rs[j].habit_id == habit_id && rs[j].date@ == date
}

/// `a` comes no later than `b` in lexicographic order.
pub open spec fn lex_le(a: Seq<char>, b: Seq<char>) -> bool
    decreases a.len(),
{
    if a.len() == 0 {
        true
    } else if b.len() == 0 {
        false
    } else if a[0] != b[0] {
        a[0] < b[0]
    } else {
        lex_le(a.skip(1), b.skip(1))
    }
}

pub(crate) proof fn lemma_lex_total(a: Seq<char>, b: Seq<char>)
    ensures
        lex_le(a, b) || lex_le(b, a),
    decreases a.len(),
{
    if a.len() > 0 && b.len() > 0 && a[0] == b[0] {
        lemma_lex_total(a.skip(1), b.skip(1));
    }
}

pub(crate) proof fn lemma_lex_trans(a: Seq<char>, b: Seq<char>, c: Seq<char>)
    requires
        lex_le(a, b),
        lex_le(b, c),
    ensures
        lex_le(a, c),
    decreases a.len(),
{
    if a.len() > 0 && b.len() > 0 && c.len() > 0 && a[0] == b[0] && b[0] == c[0] {
        lemma_lex_trans(a.skip(1), b.skip(1), c.skip(1));
    }
}

pub(crate) fn lex_le_exec(a: &Vec<char>, b: &Vec<char>) -> (r: bool)
    ensures
        r == lex_le(a@, b@),
{
    let mut i: usize = 0;
    assert(a@.skip(0) =~= a@);
    assert(b@.skip(0) =~= b@);
    while i < a.len() && i < b.len() && a[i] == b[i]
        invariant
            i <= a@.len(),
            i <= b@.len(),
            lex_le(a@, b@) == lex_le(a@.skip(i as int), b@.skip(i as int)),
        decreases a@.len() - i,
    {
        assert(a@.skip(i as int).skip(1) =~= a@.skip(i + 1));
        assert(b@.skip(i as int).skip(1) =~= b@.skip(i + 1));
        i = i + 1;
    }
    if i == a.len() {
        true
    } else if i == b.len() {
        false
    } else {
        a[i] < b[i]
    }
}

fn copy_habit(h: &Habit) -> (r: Habit)
    ensures
        r == *h,
{
    Habit {
        id: h.id,
        name: h.name.clone(),
        description: copy_opt(&h.description),
        icon: h.icon.clone(),
        color: h.color.clone(),
        frequency: h.frequency.clone(),
        target_count: h.target_count,
        is_active: h.is_active,
        created_at: h.created_at.clone(),
        updated_at: h.updated_at.clone(),
    }
}

fn copy_record(r0: &HabitRecord) -> (r: HabitRecord)
    ensures
        r == *r0,
{
    HabitRecord {
        id: r0.id,
        habit_id: r0.habit_id,
        date: r0.date.clone(),
        completed_count: r0.completed_count,
        notes: copy_opt(&r0.notes),
        created_at: r0.created_at.clone(),
        updated_at: r0.updated_at.clone(),
    }
}

/// `rs` is ordered by date, latest first.
pub open spec fn latest_first(rs: Seq<HabitRecord>) -> bool {
    forall|a: int, b: int| 0 <= a < b < rs.len() ==> lex_le(rs[b].date@, rs[a].date@)
}

/// The records of `v`, latest date first; records of equal date keep their order.
pub fn sort_records(v: &Vec<HabitRecord>) -> (r: Vec<HabitRecord>)
    ensures
        latest_first(r@),
        r@.len() == v@.len(),
        forall|x: HabitRecord| #[trigger] r@.contains(x) <==> v@.contains(x),
{
    let mut out: Vec<HabitRecord> = Vec::new();
    let mut i: usize = 0;
    while i < v.len()
        invariant
            i <= v@.len(),
            out@.len() == i,
            latest_first(out@),
            forall|x: HabitRecord| #[trigger] out@.contains(x) <==> exists|q: int| 0 <= q < i && v@[q] == x,
        decreases v@.len() - i,
    {
        let x = copy_record(&v[i]);
        let xd = crate::chars::chars_of(x.date.as_str());
        let mut pos: usize = 0;
        while pos < out.len() && lex_le_exec(&xd, &crate::chars::chars_of(out[pos].date.as_str()))
            invariant
                pos <= out@.len(),
                xd@ == x.date@,
                forall|a: int| 0 <= a < pos ==> lex_le(x.date@, out@[a].date@),
            decreases out@.len() - pos,
        {
            pos = pos + 1;
        }
        let ghost before = out@;
        out.insert(pos, x);
        proof {
            assert(out@ == before.insert(pos as int, x));
            if pos < before.len() {
                lemma_lex_total(x.date@, before[pos as int].date@);
            }
            assert forall|a: int, b: int| 0 <= a < b < out@.len() implies lex_le(out@[b].date@, out@[a].date@) by {
                if a < pos && b == pos {
                } else if a < pos && b > pos {
                    assert(out@[b] == before[b - 1]);
                } else if a == pos && b > pos {
                    assert(out@[b] == before[b - 1]);
                    if b - 1 > pos {
                        lemma_lex_trans(before[b - 1].date@, before[pos as int].date@, x.date@);
                    }
                } else if a > pos {
                    assert(out@[a] == before[a - 1]);
                    assert(out@[b] == before[b - 1]);
                }
            }
            assert forall|t: HabitRecord| #[trigger] out@.contains(t) <==> exists|q: int| 0 <= q < i + 1 && v@[q] == t by {
                if out@.contains(t) {
                    let a = choose|a: int| 0 <= a < out@.len() && out@[a] == t;
                    if a < pos {
                        assert(before[a] == t);
                    } else if a > pos {
                        assert(before[a - 1] == t);
                    }
                    if a != pos {
                        assert(before.contains(t));
                        let q = choose|q: int| 0 <= q < i && v@[q] == t;
                        assert(0 <= q < i + 1 && v@[q] == t);
                    } else {
                        assert(v@[i as int] == t);
                    }
                }
                if exists|q: int| 0 <= q < i + 1 && v@[q] == t {
                    let q = choose|q: int| 0 <= q < i + 1 && v@[q] == t;
                    if q < i {
                        assert(exists|q2: int| 0 <= q2 < i && v@[q2] == t);
                        assert(before.contains(t));
                        let a = choose|a: int| 0 <= a < before.len() && before[a] == t;
                        if a < pos {
                            assert(out@[a] == t);
                        } else {
                            assert(out@[a + 1] == t);
                        }
                    } else {
                        assert(out@[pos as int] == t);
                    }
                }
            }
        }
        i = i + 1;
    }
    assert forall|t: HabitRecord| #[trigger] out@.contains(t) <==> v@.contains(t) by {
        if v@.contains(t) {
            let q = choose|q: int| 0 <= q < v@.len() && v@[q] == t;
        }
    }
    out
}

/// The record `r` passes the filters of a records query.
pub open spec fn record_selected(r: HabitRecord, habit_id: Option<i64>, start: Option<Seq<char>>, end: Option<Seq<char>>) -> bool {
    &&& (habit_id matches Some(h) ==> r.habit_id == h)
    &&& (start matches Some(s) ==> lex_le(s, r.date@))
    &&& (end matches Some(e) ==> lex_le(r.date@, e))
}

/// The number of records among the first `n` of `rs` that belong to `h`.
pub open spec fn records_of(rs: Seq<HabitRecord>, h: i64, n: int) -> nat
    decreases n,
{
    if n <= 0 {
        0
    } else {
        records_of(rs, h, n - 1) + if rs[n - 1].habit_id == h { 1nat } else { 0nat }
    }
}

impl HabitStore {
    pub closed spec fn habits(&self) -> Seq<Habit> {
        self.habits@
    }

    pub closed spec fn records(&self) -> Seq<HabitRecord> {
        self.records@
    }

    /// The identity the next habit gets.
    pub closed spec fn next_habit_id(&self) -> i64 {
        self.next_habit_id
    }

    /// The identity the next record gets.
    pub closed spec fn next_record_id(&self) -> i64 {
        self.next_record_id
    }

    /// Habits have distinct identities below the next one; every record
    /// belongs to a stored habit, has an identity below the next one, and no
    /// two records share a habit and a date.
    pub closed spec fn wf(&self) -> bool {
        &&& self.next_habit_id >= 1
        &&& self.next_record_id >= 1
        &&& forall|i: int|
            0 <= i < self.habits@.len() ==> id_below(#[trigger] self.habits@[i].id, self.next_habit_id)
        &&& forall|i: int, j: int| 0 <= i < j < self.habits@.len() ==> self.habits@[i].id != self.habits@[j].id
        &&& forall|i: int|
            0 <= i < self.records@.len() ==> id_below(#[trigger] self.records@[i].id, self.next_record_id)
        &&& forall|i: int, j: int| 0 <= i < j < self.records@.len() ==> self.records@[i].id != self.records@[j].id
        &&& forall|i: int| 0 <= i < self.records@.len() ==> has_habit(self.habits@, (#[trigger] self.records@[i]).habit_id)
        &&& forall|i: int, j: int|
            0 <= i < j < self.records@.len() ==> !(self.records@[i].habit_id == self.records@[j].habit_id
                && self.records@[i].date@ == self.records@[j].date@)
    }

    /// An empty store.
    pub fn new() -> (r: HabitStore)
        ensures
            r.wf(),
            r.habits().len() == 0,
            r.records().len() == 0,
    {
        HabitStore { habits: Vec::new(), records: Vec::new(), next_habit_id: 1, next_record_id: 1 }
    }

    fn find_habit(&self, id: i64) -> (r: Option<usize>)
        ensures
            r is None <==> !has_habit(self.habits@, id),
            r matches Some(k) ==> k < self.habits@.len() && self.habits@[k as int].id == Some(id),
    {
        let mut k: usize = 0;
        while k < self.habits.len()
            invariant
                k <= self.habits@.len(),
                forall|j: int| 0 <= j < k ==> self.habits@[j].id != Some(id),
            decreases self.habits@.len() - k,
        {
            if self.habits[k].id == Some(id) {
                return Some(k);
            }
            k = k + 1;
        }
        None
    }

    /// Adds a habit at time `now` and returns its new identity.
    pub fn create_habit(
        &mut self,
        name: String,
        description: Option<String>,
        icon: String,
        color: String,
        frequency: String,
        target_count: i64,
        now: String,
    ) -> (r: Result<i64, StoreError>)
        requires
            old(self).wf(),
        ensures
            r is Ok <==> old(self).next_habit_id() < i64::MAX,
            final(self).wf(),
            r is Err ==> *final(self) == *old(self),
            r matches Ok(id) ==> {
                &&& !has_habit(old(self).habits(), id)
                &&& final(self).records() == old(self).records()
                &&& final(self).habits().drop_last() == old(self).habits()
                &&& final(self).habits().len() == old(self).habits().len() + 1
                &&& final(self).habits().last() == (Habit {
                    id: Some(id),
                    name: name,
                    description: description,
                    icon: icon,
                    color: color,
                    frequency: frequency,
                    target_count: target_count,
                    is_active: true,
                    created_at: now,
                    updated_at: now,
                })
            },
    {
        if self.next_habit_id == i64::MAX {
            return Err(StoreError::IdsExhausted);
        }
        let id = self.next_habit_id;
        let h = Habit {
            id: Some(id),
            name,
            description,
            icon,
            color,
            frequency,
            target_count,
            is_active: true,
            created_at: now.clone(),
            updated_at: now,
        };
        let ghost h0 = self.habits@;
        self.habits.push(h);
        self.next_habit_id = id + 1;
        proof {
            assert(self.habits@.drop_last() =~= h0);
            assert forall|i: int| 0 <= i < self.records@.len() implies has_habit(self.habits@, (#[trigger] self.records@[i]).habit_id) by {
                let j = choose|j: int| 0 <= j < h0.len() && h0[j].id == Some(self.records@[i].habit_id);
                assert(self.habits@[j] == h0[j]);
            }
            assert(!has_habit(h0, id)) by {
                if has_habit(h0, id) {
                    let j = choose|j: int| 0 <= j < h0.len() && h0[j].id == Some(id);
                    assert(id_below(h0[j].id, id));
                }
            }
        }
        Ok(id)
    }

    /// The habits in store order.
    pub fn get_habits(&self) -> (r: Vec<Habit>)
        ensures
            r@ == self.habits(),
    {
        let mut out: Vec<Habit> = Vec::new();
        let mut i: usize = 0;
        while i < self.habits.len()
            invariant
                i <= self.habits@.len(),
                out@ == self.habits@.subrange(0, i as int),
            decreases self.habits@.len() - i,
        {
            out.push(copy_habit(&self.habits[i]));
            i = i + 1;
            assert(self.habits@.subrange(0, i as int) =~= self.habits@.subrange(0, i - 1).push(self.habits@[i - 1]));
        }
        assert(self.habits@.subrange(0, i as int) =~= self.habits@);
        out
    }

    /// The habit `id`, if present.
    pub fn get_habit_by_id(&self, id: i64) -> (r: Option<Habit>)
        ensures
            r is Some <==> has_habit(self.habits(), id),
            r matches Some(h) ==> h.id == Some(id) && self.habits().contains(h),
    {
        match self.find_habit(id) {
            Some(k) => {
                let h = copy_habit(&self.habits[k]);
                assert(self.habits@[k as int] == h);
                Some(h)
            },
            None => None,
        }
    }

    fn find_record(&self, habit_id: i64, date: &str) -> (r: Option<usize>)
        ensures
            r is None <==> !has_record_for(self.records@, habit_id, date@),
            r matches Some(k) ==> k < self.records@.len() && self.records@[k as int].habit_id == habit_id
                && self.records@[k as int].date@ == date@,
    {
        let d = date.to_owned();
        let mut k: usize = 0;
        while k < self.records.len()
            invariant
                k <= self.records@.len(),
                d@ == date@,
                forall|j: int| 0 <= j < k ==> !(self.records@[j].habit_id == habit_id && self.records@[j].date@ == date@),
            decreases self.records@.len() - k,
        {
            if self.records[k].habit_id == habit_id && self.records[k].date == d {
                return Some(k);
            }
            k = k + 1;
        }
        None
    }

    proof fn lemma_remove_keeps(&self, k: int)
        requires
            self.wf(),
            0 <= k < self.records@.len(),
        ensures
            forall|i: int, j: int|
                0 <= i < j < self.records@.remove(k).len() ==> !(self.records@.remove(k)[i].habit_id
                    == self.records@.remove(k)[j].habit_id && self.records@.remove(k)[i].date@
                    == self.records@.remove(k)[j].date@) && self.records@.remove(k)[i].id
                    != self.records@.remove(k)[j].id,
            forall|i: int| 0 <= i < self.records@.remove(k).len() ==> self.records@.contains(#[trigger] self.records@.remove(k)[i]),
    {
        let rs = self.records@;
        let ns = rs.remove(k);
        assert forall|i: int, j: int| 0 <= i < j < ns.len() implies !(ns[i].habit_id == ns[j].habit_id && ns[i].date@ == ns[j].date@) && ns[i].id != ns[j].id by {
            let i0 = if i < k { i } else { i + 1 };
            let j0 = if j < k { j } else { j + 1 };
            assert(ns[i] == rs[i0]);
            assert(ns[j] == rs[j0]);
        }
        assert forall|i: int| 0 <= i < ns.len() implies rs.contains(#[trigger] ns[i]) by {
            let i0 = if i < k { i } else { i + 1 };
            assert(ns[i] == rs[i0]);
        }
    }

    /// Records the completion of habit `habit_id` on `date` at time `now`,
    /// replacing the record of that habit and date if there is one; returns
    /// the new record's identity.
    pub fn record_habit_completion(
        &mut self,
        habit_id: i64,
        date: &str,
        completed_count: i64,
        notes: Option<String>,
        now: String,
    ) -> (r: Result<i64, StoreError>)
        requires
            old(self).wf(),
        ensures
            has_habit(old(self).habits(), habit_id) ==> (r is Ok <==> old(self).next_record_id() < i64::MAX),
            final(self).wf(),
            !has_habit(old(self).habits(), habit_id) ==> r == Err::<i64, StoreError>(StoreError::OwnerNotFound),
            r is Err ==> *final(self) == *old(self),
            r matches Ok(id) ==> {
                let rec = final(self).records().last();
                &&& final(self).records().len() >= 1
                &&& final(self).habits() == old(self).habits()
                &&& rec.id == Some(id) && rec.habit_id == habit_id && rec.date@ == date@
                &&& rec.completed_count == completed_count && rec.notes == notes
                &&& rec.created_at == now && rec.updated_at == now
                &&& if has_record_for(old(self).records(), habit_id, date@) {
                    exists|k: int|
                        0 <= k < old(self).records().len() && old(self).records()[k].habit_id == habit_id
                            && old(self).records()[k].date@ == date@ && final(self).records().drop_last()
                            == old(self).records().remove(k)
                } else {
                    final(self).records().drop_last() == old(self).records()
                }
            },
    {
        if self.find_habit(habit_id).is_none() {
            return Err(StoreError::OwnerNotFound);
        }
        if self.next_record_id == i64::MAX {
            return Err(StoreError::IdsExhausted);
        }
        let ghost r0 = self.records@;
        let found = self.find_record(habit_id, date);
        match found {
            Some(k) => {
                proof {
                    self.lemma_remove_keeps(k as int);
                }
                self.records.remove(k);
            },
            None => {},
        }
        let ghost r1 = self.records@;
        let id = self.next_record_id;
        let rec = HabitRecord {
            id: Some(id),
            habit_id,
            date: date.to_owned(),
            completed_count,
            notes,
            created_at: now.clone(),
            updated_at: now,
        };
        self.records.push(rec);
        self.next_record_id = id + 1;
        proof {
            let rs = self.records@;
            assert(rs.drop_last() =~= r1);
            assert forall|a: int| 0 <= a < r1.len() implies r0.contains(#[trigger] r1[a]) by {
                if let Some(k) = found {
                    assert(r1 == r0.remove(k as int));
                } else {
                    assert(r0.contains(r0[a]));
                }
            }
            assert forall|a: int| 0 <= a < rs.len() implies id_below(#[trigger] rs[a].id, self.next_record_id) by {
                if a < r1.len() {
                    assert(rs[a] == r1[a]);
                    let q = choose|q: int| 0 <= q < r0.len() && r0[q] == r1[a];
                }
            }
            assert forall|a: int| 0 <= a < rs.len() implies has_habit(self.habits@, (#[trigger] rs[a]).habit_id) by {
                if a < r1.len() {
                    assert(rs[a] == r1[a]);
                    let q = choose|q: int| 0 <= q < r0.len() && r0[q] == r1[a];
                }
            }
            assert forall|a: int, c: int| 0 <= a < c < rs.len() implies !(rs[a].habit_id == rs[c].habit_id && rs[a].date@ == rs[c].date@) && rs[a].id != rs[c].id by {
                assert(rs[a] == r1[a]);
                if found is None {
                    assert(r1 == r0);
                }
                if c == rs.len() - 1 {
                    let q = choose|q: int| 0 <= q < r0.len() && r0[q] == r1[a];
                    assert(id_below(r0[q].id, id));
                    if let Some(k) = found {
                        if rs[a].habit_id == habit_id && rs[a].date@ == date@ {
                            assert(q != k as int);
                            if q < k {
                                assert(!(r0[q].habit_id == r0[k as int].habit_id && r0[q].date@ == r0[k as int].date@));
                            } else {
                                assert(!(r0[k as int].habit_id == r0[q].habit_id && r0[k as int].date@ == r0[q].date@));
                            }
                        }
                    } else {
                        assert(!has_record_for(r0, habit_id, date@));
                    }
                } else {
                    assert(rs[c] == r1[c]);
                }
            }
        }
        Ok(id)
    }

    /// Deletes the record of habit `habit_id` on `date`, if any.
    pub fn delete_habit_record_by_habit_date(&mut self, habit_id: i64, date: &str)
        requires
            old(self).wf(),
        ensures
            final(self).wf(),
            final(self).habits() == old(self).habits(),
            !has_record_for(final(self).records(), habit_id, date@),
            forall|x: HabitRecord| #[trigger] final(self).records().contains(x) <==> old(self).records().contains(x) && !(
                x.habit_id == habit_id && x.date@ == date@),
    {
        let ghost r0 = self.records@;
        match self.find_record(habit_id, date) {
            Some(k) => {
                proof {
                    self.lemma_remove_keeps(k as int);
                }
                self.records.remove(k);
                proof {
                    let rs = self.records@;
                    assert(rs == r0.remove(k as int));
                    assert forall|x: HabitRecord| #[trigger] rs.contains(x) <==> r0.contains(x) && !(x.habit_id == habit_id && x.date@ == date@) by {
                        if rs.contains(x) {
                            let a = choose|a: int| 0 <= a < rs.len() && rs[a] == x;
                            let a0 = if a < k { a } else { a + 1 };
                            assert(rs[a] == r0[a0]);
                            if x.habit_id == habit_id && x.date@ == date@ {
                                if a0 < k {
                                    assert(!(r0[a0].habit_id == r0[k as int].habit_id && r0[a0].date@ == r0[k as int].date@));
                                } else {
                                    assert(!(r0[k as int].habit_id == r0[a0].habit_id && r0[k as int].date@ == r0[a0].date@));
                                }
                            }
                        }
                        if r0.contains(x) && !(x.habit_id == habit_id && x.date@ == date@) {
                            let q = choose|q: int| 0 <= q < r0.len() && r0[q] == x;
                            if q < k {
                                assert(rs[q] == x);
                            } else {
                                assert(q != k);
                                assert(rs[q - 1] == x);
                            }
                        }
                    }
                    assert forall|a: int| 0 <= a < rs.len() implies id_below(#[trigger] rs[a].id, self.next_record_id) && has_habit(self.habits@, rs[a].habit_id) by {
                        assert(r0.contains(rs[a]));
                        let q = choose|q: int| 0 <= q < r0.len() && r0[q] == rs[a];
                    }
                    assert(!has_record_for(rs, habit_id, date@)) by {
                        if has_record_for(rs, habit_id, date@) {
                            let a = choose|a: int| 0 <= a < rs.len() && rs[a].habit_id == habit_id && rs[a].date@ == date@;
                            assert(rs.contains(rs[a]));
                        }
                    }
                }
            },
            None => {
                assert forall|x: HabitRecord| #[trigger] r0.contains(x) implies !(x.habit_id == habit_id && x.date@ == date@) by {
                    let q = choose|q: int| 0 <= q < r0.len() && r0[q] == x;
                }
            },
        }
    }

    /// Undoes the completion of habit `habit_id` on `date`.
    pub fn undo_habit_completion(&mut self, habit_id: i64, date: &str)
        requires
            old(self).wf(),
        ensures
            final(self).wf(),
            !has_record_for(final(self).records(), habit_id, date@),
    {
        self.delete_habit_record_by_habit_date(habit_id, date)
    }

    /// The records that belong to `habit_id` when given and whose date lies
    /// from `start_date` through `end_date` when given, latest date first.
    pub fn get_habit_records(&self, habit_id: Option<i64>, start_date: Option<&str>, end_date: Option<&str>) -> (r: Vec<HabitRecord>)
        ensures
            latest_first(r@),
            forall|x: HabitRecord| #[trigger] r@.contains(x) <==> self.records().contains(x) && record_selected(
                x,
                habit_id,
                opt_str_view(start_date),
                opt_str_view(end_date),
            ),
    {
        let sv: Option<Vec<char>> = match start_date {
            Some(x) => Some(crate::chars::chars_of(x)),
            None => None,
        };
        let ev: Option<Vec<char>> = match end_date {
            Some(x) => Some(crate::chars::chars_of(x)),
            None => None,
        };
        let ghost (sg, eg) = (opt_str_view(start_date), opt_str_view(end_date));
        let mut out: Vec<HabitRecord> = Vec::new();
        let mut i: usize = 0;
        while i < self.records.len()
            invariant
                i <= self.records@.len(),
                sv matches Some(v) ==> sg == Some(v@),
                sv is None ==> sg is None,
                ev matches Some(v) ==> eg == Some(v@),
                ev is None ==> eg is None,
                sg == opt_str_view(start_date),
                eg == opt_str_view(end_date),
                forall|x: HabitRecord| #[trigger] out@.contains(x) <==> (exists|q: int| 0 <= q < i && self.records@[q] == x) && record_selected(x, habit_id, sg, eg),
            decreases self.records@.len() - i,
        {
            let rec = &self.records[i];
            let d = crate::chars::chars_of(rec.date.as_str());
            let ok_h = match habit_id {
                Some(h) => rec.habit_id == h,
                None => true,
            };
            let ok_s = match &sv {
                Some(v) => lex_le_exec(v, &d),
                None => true,
            };
            let ok_e = match &ev {
                Some(v) => lex_le_exec(&d, v),
                None => true,
            };
            let ghost before = out@;
            if ok_h && ok_s && ok_e {
                out.push(copy_record(rec));
            }
            proof {
                assert((ok_h && ok_s && ok_e) == record_selected(*rec, habit_id, sg, eg));
                assert forall|x: HabitRecord| #[trigger] out@.contains(x) <==> (exists|q: int| 0 <= q < i + 1 && self.records@[q] == x) && record_selected(x, habit_id, sg, eg) by {
                    if out@.contains(x) {
                        let a = choose|a: int| 0 <= a < out@.len() && out@[a] == x;
                        if a < before.len() {
                            assert(before[a] == x);
                            assert(before.contains(x));
                            let q = choose|q: int| 0 <= q < i && self.records@[q] == x;
                            assert(0 <= q < i + 1 && self.records@[q] == x);
                        } else {
                            assert(self.records@[i as int] == x);
                        }
                    }
                    if (exists|q: int| 0 <= q < i + 1 && self.records@[q] == x) && record_selected(x, habit_id, sg, eg) {
                        let q = choose|q: int| 0 <= q < i + 1 && self.records@[q] == x;
                        if q < i {
                            assert(before.contains(x));
                            let a = choose|a: int| 0 <= a < before.len() && before[a] == x;
                            assert(out@[a] == x);
                        } else {
                            assert(out@[before.len() as int] == x);
                        }
                    }
                }
            }
            i = i + 1;
        }
        proof {
            assert forall|x: HabitRecord| #[trigger] out@.contains(x) <==> self.records@.contains(x) && record_selected(x, habit_id, sg, eg) by {
                if self.records@.contains(x) {
                    let q = choose|q: int| 0 <= q < self.records@.len() && self.records@[q] == x;
                }
            }
        }
        sort_records(&out)
    }

    /// Figures about habit `habit_id` on `today`, given the number of days
    /// since it was created: the total days (at least 1), the days with a
    /// record, a streak of 1 when today has a record and 0 otherwise (the
    /// longest streak equals it), and the completed share in percent, at
    /// most 100.
    pub fn get_habit_stats(&self, habit_id: i64, today: &str, days_since_created: i64) -> (r: HabitStats)
        ensures
            r.total_days as int == if days_since_created >= 1 && days_since_created < i64::MAX { days_since_created + 1 } else if days_since_created >= 1 { i64::MAX as int } else { 1 },
            r.completed_days as int == records_of(self.records(), habit_id, self.records().len() as int),
            r.current_streak == if r.completed_days > 0 && has_record_for(self.records(), habit_id, today@) { 1i64 } else { 0i64 },
            r.longest_streak == r.current_streak,
            r.completion_percent as int == if r.completed_days as int * 100 / r.total_days as int > 100 { 100 } else { r.completed_days as int * 100 / r.total_days as int },
    {
        let total_days: i64 = if days_since_created >= 1 {
            if days_since_created < i64::MAX { days_since_created + 1 } else { i64::MAX }
        } else {
            1
        };
        let d = today.to_owned();
        let mut completed: u64 = 0;
        let mut today_done = false;
        let mut i: usize = 0;
        while i < self.records.len()
            invariant
                i <= self.records@.len(),
                d@ == today@,
                completed as int == records_of(self.records@, habit_id, i as int),
                completed as int <= i,
                today_done == exists|j: int| 0 <= j < i && self.records@[j].habit_id == habit_id && self.records@[j].date@ == today@,
            decreases self.records@.len() - i,
        {
            let r = &self.records[i];
            if r.habit_id == habit_id {
                completed = completed + 1;
                if r.date == d {
                    today_done = true;
                }
            }
            i = i + 1;
        }
        let streak: i64 = if completed > 0 && today_done { 1 } else { 0 };
        let pct: i128 = (completed as i128) * 100 / (total_days as i128);
        let percent: i64 = if pct > 100 { 100 } else { pct as i64 };
        HabitStats {
            total_days,
            completed_days: completed,
            current_streak: streak,
            longest_streak: streak,
            completion_percent: percent,
        }
    }

    /// Deletes habit `id` together with its records.
    pub fn delete_habit(&mut self, id: i64)
        requires
            old(self).wf(),
        ensures
            final(self).wf(),
            !has_habit(final(self).habits(), id),
            forall|h: Habit| #[trigger] final(self).habits().contains(h) <==> old(self).habits().contains(h) && h.id != Some(id),
            forall|r: HabitRecord| #[trigger] final(self).records().contains(r) <==> old(self).records().contains(r) && r.habit_id != id,
    {
        let ghost r0 = self.records@;
        let ghost h0 = self.habits@;
        let key = id;
        let mut kr: Vec<HabitRecord> = Vec::new();
        let ghost mut ridx: Seq<int> = seq![];
        let mut i: usize = 0;
        while i < self.records.len()
            invariant
                i <= r0.len(),
                self.records@ == r0,
                key == id,
                ridx.len() == kr@.len(),
                forall|a: int| 0 <= a < ridx.len() ==> 0 <= #[trigger] ridx[a] < i && kr@[a] == r0[ridx[a]],
                forall|a: int, c: int| 0 <= a < c < ridx.len() ==> ridx[a] < ridx[c],
                forall|a: int| 0 <= a < kr@.len() ==> (#[trigger] kr@[a]).habit_id != id,
                forall|q: int| 0 <= q < i && (#[trigger] r0[q]).habit_id != id ==> kr@.contains(r0[q]),
            decreases r0.len() - i,
        {
            if self.records[i].habit_id != key {
                let ghost before = kr@;
                kr.push(copy_record(&self.records[i]));
                proof {
                    ridx = ridx.push(i as int);
                    assert forall|q: int| 0 <= q < i + 1 && (#[trigger] r0[q]).habit_id != id implies kr@.contains(r0[q]) by {
                        if q < i {
                            let a = choose|a: int| 0 <= a < before.len() && before[a] == r0[q];
                            assert(kr@[a] == before[a]);
                        } else {
                            assert(kr@[before.len() as int] == r0[q]);
                        }
                    }
                }
            }
            i = i + 1;
        }
        let mut kh: Vec<Habit> = Vec::new();
        let ghost mut hidx: Seq<int> = seq![];
        let mut i: usize = 0;
        while i < self.habits.len()
            invariant
                i <= h0.len(),
                self.habits@ == h0,
                key == id,
                hidx.len() == kh@.len(),
                forall|a: int| 0 <= a < hidx.len() ==> 0 <= #[trigger] hidx[a] < i && kh@[a] == h0[hidx[a]],
                forall|a: int, c: int| 0 <= a < c < hidx.len() ==> hidx[a] < hidx[c],
                forall|a: int| 0 <= a < kh@.len() ==> (#[trigger] kh@[a]).id != Some(id),
                forall|q: int| 0 <= q < i && (#[trigger] h0[q]).id != Some(id) ==> kh@.contains(h0[q]),
            decreases h0.len() - i,
        {
            if self.habits[i].id != Some(key) {
                let ghost before = kh@;
                kh.push(copy_habit(&self.habits[i]));
                proof {
                    hidx = hidx.push(i as int);
                    assert forall|q: int| 0 <= q < i + 1 && (#[trigger] h0[q]).id != Some(id) implies kh@.contains(h0[q]) by {
                        if q < i {
                            let a = choose|a: int| 0 <= a < before.len() && before[a] == h0[q];
                            assert(kh@[a] == before[a]);
                        } else {
                            assert(kh@[before.len() as int] == h0[q]);
                        }
                    }
                }
            }
            i = i + 1;
        }
        self.records = kr;
        self.habits = kh;
        proof {
            let (hs, rs) = (self.habits@, self.records@);
            assert forall|h: Habit| #[trigger] hs.contains(h) <==> h0.contains(h) && h.id != Some(id) by {
                if hs.contains(h) {
                    let a = choose|a: int| 0 <= a < hs.len() && hs[a] == h;
                    assert(h0[hidx[a]] == h);
                }
                if h0.contains(h) && h.id != Some(id) {
                    let q = choose|q: int| 0 <= q < h0.len() && h0[q] == h;
                }
            }
            assert forall|r: HabitRecord| #[trigger] rs.contains(r) <==> r0.contains(r) && r.habit_id != id by {
                if rs.contains(r) {
                    let a = choose|a: int| 0 <= a < rs.len() && rs[a] == r;
                    assert(r0[ridx[a]] == r);
                }
                if r0.contains(r) && r.habit_id != id {
                    let q = choose|q: int| 0 <= q < r0.len() && r0[q] == r;
                }
            }
            assert forall|a: int, c: int| 0 <= a < c < hs.len() implies hs[a].id != hs[c].id by {
                assert(hs[a] == h0[hidx[a]] && hs[c] == h0[hidx[c]]);
            }
            assert forall|a: int, c: int| 0 <= a < c < rs.len() implies rs[a].id != rs[c].id && !(rs[a].habit_id == rs[c].habit_id && rs[a].date@ == rs[c].date@) by {
                assert(rs[a] == r0[ridx[a]] && rs[c] == r0[ridx[c]]);
            }
            assert forall|a: int| 0 <= a < hs.len() implies id_below(#[trigger] hs[a].id, self.next_habit_id) by {
                assert(hs[a] == h0[hidx[a]]);
            }
            assert forall|a: int| 0 <= a < rs.len() implies id_below(#[trigger] rs[a].id, self.next_record_id) by {
                assert(rs[a] == r0[ridx[a]]);
            }
            assert forall|a: int| 0 <= a < rs.len() implies has_habit(hs, (#[trigger] rs[a]).habit_id) by {
                let r = rs[a];
                assert(r == r0[ridx[a]]);
                assert(has_habit(h0, r.habit_id));
                let q = choose|q: int| 0 <= q < h0.len() && h0[q].id == Some(r.habit_id);
                assert(hs.contains(h0[q]));
                let c = choose|c: int| 0 <= c < hs.len() && hs[c] == h0[q];
            }
            assert(!has_habit(hs, id)) by {
                if has_habit(hs, id) {
                    let c = choose|c: int| 0 <= c < hs.len() && hs[c].id == Some(id);
                    assert(hs.contains(hs[c]));
                }
            }
        }
    }

    /// Replaces the descriptive fields of habit `id` at time `now`.
    pub fn update_habit(
        &mut self,
        id: i64,
        name: String,
        description: Option<String>,
        icon: String,
        color: String,
        frequency: String,
        target_count: i64,
        is_active: bool,
        now: String,
    )
        requires
            old(self).wf(),
        ensures
            final(self).wf(),
            final(self).records() == old(self).records(),
            final(self).habits().len() == old(self).habits().len(),
            forall|i: int|
                0 <= i < old(self).habits().len() ==> #[trigger] final(self).habits()[i] == if old(self).habits()[i].id == Some(id) {
                    Habit {
                        id: Some(id),
                        name: name,
                        description: description,
                        icon: icon,
                        color: color,
                        frequency: frequency,
                        target_count: target_count,
                        is_active: is_active,
                        created_at: old(self).habits()[i].created_at,
                        updated_at: now,
                    }
                } else {
                    old(self).habits()[i]
                },
    {
        let k = match self.find_habit(id) {
            Some(k) => k,
            None => {
                return;
            },
        };
        let ghost h0 = self.habits@;
        let created = self.habits[k].created_at.clone();
        let nh = Habit { id: Some(id), name, description, icon, color, frequency, target_count, is_active, created_at: created, updated_at: now };
        self.habits.set(k, nh);
        proof {
            let hs = self.habits@;
            assert forall|a: int| 0 <= a < h0.len() && a != k implies h0[a].id != Some(id) by {
                if a < k { assert(h0[a].id != h0[k as int].id); } else { assert(h0[k as int].id != h0[a].id); }
            }
            assert forall|a: int, b: int| 0 <= a < b < hs.len() implies hs[a].id != hs[b].id by {
                assert(hs[a].id == h0[a].id && hs[b].id == h0[b].id);
            }
            assert forall|a: int| 0 <= a < hs.len() implies id_below(#[trigger] hs[a].id, self.next_habit_id) by {
                assert(hs[a].id == h0[a].id);
            }
            assert forall|a: int| 0 <= a < self.records@.len() implies has_habit(hs, (#[trigger] self.records@[a]).habit_id) by {
                let j = choose|j: int| 0 <= j < h0.len() && h0[j].id == Some(self.records@[a].habit_id);
                assert(hs[j].id == h0[j].id);
            }
        }
    }

    /// Deletes the record with identity `id`, if any.
    pub fn delete_habit_record(&mut self, id: i64)
        requires
            old(self).wf(),
        ensures
            final(self).wf(),
            final(self).habits() == old(self).habits(),
            forall|x: HabitRecord| #[trigger] final(self).records().contains(x) <==> old(self).records().contains(x) && x.id != Some(id),
    {
        let ghost r0 = self.records@;
        let mut k: usize = 0;
        while k < self.records.len() && self.records[k].id != Some(id)
            invariant
                k <= self.records@.len(),
                self.records@ == r0,
                forall|j: int| 0 <= j < k ==> r0[j].id != Some(id),
            decreases self.records@.len() - k,
        {
            k = k + 1;
        }
        if k == self.records.len() {
            assert forall|x: HabitRecord| #[trigger] r0.contains(x) implies x.id != Some(id) by {
                let q = choose|q: int| 0 <= q < r0.len() && r0[q] == x;
            }
            return;
        }
        proof {
            self.lemma_remove_keeps(k as int);
        }
        self.records.remove(k);
        proof {
            let rs = self.records@;
            assert(rs == r0.remove(k as int));
            assert forall|x: HabitRecord| #[trigger] rs.contains(x) <==> r0.contains(x) && x.id != Some(id) by {
                if rs.contains(x) {
                    let a = choose|a: int| 0 <= a < rs.len() && rs[a] == x;
                    let a0 = if a < k { a } else { a + 1 };
                    assert(rs[a] == r0[a0]);
                    if a0 < k { assert(r0[a0].id != r0[k as int].id); } else { assert(r0[k as int].id != r0[a0].id); }
                }
                if r0.contains(x) && x.id != Some(id) {
                    let q = choose|q: int| 0 <= q < r0.len() && r0[q] == x;
                    if q < k { assert(rs[q] == x); } else { assert(q != k); assert(rs[q - 1] == x); }
                }
            }
            assert forall|a: int| 0 <= a < rs.len() implies id_below(#[trigger] rs[a].id, self.next_record_id) && has_habit(self.habits@, rs[a].habit_id) by {
                assert(r0.contains(rs[a]));
                let q = choose|q: int| 0 <= q < r0.len() && r0[q] == rs[a];
            }
        }
    }
}

/// A habit has at most one record per date, whatever completions were
/// recorded: a second completion on the same date replaces the first.
pub proof fn lemma_one_record_per_date(s: &HabitStore)
    requires
        s.wf(),
    ensures
        forall|i: int, j: int|
            0 <= i < j < s.records().len() ==> !(s.records()[i].habit_id == s.records()[j].habit_id
                && s.records()[i].date@ == s.records()[j].date@),
{
}

} // verus!
