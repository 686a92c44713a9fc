//! Timeline entries: short dated notes, newest first.
use vstd::prelude::*;
use crate::chars::{copy_opt, id_below};
use crate::error::StoreError;

verus! {

/// A dated note of the timeline.
pub struct TimelineEntry {
    pub id: Option<i64>,
    /// `YYYY-MM-DD`.
    pub date: String,
    pub time: String,
    pub content: String,
    pub weather: Option<String>,
    pub mood: Option<String>,
    pub timestamp: Option<i64>,
    pub created_at: String,
}

/// Timeline entries, with the next identity to hand out.
pub struct TimelineStore {
    entries: Vec<TimelineEntry>,
    next_id: i64,
}

/// The ordering key of an entry: its timestamp, an entry without one coming
/// below every other.
pub open spec fn time_key(e: TimelineEntry) -> int {
    match e.timestamp {
        Some(t) => t as int,
        None => i64::MIN as int - 1,
    }
}

/// `es` is newest first.
pub open spec fn newest_first(es: Seq<TimelineEntry>) -> bool {
    forall|a: int, b: int| 0 <= a < b < es.len() ==> time_key(es[a]) >= time_key(es[b])
}

fn time_key_exec(e: &TimelineEntry) -> (r: i128)
    ensures
        r as int == time_key(*e),
{
    match e.timestamp {
        Some(t) => t as i128,
        None => i64::MIN as i128 - 1,
    }
}

fn copy_entry(e: &TimelineEntry) -> (r: TimelineEntry)
    ensures
        r == *e,
{
    TimelineEntry {
        id: e.id,
        date: e.date.clone(),
        time: e.time.clone(),
        content: e.content.clone(),
        weather: copy_opt(&e.weather),
        mood: copy_opt(&e.mood),
        timestamp: e.timestamp,
        created_at: e.created_at.clone(),
    }
}

/// The entries of `v`, newest first; equal times keep their order.
pub fn sort_entries(v: Vec<TimelineEntry>) -> (r: Vec<TimelineEntry>)
    ensures
        newest_first(r@),
        r@.len() == v@.len(),
        forall|e: TimelineEntry| #[trigger] r@.contains(e) <==> v@.contains(e),
{
    let ghost orig = v@;
    let mut rest = v;
    let mut out: Vec<TimelineEntry> = Vec::new();
    while rest.len() > 0
        invariant
            out@.len() + rest@.len() == orig.len(),
            newest_first(out@),
            forall|e: TimelineEntry| #[trigger] orig.contains(e) <==> (out@.contains(e) || rest@.contains(e)),
        decreases rest@.len(),
    {
        let ghost rest0 = rest@;
        let x = rest.remove(0);
        let kx = time_key_exec(&x);
        let mut pos: usize = 0;
        while pos < out.len() && time_key_exec(&out[pos]) >= kx
            invariant
                pos <= out@.len(),
                kx as int == time_key(x),
                forall|a: int| 0 <= a < pos ==> time_key(out@[a]) >= time_key(x),
            decreases out@.len() - pos,
        {
            pos = pos + 1;
        }
        let ghost before = out@;
        out.insert(pos, x);
        proof {
            assert(out@ == before.insert(pos as int, x));
            assert(rest0 =~= seq![x] + rest@);
            assert forall|a: int, b: int| 0 <= a < b < out@.len() implies time_key(out@[a]) >= time_key(out@[b]) by {
                if pos < before.len() {
                    assert(time_key(before[pos as int]) < time_key(x));
                }
                if a < pos && b > pos {
                    assert(out@[b] == before[b - 1]);
                } else if a == pos && b > pos {
                    assert(out@[b] == before[b - 1]);
                    assert(time_key(before[pos as int]) >= time_key(before[b - 1]) || b - 1 == pos);
                } else if a > pos {
                    assert(out@[a] == before[a - 1]);
                    assert(out@[b] == before[b - 1]);
                }
            }
            assert forall|e: TimelineEntry| #[trigger] orig.contains(e) <==> (out@.contains(e) || rest@.contains(e)) by {
                if out@.contains(e) {
                    let a = choose|a: int| 0 <= a < out@.len() && out@[a] == e;
                    if a < pos {
                        assert(before[a] == e);
                        assert(before.contains(e));
                    } else if a > pos {
                        assert(before[a - 1] == e);
                        assert(before.contains(e));
                    } else {
                        assert(rest0[0] == e);
                        assert(rest0.contains(e));
                    }
                }
                if rest@.contains(e) {
                    let a = choose|a: int| 0 <= a < rest@.len() && rest@[a] == e;
                    assert(rest0[a + 1] == e);
                    assert(rest0.contains(e));
                }
                if orig.contains(e) {
                    if before.contains(e) {
                        let a = choose|a: int| 0 <= a < before.len() && before[a] == e;
                        if a < pos {
                            assert(out@[a] == e);
                        } else {
                            assert(out@[a + 1] == e);
                        }
                    } else {
                        assert(rest0.contains(e));
                        let a = choose|a: int| 0 <= a < rest0.len() && rest0[a] == e;
                        if a == 0 {
                            assert(out@[pos as int] == e);
                        } else {
                            assert(rest@[a - 1] == e);
                        }
                    }
                }
            }
        }
    }
    out
}

impl TimelineStore {
    pub closed spec fn entries(&self) -> Seq<TimelineEntry> {
        self.entries@
    }

    /// The identity the next entry gets.
    pub closed spec fn next_entry_id(&self) -> i64 {
        self.next_id
    }

    /// Identities are unique and below the next one.
    pub closed spec fn wf(&self) -> bool {
        &&& self.next_id >= 1
        &&& forall|i: int| 0 <= i < self.entries@.len() ==> id_below(#[trigger] self.entries@[i].id, self.next_id)
        &&& forall|i: int, j: int| 0 <= i < j < self.entries@.len() ==> self.entries@[i].id != self.entries@[j].id
    }

    /// An empty timeline.
    pub fn new() -> (r: TimelineStore)
        ensures
            r.wf(),
            r.entries().len() == 0,
    {
        TimelineStore { entries: Vec::new(), next_id: 1 }
    }

    /// Adds an entry at time `now` and returns its new identity.
    pub fn create_timeline_entry(
        &mut self,
        date: String,
        time: String,
        content: String,
        weather: Option<String>,
        mood: Option<String>,
        timestamp: Option<i64>,
        now: String,
    ) -> (r: Result<i64, StoreError>)
        requires
            old(self).wf(),
        ensures
            r is Ok <==> old(self).next_entry_id() < i64::MAX,
            final(self).wf(),
            r is Err ==> *final(self) == *old(self),
            r matches Ok(id) ==> final(self).entries() == old(self).entries().push(
                TimelineEntry { id: Some(id), date, time, content, weather, mood, timestamp, created_at: now },
            ),
    {
        if self.next_id == i64::MAX {
            return Err(StoreError::IdsExhausted);
        }
        let id = self.next_id;
        let ghost e0 = self.entries@;
        self.entries.push(TimelineEntry { id: Some(id), date, time, content, weather, mood, timestamp, created_at: now });
        self.next_id = id + 1;
        proof {
            let es = self.entries@;
            assert forall|a: int, b: int| 0 <= a < b < es.len() implies es[a].id != es[b].id by {
                if b == es.len() - 1 {
                    assert(id_below(e0[a].id, id));
                }
            }
        }
        Ok(id)
    }

    /// The entries dated `date`, newest first.
    pub fn get_timeline_entries_by_date(&self, date: &str) -> (r: Vec<TimelineEntry>)
        ensures
            newest_first(r@),
            forall|e: TimelineEntry| #[trigger] r@.contains(e) <==> self.entries().contains(e) && e.date@ == date@,
    {
        let key = date.to_owned();
        let mut out: Vec<TimelineEntry> = Vec::new();
        let mut i: usize = 0;
        while i < self.entries.len()
            invariant
                i <= self.entries@.len(),
                key@ == date@,
                forall|e: TimelineEntry| #[trigger] out@.contains(e) <==> (exists|q: int| 0 <= q < i && self.entries@[q] == e) && e.date@ == date@,
            decreases self.entries@.len() - i,
        {
            let ghost before = out@;
            if self.entries[i].date == key {
                out.push(copy_entry(&self.entries[i]));
            }
            proof {
                assert forall|x: TimelineEntry| #[trigger] out@.contains(x) <==> (exists|q: int| 0 <= q < i + 1 && self.entries@[q] == x) && x.date@ == date@ by {
                    if out@.contains(x) {
                        let a = choose|a: int| 0 <= a < out@.len() && out@[a] == x;
                        if a < before.len() {
                            assert(before[a] == x);
                            assert(before.contains(x));
                            let q = choose|q: int| 0 <= q < i && self.entries@[q] == x;
                            assert(0 <= q < i + 1 && self.entries@[q] == x);
                        } else {
                            assert(self.entries@[i as int] == x);
                        }
                    }
                    if (exists|q: int| 0 <= q < i + 1 && self.entries@[q] == x) && x.date@ == date@ {
                        let q = choose|q: int| 0 <= q < i + 1 && self.entries@[q] == x;
                        if q < i {
                            assert(before.contains(x));
                            let a = choose|a: int| 0 <= a < before.len() && before[a] == x;
                            assert(out@[a] == x);
                        } else {
                            assert(out@[before.len() as int] == x);
                        }
                    }
                }
            }
            i = i + 1;
        }
        proof {
            assert forall|e: TimelineEntry| #[trigger] out@.contains(e) <==> self.entries@.contains(e) && e.date@ == date@ by {
                if self.entries@.contains(e) {
                    let q = choose|q: int| 0 <= q < self.entries@.len() && self.entries@[q] == e;
                }
            }
        }
        sort_entries(out)
    }

    /// Deletes entry `id`, if present.
    pub fn delete_timeline_entry(&mut self, id: i64)
        requires
            old(self).wf(),
        ensures
            final(self).wf(),
            forall|e: TimelineEntry| #[trigger] final(self).entries().contains(e) <==> old(self).entries().contains(e) && e.id != Some(id),
    {
        let mut k: usize = 0;
        while k < self.entries.len() && self.entries[k].id != Some(id)
            invariant
                k <= self.entries@.len(),
                forall|j: int| 0 <= j < k ==> self.entries@[j].id != Some(id),
            decreases self.entries@.len() - k,
        {
            k = k + 1;
        }
        let ghost e0 = self.entries@;
        if k == self.entries.len() {
            assert forall|e: TimelineEntry| #[trigger] e0.contains(e) implies e.id != Some(id) by {
                let q = choose|q: int| 0 <= q < e0.len() && e0[q] == e;
            }
            return;
        }
        self.entries.remove(k);
        proof {
            let es = self.entries@;
            assert(es == e0.remove(k as int));
            assert forall|a: int, b: int| 0 <= a < b < es.len() implies es[a].id != es[b].id by {
                let a0 = if a < k { a } else { a + 1 };
                let b0 = if b < k { b } else { b + 1 };
                assert(es[a] == e0[a0] && es[b] == e0[b0]);
            }
            assert forall|a: int| 0 <= a < es.len() implies id_below(#[trigger] es[a].id, self.next_id) by {
                if a < k { assert(es[a] == e0[a]); } else { assert(es[a] == e0[a + 1]); }
            }
            assert forall|e: TimelineEntry| #[trigger] es.contains(e) <==> e0.contains(e) && e.id != Some(id) by {
                if es.contains(e) {
                    let a = choose|a: int| 0 <= a < es.len() && es[a] == e;
                    let a0 = if a < k { a } else { a + 1 };
                    assert(es[a] == e0[a0]);
                    if a0 < k { assert(e0[a0].id != e0[k as int].id); } else { assert(e0[k as int].id != e0[a0].id); }
                }
                if e0.contains(e) && e.id != Some(id) {
                    let q = choose|q: int| 0 <= q < e0.len() && e0[q] == e;
                    if q < k { assert(es[q] == e); } else { assert(q != k); assert(es[q - 1] == e); }
                }
            }
        }
    }

    /// The `limit` newest entries (all of them when there are fewer).
    pub fn get_recent_timeline_entries(&self, limit: usize) -> (r: Vec<TimelineEntry>)
        ensures
            newest_first(r@),
            r@.len() == if limit < self.entries().len() { limit as int } else { self.entries().len() as int },
            forall|k: int| 0 <= k < r@.len() ==> self.entries().contains(#[trigger] r@[k]),
            forall|e: TimelineEntry|
                self.entries().contains(e) && !(#[trigger] r@.contains(e)) ==> forall|k: int| 0 <= k < r@.len() ==> time_key(r@[k]) >= time_key(e),
    {
        let mut all: Vec<TimelineEntry> = Vec::new();
        let mut i: usize = 0;
        while i < self.entries.len()
            invariant
                i <= self.entries@.len(),
                all@ == self.entries@.subrange(0, i as int),
            decreases self.entries@.len() - i,
        {
            all.push(copy_entry(&self.entries[i]));
            i = i + 1;
            assert(self.entries@.subrange(0, i as int) =~= self.entries@.subrange(0, i - 1).push(self.entries@[i - 1]));
        }
        assert(self.entries@.subrange(0, i as int) =~= self.entries@);
        let sorted = sort_entries(all);
        let n: usize = if limit < sorted.len() { limit } else { sorted.len() };
        let mut out: Vec<TimelineEntry> = Vec::new();
        let mut k: usize = 0;
        while k < n
            invariant
                k <= n,
                n <= sorted@.len(),
                out@ == sorted@.subrange(0, k as int),
            decreases n - k,
        {
            out.push(copy_entry(&sorted[k]));
            k = k + 1;
            assert(sorted@.subrange(0, k as int) =~= sorted@.subrange(0, k - 1).push(sorted@[k - 1]));
        }
        proof {
            assert forall|k: int| 0 <= k < out@.len() implies self.entries@.contains(#[trigger] out@[k]) by {
                assert(out@[k] == sorted@[k]);
                assert(sorted@.contains(sorted@[k]));
            }
            assert forall|e: TimelineEntry| self.entries@.contains(e) && !(#[trigger] out@.contains(e)) implies forall|k: int| 0 <= k < out@.len() ==> time_key(out@[k]) >= time_key(e) by {
                assert(sorted@.contains(e));
                let j = choose|j: int| 0 <= j < sorted@.len() && sorted@[j] == e;
                if j < n {
                    assert(out@[j] == e);
                }
                assert forall|k: int| 0 <= k < out@.len() implies time_key(out@[k]) >= time_key(e) by {
                    assert(out@[k] == sorted@[k]);
                }
            }
        }
        out
    }
}

} // verus!
