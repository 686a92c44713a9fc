//! Card boxes and cards, with the per-box card counter and the full-text
//! index rows kept in step with the cards on every write.
use vstd::prelude::*;
use crate::chars::{chars_of, copy_opt, opt_str_view, opt_view};
use crate::clock::{new_id, now_millis};
use crate::error::StoreError;
use crate::preview::{generate_preview_from_html, matches_at, occurs_at, preview_of};

verus! {

/// A box of cards.
pub struct CardBox {
    pub id: String,
    pub name: String,
    pub description: Option<String>,
    pub color: Option<String>,
    pub icon: Option<String>,
    /// How many cards the box holds.
    pub cards_count: u64,
    pub sort_order: i64,
    pub created_at: i64,
    pub updated_at: i64,
}

/// A note card kept in a box.
pub struct Card {
    pub id: String,
    pub box_id: String,
    pub title: String,
    pub content: Option<String>,
    /// Plain-text excerpt of the content.
    pub preview: Option<String>,
    pub color: Option<String>,
    pub tags: Option<Vec<String>>,
    pub is_pinned: bool,
    pub is_archived: bool,
    pub sort_order: i64,
    pub created_at: i64,
    pub updated_at: i64,
}

/// The fields of a box to change; absent fields stay as they are.
pub struct CardBoxUpdate {
    pub name: Option<String>,
    pub description: Option<String>,
    pub color: Option<String>,
    pub icon: Option<String>,
    pub sort_order: Option<i64>,
}

/// The fields of a card to change; absent fields stay as they are.
pub struct CardUpdate {
    pub title: Option<String>,
    pub content: Option<String>,
    /// Not applied: a card's preview always follows from its content.
    pub preview: Option<String>,
    pub color: Option<String>,
    pub tags: Option<Vec<String>>,
    pub is_pinned: Option<bool>,
    pub is_archived: Option<bool>,
    pub sort_order: Option<i64>,
}

/// A row of the full-text index: the searchable fields of one card.
pub struct CardIndexRow {
    pub card_id: String,
    pub title: String,
    pub content: Option<String>,
    pub preview: Option<String>,
}

/// Boxes, their cards and the cards' index rows.
pub struct CardStore {
    boxes: Vec<CardBox>,
    cards: Vec<Card>,
    index: Vec<CardIndexRow>,
}

/// The number of cards of `cs` that belong to box `b`.
pub open spec fn count_in(cs: Seq<Card>, b: Seq<char>) -> nat
    decreases cs.len(),
{
    if cs.len() == 0 {
        0
    } else {
        count_in(cs.drop_last(), b) + if cs.last().box_id@ == b { 1nat } else { 0nat }
    }
}

/// `row` holds the searchable fields of `c`.
pub open spec fn mirrors(row: CardIndexRow, c: Card) -> bool {
    &&& row.card_id@ == c.id@
    &&& row.title@ == c.title@
    &&& opt_view(row.content) == opt_view(c.content)
    &&& opt_view(row.preview) == opt_view(c.preview)
}

/// `q` occurs in a searchable field of `row`.
pub open spec fn row_matches(row: CardIndexRow, q: Seq<char>) -> bool {
    contains_seq(row.title@, q) || (row.content matches Some(s) && contains_seq(s@, q))
        || (row.preview matches Some(s) && contains_seq(s@, q))
}

pub open spec fn contains_seq(hay: Seq<char>, q: Seq<char>) -> bool {
    exists|i: int| occurs_at(hay, i, q)
}

pub open spec fn box_index_of(bs: Seq<CardBox>, id: Seq<char>) -> int
    decreases bs.len(),
{
    if bs.len() == 0 {
        -1
    } else if bs.last().id@ == id {
        bs.len() - 1
    } else {
        box_index_of(bs.drop_last(), id)
    }
}

pub open spec fn has_box(bs: Seq<CardBox>, id: Seq<char>) -> bool {
    exists|j: int| 0 <= j < bs.len() && bs[j].id@ == id
}

pub open spec fn has_card(cs: Seq<Card>, id: Seq<char>) -> bool {
    exists|j: int| 0 <= j < cs.len() && cs[j].id@ == id
}

proof fn lemma_count_push(cs: Seq<Card>, c: Card, b: Seq<char>)
    ensures
        count_in(cs.push(c), b) == count_in(cs, b) + if c.box_id@ == b { 1nat } else { 0nat },
{
    assert(cs.push(c).drop_last() =~= cs);
}

proof fn lemma_count_remove(cs: Seq<Card>, i: int, b: Seq<char>)
    requires
        0 <= i < cs.len(),
    ensures
        count_in(cs.remove(i), b) + (if cs[i].box_id@ == b { 1nat } else { 0nat }) == count_in(cs, b),
    decreases cs.len(),
{
    if i == cs.len() - 1 {
        assert(cs.remove(i) =~= cs.drop_last());
    } else {
        lemma_count_remove(cs.drop_last(), i, b);
        assert(cs.remove(i).drop_last() =~= cs.drop_last().remove(i));
        assert(cs.remove(i).last() == cs.last());
    }
}

proof fn lemma_count_update(cs: Seq<Card>, i: int, c: Card, b: Seq<char>)
    requires
        0 <= i < cs.len(),
    ensures
        count_in(cs.update(i, c), b) + (if cs[i].box_id@ == b { 1nat } else { 0nat }) == count_in(cs, b)
            + (if c.box_id@ == b { 1nat } else { 0nat }),
    decreases cs.len(),
{
    if i == cs.len() - 1 {
        assert(cs.update(i, c).drop_last() =~= cs.drop_last());
    } else {
        lemma_count_update(cs.drop_last(), i, c, b);
        assert(cs.update(i, c).drop_last() =~= cs.drop_last().update(i, c));
    }
}

proof fn lemma_count_bound(cs: Seq<Card>, b: Seq<char>)
    ensures
        count_in(cs, b) <= cs.len(),
    decreases cs.len(),
{
    if cs.len() > 0 {
        lemma_count_bound(cs.drop_last(), b);
    }
}

proof fn lemma_count_zero(cs: Seq<Card>, b: Seq<char>)
    ensures
        count_in(cs, b) == 0 <==> forall|i: int| 0 <= i < cs.len() ==> cs[i].box_id@ != b,
    decreases cs.len(),
{
    if cs.len() > 0 {
        lemma_count_zero(cs.drop_last(), b);
        assert forall|i: int| 0 <= i < cs.len() - 1 implies cs.drop_last()[i] == cs[i] by {}
    }
}


pub open spec fn tags_view(t: Option<Vec<String>>) -> Option<Seq<Seq<char>>> {
    match t {
        Some(v) => Some(v@.map_values(|x: String| x@)),
        None => None,
    }
}

/// `a` and `b` hold the same values.
pub open spec fn card_eq(a: Card, b: Card) -> bool {
    &&& a.id == b.id
    &&& a.box_id == b.box_id
    &&& a.title == b.title
    &&& a.content == b.content
    &&& a.preview == b.preview
    &&& a.color == b.color
    &&& tags_view(a.tags) == tags_view(b.tags)
    &&& a.is_pinned == b.is_pinned
    &&& a.is_archived == b.is_archived
    &&& a.sort_order == b.sort_order
    &&& a.created_at == b.created_at
    &&& a.updated_at == b.updated_at
}

/// The boxes of `b` are those of `a` with the same descriptive fields; only
/// counters and update times may differ.
pub open spec fn boxes_kept(a: Seq<CardBox>, b: Seq<CardBox>) -> bool {
    &&& a.len() == b.len()
    &&& forall|j: int|
        0 <= j < a.len() ==> {
            &&& #[trigger] b[j].id == a[j].id
            &&& b[j].name == a[j].name
            &&& b[j].description == a[j].description
            &&& b[j].color == a[j].color
            &&& b[j].icon == a[j].icon
            &&& b[j].sort_order == a[j].sort_order
            &&& b[j].created_at == a[j].created_at
        }
}

/// The cards of `cs`, among the first `n`, that are not archived and whose
/// index row matches `q`, in store order.
pub open spec fn hits_upto(cs: Seq<Card>, rows: Seq<CardIndexRow>, q: Seq<char>, n: int) -> Seq<Card>
    decreases n,
{
    if n <= 0 {
        seq![]
    } else {
        hits_upto(cs, rows, q, n - 1) + if !cs[n - 1].is_archived && row_matches(rows[n - 1], q) {
            seq![cs[n - 1]]
        } else {
            seq![]
        }
    }
}

/// The cards of `cs` among the first `n` that are not archived and belong
/// to `box_id` when one is given, in store order.
pub open spec fn listed_upto(cs: Seq<Card>, box_id: Option<Seq<char>>, n: int) -> Seq<Card>
    decreases n,
{
    if n <= 0 {
        seq![]
    } else {
        listed_upto(cs, box_id, n - 1) + if !cs[n - 1].is_archived && (box_id matches Some(b) ==> cs[n
            - 1].box_id@ == b) {
            seq![cs[n - 1]]
        } else {
            seq![]
        }
    }
}

fn copy_tags(t: &Option<Vec<String>>) -> (r: Option<Vec<String>>)
    ensures
        tags_view(r) == tags_view(*t),
{
    match t {
        Some(v) => {
            let mut out: Vec<String> = Vec::new();
            let mut i: usize = 0;
            while i < v.len()
                invariant
                    i <= v@.len(),
                    out@.len() == i,
                    forall|k: int| 0 <= k < i ==> #[trigger] out@[k] == v@[k],
                decreases v@.len() - i,
            {
                out.push(v[i].clone());
                i = i + 1;
            }
            assert(out@.map_values(|x: String| x@) =~= v@.map_values(|x: String| x@));
            Some(out)
        },
        None => None,
    }
}

fn copy_card(c: &Card) -> (r: Card)
    ensures
        card_eq(r, *c),
{
    Card {
        id: c.id.clone(),
        box_id: c.box_id.clone(),
        title: c.title.clone(),
        content: copy_opt(&c.content),
        preview: copy_opt(&c.preview),
        color: copy_opt(&c.color),
        tags: copy_tags(&c.tags),
        is_pinned: c.is_pinned,
        is_archived: c.is_archived,
        sort_order: c.sort_order,
        created_at: c.created_at,
        updated_at: c.updated_at,
    }
}

fn copy_box(b: &CardBox) -> (r: CardBox)
    ensures
        r == *b,
{
    CardBox {
        id: b.id.clone(),
        name: b.name.clone(),
        description: copy_opt(&b.description),
        color: copy_opt(&b.color),
        icon: copy_opt(&b.icon),
        cards_count: b.cards_count,
        sort_order: b.sort_order,
        created_at: b.created_at,
        updated_at: b.updated_at,
    }
}

/// `q` occurs in `hay`.
pub(crate) fn contains_chars(hay: &Vec<char>, q: &Vec<char>) -> (r: bool)
    ensures
        r == contains_seq(hay@, q@),
{
    let mut i: usize = 0;
    while i < hay.len()
        invariant
            i <= hay@.len(),
            forall|j: int| 0 <= j < i ==> !occurs_at(hay@, j, q@),
        decreases hay@.len() - i,
    {
        if matches_at(hay, i, q) {
            return true;
        }
        i = i + 1;
    }
    if matches_at(hay, i, q) {
        return true;
    }
    assert forall|j: int| !occurs_at(hay@, j, q@) by {
        if 0 <= j && j < i {
        }
    }
    false
}

fn opt_contains(o: &Option<String>, q: &Vec<char>) -> (r: bool)
    ensures
        r == (*o matches Some(s) && contains_seq(s@, q@)),
{
    match o {
        Some(s) => {
            let cs = chars_of(s.as_str());
            contains_chars(&cs, q)
        },
        None => false,
    }
}

/// `a` may be listed before `b`: pinned cards first; then, for listings, by
/// sort key and newest creation first, and for searches, most recently
/// updated first.
pub open spec fn card_before(a: Card, b: Card, for_search: bool) -> bool {
    (a.is_pinned && !b.is_pinned) || (a.is_pinned == b.is_pinned && if for_search {
        a.updated_at >= b.updated_at
    } else {
        a.sort_order < b.sort_order || (a.sort_order == b.sort_order && a.created_at >= b.created_at)
    })
}

/// `cs` is in listing order.
pub open spec fn cards_ordered(cs: Seq<Card>, for_search: bool) -> bool {
    forall|a: int, b: int| 0 <= a < b < cs.len() ==> card_before(cs[a], cs[b], for_search)
}

fn card_before_exec(a: &Card, b: &Card, for_search: bool) -> (r: bool)
    ensures
        r == card_before(*a, *b, for_search),
{
    if a.is_pinned != b.is_pinned {
        return a.is_pinned;
    }
    if for_search {
        a.updated_at >= b.updated_at
    } else {
        a.sort_order < b.sort_order || (a.sort_order == b.sort_order && a.created_at >= b.created_at)
    }
}

/// Some card of `s` equals `c`.
pub open spec fn has_copy_in(c: Card, s: Seq<Card>) -> bool {
    exists|i: int| 0 <= i < s.len() && card_eq(c, s[i])
}

/// `r` holds the cards of `l`, each as an equal copy, in some order.
pub open spec fn same_cards(r: Seq<Card>, l: Seq<Card>) -> bool {
    &&& r.len() == l.len()
    &&& forall|k: int| 0 <= k < r.len() ==> #[trigger] has_copy_in(r[k], l)
    &&& forall|j: int| 0 <= j < l.len() ==> #[trigger] has_copy_in(l[j], r)
}

proof fn lemma_same_cards(r: Seq<Card>, o: Seq<Card>, l: Seq<Card>)
    requires
        o.len() == r.len(),
        o.len() == l.len(),
        forall|k: int| 0 <= k < o.len() ==> card_eq(#[trigger] o[k], l[k]),
        forall|c: Card| #[trigger] r.contains(c) <==> o.contains(c),
    ensures
        same_cards(r, l),
{
    assert forall|k: int| 0 <= k < r.len() implies #[trigger] has_copy_in(r[k], l) by {
        assert(r.contains(r[k]));
        let j = choose|j: int| 0 <= j < o.len() && o[j] == r[k];
        assert(card_eq(o[j], l[j]));
        assert(card_eq(r[k], l[j]));
    }
    assert forall|j: int| 0 <= j < l.len() implies #[trigger] has_copy_in(l[j], r) by {
        assert(o.contains(o[j]));
        assert(r.contains(o[j]));
        let k = choose|k: int| 0 <= k < r.len() && r[k] == o[j];
        assert(card_eq(o[j], l[j]));
        assert(card_eq(l[j], r[k]));
    }
}

/// No two cards of `cs` share an identity.
pub open spec fn card_ids_distinct(cs: Seq<Card>) -> bool {
    forall|a: int, b: int| 0 <= a < b < cs.len() ==> cs[a].id@ != cs[b].id@
}

/// The cards of `v` in listing order.
pub fn sort_cards(v: Vec<Card>, for_search: bool) -> (r: Vec<Card>)
    ensures
        cards_ordered(r@, for_search),
        r@.len() == v@.len(),
        forall|c: Card| #[trigger] r@.contains(c) <==> v@.contains(c),
        card_ids_distinct(v@) ==> card_ids_distinct(r@),
{
    let ghost orig = v@;
    let mut rest = v;
    let mut out: Vec<Card> = Vec::new();
    while rest.len() > 0
        invariant
            out@.len() + rest@.len() == orig.len(),
            cards_ordered(out@, for_search),
            forall|c: Card| #[trigger] orig.contains(c) <==> (out@.contains(c) || rest@.contains(c)),
            card_ids_distinct(orig) ==> card_ids_distinct(out@) && card_ids_distinct(rest@) && forall|a: int, b: int|
                0 <= a < out@.len() && 0 <= b < rest@.len() ==> out@[a].id@ != rest@[b].id@,
        decreases rest@.len(),
    {
        let ghost rest0 = rest@;
        let x = rest.remove(0);
        let mut pos: usize = 0;
        while pos < out.len() && card_before_exec(&out[pos], &x, for_search)
            invariant
                pos <= out@.len(),
                forall|a: int| 0 <= a < pos ==> card_before(out@[a], x, for_search),
            decreases out@.len() - pos,
        {
            pos = pos + 1;
        }
        let ghost before = out@;
        out.insert(pos, x);
        proof {
            assert(out@ == before.insert(pos as int, x));
            assert(rest0 == seq![x] + rest@) by {
                assert(rest0 =~= seq![x] + rest@);
            }
            if card_ids_distinct(orig) {
                assert forall|a: int, b: int| 0 <= a < b < rest@.len() implies rest@[a].id@ != rest@[b].id@ by {
                    assert(rest@[a] == rest0[a + 1] && rest@[b] == rest0[b + 1]);
                }
                assert forall|a: int, b: int| 0 <= a < out@.len() && 0 <= b < rest@.len() implies out@[a].id@ != rest@[b].id@ by {
                    assert(rest@[b] == rest0[b + 1]);
                    if a < pos {
                        assert(out@[a] == before[a]);
                    } else if a > pos {
                        assert(out@[a] == before[a - 1]);
                    } else {
                        assert(out@[a] == rest0[0]);
                    }
                }
                assert forall|a: int, b: int| 0 <= a < b < out@.len() implies out@[a].id@ != out@[b].id@ by {
                    assert(rest0[0] == x);
                    if a < pos && b < pos {
                    } else if a < pos && b == pos {
                        assert(out@[a] == before[a]);
                    } else if a < pos {
                        assert(out@[b] == before[b - 1]);
                    } else if a == pos {
                        assert(out@[b] == before[b - 1]);
                    } else {
                        assert(out@[a] == before[a - 1] && out@[b] == before[b - 1]);
                    }
                }
            }
            assert forall|a: int, b: int| 0 <= a < b < out@.len() implies card_before(out@[a], out@[b], for_search) by {
                if a < pos && b > pos {
                    assert(out@[b] == before[b - 1]);
                } else if a == pos && b > pos {
                    assert(out@[b] == before[b - 1]);
                    assert(!card_before(before[pos as int], x, for_search));
                    assert(card_before(before[pos as int], before[b - 1], for_search) || b - 1 == pos);
                } else if a > pos {
                    assert(out@[a] == before[a - 1]);
                    assert(out@[b] == before[b - 1]);
                }
            }
            assert forall|c: Card| #[trigger] orig.contains(c) <==> (out@.contains(c) || rest@.contains(c)) by {
                if out@.contains(c) {
                    let a = choose|a: int| 0 <= a < out@.len() && out@[a] == c;
                    if a < pos {
                        assert(before[a] == c);
                        assert(before.contains(c));
                    } else if a > pos {
                        assert(before[a - 1] == c);
                        assert(before.contains(c));
                    } else {
                        assert(rest0[0] == c);
                        assert(rest0.contains(c));
                    }
                }
                if rest@.contains(c) {
                    let a = choose|a: int| 0 <= a < rest@.len() && rest@[a] == c;
                    assert(rest0[a + 1] == c);
                    assert(rest0.contains(c));
                }
                if orig.contains(c) {
                    if before.contains(c) {
                        let a = choose|a: int| 0 <= a < before.len() && before[a] == c;
                        if a < pos {
                            assert(out@[a] == c);
                        } else {
                            assert(out@[a + 1] == c);
                        }
                    } else {
                        assert(rest0.contains(c));
                        let a = choose|a: int| 0 <= a < rest0.len() && rest0[a] == c;
                        if a == 0 {
                            assert(out@[pos as int] == c);
                        } else {
                            assert(rest@[a - 1] == c);
                        }
                    }
                }
            }
        }
    }
    out
}

/// `b` with the present fields of `u` applied at time `now`.
pub open spec fn box_updated(b: CardBox, u: CardBoxUpdate, now: i64) -> CardBox {
    let touched = u.name is Some || u.description is Some || u.color is Some || u.icon is Some || u.sort_order is Some;
    CardBox {
        id: b.id,
        name: if u.name is Some { u.name->0 } else { b.name },
        description: if u.description is Some { u.description } else { b.description },
        color: if u.color is Some { u.color } else { b.color },
        icon: if u.icon is Some { u.icon } else { b.icon },
        cards_count: b.cards_count,
        sort_order: if u.sort_order is Some { u.sort_order->0 } else { b.sort_order },
        created_at: b.created_at,
        updated_at: if touched { now } else { b.updated_at },
    }
}

/// Some field of `u` is present.
pub open spec fn touches(u: CardUpdate) -> bool {
    u.title is Some || u.content is Some || u.color is Some || u.tags is Some || u.is_pinned is Some
        || u.is_archived is Some || u.sort_order is Some
}

/// `new` is `old` with the present fields of `u` applied at time `now`.
pub open spec fn updated_card(new: Card, old: Card, u: CardUpdate, now: i64) -> bool {
    &&& new.id == old.id
    &&& new.box_id == old.box_id
    &&& new.title == (if u.title is Some { u.title->0 } else { old.title })
    &&& new.content == (if u.content is Some { u.content } else { old.content })
    &&& (u.content matches Some(c) ==> new.preview matches Some(p) && p@ == preview_of(c@))
    &&& (u.content is None ==> new.preview == old.preview)
    &&& new.color == (if u.color is Some { u.color } else { old.color })
    &&& tags_view(new.tags) == (if u.tags is Some { tags_view(u.tags) } else { tags_view(old.tags) })
    &&& new.is_pinned == (if u.is_pinned is Some { u.is_pinned->0 } else { old.is_pinned })
    &&& new.is_archived == (if u.is_archived is Some { u.is_archived->0 } else { old.is_archived })
    &&& new.sort_order == (if u.sort_order is Some { u.sort_order->0 } else { old.sort_order })
    &&& new.created_at == old.created_at
    &&& new.updated_at == (if touches(u) { now } else { old.updated_at })
}

/// The box `b` with its counter set to `count` at time `now`.
fn recounted(b: &CardBox, count: u64, now: i64) -> (r: CardBox)
    ensures
        r.id == b.id && r.name == b.name && r.description == b.description && r.color == b.color
            && r.icon == b.icon && r.sort_order == b.sort_order && r.created_at == b.created_at,
        r.cards_count == count,
        r.updated_at == now,
{
    CardBox {
        id: b.id.clone(),
        name: b.name.clone(),
        description: copy_opt(&b.description),
        color: copy_opt(&b.color),
        icon: copy_opt(&b.icon),
        cards_count: count,
        sort_order: b.sort_order,
        created_at: b.created_at,
        updated_at: now,
    }
}

impl CardStore {
    pub closed spec fn boxes(&self) -> Seq<CardBox> {
        self.boxes@
    }

    pub closed spec fn cards(&self) -> Seq<Card> {
        self.cards@
    }

    pub closed spec fn index(&self) -> Seq<CardIndexRow> {
        self.index@
    }

    /// Identities are unique, every card's box exists, every box counts
    /// exactly its cards, and the index holds one mirroring row per card.
    pub closed spec fn wf(&self) -> bool {
        &&& forall|i: int, j: int|
            0 <= i < j < self.boxes@.len() ==> self.boxes@[i].id@ != self.boxes@[j].id@
        &&& forall|i: int, j: int|
            0 <= i < j < self.cards@.len() ==> self.cards@[i].id@ != self.cards@[j].id@
        &&& forall|i: int| 0 <= i < self.cards@.len() ==> has_box(self.boxes@, #[trigger] self.cards@[i].box_id@)
        &&& forall|j: int|
            0 <= j < self.boxes@.len() ==> #[trigger] self.boxes@[j].cards_count == count_in(
                self.cards@,
                self.boxes@[j].id@,
            )
        &&& self.index@.len() == self.cards@.len()
        &&& forall|i: int| 0 <= i < self.cards@.len() ==> mirrors(#[trigger] self.index@[i], self.cards@[i])
    }

    /// An empty store.
    pub fn new() -> (r: CardStore)
        ensures
            r.wf(),
            r.boxes().len() == 0,
            r.cards().len() == 0,
    {
        CardStore { boxes: Vec::new(), cards: Vec::new(), index: Vec::new() }
    }

    fn find_box(&self, id: &str) -> (r: Option<usize>)
        requires
            self.wf(),
        ensures
            r is None <==> !has_box(self.boxes@, id@),
            r matches Some(k) ==> k < self.boxes@.len() && self.boxes@[k as int].id@ == id@,
    {
        let key = id.to_owned();
        let mut k: usize = 0;
        while k < self.boxes.len()
            invariant
                k <= self.boxes@.len(),
                key@ == id@,
                forall|j: int| 0 <= j < k ==> self.boxes@[j].id@ != id@,
            decreases self.boxes@.len() - k,
        {
            if self.boxes[k].id == key {
                return Some(k);
            }
            k = k + 1;
        }
        None
    }

    fn find_card(&self, id: &str) -> (r: Option<usize>)
        requires
            self.wf(),
        ensures
            r is None <==> !has_card(self.cards@, id@),
            r matches Some(k) ==> k < self.cards@.len() && self.cards@[k as int].id@ == id@,
    {
        let key = id.to_owned();
        let mut k: usize = 0;
        while k < self.cards.len()
            invariant
                k <= self.cards@.len(),
                key@ == id@,
                forall|j: int| 0 <= j < k ==> self.cards@[j].id@ != id@,
            decreases self.cards@.len() - k,
        {
            if self.cards[k].id == key {
                return Some(k);
            }
            k = k + 1;
        }
        None
    }

    /// Adds an empty box with the given identity, ordered by its creation time.
    pub fn insert_card_box(
        &mut self,
        id: String,
        name: String,
        description: Option<String>,
        color: Option<String>,
        icon: Option<String>,
        now: i64,
    ) -> (r: Result<CardBox, StoreError>)
        requires
            old(self).wf(),
        ensures
            !has_box(old(self).boxes(), id@) ==> r is Ok,
            final(self).wf(),
            has_box(old(self).boxes(), id@) <==> r == Err::<CardBox, StoreError>(StoreError::DuplicateId),
            r is Err ==> *final(self) == *old(self),
            r matches Ok(b) ==> {
                &&& b == (CardBox {
                    id: id,
                    name: name,
                    description: description,
                    color: color,
                    icon: icon,
                    cards_count: 0,
                    sort_order: now,
                    created_at: now,
                    updated_at: now,
                })
                &&& final(self).boxes() == old(self).boxes().push(b)
                &&& final(self).cards() == old(self).cards()
            },
    {
        if self.find_box(id.as_str()).is_some() {
            return Err(StoreError::DuplicateId);
        }
        let b = CardBox {
            id: id,
            name: name,
            description: description,
            color: color,
            icon: icon,
            cards_count: 0,
            sort_order: now,
            created_at: now,
            updated_at: now,
        };
        let out = copy_box(&b);
        let ghost cs = self.cards@;
        self.boxes.push(b);
        proof {
            assert forall|i: int| 0 <= i < cs.len() implies has_box(self.boxes@, #[trigger] cs[i].box_id@) by {
                let j = choose|j: int| 0 <= j < old(self).boxes@.len() && old(self).boxes@[j].id@ == cs[i].box_id@;
                assert(self.boxes@[j] == old(self).boxes@[j]);
            }
            lemma_count_zero(cs, out.id@);
            assert(count_in(cs, out.id@) == 0) by {
                assert forall|i: int| 0 <= i < cs.len() implies cs[i].box_id@ != out.id@ by {
                    assert(has_box(old(self).boxes@, cs[i].box_id@));
                }
            }
        }
        Ok(out)
    }

    /// Adds a new empty box, with a fresh identity, ordered by its creation time.
    pub fn create_card_box(
        &mut self,
        name: String,
        description: Option<String>,
        color: Option<String>,
        icon: Option<String>,
    ) -> (r: Result<CardBox, StoreError>)
        requires
            old(self).wf(),
        ensures
            final(self).wf(),
            r is Err ==> *final(self) == *old(self),
            r matches Ok(b) ==> {
                &&& !has_box(old(self).boxes(), b.id@)
                &&& b.name == name && b.description == description && b.color == color && b.icon == icon
                &&& b.cards_count == 0 && b.sort_order == b.created_at && b.updated_at == b.created_at
                &&& final(self).boxes() == old(self).boxes().push(b)
                &&& final(self).cards() == old(self).cards()
            },
    {
        let id = new_id();
        let now = now_millis();
        self.insert_card_box(id, name, description, color, icon, now)
    }

    /// The boxes in store order.
    pub fn get_card_boxes(&self) -> (r: Vec<CardBox>)
        ensures
            r@ == self.boxes(),
    {
        let mut out: Vec<CardBox> = Vec::new();
        let mut i: usize = 0;
        while i < self.boxes.len()
            invariant
                i <= self.boxes@.len(),
                out@ == self.boxes@.subrange(0, i as int),
            decreases self.boxes@.len() - i,
        {
            out.push(copy_box(&self.boxes[i]));
            i = i + 1;
            assert(self.boxes@.subrange(0, i as int) =~= self.boxes@.subrange(0, i - 1).push(self.boxes@[i - 1]));
        }
        assert(self.boxes@.subrange(0, i as int) =~= self.boxes@);
        out
    }

    /// Deletes the box `id`; refused while it holds cards.
    pub fn delete_card_box(&mut self, id: &str) -> (r: Result<(), StoreError>)
        requires
            old(self).wf(),
        ensures
            count_in(old(self).cards(), id@) == 0 ==> r is Ok,
            final(self).wf(),
            count_in(old(self).cards(), id@) > 0 <==> r == Err::<(), StoreError>(StoreError::BoxNotEmpty),
            r is Err ==> *final(self) == *old(self),
            r is Ok ==> {
                &&& final(self).cards() == old(self).cards()
                &&& !has_box(final(self).boxes(), id@)
                &&& forall|b: CardBox| #[trigger] final(self).boxes().contains(b) <==> old(self).boxes().contains(b) && b.id@ != id@
            },
    {
        let key = id.to_owned();
        let mut n: usize = 0;
        let mut i: usize = 0;
        while i < self.cards.len()
            invariant
                i <= self.cards@.len(),
                key@ == id@,
                n as int == count_in(self.cards@.subrange(0, i as int), id@),
                n <= i,
            decreases self.cards@.len() - i,
        {
            assert(self.cards@.subrange(0, i + 1).drop_last() =~= self.cards@.subrange(0, i as int));
            if self.cards[i].box_id == key {
                n = n + 1;
            }
            i = i + 1;
        }
        assert(self.cards@.subrange(0, i as int) =~= self.cards@);
        if n > 0 {
            return Err(StoreError::BoxNotEmpty);
        }
        proof {
            lemma_count_zero(self.cards@, id@);
        }
        match self.find_box(id) {
            Some(k) => {
                let ghost bs = self.boxes@;
                self.boxes.remove(k);
                proof {
                    assert(self.boxes@ == bs.remove(k as int));
                    assert forall|i: int| 0 <= i < self.cards@.len() implies has_box(self.boxes@, #[trigger] self.cards@[i].box_id@) by {
                        let j = choose|j: int| 0 <= j < bs.len() && bs[j].id@ == self.cards@[i].box_id@;
                        assert(j != k);
                        if j < k {
                            assert(self.boxes@[j] == bs[j]);
                        } else {
                            assert(self.boxes@[j - 1] == bs[j]);
                        }
                    }
                    assert forall|j: int| 0 <= j < self.boxes@.len() implies #[trigger] self.boxes@[j].cards_count == count_in(self.cards@, self.boxes@[j].id@) by {
                        if j < k {
                            assert(self.boxes@[j] == bs[j]);
                        } else {
                            assert(self.boxes@[j] == bs[j + 1]);
                        }
                    }
                    assert(!has_box(self.boxes@, id@)) by {
                        if has_box(self.boxes@, id@) {
                            let j = choose|j: int| 0 <= j < self.boxes@.len() && self.boxes@[j].id@ == id@;
                            if j < k {
                                assert(self.boxes@[j] == bs[j]);
                            } else {
                                assert(self.boxes@[j] == bs[j + 1]);
                            }
                        }
                    }
                    assert forall|b: CardBox| #[trigger] self.boxes@.contains(b) <==> bs.contains(b) && b.id@ != id@ by {
                        if self.boxes@.contains(b) {
                            let j = choose|j: int| 0 <= j < self.boxes@.len() && self.boxes@[j] == b;
                            if j < k {
                                assert(self.boxes@[j] == bs[j]);
                            } else {
                                assert(self.boxes@[j] == bs[j + 1]);
                            }
                        }
                        if bs.contains(b) && b.id@ != id@ {
                            let j = choose|j: int| 0 <= j < bs.len() && bs[j] == b;
                            if j < k {
                                assert(self.boxes@[j] == bs[j]);
                            } else {
                                assert(self.boxes@[j - 1] == bs[j]);
                            }
                        }
                    }
                }
            },
            None => {
                assert forall|b: CardBox| #[trigger] self.boxes@.contains(b) implies b.id@ != id@ by {
                    let j = choose|j: int| 0 <= j < self.boxes@.len() && self.boxes@[j] == b;
                }
            },
        }
        Ok(())
    }

    proof fn lemma_has_box_kept(a: Seq<CardBox>, b: Seq<CardBox>, id: Seq<char>)
        requires
            boxes_kept(a, b),
        ensures
            has_box(a, id) == has_box(b, id),
    {
        if has_box(a, id) {
            let j = choose|j: int| 0 <= j < a.len() && a[j].id@ == id;
            assert(b[j].id == a[j].id);
        }
        if has_box(b, id) {
            let j = choose|j: int| 0 <= j < b.len() && b[j].id@ == id;
            assert(b[j].id == a[j].id);
        }
    }

    /// Adds a card with the given identity to box `box_id`; its preview is
    /// derived from the content, and the box counts one card more.
    pub fn insert_card(&mut self, id: String, box_id: String, title: String, content: String, now: i64) -> (r:
        Result<Card, StoreError>)
        requires
            old(self).wf(),
        ensures
            final(self).wf(),
            !has_box(old(self).boxes(), box_id@) ==> r == Err::<Card, StoreError>(StoreError::OwnerNotFound),
            has_box(old(self).boxes(), box_id@) && has_card(old(self).cards(), id@) ==> r == Err::<
                Card,
                StoreError,
            >(StoreError::DuplicateId),
            has_box(old(self).boxes(), box_id@) && !has_card(old(self).cards(), id@) ==> r is Ok,
            r is Err ==> *final(self) == *old(self),
            r matches Ok(c) ==> {
                &&& c.id == id && c.box_id == box_id && c.title == title && c.content == Some(content)
                &&& c.preview matches Some(p) && p@ == preview_of(content@)
                &&& c.color is None && c.tags is None && !c.is_pinned && !c.is_archived
                &&& c.sort_order == now && c.created_at == now && c.updated_at == now
                &&& final(self).cards().len() == old(self).cards().len() + 1
                &&& final(self).cards().drop_last() == old(self).cards()
                &&& card_eq(final(self).cards().last(), c)
                &&& boxes_kept(old(self).boxes(), final(self).boxes())
            },
    {
        let k = match self.find_box(box_id.as_str()) {
            Some(k) => k,
            None => {
                return Err(StoreError::OwnerNotFound);
            },
        };
        if self.find_card(id.as_str()).is_some() {
            return Err(StoreError::DuplicateId);
        }
        let preview = generate_preview_from_html(content.as_str());
        let row = CardIndexRow {
            card_id: id.clone(),
            title: title.clone(),
            content: Some(content.clone()),
            preview: Some(preview.clone()),
        };
        let card = Card {
            id: id,
            box_id: box_id,
            title: title,
            content: Some(content),
            preview: Some(preview),
            color: None,
            tags: None,
            is_pinned: false,
            is_archived: false,
            sort_order: now,
            created_at: now,
            updated_at: now,
        };
        let out = copy_card(&card);
        let ghost cs0 = self.cards@;
        let ghost bs0 = self.boxes@;
        self.cards.push(card);
        self.index.push(row);
        let n = self.cards.len();
        proof {
            lemma_count_bound(self.cards@, bs0[k as int].id@);
            lemma_count_push(cs0, out, bs0[k as int].id@);
        }
        let nb = recounted(&self.boxes[k], self.boxes[k].cards_count + 1, now);
        self.boxes.set(k, nb);
        proof {
            assert(self.cards@ == cs0.push(self.cards@.last()));
            assert forall|j: int| 0 <= j < self.boxes@.len() implies #[trigger] self.boxes@[j].cards_count == count_in(self.cards@, self.boxes@[j].id@) by {
                lemma_count_push(cs0, self.cards@.last(), bs0[j].id@);
                if j != k {
                    assert(self.boxes@[j] == bs0[j]);
                }
            }
            assert(boxes_kept(bs0, self.boxes@));
            assert forall|i: int| 0 <= i < self.cards@.len() implies has_box(self.boxes@, #[trigger] self.cards@[i].box_id@) by {
                Self::lemma_has_box_kept(bs0, self.boxes@, self.cards@[i].box_id@);
                if i < cs0.len() {
                    assert(self.cards@[i] == cs0[i]);
                } else {
                    assert(self.boxes@[k as int].id@ == self.cards@[i].box_id@);
                }
            }
            assert forall|i: int| 0 <= i < self.cards@.len() implies mirrors(#[trigger] self.index@[i], self.cards@[i]) by {
                if i < cs0.len() {
                    assert(self.cards@[i] == cs0[i]);
                    assert(self.index@[i] == old(self).index@[i]);
                }
            }
            assert(self.cards@.drop_last() =~= cs0);
        }
        Ok(out)
    }

    /// Adds a card with a fresh identity to box `box_id`.
    pub fn create_card(&mut self, box_id: String, title: String, content: String) -> (r: Result<Card, StoreError>)
        requires
            old(self).wf(),
        ensures
            final(self).wf(),
            !has_box(old(self).boxes(), box_id@) ==> r == Err::<Card, StoreError>(StoreError::OwnerNotFound),
            r is Err ==> *final(self) == *old(self),
            r matches Ok(c) ==> {
                &&& c.box_id == box_id && c.title == title && c.content == Some(content)
                &&& c.preview matches Some(p) && p@ == preview_of(content@)
                &&& c.color is None && c.tags is None && !c.is_pinned && !c.is_archived
                &&& c.sort_order == c.created_at && c.updated_at == c.created_at
                &&& !has_card(old(self).cards(), c.id@)
                &&& final(self).cards().len() == old(self).cards().len() + 1
                &&& final(self).cards().drop_last() == old(self).cards()
                &&& card_eq(final(self).cards().last(), c)
                &&& boxes_kept(old(self).boxes(), final(self).boxes())
            },
    {
        let id = new_id();
        let now = now_millis();
        self.insert_card(id, box_id, title, content, now)
    }

    /// Deletes the card `id`, if present; its box counts one card less.
    pub fn delete_card(&mut self, id: &str)
        requires
            old(self).wf(),
        ensures
            final(self).wf(),
            !has_card(final(self).cards(), id@),
            !has_card(old(self).cards(), id@) ==> *final(self) == *old(self),
            has_card(old(self).cards(), id@) ==> exists|i: int|
                0 <= i < old(self).cards().len() && old(self).cards()[i].id@ == id@ && final(self).cards()
                    == old(self).cards().remove(i),
            boxes_kept(old(self).boxes(), final(self).boxes()),
    {
        let i = match self.find_card(id) {
            Some(i) => i,
            None => {
                return;
            },
        };
        let ghost cs0 = self.cards@;
        let ghost bs0 = self.boxes@;
        let ghost c = cs0[i as int];
        assert(has_box(bs0, c.box_id@));
        let k = match self.find_box(self.cards[i].box_id.as_str()) {
            Some(k) => k,
            None => {
                return;
            },
        };
        self.cards.remove(i);
        self.index.remove(i);
        let now = now_millis();
        proof {
            lemma_count_remove(cs0, i as int, bs0[k as int].id@);
        }
        let nb = recounted(&self.boxes[k], self.boxes[k].cards_count - 1, now);
        self.boxes.set(k, nb);
        proof {
            assert(self.cards@ == cs0.remove(i as int));
            assert forall|j: int| 0 <= j < self.boxes@.len() implies #[trigger] self.boxes@[j].cards_count == count_in(self.cards@, self.boxes@[j].id@) by {
                lemma_count_remove(cs0, i as int, bs0[j].id@);
                if j != k {
                    assert(self.boxes@[j] == bs0[j]);
                }
            }
            assert(boxes_kept(bs0, self.boxes@));
            assert forall|q: int| 0 <= q < self.cards@.len() implies has_box(self.boxes@, #[trigger] self.cards@[q].box_id@) by {
                Self::lemma_has_box_kept(bs0, self.boxes@, self.cards@[q].box_id@);
                if q < i {
                    assert(self.cards@[q] == cs0[q]);
                } else {
                    assert(self.cards@[q] == cs0[q + 1]);
                }
            }
            assert forall|q: int| 0 <= q < self.cards@.len() implies mirrors(#[trigger] self.index@[q], self.cards@[q]) by {
                if q < i {
                    assert(self.cards@[q] == cs0[q]);
                    assert(self.index@[q] == old(self).index@[q]);
                } else {
                    assert(self.cards@[q] == cs0[q + 1]);
                    assert(self.index@[q] == old(self).index@[q + 1]);
                }
            }
            assert forall|a: int, b: int| 0 <= a < b < self.cards@.len() implies self.cards@[a].id@ != self.cards@[b].id@ by {
                let a0 = if a < i { a } else { a + 1 };
                let b0 = if b < i { b } else { b + 1 };
                assert(self.cards@[a] == cs0[a0]);
                assert(self.cards@[b] == cs0[b0]);
            }
            assert(!has_card(self.cards@, id@)) by {
                if has_card(self.cards@, id@) {
                    let q = choose|q: int| 0 <= q < self.cards@.len() && self.cards@[q].id@ == id@;
                    let q0 = if q < i { q } else { q + 1 };
                    assert(self.cards@[q] == cs0[q0]);
                }
            }
        }
    }

    /// Moves card `card_id` into box `target_box_id` at time `now`; both
    /// boxes' counters follow.
    pub fn move_card(&mut self, card_id: &str, target_box_id: &str, now: i64) -> (r: Result<(), StoreError>)
        requires
            old(self).wf(),
        ensures
            r is Ok <==> !(has_card(old(self).cards(), card_id@) && !has_box(old(self).boxes(), target_box_id@)),
            final(self).wf(),
            has_card(old(self).cards(), card_id@) && !has_box(old(self).boxes(), target_box_id@) <==> r == Err::<
                (),
                StoreError,
            >(StoreError::OwnerNotFound),
            r is Err || !has_card(old(self).cards(), card_id@) ==> *final(self) == *old(self),
            r is Ok && has_card(old(self).cards(), card_id@) ==> exists|i: int|
                0 <= i < old(self).cards().len() && old(self).cards()[i].id@ == card_id@ && final(self).cards().len()
                    == old(self).cards().len() && (forall|q: int|
                    0 <= q < final(self).cards().len() && q != i ==> #[trigger] final(self).cards()[q]
                        == old(self).cards()[q]) && final(self).cards()[i].box_id@ == target_box_id@ && ({
                    let (a, b) = (final(self).cards()[i], old(self).cards()[i]);
                    a.id == b.id && a.title == b.title && a.content == b.content && a.preview == b.preview
                        && a.updated_at == now
                }),
            boxes_kept(old(self).boxes(), final(self).boxes()),
    {
        let i = match self.find_card(card_id) {
            Some(i) => i,
            None => {
                return Ok(());
            },
        };
        let t = match self.find_box(target_box_id) {
            Some(t) => t,
            None => {
                return Err(StoreError::OwnerNotFound);
            },
        };
        let ghost cs0 = self.cards@;
        let ghost bs0 = self.boxes@;
        let ghost c = cs0[i as int];
        assert(has_box(bs0, c.box_id@));
        let k = match self.find_box(self.cards[i].box_id.as_str()) {
            Some(k) => k,
            None => {
                return Ok(());
            },
        };
        let old_card = &self.cards[i];
        let moved = Card {
            id: old_card.id.clone(),
            box_id: self.boxes[t].id.clone(),
            title: old_card.title.clone(),
            content: copy_opt(&old_card.content),
            preview: copy_opt(&old_card.preview),
            color: copy_opt(&old_card.color),
            tags: copy_tags(&old_card.tags),
            is_pinned: old_card.is_pinned,
            is_archived: old_card.is_archived,
            sort_order: old_card.sort_order,
            created_at: old_card.created_at,
            updated_at: now,
        };
        self.cards.set(i, moved);
        proof {
            assert(self.cards@ == cs0.update(i as int, self.cards@[i as int]));
            assert forall|q: int| 0 <= q < self.cards@.len() implies mirrors(#[trigger] self.index@[q], self.cards@[q]) by {
                if q != i {
                    assert(self.cards@[q] == cs0[q]);
                }
            }
            assert forall|a: int, b: int| 0 <= a < b < self.cards@.len() implies self.cards@[a].id@ != self.cards@[b].id@ by {
                assert(self.cards@[a].id == cs0[a].id);
                assert(self.cards@[b].id == cs0[b].id);
            }
        }
        if k != t {
            proof {
                lemma_count_update(cs0, i as int, self.cards@[i as int], bs0[k as int].id@);
                lemma_count_update(cs0, i as int, self.cards@[i as int], bs0[t as int].id@);
                lemma_count_bound(self.cards@, bs0[t as int].id@);
            }
            let n = self.cards.len();
            let nk = recounted(&self.boxes[k], self.boxes[k].cards_count - 1, now);
            self.boxes.set(k, nk);
            let nt = recounted(&self.boxes[t], self.boxes[t].cards_count + 1, now);
            self.boxes.set(t, nt);
        }
        proof {
            assert forall|j: int| 0 <= j < self.boxes@.len() implies #[trigger] self.boxes@[j].cards_count == count_in(self.cards@, self.boxes@[j].id@) by {
                lemma_count_update(cs0, i as int, self.cards@[i as int], bs0[j].id@);
                if j != k && j != t {
                    assert(self.boxes@[j] == bs0[j]);
                }
            }
            assert(boxes_kept(bs0, self.boxes@));
            assert forall|q: int| 0 <= q < self.cards@.len() implies has_box(self.boxes@, #[trigger] self.cards@[q].box_id@) by {
                Self::lemma_has_box_kept(bs0, self.boxes@, self.cards@[q].box_id@);
                if q != i {
                    assert(self.cards@[q] == cs0[q]);
                } else {
                    assert(bs0[t as int].id@ == self.cards@[q].box_id@);
                }
            }
        }
        Ok(())
    }

    /// Applies the present fields of `updates` to card `id` at time `now`;
    /// a new content brings a new preview, and the index row follows.
    pub fn update_card(&mut self, id: &str, updates: CardUpdate, now: i64)
        requires
            old(self).wf(),
        ensures
            final(self).wf(),
            final(self).boxes() == old(self).boxes(),
            !has_card(old(self).cards(), id@) ==> *final(self) == *old(self),
            has_card(old(self).cards(), id@) ==> exists|i: int|
                0 <= i < old(self).cards().len() && old(self).cards()[i].id@ == id@ && final(self).cards().len()
                    == old(self).cards().len() && (forall|q: int|
                    0 <= q < final(self).cards().len() && q != i ==> #[trigger] final(self).cards()[q]
                        == old(self).cards()[q]) && updated_card(
                    final(self).cards()[i],
                    old(self).cards()[i],
                    updates,
                    now,
                ),
    {
        let i = match self.find_card(id) {
            Some(i) => i,
            None => {
                return;
            },
        };
        let ghost u = updates;
        let ghost cs0 = self.cards@;
        let touched = updates.title.is_some() || updates.content.is_some() || updates.color.is_some()
            || updates.tags.is_some() || updates.is_pinned.is_some() || updates.is_archived.is_some()
            || updates.sort_order.is_some();
        let c = &self.cards[i];
        let title = match updates.title {
            Some(t) => t,
            None => c.title.clone(),
        };
        let (content, preview) = match updates.content {
            Some(body) => {
                let p = generate_preview_from_html(body.as_str());
                (Some(body), Some(p))
            },
            None => (copy_opt(&c.content), copy_opt(&c.preview)),
        };
        let color = match updates.color {
            Some(x) => Some(x),
            None => copy_opt(&c.color),
        };
        let tags = match updates.tags {
            Some(x) => Some(x),
            None => copy_tags(&c.tags),
        };
        let is_pinned = match updates.is_pinned {
            Some(x) => x,
            None => c.is_pinned,
        };
        let is_archived = match updates.is_archived {
            Some(x) => x,
            None => c.is_archived,
        };
        let sort_order = match updates.sort_order {
            Some(x) => x,
            None => c.sort_order,
        };
        let updated_at = if touched {
            now
        } else {
            c.updated_at
        };
        let row = CardIndexRow {
            card_id: c.id.clone(),
            title: title.clone(),
            content: copy_opt(&content),
            preview: copy_opt(&preview),
        };
        let nc = Card {
            id: c.id.clone(),
            box_id: c.box_id.clone(),
            title: title,
            content: content,
            preview: preview,
            color: color,
            tags: tags,
            is_pinned: is_pinned,
            is_archived: is_archived,
            sort_order: sort_order,
            created_at: c.created_at,
            updated_at: updated_at,
        };
        self.cards.set(i, nc);
        self.index.set(i, row);
        proof {
            assert(self.cards@ == cs0.update(i as int, self.cards@[i as int]));
            assert forall|j: int| 0 <= j < self.boxes@.len() implies #[trigger] self.boxes@[j].cards_count == count_in(self.cards@, self.boxes@[j].id@) by {
                lemma_count_update(cs0, i as int, self.cards@[i as int], self.boxes@[j].id@);
            }
            assert forall|q: int| 0 <= q < self.cards@.len() implies has_box(self.boxes@, #[trigger] self.cards@[q].box_id@) by {
                if q != i {
                    assert(self.cards@[q] == cs0[q]);
                } else {
                    assert(has_box(self.boxes@, cs0[q].box_id@));
                }
            }
            assert forall|q: int| 0 <= q < self.cards@.len() implies mirrors(#[trigger] self.index@[q], self.cards@[q]) by {
                if q != i {
                    assert(self.cards@[q] == cs0[q]);
                    assert(self.index@[q] == old(self).index@[q]);
                }
            }
            assert forall|a: int, b: int| 0 <= a < b < self.cards@.len() implies self.cards@[a].id@ != self.cards@[b].id@ by {
                assert(self.cards@[a].id == cs0[a].id);
                assert(self.cards@[b].id == cs0[b].id);
            }
        }
    }

    /// The card `card_id`, if present.
    pub fn get_card_by_id(&self, card_id: &str) -> (r: Option<Card>)
        requires
            self.wf(),
        ensures
            r is Some <==> has_card(self.cards(), card_id@),
            r matches Some(c) ==> c.id@ == card_id@ && exists|i: int|
                0 <= i < self.cards().len() && card_eq(c, self.cards()[i]),
    {
        match self.find_card(card_id) {
            Some(i) => {
                let c = copy_card(&self.cards[i]);
                assert(card_eq(c, self.cards()[i as int]));
                assert(c.id@ == card_id@);
                assert(exists|j: int| 0 <= j < self.cards().len() && card_eq(c, self.cards()[j]));
                Some(c)
            },
            None => None,
        }
    }

    /// The cards that are not archived, of box `box_id` when one is given:
    /// pinned cards first, then by sort key, then newest first.
    pub fn get_cards(&self, box_id: Option<&str>) -> (r: Vec<Card>)
        requires
            self.wf(),
        ensures
            card_ids_distinct(r@),
            cards_ordered(r@, false),
            r@.len() == listed_upto(self.cards(), opt_str_view(box_id), self.cards().len() as int).len(),
            same_cards(r@, listed_upto(self.cards(), opt_str_view(box_id), self.cards().len() as int)),
    {
        let key: Option<String> = match box_id {
            Some(b) => Some(b.to_owned()),
            None => None,
        };
        let ghost bv = opt_str_view(box_id);
        let mut out: Vec<Card> = Vec::new();
        let mut i: usize = 0;
        while i < self.cards.len()
            invariant
                i <= self.cards@.len(),
                self.wf(),
                card_ids_distinct(out@),
                forall|k: int| 0 <= k < out@.len() ==> exists|j: int| 0 <= j < i && (#[trigger] out@[k]).id == self.cards@[j].id,
                bv == opt_str_view(box_id),
                bv == opt_view(key),
                out@.len() == listed_upto(self.cards@, bv, i as int).len(),
                forall|k: int| 0 <= k < out@.len() ==> card_eq(#[trigger] out@[k], listed_upto(self.cards@, bv, i as int)[k]),
            decreases self.cards@.len() - i,
        {
            let c = &self.cards[i];
            let in_box = match &key {
                Some(b) => c.box_id == *b,
                None => true,
            };
            let ghost before = listed_upto(self.cards@, bv, i as int);
            if !c.is_archived && in_box {
                let ghost old_out = out@;
                out.push(copy_card(c));
                proof {
                    assert forall|a: int, b: int| 0 <= a < b < out@.len() implies out@[a].id@ != out@[b].id@ by {
                        if b == out@.len() - 1 {
                            assert(out@[a] == old_out[a]);
                            let j = choose|j: int| 0 <= j < i && (#[trigger] old_out[a]).id == self.cards@[j].id;
                        } else {
                            assert(out@[a] == old_out[a] && out@[b] == old_out[b]);
                        }
                    }
                    assert forall|k: int| 0 <= k < out@.len() implies exists|j: int| 0 <= j < i + 1 && (#[trigger] out@[k]).id == self.cards@[j].id by {
                        if k < old_out.len() {
                            assert(out@[k] == old_out[k]);
                            let j = choose|j: int| 0 <= j < i && (#[trigger] old_out[k]).id == self.cards@[j].id;
                        } else {
                            assert(out@[k].id == self.cards@[i as int].id);
                        }
                    }
                }
                assert(listed_upto(self.cards@, bv, i + 1) == before + seq![self.cards@[i as int]]);
            } else {
                assert(listed_upto(self.cards@, bv, i + 1) =~= before);
            }
            i = i + 1;
        }
        let ghost o = out@;
        let r = sort_cards(out, false);
        proof {
            lemma_same_cards(r@, o, listed_upto(self.cards@, bv, self.cards@.len() as int));
        }
        r
    }

    /// The cards that are not archived and whose title, content or preview
    /// holds `query`: pinned cards first, then most recently updated first.
    pub fn search_cards(&self, query: &str) -> (r: Vec<Card>)
        requires
            self.wf(),
        ensures
            card_ids_distinct(r@),
            cards_ordered(r@, true),
            r@.len() == hits_upto(self.cards(), self.index(), query@, self.cards().len() as int).len(),
            same_cards(r@, hits_upto(self.cards(), self.index(), query@, self.cards().len() as int)),
    {
        let q = chars_of(query);
        let mut out: Vec<Card> = Vec::new();
        let mut i: usize = 0;
        while i < self.cards.len()
            invariant
                i <= self.cards@.len(),
                self.wf(),
                card_ids_distinct(out@),
                forall|k: int| 0 <= k < out@.len() ==> exists|j: int| 0 <= j < i && (#[trigger] out@[k]).id == self.cards@[j].id,
                self.wf(),
                q@ == query@,
                out@.len() == hits_upto(self.cards@, self.index@, query@, i as int).len(),
                forall|k: int| 0 <= k < out@.len() ==> card_eq(#[trigger] out@[k], hits_upto(self.cards@, self.index@, query@, i as int)[k]),
            decreases self.cards@.len() - i,
        {
            let row = &self.index[i];
            let t = chars_of(row.title.as_str());
            let hit = contains_chars(&t, &q) || opt_contains(&row.content, &q) || opt_contains(&row.preview, &q);
            let ghost before = hits_upto(self.cards@, self.index@, query@, i as int);
            if !self.cards[i].is_archived && hit {
                let ghost old_out = out@;
                out.push(copy_card(&self.cards[i]));
                proof {
                    assert forall|a: int, b: int| 0 <= a < b < out@.len() implies out@[a].id@ != out@[b].id@ by {
                        if b == out@.len() - 1 {
                            assert(out@[a] == old_out[a]);
                            let j = choose|j: int| 0 <= j < i && (#[trigger] old_out[a]).id == self.cards@[j].id;
                        } else {
                            assert(out@[a] == old_out[a] && out@[b] == old_out[b]);
                        }
                    }
                    assert forall|k: int| 0 <= k < out@.len() implies exists|j: int| 0 <= j < i + 1 && (#[trigger] out@[k]).id == self.cards@[j].id by {
                        if k < old_out.len() {
                            assert(out@[k] == old_out[k]);
                            let j = choose|j: int| 0 <= j < i && (#[trigger] old_out[k]).id == self.cards@[j].id;
                        } else {
                            assert(out@[k].id == self.cards@[i as int].id);
                        }
                    }
                }
                assert(hits_upto(self.cards@, self.index@, query@, i + 1) == before + seq![self.cards@[i as int]]);
            } else {
                assert(hits_upto(self.cards@, self.index@, query@, i + 1) =~= before);
            }
            i = i + 1;
        }
        let ghost o = out@;
        let r = sort_cards(out, true);
        proof {
            lemma_same_cards(r@, o, hits_upto(self.cards@, self.index@, query@, self.cards@.len() as int));
        }
        r
    }

    /// Applies the present fields of `updates` to box `id` at time `now`.
    pub fn update_card_box(&mut self, id: &str, updates: CardBoxUpdate, now: i64)
        requires
            old(self).wf(),
        ensures
            final(self).wf(),
            final(self).cards() == old(self).cards(),
            final(self).index() == old(self).index(),
            final(self).boxes().len() == old(self).boxes().len(),
            forall|i: int|
                0 <= i < old(self).boxes().len() ==> #[trigger] final(self).boxes()[i] == if old(self).boxes()[i].id@ == id@ {
                    box_updated(old(self).boxes()[i], updates, now)
                } else {
                    old(self).boxes()[i]
                },
    {
        let k = match self.find_box(id) {
            Some(k) => k,
            None => {
                return;
            },
        };
        let ghost b0 = self.boxes@;
        let touched = updates.name.is_some() || updates.description.is_some() || updates.color.is_some()
            || updates.icon.is_some() || updates.sort_order.is_some();
        let b = &self.boxes[k];
        let nb = CardBox {
            id: b.id.clone(),
            name: match updates.name {
                Some(x) => x,
                None => b.name.clone(),
            },
            description: if updates.description.is_some() { updates.description } else { copy_opt(&b.description) },
            color: if updates.color.is_some() { updates.color } else { copy_opt(&b.color) },
            icon: if updates.icon.is_some() { updates.icon } else { copy_opt(&b.icon) },
            cards_count: b.cards_count,
            sort_order: match updates.sort_order {
                Some(x) => x,
                None => b.sort_order,
            },
            created_at: b.created_at,
            updated_at: if touched { now } else { b.updated_at },
        };
        self.boxes.set(k, nb);
        proof {
            let bs = self.boxes@;
            assert forall|a: int| 0 <= a < b0.len() && a != k implies b0[a].id@ != id@ by {
                if a < k { assert(b0[a].id@ != b0[k as int].id@); } else { assert(b0[k as int].id@ != b0[a].id@); }
            }
            assert forall|a: int, c: int| 0 <= a < c < bs.len() implies bs[a].id@ != bs[c].id@ by {
                assert(bs[a].id == b0[a].id && bs[c].id == b0[c].id);
            }
            assert forall|a: int| 0 <= a < self.cards@.len() implies has_box(bs, #[trigger] self.cards@[a].box_id@) by {
                let j = choose|j: int| 0 <= j < b0.len() && b0[j].id@ == self.cards@[a].box_id@;
                assert(bs[j].id == b0[j].id);
            }
            assert forall|j: int| 0 <= j < bs.len() implies #[trigger] bs[j].cards_count == count_in(self.cards@, bs[j].id@) by {
                assert(bs[j].cards_count == b0[j].cards_count && bs[j].id == b0[j].id);
            }
        }
    }

    /// What every well-formed store satisfies: box and card identities are
    /// unique, each card's box is stored, each box counts exactly its cards,
    /// and each card has one mirroring index row.
    pub proof fn lemma_wf_facts(&self)
        requires
            self.wf(),
        ensures
            forall|i: int, j: int| 0 <= i < j < self.boxes().len() ==> self.boxes()[i].id@ != self.boxes()[j].id@,
            forall|i: int, j: int| 0 <= i < j < self.cards().len() ==> self.cards()[i].id@ != self.cards()[j].id@,
            forall|i: int| 0 <= i < self.cards().len() ==> has_box(self.boxes(), #[trigger] self.cards()[i].box_id@),
            self.index().len() == self.cards().len(),
            forall|i: int| 0 <= i < self.cards().len() ==> mirrors(#[trigger] self.index()[i], self.cards()[i]),
    {
    }
}

proof fn lemma_hits(cs: Seq<Card>, rows: Seq<CardIndexRow>, q: Seq<char>, n: int)
    requires
        0 <= n <= cs.len(),
        n <= rows.len(),
    ensures
        forall|k: int|
            0 <= k < hits_upto(cs, rows, q, n).len() ==> exists|j: int|
                0 <= j < n && #[trigger] hits_upto(cs, rows, q, n)[k] == cs[j],
        forall|j: int|
            0 <= j < n && !cs[j].is_archived && row_matches(rows[j], q) ==> hits_upto(cs, rows, q, n).contains(
                #[trigger] cs[j],
            ),
    decreases n,
{
    if n > 0 {
        lemma_hits(cs, rows, q, n - 1);
        let h0 = hits_upto(cs, rows, q, n - 1);
        let h = hits_upto(cs, rows, q, n);
        assert forall|k: int| 0 <= k < h.len() implies exists|j: int| 0 <= j < n && #[trigger] h[k] == cs[j] by {
            if k < h0.len() {
                assert(h[k] == h0[k]);
                let j = choose|j: int| 0 <= j < n - 1 && h0[k] == cs[j];
            } else {
                assert(h[k] == cs[n - 1]);
            }
        }
        assert forall|j: int| 0 <= j < n && !cs[j].is_archived && row_matches(rows[j], q) implies h.contains(#[trigger] cs[j]) by {
            if j < n - 1 {
                let k = choose|k: int| 0 <= k < h0.len() && h0[k] == cs[j];
                assert(h[k] == h0[k]);
            } else {
                assert(h[h.len() - 1] == cs[j]);
            }
        }
    }
}

/// Every box's counter equals the number of cards that belong to it, in
/// every state that the store's operations reach.
pub proof fn lemma_card_counts(s: &CardStore)
    requires
        s.wf(),
    ensures
        forall|j: int|
            0 <= j < s.boxes().len() ==> #[trigger] s.boxes()[j].cards_count == count_in(s.cards(), s.boxes()[j].id@),
{
}

/// A search for text that occurs in the title, content or preview of a card
/// that is not archived finds that card.
pub proof fn lemma_search_finds_card(s: &CardStore, q: Seq<char>, i: int)
    requires
        s.wf(),
        0 <= i < s.cards().len(),
        !s.cards()[i].is_archived,
        contains_seq(s.cards()[i].title@, q) || (s.cards()[i].content matches Some(c) && contains_seq(c@, q))
            || (s.cards()[i].preview matches Some(p) && contains_seq(p@, q)),
    ensures
        hits_upto(s.cards(), s.index(), q, s.cards().len() as int).contains(s.cards()[i]),
{
    assert(mirrors(s.index()[i], s.cards()[i]));
    assert(row_matches(s.index()[i], q));
    lemma_hits(s.cards(), s.index(), q, s.cards().len() as int);
}

/// A search never returns a card whose identity is not in the store, so a
/// deleted card stops being found.
pub proof fn lemma_search_only_stored(s: &CardStore, q: Seq<char>, id: Seq<char>)
    requires
        s.wf(),
        !has_card(s.cards(), id),
    ensures
        forall|k: int|
            0 <= k < hits_upto(s.cards(), s.index(), q, s.cards().len() as int).len() ==> (#[trigger] hits_upto(
                s.cards(),
                s.index(),
                q,
                s.cards().len() as int,
            )[k]).id@ != id,
{
    lemma_hits(s.cards(), s.index(), q, s.cards().len() as int);
}

} // verus!
