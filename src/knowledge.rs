//! Knowledge bases and their trees of pages and blocks: ordered siblings,
//! soft deletion that cascades through a subtree, breadcrumbs, moves that
//! never create a cycle, and hard deletion of a whole knowledge base.
use vstd::prelude::*;
use crate::chars::{chars_of, copy_opt, opt_str_view, opt_view};
use crate::clock::{new_id, now_millis};
use crate::error::StoreError;
use crate::cardbox::{contains_chars, contains_seq};
use crate::preview::{trim, trim_range};

verus! {

/// The root of a tree of pages.
pub struct KnowledgeBase {
    pub id: String,
    pub name: String,
    pub icon: String,
    pub description: Option<String>,
    pub created_at: i64,
    pub updated_at: i64,
}

/// A page of a knowledge base.
pub struct Page {
    pub id: String,
    pub kb_id: String,
    pub title: String,
    pub content: Option<String>,
    pub parent_id: Option<String>,
    /// Position among its siblings.
    pub sort_order: i64,
    pub is_deleted: bool,
    pub created_at: i64,
    pub updated_at: i64,
}

/// A block of content on a page.
pub struct Block {
    pub id: String,
    pub page_id: String,
    pub block_type: String,
    pub content: String,
    /// Structured data, serialised.
    pub data: String,
    pub parent_id: Option<String>,
    /// Position among its siblings.
    pub sort_order: i64,
    pub is_deleted: bool,
    pub created_at: i64,
    pub updated_at: i64,
}

/// A saved version of a page's content.
pub struct PageVersion {
    pub id: String,
    pub page_id: String,
    pub content: String,
    pub version: i32,
    pub created_at: i64,
    pub created_by: Option<String>,
}

/// Knowledge bases, pages, blocks and saved page versions.
pub struct KnowledgeStore {
    kbs: Vec<KnowledgeBase>,
    pages: Vec<Page>,
    blocks: Vec<Block>,
    versions: Vec<PageVersion>,
}

pub open spec fn has_kb(kbs: Seq<KnowledgeBase>, id: Seq<char>) -> bool {
    exists|j: int| 0 <= j < kbs.len() && kbs[j].id@ == id
}

pub open spec fn has_page(ps: Seq<Page>, id: Seq<char>) -> bool {
    exists|j: int| 0 <= j < ps.len() && ps[j].id@ == id
}

pub open spec fn has_page_in(ps: Seq<Page>, id: Seq<char>, kb: Seq<char>) -> bool {
    exists|j: int| 0 <= j < ps.len() && ps[j].id@ == id && ps[j].kb_id@ == kb
}

pub open spec fn has_block(bs: Seq<Block>, id: Seq<char>) -> bool {
    exists|j: int| 0 <= j < bs.len() && bs[j].id@ == id
}

/// The first index from `k` on of a page with identity `id`, or -1.
pub open spec fn page_index_from(ps: Seq<Page>, id: Seq<char>, k: int) -> int
    decreases ps.len() - k,
{
    if k < 0 || k >= ps.len() {
        -1
    } else if ps[k].id@ == id {
        k
    } else {
        page_index_from(ps, id, k + 1)
    }
}

/// The index of the page with identity `id`, or -1.
pub open spec fn page_index(ps: Seq<Page>, id: Seq<char>) -> int {
    page_index_from(ps, id, 0)
}

/// The index of the parent of page `i`, or -1 when it has none in `ps`.
pub open spec fn parent_index(ps: Seq<Page>, i: int) -> int {
    match ps[i].parent_id {
        Some(pid) => page_index(ps, pid@),
        None => -1,
    }
}

/// Page `i` is the page with identity `t`, or a descendant of it through at
/// most `n` parent links.
pub open spec fn within(ps: Seq<Page>, i: int, t: Seq<char>, n: int) -> bool
    decreases n,
{
    if ps[i].id@ == t {
        true
    } else if n <= 0 {
        false
    } else {
        parent_index(ps, i) >= 0 && within(ps, parent_index(ps, i), t, n - 1)
    }
}

proof fn lemma_page_index_from(ps: Seq<Page>, id: Seq<char>, k: int)
    requires
        0 <= k,
    ensures
        -1 <= page_index_from(ps, id, k) < ps.len(),
        page_index_from(ps, id, k) >= 0 ==> page_index_from(ps, id, k) >= k && ps[page_index_from(ps, id, k)].id@ == id,
        page_index_from(ps, id, k) < 0 ==> forall|j: int| k <= j < ps.len() ==> ps[j].id@ != id,
    decreases ps.len() - k,
{
    if k < ps.len() && ps[k].id@ != id {
        lemma_page_index_from(ps, id, k + 1);
    }
}

/// Page `i` lies in the subtree rooted at the page with identity `t`.
pub open spec fn in_subtree(ps: Seq<Page>, i: int, t: Seq<char>) -> bool {
    within(ps, i, t, ps.len() as int)
}

/// The siblings of a new page: the pages of `kb` under `parent`, or at the
/// top level of `kb` when there is no parent.
pub open spec fn is_sibling(p: Page, kb: Seq<char>, parent: Option<Seq<char>>) -> bool {
    p.kb_id@ == kb && opt_view(p.parent_id) == parent
}

/// The saved versions among the first `n` of `vs` that belong to page `p`.
pub open spec fn versions_of(vs: Seq<PageVersion>, p: Seq<char>, n: int) -> Seq<PageVersion>
    decreases n,
{
    if n <= 0 {
        seq![]
    } else {
        versions_of(vs, p, n - 1) + if vs[n - 1].page_id@ == p {
            seq![vs[n - 1]]
        } else {
            seq![]
        }
    }
}

/// The content of a page that has none yet: an empty editor document.
pub const EMPTY_DOCUMENT: &'static str = "{\"time\":0,\"blocks\":[],\"version\":\"2.30.8\"}";

/// The greatest sort key among the first `n` pages of `ps` that satisfy
/// `is_sibling`, or 0 when there is none.
pub open spec fn max_sibling_key(ps: Seq<Page>, kb: Seq<char>, parent: Option<Seq<char>>, n: int) -> int
    decreases n,
{
    if n <= 0 {
        0
    } else {
        let m = max_sibling_key(ps, kb, parent, n - 1);
        if is_sibling(ps[n - 1], kb, parent) && ps[n - 1].sort_order > m {
            ps[n - 1].sort_order as int
        } else {
            m
        }
    }
}

/// The key after `m`, kept within range.
pub open spec fn next_key(m: int) -> i64 {
    if m < i64::MAX { (m + 1) as i64 } else { i64::MAX }
}

fn copy_page(p: &Page) -> (r: Page)
    ensures
        r == *p,
{
    Page {
        id: p.id.clone(),
        kb_id: p.kb_id.clone(),
        title: p.title.clone(),
        content: copy_opt(&p.content),
        parent_id: copy_opt(&p.parent_id),
        sort_order: p.sort_order,
        is_deleted: p.is_deleted,
        created_at: p.created_at,
        updated_at: p.updated_at,
    }
}

fn copy_block(b: &Block) -> (r: Block)
    ensures
        r == *b,
{
    Block {
        id: b.id.clone(),
        page_id: b.page_id.clone(),
        block_type: b.block_type.clone(),
        content: b.content.clone(),
        data: b.data.clone(),
        parent_id: copy_opt(&b.parent_id),
        sort_order: b.sort_order,
        is_deleted: b.is_deleted,
        created_at: b.created_at,
        updated_at: b.updated_at,
    }
}

fn copy_kb(k: &KnowledgeBase) -> (r: KnowledgeBase)
    ensures
        r == *k,
{
    KnowledgeBase {
        id: k.id.clone(),
        name: k.name.clone(),
        icon: k.icon.clone(),
        description: copy_opt(&k.description),
        created_at: k.created_at,
        updated_at: k.updated_at,
    }
}

/// The parent of `p`, if any, is a page of the same knowledge base.
pub open spec fn parent_ok(ps: Seq<Page>, p: Page) -> bool {
    match p.parent_id {
        Some(pid) => has_page_in(ps, pid@, p.kb_id@),
        None => true,
    }
}

/// `a` equals `b` but for the deletion flag, which may have been set.
pub open spec fn same_but_deleted(a: Page, b: Page) -> bool {
    a.id == b.id && a.kb_id == b.kb_id && a.title == b.title && a.content == b.content && a.parent_id
        == b.parent_id && a.sort_order == b.sort_order && a.created_at == b.created_at
}

/// `j` is the index of the parent of page `a`, if it has one in `ps`.
pub open spec fn parent_index_ok(ps: Seq<Page>, a: int, j: Option<usize>) -> bool {
    match j {
        Some(k) => k < ps.len() && k as int == parent_index(ps, a),
        None => parent_index(ps, a) < 0,
    }
}

/// `a` equals `b` but for the deletion flag and update time.
pub open spec fn block_same_but_deleted(a: Block, b: Block) -> bool {
    a.id == b.id && a.page_id == b.page_id && a.block_type == b.block_type && a.content == b.content
        && a.data == b.data && a.parent_id == b.parent_id && a.sort_order == b.sort_order && a.created_at
        == b.created_at
}

/// `parent` is the parent of `child`.
pub open spec fn is_parent_of(parent: Page, child: Page) -> bool {
    match child.parent_id {
        Some(pid) => pid@ == parent.id@,
        None => false,
    }
}

/// `bs` is ordered by sort key.
pub open spec fn blocks_sorted(bs: Seq<Block>) -> bool {
    forall|a: int, b: int| 0 <= a < b < bs.len() ==> bs[a].sort_order <= bs[b].sort_order
}

/// The siblings of a new block: the blocks under `parent`, or the top-level
/// blocks of `page` when there is no parent.
pub open spec fn is_block_sibling(b: Block, page: Seq<char>, parent: Option<Seq<char>>) -> bool {
    match parent {
        Some(p) => opt_view(b.parent_id) == Some(p),
        None => b.page_id@ == page && b.parent_id is None,
    }
}

/// The greatest sort key among the first `n` blocks of `bs` that satisfy
/// `is_block_sibling`, or 0 when there is none.
pub open spec fn max_block_key(bs: Seq<Block>, page: Seq<char>, parent: Option<Seq<char>>, n: int) -> int
    decreases n,
{
    if n <= 0 {
        0
    } else {
        let m = max_block_key(bs, page, parent, n - 1);
        if is_block_sibling(bs[n - 1], page, parent) && bs[n - 1].sort_order > m {
            bs[n - 1].sort_order as int
        } else {
            m
        }
    }
}

/// `p` is shown by a listing of the pages of `kb` under `parent`.
pub open spec fn page_listed(ps: Seq<Page>, p: Page, kb: Seq<char>, parent: Option<Seq<char>>) -> bool {
    ps.contains(p) && !p.is_deleted && is_sibling(p, kb, parent)
}

/// ASCII letters folded to lower case.
pub open spec fn fold_char(c: char) -> char {
    if 'A' <= c && c <= 'Z' {
        ((c as u32) + 32) as char
    } else {
        c
    }
}

pub open spec fn fold(s: Seq<char>) -> Seq<char> {
    s.map_values(|c: char| fold_char(c))
}

/// `q` occurs in `hay` when ASCII letter case is ignored.
pub open spec fn contains_folded(hay: Seq<char>, q: Seq<char>) -> bool {
    contains_seq(fold(hay), fold(q))
}

/// `p` is found by a search of the pages of `kb` for `q`: it is not deleted
/// and its title, or the content of one of its blocks, holds `q`.
pub open spec fn page_found(ps: Seq<Page>, bs: Seq<Block>, p: Page, kb: Seq<char>, q: Seq<char>) -> bool {
    &&& ps.contains(p)
    &&& !p.is_deleted
    &&& p.kb_id@ == kb
    &&& (contains_folded(p.title@, q) || exists|j: int|
        0 <= j < bs.len() && bs[j].page_id@ == p.id@ && contains_folded(bs[j].content@, q))
}

/// No two pages of `ps` share an identity.
pub open spec fn page_ids_distinct(ps: Seq<Page>) -> bool {
    forall|a: int, b: int| 0 <= a < b < ps.len() ==> ps[a].id@ != ps[b].id@
}

/// `ps` is ordered by update time, most recent first.
pub open spec fn recent_first(ps: Seq<Page>) -> bool {
    forall|a: int, b: int| 0 <= a < b < ps.len() ==> ps[a].updated_at >= ps[b].updated_at
}

/// `ps` is ordered by sort key.
pub open spec fn sorted_by_key(ps: Seq<Page>) -> bool {
    forall|a: int, b: int| 0 <= a < b < ps.len() ==> ps[a].sort_order <= ps[b].sort_order
}

/// The pages of `v`, ordered by sort key; pages with equal keys keep their order.
pub fn sort_pages(v: Vec<Page>) -> (r: Vec<Page>)
    ensures
        sorted_by_key(r@),
        r@.len() == v@.len(),
        forall|p: Page| #[trigger] r@.contains(p) <==> v@.contains(p),
        page_ids_distinct(v@) ==> page_ids_distinct(r@),
{
    let mut out: Vec<Page> = Vec::new();
    let mut i: usize = 0;
    while i < v.len()
        invariant
            i <= v@.len(),
            out@.len() == i,
            sorted_by_key(out@),
            forall|p: Page| #[trigger] out@.contains(p) <==> exists|q: int| 0 <= q < i && v@[q] == p,
            page_ids_distinct(v@) ==> page_ids_distinct(out@),
        decreases v@.len() - i,
    {
        let x = copy_page(&v[i]);
        let mut pos: usize = 0;
        while pos < out.len() && out[pos].sort_order <= x.sort_order
            invariant
                pos <= out@.len(),
                forall|a: int| 0 <= a < pos ==> out@[a].sort_order <= x.sort_order,
            decreases out@.len() - pos,
        {
            pos = pos + 1;
        }
        let ghost before = out@;
        out.insert(pos, x);
        proof {
            if page_ids_distinct(v@) {
                assert forall|c: int| 0 <= c < before.len() implies before[c].id@ != x.id@ by {
                    assert(before.contains(before[c]));
                    let q = choose|q: int| 0 <= q < i && v@[q] == before[c];
                }
                assert forall|a: int, b: int| 0 <= a < b < out@.len() implies out@[a].id@ != out@[b].id@ by {
                    if a < pos && b < pos {
                    } else if a < pos && b == pos {
                    } else if a < pos {
                        assert(out@[b] == before[b - 1]);
                    } else if a == pos {
                        assert(out@[b] == before[b - 1]);
                    } else {
                        assert(out@[a] == before[a - 1] && out@[b] == before[b - 1]);
                    }
                }
            }
            assert(out@ == before.insert(pos as int, x));
            assert forall|a: int, b: int| 0 <= a < b < out@.len() implies out@[a].sort_order <= out@[b].sort_order by {
                if pos < before.len() {
                    assert(before[pos as int].sort_order > x.sort_order);
                }
                if a < pos && b == pos {
                } else if a < pos && b > pos {
                    assert(out@[b] == before[b - 1]);
                } else if a == pos && b > pos {
                    assert(out@[b] == before[b - 1]);
                    assert(before[pos as int].sort_order <= before[b - 1].sort_order);
                } else if a > pos {
                    assert(out@[a] == before[a - 1]);
                    assert(out@[b] == before[b - 1]);
                }
            }
            assert forall|p: Page| #[trigger] out@.contains(p) <==> exists|q: int| 0 <= q < i + 1 && v@[q] == p by {
                if out@.contains(p) {
                    let a = choose|a: int| 0 <= a < out@.len() && out@[a] == p;
                    if a < pos {
                        assert(before[a] == p);
                    } else if a > pos {
                        assert(before[a - 1] == p);
                    }
                    if a != pos {
                        assert(before.contains(p));
                        let q = choose|q: int| 0 <= q < i && v@[q] == p;
                        assert(0 <= q < i + 1 && v@[q] == p);
                    } else {
                        assert(v@[i as int] == p);
                    }
                }
                if exists|q: int| 0 <= q < i + 1 && v@[q] == p {
                    let q = choose|q: int| 0 <= q < i + 1 && v@[q] == p;
                    if q < i {
                        assert(exists|q2: int| 0 <= q2 < i && v@[q2] == p);
                        assert(before.contains(p));
                        let a = choose|a: int| 0 <= a < before.len() && before[a] == p;
                        if a < pos {
                            assert(out@[a] == p);
                        } else {
                            assert(out@[a + 1] == p);
                        }
                    } else {
                        assert(out@[pos as int] == p);
                    }
                }
            }
        }
        i = i + 1;
    }
    assert forall|p: Page| #[trigger] out@.contains(p) <==> v@.contains(p) by {
        if v@.contains(p) {
            let q = choose|q: int| 0 <= q < v@.len() && v@[q] == p;
        }
    }
    out
}

/// The pages of `v`, most recently updated first; pages updated at the
/// same time keep their order.
pub fn sort_pages_recent(v: Vec<Page>) -> (r: Vec<Page>)
    ensures
        recent_first(r@),
        r@.len() == v@.len(),
        forall|p: Page| #[trigger] r@.contains(p) <==> v@.contains(p),
        page_ids_distinct(v@) ==> page_ids_distinct(r@),
{
    let mut out: Vec<Page> = Vec::new();
    let mut i: usize = 0;
    while i < v.len()
        invariant
            i <= v@.len(),
            out@.len() == i,
            recent_first(out@),
            forall|p: Page| #[trigger] out@.contains(p) <==> exists|q: int| 0 <= q < i && v@[q] == p,
            page_ids_distinct(v@) ==> page_ids_distinct(out@),
        decreases v@.len() - i,
    {
        let x = copy_page(&v[i]);
        let mut pos: usize = 0;
        while pos < out.len() && out[pos].updated_at >= x.updated_at
            invariant
                pos <= out@.len(),
                forall|a: int| 0 <= a < pos ==> out@[a].updated_at >= x.updated_at,
            decreases out@.len() - pos,
        {
            pos = pos + 1;
        }
        let ghost before = out@;
        out.insert(pos, x);
        proof {
            if page_ids_distinct(v@) {
                assert forall|c: int| 0 <= c < before.len() implies before[c].id@ != x.id@ by {
                    assert(before.contains(before[c]));
                    let q = choose|q: int| 0 <= q < i && v@[q] == before[c];
                }
                assert forall|a: int, b: int| 0 <= a < b < out@.len() implies out@[a].id@ != out@[b].id@ by {
                    if a < pos && b < pos {
                    } else if a < pos && b == pos {
                    } else if a < pos {
                        assert(out@[b] == before[b - 1]);
                    } else if a == pos {
                        assert(out@[b] == before[b - 1]);
                    } else {
                        assert(out@[a] == before[a - 1] && out@[b] == before[b - 1]);
                    }
                }
            }
            assert(out@ == before.insert(pos as int, x));
            assert forall|a: int, b: int| 0 <= a < b < out@.len() implies out@[a].updated_at >= out@[b].updated_at by {
                if pos < before.len() {
                    assert(before[pos as int].updated_at < x.updated_at);
                }
                if a < pos && b == pos {
                } else if a < pos && b > pos {
                    assert(out@[b] == before[b - 1]);
                } else if a == pos && b > pos {
                    assert(out@[b] == before[b - 1]);
                    assert(before[pos as int].updated_at >= before[b - 1].updated_at);
                } else if a > pos {
                    assert(out@[a] == before[a - 1]);
                    assert(out@[b] == before[b - 1]);
                }
            }
            assert forall|p: Page| #[trigger] out@.contains(p) <==> exists|q: int| 0 <= q < i + 1 && v@[q] == p by {
                if out@.contains(p) {
                    let a = choose|a: int| 0 <= a < out@.len() && out@[a] == p;
                    if a < pos {
                        assert(before[a] == p);
                    } else if a > pos {
                        assert(before[a - 1] == p);
                    }
                    if a != pos {
                        assert(before.contains(p));
                        let q = choose|q: int| 0 <= q < i && v@[q] == p;
                        assert(0 <= q < i + 1 && v@[q] == p);
                    } else {
                        assert(v@[i as int] == p);
                    }
                }
                if exists|q: int| 0 <= q < i + 1 && v@[q] == p {
                    let q = choose|q: int| 0 <= q < i + 1 && v@[q] == p;
                    if q < i {
                        assert(exists|q2: int| 0 <= q2 < i && v@[q2] == p);
                        assert(before.contains(p));
                        let a = choose|a: int| 0 <= a < before.len() && before[a] == p;
                        if a < pos {
                            assert(out@[a] == p);
                        } else {
                            assert(out@[a + 1] == p);
                        }
                    } else {
                        assert(out@[pos as int] == p);
                    }
                }
            }
        }
        i = i + 1;
    }
    assert forall|p: Page| #[trigger] out@.contains(p) <==> v@.contains(p) by {
        if v@.contains(p) {
            let q = choose|q: int| 0 <= q < v@.len() && v@[q] == p;
        }
    }
    out
}

/// The blocks of `v`, ordered by sort key; blocks with equal keys keep their order.
pub fn sort_blocks(v: Vec<Block>) -> (r: Vec<Block>)
    ensures
        blocks_sorted(r@),
        r@.len() == v@.len(),
        forall|p: Block| #[trigger] r@.contains(p) <==> v@.contains(p),
{
    let mut out: Vec<Block> = Vec::new();
    let mut i: usize = 0;
    while i < v.len()
        invariant
            i <= v@.len(),
            out@.len() == i,
            blocks_sorted(out@),
            forall|p: Block| #[trigger] out@.contains(p) <==> exists|q: int| 0 <= q < i && v@[q] == p,
        decreases v@.len() - i,
    {
        let x = copy_block(&v[i]);
        let mut pos: usize = 0;
        while pos < out.len() && out[pos].sort_order <= x.sort_order
            invariant
                pos <= out@.len(),
                forall|a: int| 0 <= a < pos ==> out@[a].sort_order <= x.sort_order,
            decreases out@.len() - pos,
        {
            pos = pos + 1;
        }
        let ghost before = out@;
        out.insert(pos, x);
        proof {
            assert(out@ == before.insert(pos as int, x));
            assert forall|a: int, b: int| 0 <= a < b < out@.len() implies out@[a].sort_order <= out@[b].sort_order by {
                if pos < before.len() {
                    assert(before[pos as int].sort_order > x.sort_order);
                }
                if a < pos && b == pos {
                } else if a < pos && b > pos {
                    assert(out@[b] == before[b - 1]);
                } else if a == pos && b > pos {
                    assert(out@[b] == before[b - 1]);
                    assert(before[pos as int].sort_order <= before[b - 1].sort_order);
                } else if a > pos {
                    assert(out@[a] == before[a - 1]);
                    assert(out@[b] == before[b - 1]);
                }
            }
            assert forall|p: Block| #[trigger] out@.contains(p) <==> exists|q: int| 0 <= q < i + 1 && v@[q] == p by {
                if out@.contains(p) {
                    let a = choose|a: int| 0 <= a < out@.len() && out@[a] == p;
                    if a < pos {
                        assert(before[a] == p);
                    } else if a > pos {
                        assert(before[a - 1] == p);
                    }
                    if a != pos {
                        assert(before.contains(p));
                        let q = choose|q: int| 0 <= q < i && v@[q] == p;
                        assert(0 <= q < i + 1 && v@[q] == p);
                    } else {
                        assert(v@[i as int] == p);
                    }
                }
                if exists|q: int| 0 <= q < i + 1 && v@[q] == p {
                    let q = choose|q: int| 0 <= q < i + 1 && v@[q] == p;
                    if q < i {
                        assert(exists|q2: int| 0 <= q2 < i && v@[q2] == p);
                        assert(before.contains(p));
                        let a = choose|a: int| 0 <= a < before.len() && before[a] == p;
                        if a < pos {
                            assert(out@[a] == p);
                        } else {
                            assert(out@[a + 1] == p);
                        }
                    } else {
                        assert(out@[pos as int] == p);
                    }
                }
            }
        }
        i = i + 1;
    }
    assert forall|p: Block| #[trigger] out@.contains(p) <==> v@.contains(p) by {
        if v@.contains(p) {
            let q = choose|q: int| 0 <= q < v@.len() && v@[q] == p;
        }
    }
    out
}

pub(crate) fn fold_chars(v: &Vec<char>) -> (r: Vec<char>)
    ensures
        r@ == fold(v@),
{
    let mut out: Vec<char> = Vec::new();
    let mut i: usize = 0;
    while i < v.len()
        invariant
            i <= v@.len(),
            out@ == fold(v@.subrange(0, i as int)),
        decreases v@.len() - i,
    {
        let c = v[i];
        let f = if 'A' <= c && c <= 'Z' {
            ((c as u8) + 32) as char
        } else {
            c
        };
        assert(f == fold_char(c));
        out.push(f);
        i = i + 1;
        assert(fold(v@.subrange(0, i as int)) =~= fold(v@.subrange(0, i - 1)).push(fold_char(v@[i - 1])));
    }
    assert(v@.subrange(0, i as int) =~= v@);
    out
}

/// A sort key strictly between `lo` and `hi`, when one exists.
pub fn key_between(lo: i64, hi: i64) -> (r: Option<i64>)
    ensures
        r is Some <==> hi as int - lo as int >= 2,
        r matches Some(k) ==> lo < k < hi,
{
    if hi as i128 - lo as i128 >= 2 {
        Some((lo as i128 + (hi as i128 - lo as i128) / 2) as i64)
    } else {
        None
    }
}

/// Siblings listed by sort key keep the order of their keys: a page whose
/// key lies strictly between two others is listed between them.
pub proof fn lemma_listed_between(ls: Seq<Page>, a: int, p: int, b: int)
    requires
        sorted_by_key(ls),
        0 <= a < ls.len(),
        0 <= p < ls.len(),
        0 <= b < ls.len(),
        ls[a].sort_order < ls[p].sort_order < ls[b].sort_order,
    ensures
        a < p < b,
{
}

/// `k` with the present fields applied at time `now`.
pub open spec fn kb_updated(k: KnowledgeBase, name: Option<String>, icon: Option<String>, description: Option<String>, now: i64) -> KnowledgeBase {
    let touched = name is Some || icon is Some || description is Some;
    KnowledgeBase {
        id: k.id,
        name: if name is Some { name->0 } else { k.name },
        icon: if icon is Some { icon->0 } else { k.icon },
        description: if description is Some { description } else { k.description },
        created_at: k.created_at,
        updated_at: if touched { now } else { k.updated_at },
    }
}

/// `b` with the present fields applied at time `now`.
pub open spec fn block_updated(b: Block, content: Option<String>, parent_id: Option<String>, order_index: Option<i64>, now: i64) -> Block {
    let touched = content is Some || parent_id is Some || order_index is Some;
    Block {
        content: if content is Some { content->0 } else { b.content },
        parent_id: if parent_id is Some { parent_id } else { b.parent_id },
        sort_order: if order_index is Some { order_index->0 } else { b.sort_order },
        updated_at: if touched { now } else { b.updated_at },
        ..b
    }
}

/// `kb` is found by a search for `q`: its name or description holds `q`,
/// ignoring ASCII case.
pub open spec fn kb_found(kb: KnowledgeBase, q: Seq<char>) -> bool {
    contains_folded(kb.name@, q) || (kb.description matches Some(d) && contains_folded(d@, q))
}

/// One page found by a knowledge search, with its knowledge base's name and
/// its parent's title.
pub struct PageSearchResult {
    pub id: String,
    pub title: String,
    pub content: Option<String>,
    pub kb_id: String,
    pub kb_name: String,
    pub parent_id: Option<String>,
    pub parent_title: Option<String>,
    pub created_at: i64,
    pub updated_at: i64,
}

/// Page `p` is live, in `kb` when given, and its title or content holds
/// `q` ignoring ASCII case, or `q` is blank.
pub open spec fn page_search_match(p: Page, kb: Option<Seq<char>>, q: Seq<char>) -> bool {
    &&& !p.is_deleted
    &&& (kb matches Some(k) ==> p.kb_id@ == k)
    &&& (trim(q).len() == 0 || contains_folded(p.title@, q) || (p.content matches Some(c) && contains_folded(c@, q)))
}

/// `r` describes page `p` of the store with knowledge bases `kbs` and pages `ps`.
pub open spec fn search_item(r: PageSearchResult, p: Page, kbs: Seq<KnowledgeBase>, ps: Seq<Page>, include_content: bool) -> bool {
    &&& r.id == p.id && r.title == p.title && r.kb_id == p.kb_id && r.parent_id == p.parent_id
    &&& r.created_at == p.created_at && r.updated_at == p.updated_at
    &&& r.content == (if include_content { p.content } else { None })
    &&& exists|j: int| 0 <= j < kbs.len() && kbs[j].id@ == p.kb_id@ && r.kb_name == kbs[j].name
    &&& match p.parent_id {
        Some(pid) => exists|j: int| 0 <= j < ps.len() && ps[j].id@ == pid@ && r.parent_title == Some(ps[j].title),
        None => r.parent_title is None,
    }
}

/// `r` describes some page of `ps` that a search in `kb` for `q` matches.
pub open spec fn search_hit(r: PageSearchResult, ps: Seq<Page>, kbs: Seq<KnowledgeBase>, kb: Option<Seq<char>>, q: Seq<char>, include_content: bool) -> bool {
    exists|i: int| 0 <= i < ps.len() && page_search_match(ps[i], kb, q) && search_item(r, ps[i], kbs, ps, include_content)
}

/// `after` is `before` without knowledge base `id`, its pages and the
/// blocks of those pages.
pub open spec fn kb_deleted(before: KnowledgeStore, after: KnowledgeStore, id: Seq<char>) -> bool {
    &&& !has_kb(after.kbs(), id)
    &&& forall|k: KnowledgeBase| #[trigger] after.kbs().contains(k) <==> before.kbs().contains(k) && k.id@ != id
    &&& forall|p: Page| #[trigger] after.pages().contains(p) <==> before.pages().contains(p) && p.kb_id@ != id
    &&& forall|b: Block|
        #[trigger] after.blocks().contains(b) <==> before.blocks().contains(b) && !has_page_in(
            before.pages(),
            b.page_id@,
            id,
        )
}

impl KnowledgeStore {
    pub closed spec fn kbs(&self) -> Seq<KnowledgeBase> {
        self.kbs@
    }

    pub closed spec fn pages(&self) -> Seq<Page> {
        self.pages@
    }

    pub closed spec fn blocks(&self) -> Seq<Block> {
        self.blocks@
    }

    pub closed spec fn versions(&self) -> Seq<PageVersion> {
        self.versions@
    }

    /// Identities are unique; every page belongs to an existing knowledge
    /// base and its parent, if any, is a page of the same knowledge base;
    /// every block and every saved version belongs to an existing page.
    pub closed spec fn wf(&self) -> bool {
        &&& forall|i: int, j: int| 0 <= i < j < self.kbs@.len() ==> self.kbs@[i].id@ != self.kbs@[j].id@
        &&& forall|i: int, j: int|
            0 <= i < j < self.pages@.len() ==> self.pages@[i].id@ != self.pages@[j].id@
        &&& forall|i: int, j: int|
            0 <= i < j < self.blocks@.len() ==> self.blocks@[i].id@ != self.blocks@[j].id@
        &&& forall|i: int| 0 <= i < self.pages@.len() ==> has_kb(self.kbs@, #[trigger] self.pages@[i].kb_id@)
        &&& forall|i: int| 0 <= i < self.pages@.len() ==> parent_ok(self.pages@, #[trigger] self.pages@[i])
        &&& forall|i: int| 0 <= i < self.blocks@.len() ==> has_page(self.pages@, #[trigger] self.blocks@[i].page_id@)
        &&& forall|i: int| 0 <= i < self.versions@.len() ==> has_page(self.pages@, #[trigger] self.versions@[i].page_id@)
    }

    /// An empty store.
    pub fn new() -> (r: KnowledgeStore)
        ensures
            r.wf(),
            r.kbs().len() == 0,
            r.pages().len() == 0,
            r.blocks().len() == 0,
    {
        KnowledgeStore { kbs: Vec::new(), pages: Vec::new(), blocks: Vec::new(), versions: Vec::new() }
    }

    fn find_kb(&self, id: &str) -> (r: Option<usize>)
        ensures
            r is None <==> !has_kb(self.kbs@, id@),
            r matches Some(k) ==> k < self.kbs@.len() && self.kbs@[k as int].id@ == id@,
    {
        let key = id.to_owned();
        let mut k: usize = 0;
        while k < self.kbs.len()
            invariant
                k <= self.kbs@.len(),
                key@ == id@,
                forall|j: int| 0 <= j < k ==> self.kbs@[j].id@ != id@,
            decreases self.kbs@.len() - k,
        {
            if self.kbs[k].id == key {
                return Some(k);
            }
            k = k + 1;
        }
        None
    }

    fn find_page(&self, id: &str) -> (r: Option<usize>)
        ensures
            r is None <==> !has_page(self.pages@, id@),
            r matches Some(k) ==> k < self.pages@.len() && self.pages@[k as int].id@ == id@,
            r matches Some(k) ==> k as int == page_index(self.pages@, id@),
            r is None ==> page_index(self.pages@, id@) == -1,
    {
        let key = id.to_owned();
        let mut k: usize = 0;
        while k < self.pages.len()
            invariant
                k <= self.pages@.len(),
                key@ == id@,
                forall|j: int| 0 <= j < k ==> self.pages@[j].id@ != id@,
                page_index(self.pages@, id@) == page_index_from(self.pages@, id@, k as int),
            decreases self.pages@.len() - k,
        {
            if self.pages[k].id == key {
                return Some(k);
            }
            k = k + 1;
        }
        None
    }

    fn find_block(&self, id: &str) -> (r: Option<usize>)
        ensures
            r is None <==> !has_block(self.blocks@, id@),
            r matches Some(k) ==> k < self.blocks@.len() && self.blocks@[k as int].id@ == id@,
    {
        let key = id.to_owned();
        let mut k: usize = 0;
        while k < self.blocks.len()
            invariant
                k <= self.blocks@.len(),
                key@ == id@,
                forall|j: int| 0 <= j < k ==> self.blocks@[j].id@ != id@,
            decreases self.blocks@.len() - k,
        {
            if self.blocks[k].id == key {
                return Some(k);
            }
            k = k + 1;
        }
        None
    }

    /// Adds a knowledge base with the given identity.
    pub fn insert_knowledge_base(
        &mut self,
        id: String,
        name: String,
        icon: String,
        description: Option<String>,
        now: i64,
    ) -> (r: Result<KnowledgeBase, StoreError>)
        requires
            old(self).wf(),
        ensures
            !has_kb(old(self).kbs(), id@) ==> r is Ok,
            final(self).wf(),
            has_kb(old(self).kbs(), id@) <==> r == Err::<KnowledgeBase, StoreError>(StoreError::DuplicateId),
            r is Err ==> *final(self) == *old(self),
            r matches Ok(k) ==> {
                &&& k == (KnowledgeBase {
                    id: id,
                    name: name,
                    icon: icon,
                    description: description,
                    created_at: now,
                    updated_at: now,
                })
                &&& final(self).kbs() == old(self).kbs().push(k)
                &&& final(self).pages() == old(self).pages()
                &&& final(self).blocks() == old(self).blocks()
            },
    {
        if self.find_kb(id.as_str()).is_some() {
            return Err(StoreError::DuplicateId);
        }
        let k = KnowledgeBase { id, name, icon, description, created_at: now, updated_at: now };
        let out = copy_kb(&k);
        let ghost k0 = self.kbs@;
        self.kbs.push(k);
        assert forall|i: int| 0 <= i < self.pages@.len() implies has_kb(self.kbs@, #[trigger] self.pages@[i].kb_id@) by {
            let j = choose|j: int| 0 <= j < k0.len() && k0[j].id@ == self.pages@[i].kb_id@;
            assert(self.kbs@[j] == k0[j]);
        }
        Ok(out)
    }

    /// Adds a knowledge base with a fresh identity.
    pub fn create_knowledge_base(&mut self, name: String, icon: String, description: Option<String>) -> (r: Result<
        KnowledgeBase,
        StoreError,
    >)
        requires
            old(self).wf(),
        ensures
            final(self).wf(),
            r is Err ==> *final(self) == *old(self),
            r matches Ok(k) ==> {
                &&& !has_kb(old(self).kbs(), k.id@)
                &&& k.name == name && k.icon == icon && k.description == description && k.created_at == k.updated_at
                &&& final(self).kbs() == old(self).kbs().push(k)
                &&& final(self).pages() == old(self).pages()
                &&& final(self).blocks() == old(self).blocks()
            },
    {
        let id = new_id();
        let now = now_millis();
        self.insert_knowledge_base(id, name, icon, description, now)
    }

    /// The knowledge bases in store order.
    pub fn get_knowledge_bases(&self) -> (r: Vec<KnowledgeBase>)
        ensures
            r@ == self.kbs(),
    {
        let mut out: Vec<KnowledgeBase> = Vec::new();
        let mut i: usize = 0;
        while i < self.kbs.len()
            invariant
                i <= self.kbs@.len(),
                out@ == self.kbs@.subrange(0, i as int),
            decreases self.kbs@.len() - i,
        {
            out.push(copy_kb(&self.kbs[i]));
            i = i + 1;
            assert(self.kbs@.subrange(0, i as int) =~= self.kbs@.subrange(0, i - 1).push(self.kbs@[i - 1]));
        }
        assert(self.kbs@.subrange(0, i as int) =~= self.kbs@);
        out
    }

    /// Deletes knowledge base `id` together with all its pages, deleted or
    /// not, and all blocks of those pages.
    pub fn delete_knowledge_base(&mut self, id: &str)
        requires
            old(self).wf(),
        ensures
            final(self).wf(),
            kb_deleted(*old(self), *final(self), id@),
    {
        let key = id.to_owned();
        let ghost p0 = self.pages@;
        let ghost b0 = self.blocks@;
        let ghost k0 = self.kbs@;
        let mut kept_blocks: Vec<Block> = Vec::new();
        let ghost mut bidx: Seq<int> = seq![];
        let mut i: usize = 0;
        while i < self.blocks.len()
            invariant
                i <= b0.len(),
                self.blocks@ == b0,
                self.pages@ == p0,
                key@ == id@,
                forall|a: int, c: int| 0 <= a < c < p0.len() ==> p0[a].id@ != p0[c].id@,
                bidx.len() == kept_blocks@.len(),
                forall|a: int| 0 <= a < bidx.len() ==> 0 <= #[trigger] bidx[a] < i && kept_blocks@[a] == b0[bidx[a]],
                forall|a: int, c: int| 0 <= a < c < bidx.len() ==> bidx[a] < bidx[c],
                forall|a: int| 0 <= a < kept_blocks@.len() ==> !has_page_in(p0, (#[trigger] kept_blocks@[a]).page_id@, id@),
                forall|q: int| 0 <= q < i && !has_page_in(p0, (#[trigger] b0[q]).page_id@, id@) ==> kept_blocks@.contains(b0[q]),
            decreases b0.len() - i,
        {
            let b = &self.blocks[i];
            let doomed = match self.find_page(b.page_id.as_str()) {
                Some(j) => self.pages[j].kb_id == key,
                None => false,
            };
            proof {
                if has_page_in(p0, b.page_id@, id@) {
                    let j = choose|j: int| 0 <= j < p0.len() && p0[j].id@ == b.page_id@ && p0[j].kb_id@ == id@;
                    assert(has_page(p0, b.page_id@));
                }
            }
            assert(doomed == has_page_in(p0, b.page_id@, id@));
            if !doomed {
                let ghost before = kept_blocks@;
                kept_blocks.push(copy_block(b));
                proof {
                    bidx = bidx.push(i as int);
                    assert forall|q: int| 0 <= q < i + 1 && !has_page_in(p0, (#[trigger] b0[q]).page_id@, id@) implies kept_blocks@.contains(b0[q]) by {
                        if q < i {
                            let a = choose|a: int| 0 <= a < before.len() && before[a] == b0[q];
                            assert(kept_blocks@[a] == before[a]);
                        } else {
                            assert(kept_blocks@[before.len() as int] == b0[q]);
                        }
                    }
                }
            }
            i = i + 1;
        }
        let mut kept_pages: Vec<Page> = Vec::new();
        let ghost mut pidx: Seq<int> = seq![];
        let mut i: usize = 0;
        while i < self.pages.len()
            invariant
                i <= p0.len(),
                self.pages@ == p0,
                key@ == id@,
                pidx.len() == kept_pages@.len(),
                forall|a: int| 0 <= a < pidx.len() ==> 0 <= #[trigger] pidx[a] < i && kept_pages@[a] == p0[pidx[a]],
                forall|a: int, c: int| 0 <= a < c < pidx.len() ==> pidx[a] < pidx[c],
                forall|a: int| 0 <= a < kept_pages@.len() ==> (#[trigger] kept_pages@[a]).kb_id@ != id@,
                forall|q: int| 0 <= q < i && (#[trigger] p0[q]).kb_id@ != id@ ==> kept_pages@.contains(p0[q]),
            decreases p0.len() - i,
        {
            if !(self.pages[i].kb_id == key) {
                let ghost before = kept_pages@;
                kept_pages.push(copy_page(&self.pages[i]));
                proof {
                    pidx = pidx.push(i as int);
                    assert forall|q: int| 0 <= q < i + 1 && (#[trigger] p0[q]).kb_id@ != id@ implies kept_pages@.contains(p0[q]) by {
                        if q < i {
                            let a = choose|a: int| 0 <= a < before.len() && before[a] == p0[q];
                            assert(kept_pages@[a] == before[a]);
                        } else {
                            assert(kept_pages@[before.len() as int] == p0[q]);
                        }
                    }
                }
            }
            i = i + 1;
        }
        let mut kept_kbs: Vec<KnowledgeBase> = Vec::new();
        let ghost mut kidx: Seq<int> = seq![];
        let mut i: usize = 0;
        while i < self.kbs.len()
            invariant
                i <= k0.len(),
                self.kbs@ == k0,
                key@ == id@,
                kidx.len() == kept_kbs@.len(),
                forall|a: int| 0 <= a < kidx.len() ==> 0 <= #[trigger] kidx[a] < i && kept_kbs@[a] == k0[kidx[a]],
                forall|a: int, c: int| 0 <= a < c < kidx.len() ==> kidx[a] < kidx[c],
                forall|a: int| 0 <= a < kept_kbs@.len() ==> (#[trigger] kept_kbs@[a]).id@ != id@,
                forall|q: int| 0 <= q < i && (#[trigger] k0[q]).id@ != id@ ==> kept_kbs@.contains(k0[q]),
            decreases k0.len() - i,
        {
            if !(self.kbs[i].id == key) {
                let ghost before = kept_kbs@;
                kept_kbs.push(copy_kb(&self.kbs[i]));
                proof {
                    kidx = kidx.push(i as int);
                    assert forall|q: int| 0 <= q < i + 1 && (#[trigger] k0[q]).id@ != id@ implies kept_kbs@.contains(k0[q]) by {
                        if q < i {
                            let a = choose|a: int| 0 <= a < before.len() && before[a] == k0[q];
                            assert(kept_kbs@[a] == before[a]);
                        } else {
                            assert(kept_kbs@[before.len() as int] == k0[q]);
                        }
                    }
                }
            }
            i = i + 1;
        }
        let ghost v0 = self.versions@;
        let mut kept_versions: Vec<PageVersion> = Vec::new();
        let ghost mut vidx: Seq<int> = seq![];
        let mut i: usize = 0;
        while i < self.versions.len()
            invariant
                i <= v0.len(),
                self.versions@ == v0,
                self.pages@ == p0,
                key@ == id@,
                forall|a: int, c: int| 0 <= a < c < p0.len() ==> p0[a].id@ != p0[c].id@,
                vidx.len() == kept_versions@.len(),
                forall|a: int| 0 <= a < vidx.len() ==> 0 <= #[trigger] vidx[a] < i && kept_versions@[a] == v0[vidx[a]],
                forall|a: int| 0 <= a < kept_versions@.len() ==> !has_page_in(p0, (#[trigger] kept_versions@[a]).page_id@, id@),
            decreases v0.len() - i,
        {
            let v = &self.versions[i];
            let doomed = match self.find_page(v.page_id.as_str()) {
                Some(j) => self.pages[j].kb_id == key,
                None => false,
            };
            proof {
                if has_page_in(p0, v.page_id@, id@) {
                    let j = choose|j: int| 0 <= j < p0.len() && p0[j].id@ == v.page_id@ && p0[j].kb_id@ == id@;
                    assert(has_page(p0, v.page_id@));
                }
            }
            assert(doomed == has_page_in(p0, v.page_id@, id@));
            if !doomed {
                kept_versions.push(PageVersion {
                    id: v.id.clone(),
                    page_id: v.page_id.clone(),
                    content: v.content.clone(),
                    version: v.version,
                    created_at: v.created_at,
                    created_by: copy_opt(&v.created_by),
                });
                proof {
                    vidx = vidx.push(i as int);
                }
            }
            i = i + 1;
        }
        self.blocks = kept_blocks;
        self.pages = kept_pages;
        self.kbs = kept_kbs;
        self.versions = kept_versions;
        proof {
            let (bs, ps, ks) = (self.blocks@, self.pages@, self.kbs@);
            assert forall|b: Block| #[trigger] bs.contains(b) <==> b0.contains(b) && !has_page_in(p0, b.page_id@, id@) by {
                if bs.contains(b) {
                    let a = choose|a: int| 0 <= a < bs.len() && bs[a] == b;
                    assert(b0[bidx[a]] == b);
                }
                if b0.contains(b) && !has_page_in(p0, b.page_id@, id@) {
                    let q = choose|q: int| 0 <= q < b0.len() && b0[q] == b;
                }
            }
            assert forall|p: Page| #[trigger] ps.contains(p) <==> p0.contains(p) && p.kb_id@ != id@ by {
                if ps.contains(p) {
                    let a = choose|a: int| 0 <= a < ps.len() && ps[a] == p;
                    assert(p0[pidx[a]] == p);
                }
                if p0.contains(p) && p.kb_id@ != id@ {
                    let q = choose|q: int| 0 <= q < p0.len() && p0[q] == p;
                }
            }
            assert forall|k: KnowledgeBase| #[trigger] ks.contains(k) <==> k0.contains(k) && k.id@ != id@ by {
                if ks.contains(k) {
                    let a = choose|a: int| 0 <= a < ks.len() && ks[a] == k;
                    assert(k0[kidx[a]] == k);
                }
                if k0.contains(k) && k.id@ != id@ {
                    let q = choose|q: int| 0 <= q < k0.len() && k0[q] == k;
                }
            }
            assert forall|a: int, c: int| 0 <= a < c < bs.len() implies bs[a].id@ != bs[c].id@ by {
                assert(bs[a] == b0[bidx[a]]);
                assert(bs[c] == b0[bidx[c]]);
            }
            assert forall|a: int, c: int| 0 <= a < c < ps.len() implies ps[a].id@ != ps[c].id@ by {
                assert(ps[a] == p0[pidx[a]]);
                assert(ps[c] == p0[pidx[c]]);
            }
            assert forall|a: int, c: int| 0 <= a < c < ks.len() implies ks[a].id@ != ks[c].id@ by {
                assert(ks[a] == k0[kidx[a]]);
                assert(ks[c] == k0[kidx[c]]);
            }
            assert forall|a: int| 0 <= a < ps.len() implies has_kb(ks, #[trigger] ps[a].kb_id@) by {
                let p = ps[a];
                assert(p == p0[pidx[a]]);
                assert(has_kb(k0, p.kb_id@));
                let q = choose|q: int| 0 <= q < k0.len() && k0[q].id@ == p.kb_id@;
                assert(ks.contains(k0[q]));
                let c = choose|c: int| 0 <= c < ks.len() && ks[c] == k0[q];
            }
            assert forall|a: int| 0 <= a < ps.len() implies parent_ok(ps, #[trigger] ps[a]) by {
                let p = ps[a];
                assert(p == p0[pidx[a]]);
                if let Some(pid) = p.parent_id {
                    assert(parent_ok(p0, p));
                    let q = choose|q: int| 0 <= q < p0.len() && p0[q].id@ == pid@ && p0[q].kb_id@ == p.kb_id@;
                    assert(ps.contains(p0[q]));
                    let c = choose|c: int| 0 <= c < ps.len() && ps[c] == p0[q];
                }
            }
            assert forall|a: int| 0 <= a < bs.len() implies has_page(ps, #[trigger] bs[a].page_id@) by {
                let b = bs[a];
                assert(b == b0[bidx[a]]);
                assert(has_page(p0, b.page_id@));
                let q = choose|q: int| 0 <= q < p0.len() && p0[q].id@ == b.page_id@;
                assert(p0[q].kb_id@ != id@);
                assert(ps.contains(p0[q]));
                let c = choose|c: int| 0 <= c < ps.len() && ps[c] == p0[q];
            }
            assert forall|a: int| 0 <= a < self.versions@.len() implies has_page(ps, #[trigger] self.versions@[a].page_id@) by {
                let v = self.versions@[a];
                assert(v == v0[vidx[a]]);
                assert(has_page(p0, v.page_id@));
                let q = choose|q: int| 0 <= q < p0.len() && p0[q].id@ == v.page_id@;
                assert(p0[q].kb_id@ != id@);
                assert(ps.contains(p0[q]));
                let c = choose|c: int| 0 <= c < ps.len() && ps[c] == p0[q];
            }
            assert(!has_kb(ks, id@)) by {
                if has_kb(ks, id@) {
                    let c = choose|c: int| 0 <= c < ks.len() && ks[c].id@ == id@;
                }
            }
        }
    }

    /// The largest sort key among the pages of `kb` under `parent`, or 0.
    fn max_sibling(&self, kb: &str, parent: &Option<String>) -> (r: i64)
        ensures
            r as int == max_sibling_key(self.pages@, kb@, opt_view(*parent), self.pages@.len() as int),
    {
        let key = kb.to_owned();
        let mut m: i64 = 0;
        let mut i: usize = 0;
        while i < self.pages.len()
            invariant
                i <= self.pages@.len(),
                key@ == kb@,
                m as int == max_sibling_key(self.pages@, kb@, opt_view(*parent), i as int),
            decreases self.pages@.len() - i,
        {
            let p = &self.pages[i];
            let same_parent = match (&p.parent_id, parent) {
                (Some(a), Some(b)) => *a == *b,
                (None, None) => true,
                _ => false,
            };
            if p.kb_id == key && same_parent && p.sort_order > m {
                m = p.sort_order;
            }
            i = i + 1;
        }
        m
    }

    /// Adds a page with the given identity to knowledge base `kb_id`, under
    /// `parent_id` when given, after its last sibling.
    pub fn insert_page(&mut self, id: String, kb_id: String, title: String, parent_id: Option<String>, now: i64) -> (r:
        Result<Page, StoreError>)
        requires
            old(self).wf(),
        ensures
            has_kb(old(self).kbs(), kb_id@) && !(parent_id matches Some(pid) && !has_page_in(old(self).pages(), pid@, kb_id@)) && !has_page(old(self).pages(), id@) ==> r is Ok,
            final(self).wf(),
            !has_kb(old(self).kbs(), kb_id@) || (parent_id matches Some(pid) && !has_page_in(
                old(self).pages(),
                pid@,
                kb_id@,
            )) ==> r == Err::<Page, StoreError>(StoreError::OwnerNotFound),
            has_kb(old(self).kbs(), kb_id@) && !(parent_id matches Some(pid) && !has_page_in(
                old(self).pages(),
                pid@,
                kb_id@,
            )) ==> (has_page(old(self).pages(), id@) <==> r == Err::<Page, StoreError>(StoreError::DuplicateId)),
            r is Err ==> *final(self) == *old(self),
            r matches Ok(p) ==> {
                &&& p == (Page {
                    id: id,
                    kb_id: kb_id,
                    title: title,
                    content: None,
                    parent_id: parent_id,
                    sort_order: next_key(
                        max_sibling_key(old(self).pages(), kb_id@, opt_view(parent_id), old(self).pages().len() as int),
                    ),
                    is_deleted: false,
                    created_at: now,
                    updated_at: now,
                })
                &&& final(self).pages() == old(self).pages().push(p)
                &&& final(self).kbs() == old(self).kbs()
                &&& final(self).blocks() == old(self).blocks()
            },
    {
        match self.find_kb(kb_id.as_str()) {
            Some(_) => {},
            None => {
                return Err(StoreError::OwnerNotFound);
            },
        }
        assert(has_kb(self.kbs@, kb_id@));
        let key = kb_id.clone();
        match &parent_id {
            Some(pid) => {
                match self.find_page(pid.as_str()) {
                    Some(j) => {
                        if !(self.pages[j].kb_id == key) {
                            proof {
                                if has_page_in(self.pages@, pid@, kb_id@) {
                                    let q = choose|q: int| 0 <= q < self.pages@.len() && self.pages@[q].id@ == pid@ && self.pages@[q].kb_id@ == kb_id@;
                                }
                            }
                            return Err(StoreError::OwnerNotFound);
                        }
                    },
                    None => {
                        return Err(StoreError::OwnerNotFound);
                    },
                }
            },
            None => {},
        }
        if self.find_page(id.as_str()).is_some() {
            return Err(StoreError::DuplicateId);
        }
        let m = self.max_sibling(kb_id.as_str(), &parent_id);
        let sort_order = if m < i64::MAX {
            m + 1
        } else {
            i64::MAX
        };
        let p = Page {
            id,
            kb_id,
            title,
            content: None,
            parent_id,
            sort_order,
            is_deleted: false,
            created_at: now,
            updated_at: now,
        };
        let out = copy_page(&p);
        let ghost p0 = self.pages@;
        self.pages.push(p);
        proof {
            assert forall|a: int| 0 <= a < self.pages@.len() implies parent_ok(self.pages@, #[trigger] self.pages@[a]) by {
                let x = self.pages@[a];
                if let Some(pid) = x.parent_id {
                    if a < p0.len() {
                        assert(x == p0[a]);
                        assert(parent_ok(p0, x));
                    }
                    let q = choose|q: int| 0 <= q < p0.len() && p0[q].id@ == pid@ && p0[q].kb_id@ == x.kb_id@;
                    assert(self.pages@[q] == p0[q]);
                }
            }
            assert forall|a: int| 0 <= a < self.pages@.len() implies has_kb(self.kbs@, #[trigger] self.pages@[a].kb_id@) by {
                if a < p0.len() {
                    assert(self.pages@[a] == p0[a]);
                    assert(has_kb(old(self).kbs@, old(self).pages@[a].kb_id@));
                } else {
                    assert(self.pages@[a] == out);
                    assert(out.kb_id@ == kb_id@);
                }
            }
            assert forall|a: int| 0 <= a < self.blocks@.len() implies has_page(self.pages@, #[trigger] self.blocks@[a].page_id@) by {
                let q = choose|q: int| 0 <= q < p0.len() && p0[q].id@ == self.blocks@[a].page_id@;
                assert(self.pages@[q] == p0[q]);
            }
            assert forall|a: int| 0 <= a < self.versions@.len() implies has_page(self.pages@, #[trigger] self.versions@[a].page_id@) by {
                let q = choose|q: int| 0 <= q < p0.len() && p0[q].id@ == self.versions@[a].page_id@;
                assert(self.pages@[q] == p0[q]);
            }
        }
        Ok(out)
    }

    /// Adds a page with a fresh identity.
    pub fn create_page(&mut self, kb_id: String, title: String, parent_id: Option<String>) -> (r: Result<
        Page,
        StoreError,
    >)
        requires
            old(self).wf(),
        ensures
            final(self).wf(),
            !has_kb(old(self).kbs(), kb_id@) || (parent_id matches Some(pid) && !has_page_in(
                old(self).pages(),
                pid@,
                kb_id@,
            )) ==> r == Err::<Page, StoreError>(StoreError::OwnerNotFound),
            r is Err ==> *final(self) == *old(self),
            r matches Ok(p) ==> {
                &&& !has_page(old(self).pages(), p.id@)
                &&& p.kb_id == kb_id && p.title == title && p.parent_id == parent_id && !p.is_deleted
                &&& p.content is None && p.created_at == p.updated_at
                &&& p.sort_order == next_key(
                    max_sibling_key(old(self).pages(), kb_id@, opt_view(parent_id), old(self).pages().len() as int),
                )
                &&& final(self).pages() == old(self).pages().push(p)
                &&& final(self).blocks() == old(self).blocks()
            },
    {
        let id = new_id();
        let now = now_millis();
        self.insert_page(id, kb_id, title, parent_id, now)
    }

    /// The page `id`, deleted or not.
    pub fn get_page_by_id(&self, id: &str) -> (r: Option<Page>)
        ensures
            r is Some <==> has_page(self.pages(), id@),
            r matches Some(p) ==> p.id@ == id@ && self.pages().contains(p),
    {
        match self.find_page(id) {
            Some(i) => {
                let p = copy_page(&self.pages[i]);
                assert(self.pages@[i as int] == p);
                Some(p)
            },
            None => None,
        }
    }

    /// The pages of `kb_id` that are not deleted, under `parent_id` when
    /// given and at the top level otherwise, ordered by sort key.
    pub fn get_pages(&self, kb_id: &str, parent_id: Option<&str>) -> (r: Vec<Page>)
        requires
            self.wf(),
        ensures
            page_ids_distinct(r@),
            sorted_by_key(r@),
            forall|p: Page| #[trigger] r@.contains(p) <==> page_listed(self.pages(), p, kb_id@, opt_str_view(parent_id)),
    {
        let key = kb_id.to_owned();
        let par: Option<String> = match parent_id {
            Some(x) => Some(x.to_owned()),
            None => None,
        };
        let ghost pv = opt_str_view(parent_id);
        let mut out: Vec<Page> = Vec::new();
        let mut i: usize = 0;
        while i < self.pages.len()
            invariant
                i <= self.pages@.len(),
                self.wf(),
                page_ids_distinct(out@),
                key@ == kb_id@,
                opt_view(par) == pv,
                forall|p: Page| #[trigger] out@.contains(p) <==> (exists|q: int| 0 <= q < i && self.pages@[q] == p) && !p.is_deleted && is_sibling(p, kb_id@, pv),
            decreases self.pages@.len() - i,
        {
            let p = &self.pages[i];
            let same_parent = match (&p.parent_id, &par) {
                (Some(a), Some(b)) => *a == *b,
                (None, None) => true,
                _ => false,
            };
            let ghost before = out@;
            if p.kb_id == key && same_parent && !p.is_deleted {
                proof {
                    assert forall|c: int| 0 <= c < out@.len() implies out@[c].id@ != self.pages@[i as int].id@ by {
                        assert(out@.contains(out@[c]));
                        let q = choose|q: int| 0 <= q < i && self.pages@[q] == out@[c];
                    }
                }
                out.push(copy_page(p));
                assert forall|a: int, b: int| 0 <= a < b < out@.len() implies out@[a].id@ != out@[b].id@ by {
                    if b == out@.len() - 1 {
                        assert(out@[b] == self.pages@[i as int]);
                    }
                }
                assert forall|x: Page| #[trigger] out@.contains(x) <==> (exists|q: int| 0 <= q < i + 1 && self.pages@[q] == x) && !x.is_deleted && is_sibling(x, kb_id@, pv) by {
                    if out@.contains(x) && x != self.pages@[i as int] {
                        let a = choose|a: int| 0 <= a < out@.len() && out@[a] == x;
                        assert(before[a] == x);
                        assert(before.contains(x));
                        let q = choose|q: int| 0 <= q < i && self.pages@[q] == x;
                        assert(0 <= q < i + 1 && self.pages@[q] == x);
                    }
                    if out@.contains(x) && x == self.pages@[i as int] {
                        assert(0 <= i < i + 1 && self.pages@[i as int] == x);
                    }
                    if (exists|q: int| 0 <= q < i + 1 && self.pages@[q] == x) && !x.is_deleted && is_sibling(x, kb_id@, pv) {
                        if x != self.pages@[i as int] {
                            let q = choose|q: int| 0 <= q < i + 1 && self.pages@[q] == x;
                            assert(exists|q2: int| 0 <= q2 < i && self.pages@[q2] == x);
                            assert(before.contains(x));
                            let a = choose|a: int| 0 <= a < before.len() && before[a] == x;
                            assert(out@[a] == x);
                        } else {
                            assert(out@[before.len() as int] == x);
                        }
                    }
                }
            } else {
                assert forall|x: Page| #[trigger] out@.contains(x) <==> (exists|q: int| 0 <= q < i + 1 && self.pages@[q] == x) && !x.is_deleted && is_sibling(x, kb_id@, pv) by {
                    if (exists|q: int| 0 <= q < i + 1 && self.pages@[q] == x) && !x.is_deleted && is_sibling(x, kb_id@, pv) {
                        let q = choose|q: int| 0 <= q < i + 1 && self.pages@[q] == x;
                        assert(q != i);
                    }
                }
            }
            i = i + 1;
        }
        let r = sort_pages(out);
        r
    }

    /// Marks, for each page, whether it lies in the subtree of page `id`.
    fn subtree_marks(&self, id: &str) -> (r: Vec<bool>)
        requires
            self.wf(),
        ensures
            r@.len() == self.pages@.len(),
            forall|i: int| 0 <= i < r@.len() ==> r@[i] == in_subtree(self.pages@, i, id@),
    {
        let n = self.pages.len();
        let ps = Ghost(self.pages@);
        let key = id.to_owned();
        let mut par: Vec<Option<usize>> = Vec::new();
        let mut i: usize = 0;
        while i < n
            invariant
                n == ps@.len(),
                ps@ == self.pages@,
                i <= n,
                par@.len() == i,
                forall|a: int| 0 <= a < i ==> parent_index_ok(ps@, a, #[trigger] par@[a]),
            decreases n - i,
        {
            let pi = match &self.pages[i].parent_id {
                Some(pid) => self.find_page(pid.as_str()),
                None => None,
            };
            par.push(pi);
            i = i + 1;
        }
        let mut marked: Vec<bool> = Vec::new();
        let mut i: usize = 0;
        while i < n
            invariant
                n == ps@.len(),
                ps@ == self.pages@,
                key@ == id@,
                i <= n,
                marked@.len() == i,
                forall|a: int| 0 <= a < i ==> #[trigger] marked@[a] == within(ps@, a, id@, 0int),
            decreases n - i,
        {
            marked.push(self.pages[i].id == key);
            i = i + 1;
        }
        let mut round: usize = 0;
        while round < n
            invariant
                n == ps@.len(),
                ps@ == self.pages@,
                self.wf(),
                key@ == id@,
                round <= n,
                par@.len() == n,
                marked@.len() == n,
                forall|a: int| 0 <= a < n ==> parent_index_ok(ps@, a, #[trigger] par@[a]),
                forall|a: int| 0 <= a < n ==> #[trigger] marked@[a] == within(ps@, a, id@, round as int),
            decreases n - round,
        {
            let mut next: Vec<bool> = Vec::new();
            let mut i: usize = 0;
            while i < n
                invariant
                    n == ps@.len(),
                    ps@ == self.pages@,
                    self.wf(),
                    key@ == id@,
                    i <= n,
                    par@.len() == n,
                    marked@.len() == n,
                    next@.len() == i,
                    forall|a: int| 0 <= a < n ==> parent_index_ok(ps@, a, #[trigger] par@[a]),
                    forall|a: int| 0 <= a < n ==> #[trigger] marked@[a] == within(ps@, a, id@, round as int),
                    forall|a: int| 0 <= a < i ==> #[trigger] next@[a] == within(ps@, a, id@, (round + 1) as int),
                decreases n - i,
            {
                let v = self.pages[i].id == key || match par[i] {
                    Some(j) => marked[j],
                    None => false,
                };
                proof {
                    let ii = i as int;
                    assert(parent_index_ok(ps@, ii, par@[ii]));
                    match par@[ii] {
                        Some(j) => {
                            assert(marked@[j as int] == within(ps@, j as int, id@, round as int));
                        },
                        None => {},
                    }
                }
                assert(v == within(ps@, i as int, id@, (round + 1) as int));
                next.push(v);
                i = i + 1;
            }
            marked = next;
            round = round + 1;
        }
        marked
    }

    /// Soft-deletes page `id` and every page of its subtree at time `now`,
    /// and marks the blocks of those pages deleted; rows stay stored.
    pub fn delete_page(&mut self, id: &str, now: i64)
        requires
            old(self).wf(),
        ensures
            final(self).wf(),
            final(self).kbs() == old(self).kbs(),
            final(self).pages().len() == old(self).pages().len(),
            forall|i: int|
                0 <= i < final(self).pages().len() ==> same_but_deleted(
                    #[trigger] final(self).pages()[i],
                    old(self).pages()[i],
                ) && final(self).pages()[i].is_deleted == (old(self).pages()[i].is_deleted || in_subtree(
                    old(self).pages(),
                    i,
                    id@,
                )),
            final(self).blocks().len() == old(self).blocks().len(),
            forall|i: int|
                0 <= i < final(self).blocks().len() ==> block_same_but_deleted(
                    #[trigger] final(self).blocks()[i],
                    old(self).blocks()[i],
                ) && final(self).blocks()[i].is_deleted == (old(self).blocks()[i].is_deleted || exists|j: int|
                    0 <= j < old(self).pages().len() && old(self).pages()[j].id@ == old(self).blocks()[i].page_id@
                        && in_subtree(old(self).pages(), j, id@)),
    {
        let marks = self.subtree_marks(id);
        let ghost p0 = self.pages@;
        let ghost b0 = self.blocks@;
        let mut i: usize = 0;
        while i < self.pages.len()
            invariant
                i <= self.pages@.len(),
                self.pages@.len() == p0.len(),
                marks@.len() == p0.len(),
                self.kbs@ == old(self).kbs@,
                self.blocks@ == b0,
                self.versions@ == old(self).versions@,
                forall|a: int| 0 <= a < p0.len() ==> marks@[a] == in_subtree(p0, a, id@),
                forall|a: int| 0 <= a < p0.len() ==> same_but_deleted(#[trigger] self.pages@[a], p0[a]),
                forall|a: int| 0 <= a < i ==> (#[trigger] self.pages@[a]).is_deleted == (p0[a].is_deleted || marks@[a]),
                forall|a: int| i <= a < p0.len() ==> #[trigger] self.pages@[a] == p0[a],
                forall|a: int| 0 <= a < p0.len() ==> has_kb(old(self).kbs@, #[trigger] p0[a].kb_id@),
            decreases self.pages@.len() - i,
        {
            if marks[i] && !self.pages[i].is_deleted {
                let mut p = copy_page(&self.pages[i]);
                p.is_deleted = true;
                p.updated_at = now;
                self.pages.set(i, p);
            }
            i = i + 1;
        }
        let ghost p1 = self.pages@;
        let mut i: usize = 0;
        while i < self.blocks.len()
            invariant
                i <= self.blocks@.len(),
                self.blocks@.len() == b0.len(),
                self.pages@ == p1,
                self.kbs@ == old(self).kbs@,
                self.versions@ == old(self).versions@,
                self.pages@.len() == p0.len(),
                marks@.len() == p0.len(),
                forall|a: int, c: int| 0 <= a < c < p0.len() ==> p0[a].id@ != p0[c].id@,
                forall|a: int| 0 <= a < p0.len() ==> #[trigger] self.pages@[a].id == p0[a].id,
                forall|a: int| 0 <= a < b0.len() ==> has_page(p0, #[trigger] b0[a].page_id@),
                forall|a: int| 0 <= a < p0.len() ==> same_but_deleted(#[trigger] p1[a], p0[a]),
                forall|a: int| 0 <= a < p0.len() ==> (#[trigger] p1[a]).is_deleted == (p0[a].is_deleted || marks@[a]),
                forall|a: int| 0 <= a < p0.len() ==> marks@[a] == in_subtree(p0, a, id@),
                forall|a: int| 0 <= a < b0.len() ==> block_same_but_deleted(#[trigger] self.blocks@[a], b0[a]),
                forall|a: int|
                    0 <= a < i ==> (#[trigger] self.blocks@[a]).is_deleted == (b0[a].is_deleted || exists|j: int|
                        0 <= j < p0.len() && p0[j].id@ == b0[a].page_id@ && in_subtree(p0, j, id@)),
                forall|a: int| i <= a < b0.len() ==> #[trigger] self.blocks@[a] == b0[a],
            decreases self.blocks@.len() - i,
        {
            let ghost ii = i as int;
            let hit = match self.find_page(self.blocks[i].page_id.as_str()) {
                Some(j) => {
                    proof {
                        assert(self.pages@[j as int].id@ == p0[j as int].id@);
                        if exists|q: int| 0 <= q < p0.len() && p0[q].id@ == b0[ii].page_id@ && in_subtree(p0, q, id@) {
                            let q = choose|q: int| 0 <= q < p0.len() && p0[q].id@ == b0[ii].page_id@ && in_subtree(p0, q, id@);
                            if q != j as int {
                                if q < j as int {
                                    assert(p0[q].id@ != p0[j as int].id@);
                                } else {
                                    assert(p0[j as int].id@ != p0[q].id@);
                                }
                            }
                        }
                    }
                    marks[j]
                },
                None => {
                    proof {
                        assert(has_page(p0, b0[ii].page_id@));
                        let q = choose|q: int| 0 <= q < p0.len() && p0[q].id@ == b0[ii].page_id@;
                        assert(self.pages@[q].id@ == p0[q].id@);
                    }
                    false
                },
            };
            if hit && !self.blocks[i].is_deleted {
                let mut b = copy_block(&self.blocks[i]);
                b.is_deleted = true;
                b.updated_at = now;
                self.blocks.set(i, b);
            }
            i = i + 1;
        }
        proof {
            let ps = self.pages@;
            assert(ps == p1);
            assert forall|a: int| 0 <= a < ps.len() implies has_kb(self.kbs@, #[trigger] ps[a].kb_id@) by {
                assert(same_but_deleted(ps[a], p0[a]));
            }
            assert forall|a: int, c: int| 0 <= a < c < ps.len() implies ps[a].id@ != ps[c].id@ by {
                assert(same_but_deleted(ps[a], p0[a]));
                assert(same_but_deleted(ps[c], p0[c]));
            }
            assert forall|a: int, c: int| 0 <= a < c < self.blocks@.len() implies self.blocks@[a].id@ != self.blocks@[c].id@ by {
                assert(block_same_but_deleted(self.blocks@[a], b0[a]));
                assert(block_same_but_deleted(self.blocks@[c], b0[c]));
            }
            assert forall|a: int| 0 <= a < ps.len() implies parent_ok(ps, #[trigger] ps[a]) by {
                assert(same_but_deleted(ps[a], p0[a]));
                assert(parent_ok(p0, p0[a]));
                if let Some(pid) = ps[a].parent_id {
                    let q = choose|q: int| 0 <= q < p0.len() && p0[q].id@ == pid@ && p0[q].kb_id@ == ps[a].kb_id@;
                    assert(same_but_deleted(ps[q], p0[q]));
                }
            }
            assert forall|a: int| 0 <= a < self.blocks@.len() implies has_page(ps, #[trigger] self.blocks@[a].page_id@) by {
                assert(block_same_but_deleted(self.blocks@[a], b0[a]));
                assert(has_page(p0, b0[a].page_id@));
                let q = choose|q: int| 0 <= q < p0.len() && p0[q].id@ == b0[a].page_id@;
                assert(same_but_deleted(ps[q], p0[q]));
            }
            assert forall|a: int| 0 <= a < self.versions@.len() implies has_page(ps, #[trigger] self.versions@[a].page_id@) by {
                assert(has_page(p0, self.versions@[a].page_id@));
                let q = choose|q: int| 0 <= q < p0.len() && p0[q].id@ == self.versions@[a].page_id@;
                assert(same_but_deleted(ps[q], p0[q]));
            }
        }
    }

    /// Moves page `page_id` under `new_parent_id` (to the top level when
    /// absent) with sort key `new_order_index`, at time `now`. The new parent
    /// must be a page of the same knowledge base outside the moved subtree.
    pub fn move_page(&mut self, page_id: &str, new_parent_id: Option<&str>, new_order_index: i64, now: i64) -> (r:
        Result<(), StoreError>)
        requires
            old(self).wf(),
        ensures
            r is Err ==> r == Err::<(), StoreError>(StoreError::OwnerNotFound) || r == Err::<(), StoreError>(StoreError::CycleRejected),
            final(self).wf(),
            final(self).kbs() == old(self).kbs(),
            final(self).blocks() == old(self).blocks(),
            !has_page(old(self).pages(), page_id@) ==> r is Ok && *final(self) == *old(self),
            r is Err ==> *final(self) == *old(self),
            has_page(old(self).pages(), page_id@) ==> {
                let ps = old(self).pages();
                let i = page_index(ps, page_id@);
                &&& (new_parent_id matches Some(pid) && !has_page_in(ps, pid@, ps[i].kb_id@)) ==> r
                    == Err::<(), StoreError>(StoreError::OwnerNotFound)
                &&& (new_parent_id matches Some(pid) && has_page(ps, pid@) && in_subtree(
                    ps,
                    page_index(ps, pid@),
                    page_id@,
                )) ==> r == Err::<(), StoreError>(StoreError::CycleRejected)
                &&& (new_parent_id matches Some(pid) ==> has_page_in(ps, pid@, ps[i].kb_id@) && !in_subtree(
                    ps,
                    page_index(ps, pid@),
                    page_id@,
                )) ==> r is Ok
                &&& r is Ok ==> {
                    &&& final(self).pages().len() == ps.len()
                    &&& forall|q: int| 0 <= q < ps.len() && q != i ==> #[trigger] final(self).pages()[q] == ps[q]
                    &&& final(self).pages()[i].id == ps[i].id && final(self).pages()[i].kb_id == ps[i].kb_id
                    &&& final(self).pages()[i].title == ps[i].title && final(self).pages()[i].content == ps[i].content
                    &&& final(self).pages()[i].is_deleted == ps[i].is_deleted
                    &&& final(self).pages()[i].created_at == ps[i].created_at
                    &&& opt_view(final(self).pages()[i].parent_id) == opt_str_view(new_parent_id)
                    &&& final(self).pages()[i].sort_order == new_order_index
                    &&& final(self).pages()[i].updated_at == now
                }
            },
    {
        let i = match self.find_page(page_id) {
            Some(i) => i,
            None => {
                return Ok(());
            },
        };
        let ghost ps = self.pages@;
        let parent: Option<String> = match new_parent_id {
            Some(pid) => {
                let j = match self.find_page(pid) {
                    Some(j) => j,
                    None => {
                        return Err(StoreError::OwnerNotFound);
                    },
                };
                if !(self.pages[j].kb_id == self.pages[i].kb_id) {
                    proof {
                        if in_subtree(ps, j as int, page_id@) {
                            self.lemma_subtree_same_kb(j as int, i as int, ps.len() as int);
                        }
                        if has_page_in(ps, pid@, ps[i as int].kb_id@) {
                            let q = choose|q: int| 0 <= q < ps.len() && ps[q].id@ == pid@ && ps[q].kb_id@ == ps[i as int].kb_id@;
                            if q != j as int {
                                if q < j as int {
                                    assert(ps[q].id@ != ps[j as int].id@);
                                } else {
                                    assert(ps[j as int].id@ != ps[q].id@);
                                }
                            }
                        }
                    }
                    return Err(StoreError::OwnerNotFound);
                }
                let marks = self.subtree_marks(page_id);
                if marks[j] {
                    return Err(StoreError::CycleRejected);
                }
                Some(pid.to_owned())
            },
            None => None,
        };
        let old_page = &self.pages[i];
        let moved = Page {
            id: old_page.id.clone(),
            kb_id: old_page.kb_id.clone(),
            title: old_page.title.clone(),
            content: copy_opt(&old_page.content),
            parent_id: parent,
            sort_order: new_order_index,
            is_deleted: old_page.is_deleted,
            created_at: old_page.created_at,
            updated_at: now,
        };
        self.pages.set(i, moved);
        proof {
            let ns = self.pages@;
            assert forall|a: int| 0 <= a < ns.len() implies has_kb(self.kbs@, #[trigger] ns[a].kb_id@) by {
                assert(ns[a].kb_id == ps[a].kb_id);
            }
            assert forall|a: int, c: int| 0 <= a < c < ns.len() implies ns[a].id@ != ns[c].id@ by {
                assert(ns[a].id == ps[a].id);
                assert(ns[c].id == ps[c].id);
            }
            assert forall|a: int| 0 <= a < ns.len() implies parent_ok(ns, #[trigger] ns[a]) by {
                if a != i {
                    assert(ns[a] == ps[a]);
                    assert(parent_ok(ps, ps[a]));
                }
                if let Some(pid) = ns[a].parent_id {
                    if a != i {
                        let q = choose|q: int| 0 <= q < ps.len() && ps[q].id@ == pid@ && ps[q].kb_id@ == ns[a].kb_id@;
                        assert(ns[q].id == ps[q].id && ns[q].kb_id == ps[q].kb_id);
                    } else {
                        let q = page_index(ps, pid@);
                        lemma_page_index_from(ps, pid@, 0);
                        assert(ns[q].id == ps[q].id && ns[q].kb_id == ps[q].kb_id);
                    }
                }
            }
            assert forall|a: int| 0 <= a < self.blocks@.len() implies has_page(ns, #[trigger] self.blocks@[a].page_id@) by {
                assert(has_page(ps, self.blocks@[a].page_id@));
                let q = choose|q: int| 0 <= q < ps.len() && ps[q].id@ == self.blocks@[a].page_id@;
                assert(ns[q].id == ps[q].id);
            }
            assert forall|a: int| 0 <= a < self.versions@.len() implies has_page(ns, #[trigger] self.versions@[a].page_id@) by {
                assert(has_page(ps, self.versions@[a].page_id@));
                let q = choose|q: int| 0 <= q < ps.len() && ps[q].id@ == self.versions@[a].page_id@;
                assert(ns[q].id == ps[q].id);
            }
            assert(i as int == page_index(ps, page_id@));
        }
        Ok(())
    }

    /// The chain of pages from the root down to page `page_id`: each page is
    /// the parent of the next. The walk stops at a page without a parent in
    /// the store, or after as many pages as the store holds.
    pub fn get_page_breadcrumb(&self, page_id: &str) -> (r: Vec<Page>)
        requires
            self.wf(),
        ensures
            !has_page(self.pages(), page_id@) ==> r@.len() == 0,
            has_page(self.pages(), page_id@) ==> {
                &&& 1 <= r@.len() <= self.pages().len()
                &&& r@.last().id@ == page_id@
                &&& forall|k: int| 0 <= k < r@.len() ==> self.pages().contains(#[trigger] r@[k])
                &&& forall|k: int|
                    0 <= k < r@.len() - 1 ==> is_parent_of(r@[k], #[trigger] r@[k + 1])
                &&& r@.len() < self.pages().len() ==> match r@[0].parent_id {
                    Some(pid) => !has_page(self.pages(), pid@),
                    None => true,
                }
            },
    {
        let n = self.pages.len();
        let mut chain: Vec<Page> = Vec::new();
        let mut cur = self.find_page(page_id);
        let ghost start = cur;
        while chain.len() < n && cur.is_some()
            invariant
                n == self.pages@.len(),
                chain@.len() <= n,
                start is Some <==> has_page(self.pages@, page_id@),
                start is None ==> cur is None && chain@.len() == 0,
                start is Some ==> (chain@.len() == 0 ==> cur == start),
                start matches Some(s0) ==> s0 < n && self.pages@[s0 as int].id@ == page_id@,
                chain@.len() > 0 ==> chain@.last().id@ == page_id@,
                cur matches Some(c) ==> c < n,
                chain@.len() > 0 ==> match chain@[0].parent_id {
                    Some(pid) => match cur {
                        Some(c) => self.pages@[c as int].id@ == pid@,
                        None => !has_page(self.pages@, pid@),
                    },
                    None => cur is None,
                },
                forall|k: int| 0 <= k < chain@.len() ==> self.pages@.contains(#[trigger] chain@[k]),
                forall|k: int| 0 <= k < chain@.len() - 1 ==> is_parent_of(chain@[k], #[trigger] chain@[k + 1]),
            decreases n - chain@.len(),
        {
            let c = cur.unwrap();
            let p = copy_page(&self.pages[c]);
            let next = match &self.pages[c].parent_id {
                Some(pid) => self.find_page(pid.as_str()),
                None => None,
            };
            let ghost before = chain@;
            chain.insert(0, p);
            proof {
                assert(chain@ == before.insert(0, p));
                assert(self.pages@[c as int] == p);
                assert forall|k: int| 0 <= k < chain@.len() implies self.pages@.contains(#[trigger] chain@[k]) by {
                    if k > 0 {
                        assert(chain@[k] == before[k - 1]);
                    }
                }
                if before.len() > 0 {
                    assert(is_parent_of(p, before[0]));
                }
                assert forall|k: int| 0 <= k < chain@.len() - 1 implies is_parent_of(chain@[k], #[trigger] chain@[k + 1]) by {
                    assert(chain@[k + 1] == before[k]);
                    if k > 0 {
                        assert(chain@[k] == before[k - 1]);
                        let k1 = k - 1;
                        assert(is_parent_of(before[k1], before[k1 + 1]));
                    } else {
                        assert(chain@[0] == p);
                    }
                }
                if before.len() > 0 {
                    assert(chain@.last() == before.last());
                }
            }
            cur = next;
        }
        proof {
            if has_page(self.pages@, page_id@) {
                let s0 = start->0;
                assert(n > 0);
                assert(chain@.len() >= 1);
                assert(chain@.last().id@ == page_id@);
                if chain@.len() < n {
                    assert(cur is None);
                }
            }
        }
        chain
    }

    /// The pages of `kb_id` that are not deleted, ordered by sort key.
    pub fn get_all_pages(&self, kb_id: &str) -> (r: Vec<Page>)
        requires
            self.wf(),
        ensures
            page_ids_distinct(r@),
            sorted_by_key(r@),
            forall|p: Page| #[trigger] r@.contains(p) <==> self.pages().contains(p) && !p.is_deleted && p.kb_id@ == kb_id@,
    {
        let key = kb_id.to_owned();
        let mut out: Vec<Page> = Vec::new();
        let mut i: usize = 0;
        while i < self.pages.len()
            invariant
                i <= self.pages@.len(),
                self.wf(),
                page_ids_distinct(out@),
                key@ == kb_id@,
                forall|p: Page| #[trigger] out@.contains(p) <==> (exists|q: int| 0 <= q < i && self.pages@[q] == p) && !p.is_deleted && p.kb_id@ == kb_id@,
            decreases self.pages@.len() - i,
        {
            let ghost before = out@;
            if self.pages[i].kb_id == key && !self.pages[i].is_deleted {
                proof {
                    assert forall|c: int| 0 <= c < out@.len() implies out@[c].id@ != self.pages@[i as int].id@ by {
                        assert(out@.contains(out@[c]));
                        let q = choose|q: int| 0 <= q < i && self.pages@[q] == out@[c];
                    }
                }
                out.push(copy_page(&self.pages[i]));
                assert forall|a: int, b: int| 0 <= a < b < out@.len() implies out@[a].id@ != out@[b].id@ by {
                    if b == out@.len() - 1 {
                        assert(out@[b] == self.pages@[i as int]);
                    }
                }
            }
            proof {
                assert forall|x: Page| #[trigger] out@.contains(x) <==> (exists|q: int| 0 <= q < i + 1 && self.pages@[q] == x) && !x.is_deleted && x.kb_id@ == kb_id@ by {
                    if out@.contains(x) {
                        let a = choose|a: int| 0 <= a < out@.len() && out@[a] == x;
                        if a < before.len() {
                            assert(before[a] == x);
                            assert(before.contains(x));
                            let q = choose|q: int| 0 <= q < i && self.pages@[q] == x;
                            assert(0 <= q < i + 1 && self.pages@[q] == x);
                        } else {
                            assert(self.pages@[i as int] == x);
                        }
                    }
                    if (exists|q: int| 0 <= q < i + 1 && self.pages@[q] == x) && !x.is_deleted && x.kb_id@ == kb_id@ {
                        let q = choose|q: int| 0 <= q < i + 1 && self.pages@[q] == x;
                        if q < i {
                            assert(before.contains(x));
                            let a = choose|a: int| 0 <= a < before.len() && before[a] == x;
                            assert(out@[a] == x);
                        } else {
                            assert(out@[before.len() as int] == x);
                        }
                    }
                }
            }
            i = i + 1;
        }
        sort_pages(out)
    }

    /// The pages of `kb_id` that are not deleted and whose title, or the
    /// content of one of whose blocks, holds `query`, ignoring ASCII case,
    /// most recently updated first.
    pub fn search_pages(&self, kb_id: &str, query: &str) -> (r: Vec<Page>)
        requires
            self.wf(),
        ensures
            recent_first(r@),
            page_ids_distinct(r@),
            forall|p: Page| #[trigger] r@.contains(p) <==> page_found(self.pages(), self.blocks(), p, kb_id@, query@),
    {
        let key = kb_id.to_owned();
        let qc = chars_of(query);
        let q = fold_chars(&qc);
        let mut out: Vec<Page> = Vec::new();
        let mut i: usize = 0;
        while i < self.pages.len()
            invariant
                i <= self.pages@.len(),
                self.wf(),
                page_ids_distinct(out@),
                key@ == kb_id@,
                q@ == fold(query@),
                forall|p: Page| #[trigger] out@.contains(p) <==> (exists|k: int| 0 <= k < i && self.pages@[k] == p) && page_found(self.pages@, self.blocks@, p, kb_id@, query@),
            decreases self.pages@.len() - i,
        {
            let p = &self.pages[i];
            let mut hit = false;
            if p.kb_id == key && !p.is_deleted {
                let t = chars_of(p.title.as_str());
                let tf = fold_chars(&t);
                let title_hit = contains_chars(&tf, &q);
                let mut found = false;
                let mut j: usize = 0;
                while j < self.blocks.len() && !found
                    invariant
                        j <= self.blocks@.len(),
                        q@ == fold(query@),
                        !found ==> forall|k: int| 0 <= k < j ==> !(self.blocks@[k].page_id@ == p.id@ && contains_folded(#[trigger] self.blocks@[k].content@, query@)),
                        found ==> exists|k: int| 0 <= k < self.blocks@.len() && self.blocks@[k].page_id@ == p.id@ && contains_folded(#[trigger] self.blocks@[k].content@, query@),
                    decreases self.blocks@.len() - j,
                {
                    let b = &self.blocks[j];
                    if b.page_id == p.id {
                        let c = chars_of(b.content.as_str());
                        let cf = fold_chars(&c);
                        if contains_chars(&cf, &q) {
                            found = true;
                        }
                    }
                    j = j + 1;
                }
                hit = title_hit || found;
                assert(hit == page_found(self.pages@, self.blocks@, *p, kb_id@, query@));
            }
            let ghost before = out@;
            if hit {
                proof {
                    assert forall|c: int| 0 <= c < out@.len() implies out@[c].id@ != self.pages@[i as int].id@ by {
                        assert(out@.contains(out@[c]));
                        let q = choose|q: int| 0 <= q < i && self.pages@[q] == out@[c];
                    }
                }
                out.push(copy_page(p));
                assert forall|a: int, b: int| 0 <= a < b < out@.len() implies out@[a].id@ != out@[b].id@ by {
                    if b == out@.len() - 1 {
                        assert(out@[b] == self.pages@[i as int]);
                    }
                }
            }
            proof {
                assert(self.pages@.contains(self.pages@[i as int]));
                assert forall|x: Page| #[trigger] out@.contains(x) <==> (exists|k: int| 0 <= k < i + 1 && self.pages@[k] == x) && page_found(self.pages@, self.blocks@, x, kb_id@, query@) by {
                    if out@.contains(x) {
                        let a = choose|a: int| 0 <= a < out@.len() && out@[a] == x;
                        if a < before.len() {
                            assert(before[a] == x);
                            assert(before.contains(x));
                            let k = choose|k: int| 0 <= k < i && self.pages@[k] == x;
                            assert(0 <= k < i + 1 && self.pages@[k] == x);
                        } else {
                            assert(self.pages@[i as int] == x);
                        }
                    }
                    if (exists|k: int| 0 <= k < i + 1 && self.pages@[k] == x) && page_found(self.pages@, self.blocks@, x, kb_id@, query@) {
                        let k = choose|k: int| 0 <= k < i + 1 && self.pages@[k] == x;
                        if k < i {
                            assert(before.contains(x));
                            let a = choose|a: int| 0 <= a < before.len() && before[a] == x;
                            assert(out@[a] == x);
                        } else {
                            assert(out@[before.len() as int] == x);
                        }
                    }
                }
            }
            i = i + 1;
        }
        proof {
            assert forall|p: Page| #[trigger] out@.contains(p) <==> page_found(self.pages@, self.blocks@, p, kb_id@, query@) by {
                if page_found(self.pages@, self.blocks@, p, kb_id@, query@) {
                    let k = choose|k: int| 0 <= k < self.pages@.len() && self.pages@[k] == p;
                }
            }
        }
        let ghost o = out@;
        let r = sort_pages_recent(out);
        assert forall|p: Page| #[trigger] r@.contains(p) <==> page_found(self.pages(), self.blocks(), p, kb_id@, query@) by {
            assert(r@.contains(p) == o.contains(p));
        }
        r
    }

    /// The largest sort key among the siblings of a new block, or 0.
    fn max_block_sibling(&self, page_id: &str, parent: &Option<String>) -> (r: i64)
        ensures
            r as int == max_block_key(self.blocks@, page_id@, opt_view(*parent), self.blocks@.len() as int),
    {
        let key = page_id.to_owned();
        let mut m: i64 = 0;
        let mut i: usize = 0;
        while i < self.blocks.len()
            invariant
                i <= self.blocks@.len(),
                key@ == page_id@,
                m as int == max_block_key(self.blocks@, page_id@, opt_view(*parent), i as int),
            decreases self.blocks@.len() - i,
        {
            let b = &self.blocks[i];
            let sib = match parent {
                Some(pp) => match &b.parent_id {
                    Some(x) => *x == *pp,
                    None => false,
                },
                None => b.page_id == key && b.parent_id.is_none(),
            };
            if sib && b.sort_order > m {
                m = b.sort_order;
            }
            i = i + 1;
        }
        m
    }

    /// Adds a block with the given identity to page `page_id`, after its
    /// last sibling.
    pub fn insert_block(
        &mut self,
        id: String,
        page_id: String,
        block_type: String,
        content: String,
        data: String,
        parent_id: Option<String>,
        now: i64,
    ) -> (r: Result<Block, StoreError>)
        requires
            old(self).wf(),
        ensures
            has_page(old(self).pages(), page_id@) && !has_block(old(self).blocks(), id@) ==> r is Ok,
            final(self).wf(),
            !has_page(old(self).pages(), page_id@) ==> r == Err::<Block, StoreError>(StoreError::OwnerNotFound),
            has_page(old(self).pages(), page_id@) ==> (has_block(old(self).blocks(), id@) <==> r == Err::<
                Block,
                StoreError,
            >(StoreError::DuplicateId)),
            r is Err ==> *final(self) == *old(self),
            r matches Ok(b) ==> {
                &&& b == (Block {
                    id: id,
                    page_id: page_id,
                    block_type: block_type,
                    content: content,
                    data: data,
                    parent_id: parent_id,
                    sort_order: next_key(
                        max_block_key(old(self).blocks(), page_id@, opt_view(parent_id), old(self).blocks().len() as int),
                    ),
                    is_deleted: false,
                    created_at: now,
                    updated_at: now,
                })
                &&& final(self).blocks() == old(self).blocks().push(b)
                &&& final(self).pages() == old(self).pages()
                &&& final(self).kbs() == old(self).kbs()
            },
    {
        match self.find_page(page_id.as_str()) {
            Some(_) => {},
            None => {
                return Err(StoreError::OwnerNotFound);
            },
        }
        assert(has_page(self.pages@, page_id@));
        if self.find_block(id.as_str()).is_some() {
            return Err(StoreError::DuplicateId);
        }
        let m = self.max_block_sibling(page_id.as_str(), &parent_id);
        let sort_order = if m < i64::MAX {
            m + 1
        } else {
            i64::MAX
        };
        let b = Block {
            id,
            page_id,
            block_type,
            content,
            data,
            parent_id,
            sort_order,
            is_deleted: false,
            created_at: now,
            updated_at: now,
        };
        let out = copy_block(&b);
        let ghost b0 = self.blocks@;
        self.blocks.push(b);
        proof {
            assert forall|a: int| 0 <= a < self.blocks@.len() implies has_page(self.pages@, #[trigger] self.blocks@[a].page_id@) by {
                if a < b0.len() {
                    assert(self.blocks@[a] == b0[a]);
                    assert(has_page(old(self).pages@, old(self).blocks@[a].page_id@));
                } else {
                    assert(self.blocks@[a] == out);
                    assert(has_page(old(self).pages@, out.page_id@));
                }
            }
        }
        Ok(out)
    }

    /// Adds a block with a fresh identity to page `page_id`.
    pub fn create_block(
        &mut self,
        page_id: String,
        block_type: String,
        content: String,
        data: String,
        parent_id: Option<String>,
    ) -> (r: Result<Block, StoreError>)
        requires
            old(self).wf(),
        ensures
            final(self).wf(),
            !has_page(old(self).pages(), page_id@) ==> r == Err::<Block, StoreError>(StoreError::OwnerNotFound),
            r is Err ==> *final(self) == *old(self),
            r matches Ok(b) ==> {
                &&& !has_block(old(self).blocks(), b.id@)
                &&& b.page_id == page_id && b.block_type == block_type && b.content == content && b.data == data
                &&& b.parent_id == parent_id && !b.is_deleted && b.created_at == b.updated_at
                &&& b.sort_order == next_key(
                    max_block_key(old(self).blocks(), page_id@, opt_view(parent_id), old(self).blocks().len() as int),
                )
                &&& final(self).blocks() == old(self).blocks().push(b)
                &&& final(self).pages() == old(self).pages()
            },
    {
        let id = new_id();
        let now = now_millis();
        self.insert_block(id, page_id, block_type, content, data, parent_id, now)
    }

    /// The blocks of page `page_id` that are not deleted, under `parent_id`
    /// when given and at the top level otherwise, ordered by sort key.
    pub fn get_blocks(&self, page_id: &str, parent_id: Option<&str>) -> (r: Vec<Block>)
        ensures
            blocks_sorted(r@),
            forall|b: Block| #[trigger] r@.contains(b) <==> self.blocks().contains(b) && !b.is_deleted && b.page_id@
                == page_id@ && opt_view(b.parent_id) == opt_str_view(parent_id),
    {
        let key = page_id.to_owned();
        let par: Option<String> = match parent_id {
            Some(x) => Some(x.to_owned()),
            None => None,
        };
        let ghost pv = opt_str_view(parent_id);
        let mut out: Vec<Block> = Vec::new();
        let mut i: usize = 0;
        while i < self.blocks.len()
            invariant
                i <= self.blocks@.len(),
                key@ == page_id@,
                opt_view(par) == pv,
                forall|b: Block| #[trigger] out@.contains(b) <==> (exists|q: int| 0 <= q < i && self.blocks@[q] == b) && !b.is_deleted && b.page_id@ == page_id@ && opt_view(b.parent_id) == pv,
            decreases self.blocks@.len() - i,
        {
            let b = &self.blocks[i];
            let same_parent = match (&b.parent_id, &par) {
                (Some(x), Some(y)) => *x == *y,
                (None, None) => true,
                _ => false,
            };
            let ghost before = out@;
            if b.page_id == key && same_parent && !b.is_deleted {
                out.push(copy_block(b));
            }
            proof {
                assert forall|x: Block| #[trigger] out@.contains(x) <==> (exists|q: int| 0 <= q < i + 1 && self.blocks@[q] == x) && !x.is_deleted && x.page_id@ == page_id@ && opt_view(x.parent_id) == pv by {
                    if out@.contains(x) {
                        let a = choose|a: int| 0 <= a < out@.len() && out@[a] == x;
                        if a < before.len() {
                            assert(before[a] == x);
                            assert(before.contains(x));
                            let q = choose|q: int| 0 <= q < i && self.blocks@[q] == x;
                            assert(0 <= q < i + 1 && self.blocks@[q] == x);
                        } else {
                            assert(self.blocks@[i as int] == x);
                        }
                    }
                    if (exists|q: int| 0 <= q < i + 1 && self.blocks@[q] == x) && !x.is_deleted && x.page_id@ == page_id@ && opt_view(x.parent_id) == pv {
                        let q = choose|q: int| 0 <= q < i + 1 && self.blocks@[q] == x;
                        if q < i {
                            assert(before.contains(x));
                            let a = choose|a: int| 0 <= a < before.len() && before[a] == x;
                            assert(out@[a] == x);
                        } else {
                            assert(out@[before.len() as int] == x);
                        }
                    }
                }
            }
            i = i + 1;
        }
        proof {
            assert forall|b: Block| #[trigger] out@.contains(b) <==> self.blocks@.contains(b) && !b.is_deleted && b.page_id@ == page_id@ && opt_view(b.parent_id) == pv by {
                if self.blocks@.contains(b) {
                    let q = choose|q: int| 0 <= q < self.blocks@.len() && self.blocks@[q] == b;
                }
            }
        }
        sort_blocks(out)
    }

    /// The block `id`, if present.
    pub fn get_block_by_id(&self, id: &str) -> (r: Option<Block>)
        ensures
            r is Some <==> has_block(self.blocks(), id@),
            r matches Some(b) ==> b.id@ == id@ && self.blocks().contains(b),
    {
        match self.find_block(id) {
            Some(i) => {
                let b = copy_block(&self.blocks[i]);
                assert(self.blocks@[i as int] == b);
                Some(b)
            },
            None => None,
        }
    }

    /// Deletes block `id`, if present.
    pub fn delete_block(&mut self, id: &str)
        requires
            old(self).wf(),
        ensures
            final(self).wf(),
            !has_block(final(self).blocks(), id@),
            final(self).pages() == old(self).pages(),
            forall|b: Block| #[trigger] final(self).blocks().contains(b) <==> old(self).blocks().contains(b) && b.id@ != id@,
    {
        let ghost b0 = self.blocks@;
        match self.find_block(id) {
            Some(k) => {
                self.blocks.remove(k);
                proof {
                    let bs = self.blocks@;
                    assert(bs == b0.remove(k as int));
                    assert forall|a: int| 0 <= a < bs.len() implies has_page(self.pages@, #[trigger] bs[a].page_id@) by {
                        if a < k {
                            assert(bs[a] == b0[a]);
                            assert(has_page(old(self).pages@, old(self).blocks@[a].page_id@));
                        } else {
                            assert(bs[a] == b0[a + 1]);
                            assert(has_page(old(self).pages@, old(self).blocks@[a + 1].page_id@));
                        }
                    }
                    assert forall|a: int, c: int| 0 <= a < c < bs.len() implies bs[a].id@ != bs[c].id@ by {
                        let a0 = if a < k { a } else { a + 1 };
                        let c0 = if c < k { c } else { c + 1 };
                        assert(bs[a] == b0[a0]);
                        assert(bs[c] == b0[c0]);
                    }
                    assert forall|b: Block| #[trigger] bs.contains(b) <==> b0.contains(b) && b.id@ != id@ by {
                        if bs.contains(b) {
                            let a = choose|a: int| 0 <= a < bs.len() && bs[a] == b;
                            let a0 = if a < k { a } else { a + 1 };
                            assert(bs[a] == b0[a0]);
                            if b.id@ == id@ {
                                if a0 < k {
                                    assert(b0[a0].id@ != b0[k as int].id@);
                                } else {
                                    assert(b0[k as int].id@ != b0[a0].id@);
                                }
                            }
                        }
                        if b0.contains(b) && b.id@ != id@ {
                            let q = choose|q: int| 0 <= q < b0.len() && b0[q] == b;
                            if q < k {
                                assert(bs[q] == b);
                            } else {
                                assert(q != k);
                                assert(bs[q - 1] == b);
                            }
                        }
                    }
                    assert(!has_block(bs, id@)) by {
                        if has_block(bs, id@) {
                            let a = choose|a: int| 0 <= a < bs.len() && bs[a].id@ == id@;
                            assert(bs.contains(bs[a]));
                        }
                    }
                }
            },
            None => {
                assert forall|b: Block| #[trigger] self.blocks@.contains(b) implies b.id@ != id@ by {
                    let a = choose|a: int| 0 <= a < self.blocks@.len() && self.blocks@[a] == b;
                }
            },
        }
    }

    /// Moves block `block_id` under `new_parent_id` with sort key
    /// `new_order_index`, at time `now`.
    pub fn move_block(&mut self, block_id: &str, new_parent_id: Option<&str>, new_order_index: i64, now: i64)
        requires
            old(self).wf(),
        ensures
            final(self).wf(),
            final(self).pages() == old(self).pages(),
            !has_block(old(self).blocks(), block_id@) ==> *final(self) == *old(self),
            has_block(old(self).blocks(), block_id@) ==> exists|i: int|
                0 <= i < old(self).blocks().len() && old(self).blocks()[i].id@ == block_id@ && final(self).blocks().len()
                    == old(self).blocks().len() && (forall|q: int|
                    0 <= q < old(self).blocks().len() && q != i ==> #[trigger] final(self).blocks()[q]
                        == old(self).blocks()[q]) && opt_view(final(self).blocks()[i].parent_id) == opt_str_view(
                    new_parent_id,
                ) && final(self).blocks()[i].sort_order == new_order_index && final(self).blocks()[i].updated_at
                    == now && final(self).blocks()[i].id == old(self).blocks()[i].id && final(self).blocks()[i].page_id
                    == old(self).blocks()[i].page_id && final(self).blocks()[i].content == old(self).blocks()[i].content,
    {
        let i = match self.find_block(block_id) {
            Some(i) => i,
            None => {
                return;
            },
        };
        let ghost b0 = self.blocks@;
        let ob = &self.blocks[i];
        let parent: Option<String> = match new_parent_id {
            Some(x) => Some(x.to_owned()),
            None => None,
        };
        let nb = Block {
            id: ob.id.clone(),
            page_id: ob.page_id.clone(),
            block_type: ob.block_type.clone(),
            content: ob.content.clone(),
            data: ob.data.clone(),
            parent_id: parent,
            sort_order: new_order_index,
            is_deleted: ob.is_deleted,
            created_at: ob.created_at,
            updated_at: now,
        };
        self.blocks.set(i, nb);
        proof {
            let bs = self.blocks@;
            assert forall|a: int| 0 <= a < bs.len() implies has_page(self.pages@, #[trigger] bs[a].page_id@) by {
                assert(bs[a].page_id == b0[a].page_id);
            }
            assert forall|a: int, c: int| 0 <= a < c < bs.len() implies bs[a].id@ != bs[c].id@ by {
                assert(bs[a].id == b0[a].id);
                assert(bs[c].id == b0[c].id);
            }
        }
    }

    /// Applies the present fields to knowledge base `id` at time `now`.
    pub fn update_knowledge_base(
        &mut self,
        id: &str,
        name: Option<String>,
        icon: Option<String>,
        description: Option<String>,
        now: i64,
    )
        requires
            old(self).wf(),
        ensures
            final(self).wf(),
            final(self).pages() == old(self).pages(),
            final(self).blocks() == old(self).blocks(),
            final(self).kbs().len() == old(self).kbs().len(),
            forall|i: int|
                0 <= i < old(self).kbs().len() ==> #[trigger] final(self).kbs()[i] == if old(self).kbs()[i].id@ == id@ {
                    kb_updated(old(self).kbs()[i], name, icon, description, now)
                } else {
                    old(self).kbs()[i]
                },
    {
        let k = match self.find_kb(id) {
            Some(k) => k,
            None => {
                return;
            },
        };
        let ghost k0 = self.kbs@;
        let touched = name.is_some() || icon.is_some() || description.is_some();
        let old_kb = &self.kbs[k];
        let nk = KnowledgeBase {
            id: old_kb.id.clone(),
            name: match name {
                Some(x) => x,
                None => old_kb.name.clone(),
            },
            icon: match icon {
                Some(x) => x,
                None => old_kb.icon.clone(),
            },
            description: if description.is_some() { description } else { copy_opt(&old_kb.description) },
            created_at: old_kb.created_at,
            updated_at: if touched { now } else { old_kb.updated_at },
        };
        self.kbs.set(k, nk);
        proof {
            let ks = self.kbs@;
            assert forall|a: int| 0 <= a < k0.len() && a != k implies k0[a].id@ != id@ by {
                if a < k { assert(k0[a].id@ != k0[k as int].id@); } else { assert(k0[k as int].id@ != k0[a].id@); }
            }
            assert forall|a: int, b: int| 0 <= a < b < ks.len() implies ks[a].id@ != ks[b].id@ by {
                assert(ks[a].id == k0[a].id && ks[b].id == k0[b].id);
            }
            assert forall|a: int| 0 <= a < self.pages@.len() implies has_kb(ks, #[trigger] self.pages@[a].kb_id@) by {
                let j = choose|j: int| 0 <= j < k0.len() && k0[j].id@ == self.pages@[a].kb_id@;
                assert(ks[j].id == k0[j].id);
            }
        }
    }

    /// The knowledge bases whose name or description holds `query`, ignoring
    /// ASCII case.
    pub fn search_knowledge_bases(&self, query: &str) -> (r: Vec<KnowledgeBase>)
        ensures
            forall|k: KnowledgeBase| #[trigger] r@.contains(k) <==> self.kbs().contains(k) && kb_found(k, query@),
    {
        let qc = chars_of(query);
        let q = fold_chars(&qc);
        let mut out: Vec<KnowledgeBase> = Vec::new();
        let mut i: usize = 0;
        while i < self.kbs.len()
            invariant
                i <= self.kbs@.len(),
                q@ == fold(query@),
                forall|k: KnowledgeBase| #[trigger] out@.contains(k) <==> (exists|j: int| 0 <= j < i && self.kbs@[j] == k) && kb_found(k, query@),
            decreases self.kbs@.len() - i,
        {
            let kb = &self.kbs[i];
            let n = chars_of(kb.name.as_str());
            let nf = fold_chars(&n);
            let mut hit = contains_chars(&nf, &q);
            if !hit {
                match &kb.description {
                    Some(d) => {
                        let dc = chars_of(d.as_str());
                        let df = fold_chars(&dc);
                        hit = contains_chars(&df, &q);
                    },
                    None => {},
                }
            }
            let ghost before = out@;
            if hit {
                out.push(copy_kb(kb));
            }
            proof {
                assert(hit == kb_found(*kb, query@));
                assert forall|x: KnowledgeBase| #[trigger] out@.contains(x) <==> (exists|j: int| 0 <= j < i + 1 && self.kbs@[j] == x) && kb_found(x, query@) by {
                    if out@.contains(x) {
                        let a = choose|a: int| 0 <= a < out@.len() && out@[a] == x;
                        if a < before.len() {
                            assert(before[a] == x);
                            assert(before.contains(x));
                            let j = choose|j: int| 0 <= j < i && self.kbs@[j] == x;
                            assert(0 <= j < i + 1 && self.kbs@[j] == x);
                        } else {
                            assert(self.kbs@[i as int] == x);
                        }
                    }
                    if (exists|j: int| 0 <= j < i + 1 && self.kbs@[j] == x) && kb_found(x, query@) {
                        let j = choose|j: int| 0 <= j < i + 1 && self.kbs@[j] == x;
                        if j < i {
                            assert(before.contains(x));
                            let a = choose|a: int| 0 <= a < before.len() && before[a] == x;
                            assert(out@[a] == x);
                        } else {
                            assert(out@[before.len() as int] == x);
                        }
                    }
                }
            }
            i = i + 1;
        }
        proof {
            assert forall|k: KnowledgeBase| #[trigger] out@.contains(k) <==> self.kbs@.contains(k) && kb_found(k, query@) by {
                if self.kbs@.contains(k) {
                    let j = choose|j: int| 0 <= j < self.kbs@.len() && self.kbs@[j] == k;
                }
            }
        }
        out
    }

    /// Applies the present fields to block `id` at time `now`.
    pub fn update_block(
        &mut self,
        id: &str,
        content: Option<String>,
        parent_id: Option<String>,
        order_index: Option<i64>,
        now: i64,
    )
        requires
            old(self).wf(),
        ensures
            final(self).wf(),
            final(self).pages() == old(self).pages(),
            final(self).blocks().len() == old(self).blocks().len(),
            forall|i: int|
                0 <= i < old(self).blocks().len() ==> #[trigger] final(self).blocks()[i] == if old(self).blocks()[i].id@ == id@ {
                    block_updated(old(self).blocks()[i], content, parent_id, order_index, now)
                } else {
                    old(self).blocks()[i]
                },
    {
        let k = match self.find_block(id) {
            Some(k) => k,
            None => {
                return;
            },
        };
        let ghost b0 = self.blocks@;
        let touched = content.is_some() || parent_id.is_some() || order_index.is_some();
        let ob = &self.blocks[k];
        let nb = Block {
            id: ob.id.clone(),
            page_id: ob.page_id.clone(),
            block_type: ob.block_type.clone(),
            content: match content {
                Some(x) => x,
                None => ob.content.clone(),
            },
            data: ob.data.clone(),
            parent_id: if parent_id.is_some() { parent_id } else { copy_opt(&ob.parent_id) },
            sort_order: match order_index {
                Some(x) => x,
                None => ob.sort_order,
            },
            is_deleted: ob.is_deleted,
            created_at: ob.created_at,
            updated_at: if touched { now } else { ob.updated_at },
        };
        self.blocks.set(k, nb);
        proof {
            let bs = self.blocks@;
            assert forall|a: int| 0 <= a < b0.len() && a != k implies b0[a].id@ != id@ by {
                if a < k { assert(b0[a].id@ != b0[k as int].id@); } else { assert(b0[k as int].id@ != b0[a].id@); }
            }
            assert forall|a: int, b: int| 0 <= a < b < bs.len() implies bs[a].id@ != bs[b].id@ by {
                assert(bs[a].id == b0[a].id && bs[b].id == b0[b].id);
            }
            assert forall|a: int| 0 <= a < bs.len() implies has_page(self.pages@, #[trigger] bs[a].page_id@) by {
                assert(bs[a].page_id == b0[a].page_id);
            }
        }
    }

    /// Renames page `id` and, when given, moves it under `parent_id` (checked
    /// as `move_page` does) and gives it sort key `order_index`, at time `now`.
    pub fn update_page(
        &mut self,
        id: &str,
        title: Option<String>,
        parent_id: Option<&str>,
        order_index: Option<i64>,
        now: i64,
    ) -> (r: Result<(), StoreError>)
        requires
            old(self).wf(),
        ensures
            r is Err ==> r == Err::<(), StoreError>(StoreError::OwnerNotFound) || r == Err::<(), StoreError>(StoreError::CycleRejected),
            has_page(old(self).pages(), id@) && (parent_id matches Some(pid) ==> has_page_in(old(self).pages(), pid@, old(self).pages()[page_index(old(self).pages(), id@)].kb_id@) && !in_subtree(old(self).pages(), page_index(old(self).pages(), pid@), id@)) ==> r is Ok,
            final(self).wf(),
            final(self).kbs() == old(self).kbs(),
            final(self).blocks() == old(self).blocks(),
            r is Err ==> *final(self) == *old(self),
            !has_page(old(self).pages(), id@) ==> r is Ok && *final(self) == *old(self),
            has_page(old(self).pages(), id@) ==> {
                let ps = old(self).pages();
                let i = page_index(ps, id@);
                &&& (parent_id matches Some(pid) && !has_page_in(ps, pid@, ps[i].kb_id@)) ==> r
                    == Err::<(), StoreError>(StoreError::OwnerNotFound)
                &&& (parent_id matches Some(pid) && has_page(ps, pid@) && in_subtree(ps, page_index(ps, pid@), id@))
                    ==> r == Err::<(), StoreError>(StoreError::CycleRejected)
                &&& r is Ok ==> {
                    &&& final(self).pages().len() == ps.len()
                    &&& forall|q: int| 0 <= q < ps.len() && q != i ==> #[trigger] final(self).pages()[q] == ps[q]
                    &&& final(self).pages()[i].title == (if title is Some { title->0 } else { ps[i].title })
                    &&& opt_view(final(self).pages()[i].parent_id) == (if parent_id is Some { opt_str_view(parent_id) } else { opt_view(ps[i].parent_id) })
                    &&& final(self).pages()[i].sort_order == (if order_index is Some { order_index->0 } else { ps[i].sort_order })
                    &&& final(self).pages()[i].id == ps[i].id && final(self).pages()[i].kb_id == ps[i].kb_id
                    &&& final(self).pages()[i].is_deleted == ps[i].is_deleted
                }
            },
    {
        let i = match self.find_page(id) {
            Some(i) => i,
            None => {
                return Ok(());
            },
        };
        let ghost ps = self.pages@;
        let parent: Option<String> = match parent_id {
            Some(pid) => {
                let j = match self.find_page(pid) {
                    Some(j) => j,
                    None => {
                        return Err(StoreError::OwnerNotFound);
                    },
                };
                if !(self.pages[j].kb_id == self.pages[i].kb_id) {
                    proof {
                        if in_subtree(ps, j as int, id@) {
                            self.lemma_subtree_same_kb(j as int, i as int, ps.len() as int);
                        }
                        if has_page_in(ps, pid@, ps[i as int].kb_id@) {
                            let q = choose|q: int| 0 <= q < ps.len() && ps[q].id@ == pid@ && ps[q].kb_id@ == ps[i as int].kb_id@;
                            if q != j as int {
                                if q < j as int {
                                    assert(ps[q].id@ != ps[j as int].id@);
                                } else {
                                    assert(ps[j as int].id@ != ps[q].id@);
                                }
                            }
                        }
                    }
                    return Err(StoreError::OwnerNotFound);
                }
                let marks = self.subtree_marks(id);
                if marks[j] {
                    return Err(StoreError::CycleRejected);
                }
                Some(pid.to_owned())
            },
            None => copy_opt(&self.pages[i].parent_id),
        };
        let touched = title.is_some() || parent_id.is_some() || order_index.is_some();
        let op = &self.pages[i];
        let np = Page {
            id: op.id.clone(),
            kb_id: op.kb_id.clone(),
            title: match title {
                Some(t) => t,
                None => op.title.clone(),
            },
            content: copy_opt(&op.content),
            parent_id: parent,
            sort_order: match order_index {
                Some(o) => o,
                None => op.sort_order,
            },
            is_deleted: op.is_deleted,
            created_at: op.created_at,
            updated_at: if touched { now } else { op.updated_at },
        };
        self.pages.set(i, np);
        proof {
            let ns = self.pages@;
            assert forall|a: int| 0 <= a < ns.len() implies has_kb(self.kbs@, #[trigger] ns[a].kb_id@) by {
                assert(ns[a].kb_id == ps[a].kb_id);
            }
            assert forall|a: int, c: int| 0 <= a < c < ns.len() implies ns[a].id@ != ns[c].id@ by {
                assert(ns[a].id == ps[a].id);
                assert(ns[c].id == ps[c].id);
            }
            assert forall|a: int| 0 <= a < ns.len() implies parent_ok(ns, #[trigger] ns[a]) by {
                if a != i || parent_id is None {
                    assert(ns[a].parent_id == ps[a].parent_id && ns[a].kb_id == ps[a].kb_id);
                    assert(parent_ok(ps, ps[a]));
                }
                if let Some(pid) = ns[a].parent_id {
                    if a != i || parent_id is None {
                        let q = choose|q: int| 0 <= q < ps.len() && ps[q].id@ == pid@ && ps[q].kb_id@ == ns[a].kb_id@;
                        assert(ns[q].id == ps[q].id && ns[q].kb_id == ps[q].kb_id);
                    } else {
                        let q = page_index(ps, pid@);
                        lemma_page_index_from(ps, pid@, 0);
                        assert(ns[q].id == ps[q].id && ns[q].kb_id == ps[q].kb_id);
                    }
                }
            }
            assert forall|a: int| 0 <= a < self.blocks@.len() implies has_page(ns, #[trigger] self.blocks@[a].page_id@) by {
                assert(has_page(ps, self.blocks@[a].page_id@));
                let q = choose|q: int| 0 <= q < ps.len() && ps[q].id@ == self.blocks@[a].page_id@;
                assert(ns[q].id == ps[q].id);
            }
            assert forall|a: int| 0 <= a < self.versions@.len() implies has_page(ns, #[trigger] self.versions@[a].page_id@) by {
                assert(has_page(ps, self.versions@[a].page_id@));
                let q = choose|q: int| 0 <= q < ps.len() && ps[q].id@ == self.versions@[a].page_id@;
                assert(ns[q].id == ps[q].id);
            }
            assert(i as int == page_index(ps, id@));
        }
        Ok(())
    }

    /// Saves `content` as the content of page `page_id` at time `now` and,
    /// when `version` is given, records it under identity `version_id` as a
    /// saved version; a missing page is refused.
    pub fn save_page_content(
        &mut self,
        page_id: &str,
        content: String,
        version: Option<i32>,
        version_id: String,
        now: i64,
    ) -> (r: Result<(), StoreError>)
        requires
            old(self).wf(),
        ensures
            r is Err ==> r == Err::<(), StoreError>(StoreError::NotFound),
            final(self).wf(),
            !has_page(old(self).pages(), page_id@) <==> r == Err::<(), StoreError>(StoreError::NotFound),
            r is Err ==> *final(self) == *old(self),
            r is Ok ==> {
                let ps = old(self).pages();
                let i = page_index(ps, page_id@);
                &&& final(self).pages() == ps.update(i, Page { content: Some(content), updated_at: now, ..ps[i] })
                &&& final(self).blocks() == old(self).blocks()
                &&& version is None ==> final(self).versions() == old(self).versions()
                &&& (version matches Some(v) ==> final(self).versions() == old(self).versions().push(
                    PageVersion { id: version_id, page_id: ps[i].id, content: content, version: v, created_at: now, created_by: None },
                ))
            },
    {
        let i = match self.find_page(page_id) {
            Some(i) => i,
            None => {
                return Err(StoreError::NotFound);
            },
        };
        let ghost ps = self.pages@;
        let op = &self.pages[i];
        let pid = op.id.clone();
        match version {
            Some(v) => {
                self.versions.push(
                    PageVersion {
                        id: version_id,
                        page_id: pid,
                        content: content.clone(),
                        version: v,
                        created_at: now,
                        created_by: None,
                    },
                );
            },
            None => {},
        }
        let op = &self.pages[i];
        let np = Page {
            id: op.id.clone(),
            kb_id: op.kb_id.clone(),
            title: op.title.clone(),
            content: Some(content),
            parent_id: copy_opt(&op.parent_id),
            sort_order: op.sort_order,
            is_deleted: op.is_deleted,
            created_at: op.created_at,
            updated_at: now,
        };
        self.pages.set(i, np);
        proof {
            let ns = self.pages@;
            assert(i as int == page_index(ps, page_id@));
            assert forall|a: int| 0 <= a < ns.len() implies #[trigger] ns[a].id == ps[a].id && ns[a].kb_id == ps[a].kb_id && ns[a].parent_id == ps[a].parent_id by {}
            assert forall|a: int| 0 <= a < ns.len() implies has_kb(self.kbs@, #[trigger] ns[a].kb_id@) by {
                assert(ns[a].kb_id == ps[a].kb_id);
            }
            assert forall|a: int, c: int| 0 <= a < c < ns.len() implies ns[a].id@ != ns[c].id@ by {
                assert(ns[a].id == ps[a].id && ns[c].id == ps[c].id);
            }
            assert forall|a: int| 0 <= a < ns.len() implies parent_ok(ns, #[trigger] ns[a]) by {
                assert(ns[a].parent_id == ps[a].parent_id && ns[a].kb_id == ps[a].kb_id);
                assert(parent_ok(ps, ps[a]));
                if let Some(pp) = ns[a].parent_id {
                    let q = choose|q: int| 0 <= q < ps.len() && ps[q].id@ == pp@ && ps[q].kb_id@ == ns[a].kb_id@;
                    assert(ns[q].id == ps[q].id && ns[q].kb_id == ps[q].kb_id);
                }
            }
            assert forall|a: int| 0 <= a < self.blocks@.len() implies has_page(ns, #[trigger] self.blocks@[a].page_id@) by {
                assert(has_page(ps, self.blocks@[a].page_id@));
                let q = choose|q: int| 0 <= q < ps.len() && ps[q].id@ == self.blocks@[a].page_id@;
                assert(ns[q].id == ps[q].id);
            }
            assert forall|a: int| 0 <= a < self.versions@.len() implies has_page(ns, #[trigger] self.versions@[a].page_id@) by {
                if a < old(self).versions@.len() {
                    assert(self.versions@[a] == old(self).versions@[a]);
                    assert(has_page(ps, self.versions@[a].page_id@));
                    let q = choose|q: int| 0 <= q < ps.len() && ps[q].id@ == self.versions@[a].page_id@;
                    assert(ns[q].id == ps[q].id);
                } else {
                    assert(ns[i as int].id == ps[i as int].id);
                }
            }
            assert(ns =~= ps.update(i as int, Page { content: ns[i as int].content, updated_at: now, ..ps[i as int] }));
        }
        Ok(())
    }

    /// The content of page `page_id` if it exists and is not deleted; a page
    /// without content reads as an empty editor document.
    pub fn get_page_content(&self, page_id: &str) -> (r: Result<String, StoreError>)
        requires
            self.wf(),
        ensures
            r is Err ==> r == Err::<String, StoreError>(StoreError::NotFound),
            !(exists|i: int| 0 <= i < self.pages().len() && self.pages()[i].id@ == page_id@ && !self.pages()[i].is_deleted)
                <==> r == Err::<String, StoreError>(StoreError::NotFound),
            r matches Ok(c) ==> exists|i: int|
                0 <= i < self.pages().len() && self.pages()[i].id@ == page_id@ && !self.pages()[i].is_deleted && match self.pages()[i].content {
                    Some(x) => c == x,
                    None => c@ == EMPTY_DOCUMENT@,
                },
    {
        match self.find_page(page_id) {
            Some(i) => {
                if self.pages[i].is_deleted {
                    proof {
                        assert forall|j: int| 0 <= j < self.pages@.len() && self.pages@[j].id@ == page_id@ implies self.pages@[j].is_deleted by {
                            if j < i {
                                assert(self.pages@[j].id@ != self.pages@[i as int].id@);
                            } else if j > i {
                                assert(self.pages@[i as int].id@ != self.pages@[j].id@);
                            }
                        }
                    }
                    return Err(StoreError::NotFound);
                }
                match &self.pages[i].content {
                    Some(c) => Ok(c.clone()),
                    None => Ok(EMPTY_DOCUMENT.to_owned()),
                }
            },
            None => Err(StoreError::NotFound),
        }
    }

    /// The saved versions of page `page_id`, oldest first.
    pub fn get_page_versions(&self, page_id: &str) -> (r: Vec<PageVersion>)
        ensures
            r@ == versions_of(self.versions(), page_id@, self.versions().len() as int),
    {
        let key = page_id.to_owned();
        let mut out: Vec<PageVersion> = Vec::new();
        let mut i: usize = 0;
        while i < self.versions.len()
            invariant
                i <= self.versions@.len(),
                key@ == page_id@,
                out@ == versions_of(self.versions@, page_id@, i as int),
            decreases self.versions@.len() - i,
        {
            let v = &self.versions[i];
            let ok = v.page_id == key;
            if ok {
                out.push(PageVersion {
                    id: v.id.clone(),
                    page_id: v.page_id.clone(),
                    content: v.content.clone(),
                    version: v.version,
                    created_at: v.created_at,
                    created_by: copy_opt(&v.created_by),
                });
            }
            proof {
                if ok {
                    assert(versions_of(self.versions@, page_id@, i + 1) =~= versions_of(self.versions@, page_id@, i as int).push(self.versions@[i as int]));
                } else {
                    assert(versions_of(self.versions@, page_id@, i + 1) =~= versions_of(self.versions@, page_id@, i as int));
                }
            }
            i = i + 1;
        }
        out
    }

    /// The blocks of page `page_id` whose content holds `query`, ignoring
    /// ASCII case, ordered by sort key.
    pub fn search_blocks(&self, page_id: &str, query: &str) -> (r: Vec<Block>)
        ensures
            blocks_sorted(r@),
            forall|b: Block| #[trigger] r@.contains(b) <==> self.blocks().contains(b) && b.page_id@ == page_id@ && contains_folded(b.content@, query@),
    {
        let key = page_id.to_owned();
        let qc = chars_of(query);
        let q = fold_chars(&qc);
        let mut out: Vec<Block> = Vec::new();
        let mut i: usize = 0;
        while i < self.blocks.len()
            invariant
                i <= self.blocks@.len(),
                key@ == page_id@,
                q@ == fold(query@),
                forall|b: Block| #[trigger] out@.contains(b) <==> (exists|j: int| 0 <= j < i && self.blocks@[j] == b) && b.page_id@ == page_id@ && contains_folded(b.content@, query@),
            decreases self.blocks@.len() - i,
        {
            let b = &self.blocks[i];
            let mut hit = false;
            if b.page_id == key {
                let c = chars_of(b.content.as_str());
                let cf = fold_chars(&c);
                hit = contains_chars(&cf, &q);
            }
            let ghost before = out@;
            if hit {
                out.push(copy_block(b));
            }
            proof {
                assert(hit == (b.page_id@ == page_id@ && contains_folded(b.content@, query@)));
                assert forall|x: Block| #[trigger] out@.contains(x) <==> (exists|j: int| 0 <= j < i + 1 && self.blocks@[j] == x) && x.page_id@ == page_id@ && contains_folded(x.content@, query@) by {
                    if out@.contains(x) {
                        let a = choose|a: int| 0 <= a < out@.len() && out@[a] == x;
                        if a < before.len() {
                            assert(before[a] == x);
                            assert(before.contains(x));
                            let j = choose|j: int| 0 <= j < i && self.blocks@[j] == x;
                            assert(0 <= j < i + 1 && self.blocks@[j] == x);
                        } else {
                            assert(self.blocks@[i as int] == x);
                        }
                    }
                    if (exists|j: int| 0 <= j < i + 1 && self.blocks@[j] == x) && x.page_id@ == page_id@ && contains_folded(x.content@, query@) {
                        let j = choose|j: int| 0 <= j < i + 1 && self.blocks@[j] == x;
                        if j < i {
                            assert(before.contains(x));
                            let a = choose|a: int| 0 <= a < before.len() && before[a] == x;
                            assert(out@[a] == x);
                        } else {
                            assert(out@[before.len() as int] == x);
                        }
                    }
                }
            }
            i = i + 1;
        }
        proof {
            assert forall|b: Block| #[trigger] out@.contains(b) <==> self.blocks@.contains(b) && b.page_id@ == page_id@ && contains_folded(b.content@, query@) by {
                if self.blocks@.contains(b) {
                    let j = choose|j: int| 0 <= j < self.blocks@.len() && self.blocks@[j] == b;
                }
            }
        }
        sort_blocks(out)
    }

    /// What every well-formed store satisfies: identities of knowledge
    /// bases, pages and blocks are unique; each page belongs to a stored
    /// knowledge base and its parent, if any, is a page of the same one;
    /// each block and saved version belongs to a stored page.
    pub proof fn lemma_wf_facts(&self)
        requires
            self.wf(),
        ensures
            forall|i: int, j: int| 0 <= i < j < self.kbs().len() ==> self.kbs()[i].id@ != self.kbs()[j].id@,
            forall|i: int, j: int| 0 <= i < j < self.pages().len() ==> self.pages()[i].id@ != self.pages()[j].id@,
            forall|i: int, j: int| 0 <= i < j < self.blocks().len() ==> self.blocks()[i].id@ != self.blocks()[j].id@,
            forall|i: int| 0 <= i < self.pages().len() ==> has_kb(self.kbs(), #[trigger] self.pages()[i].kb_id@),
            forall|i: int| 0 <= i < self.pages().len() ==> parent_ok(self.pages(), #[trigger] self.pages()[i]),
            forall|i: int| 0 <= i < self.blocks().len() ==> has_page(self.pages(), #[trigger] self.blocks()[i].page_id@),
            forall|i: int| 0 <= i < self.versions().len() ==> has_page(self.pages(), #[trigger] self.versions()[i].page_id@),
    {
        assert forall|i: int| 0 <= i < self.blocks().len() implies has_page(self.pages(), #[trigger] self.blocks()[i].page_id@) by {
            assert(has_page(self.pages@, self.blocks@[i].page_id@));
        }
    }

    /// A page in the subtree of page `j` belongs to the same knowledge base.
    pub proof fn lemma_subtree_same_kb(&self, i: int, j: int, n: int)
        requires
            self.wf(),
            0 <= i < self.pages().len(),
            0 <= j < self.pages().len(),
            within(self.pages(), i, self.pages()[j].id@, n),
        ensures
            self.pages()[i].kb_id@ == self.pages()[j].kb_id@,
        decreases n,
    {
        let ps = self.pages@;
        if ps[i].id@ == ps[j].id@ {
            if i != j {
                if i < j { assert(ps[i].id@ != ps[j].id@); } else { assert(ps[j].id@ != ps[i].id@); }
            }
        } else {
            let k = parent_index(ps, i);
            assert(parent_ok(ps, ps[i]));
            let pid = ps[i].parent_id->0;
            lemma_page_index_from(ps, pid@, 0);
            let q = choose|q: int| 0 <= q < ps.len() && ps[q].id@ == pid@ && ps[q].kb_id@ == ps[i].kb_id@;
            if q != k {
                if q < k { assert(ps[q].id@ != ps[k].id@); } else { assert(ps[k].id@ != ps[q].id@); }
            }
            self.lemma_subtree_same_kb(k, j, n - 1);
        }
    }

    fn search_item_of(&self, i: usize, include_content: bool) -> (r: PageSearchResult)
        requires
            self.wf(),
            i < self.pages@.len(),
        ensures
            search_item(r, self.pages@[i as int], self.kbs@, self.pages@, include_content),
    {
        let p = &self.pages[i];
        assert(has_kb(self.kbs@, p.kb_id@));
        let kb_name = match self.find_kb(p.kb_id.as_str()) {
            Some(k) => self.kbs[k].name.clone(),
            None => String::new(),
        };
        assert(parent_ok(self.pages@, *p));
        let parent_title = match &p.parent_id {
            Some(pid) => match self.find_page(pid.as_str()) {
                Some(j) => Some(self.pages[j].title.clone()),
                None => None,
            },
            None => None,
        };
        PageSearchResult {
            id: p.id.clone(),
            title: p.title.clone(),
            content: if include_content { copy_opt(&p.content) } else { None },
            kb_id: p.kb_id.clone(),
            kb_name,
            parent_id: copy_opt(&p.parent_id),
            parent_title,
            created_at: p.created_at,
            updated_at: p.updated_at,
        }
    }

    /// Up to `limit` live pages, of `kb_id` when given, whose title or
    /// content holds `query` ignoring ASCII case (all of them for a blank
    /// query), most recently updated first, each once; a matching page left
    /// out is no newer than any listed one.
    pub fn search_knowledge_pages(&self, query: &str, kb_id: Option<&str>, limit: usize, include_content: bool) -> (r: Vec<PageSearchResult>)
        requires
            self.wf(),
        ensures
            r@.len() <= limit,
            forall|k: int| 0 <= k < r@.len() ==> search_hit(#[trigger] r@[k], self.pages(), self.kbs(), opt_str_view(kb_id), query@, include_content),
            forall|a: int, b: int| 0 <= a < b < r@.len() ==> r@[a].id@ != r@[b].id@ && r@[a].updated_at >= r@[b].updated_at,
            forall|i: int|
                0 <= i < self.pages().len() && #[trigger] page_search_match(self.pages()[i], opt_str_view(kb_id), query@) ==> (exists|k: int|
                    0 <= k < r@.len() && r@[k].id == self.pages()[i].id) || (r@.len() == limit && forall|k: int|
                    0 <= k < r@.len() ==> r@[k].updated_at >= self.pages()[i].updated_at),
    {
        let ghost kv = opt_str_view(kb_id);
        let key: Option<String> = match kb_id {
            Some(k) => Some(k.to_owned()),
            None => None,
        };
        let qc = chars_of(query);
        let q = fold_chars(&qc);
        let blank = trim_range(&qc, 0, qc.len());
        assert(qc@.subrange(0, qc@.len() as int) =~= qc@);
        let all = blank.len() == 0;
        let ps = Ghost(self.pages@);
        // indices of the matching pages, in store order
        let mut hits: Vec<usize> = Vec::new();
        let mut i: usize = 0;
        while i < self.pages.len()
            invariant
                i <= self.pages@.len(),
                ps@ == self.pages@,
                q@ == fold(query@),
                all == (trim(query@).len() == 0),
                kv == opt_str_view(kb_id),
                key matches Some(k) ==> kv == Some(k@),
                key is None ==> kv is None,
                forall|a: int| 0 <= a < hits@.len() ==> (#[trigger] hits@[a]) < i && page_search_match(ps@[hits@[a] as int], kv, query@),
                forall|a: int, b: int| 0 <= a < b < hits@.len() ==> hits@[a] < hits@[b],
                forall|x: int| 0 <= x < i && page_search_match(ps@[x], kv, query@) ==> hits@.contains(x as usize),
            decreases self.pages@.len() - i,
        {
            let p = &self.pages[i];
            let in_kb = match &key {
                Some(k) => p.kb_id == *k,
                None => true,
            };
            let mut hit = false;
            if !p.is_deleted && in_kb {
                if all {
                    hit = true;
                } else {
                    let t = chars_of(p.title.as_str());
                    let tf = fold_chars(&t);
                    hit = contains_chars(&tf, &q);
                    if !hit {
                        match &p.content {
                            Some(c) => {
                                let cc = chars_of(c.as_str());
                                let cf = fold_chars(&cc);
                                hit = contains_chars(&cf, &q);
                            },
                            None => {},
                        }
                    }
                }
            }
            assert(hit == page_search_match(*p, kv, query@));
            let ghost before = hits@;
            if hit {
                hits.push(i);
                assert forall|x: int| 0 <= x < i + 1 && page_search_match(ps@[x], kv, query@) implies hits@.contains(x as usize) by {
                    if x < i {
                        let a = choose|a: int| 0 <= a < before.len() && before[a] == x as usize;
                        assert(hits@[a] == before[a]);
                    } else {
                        assert(hits@[before.len() as int] == x as usize);
                    }
                }
            }
            i = i + 1;
        }
        // repeatedly take the newest page not yet taken
        let n = hits.len();
        let mut taken: Vec<bool> = Vec::new();
        let mut t: usize = 0;
        while t < n
            invariant
                t <= n,
                n == hits@.len(),
                taken@.len() == t,
                forall|a: int| 0 <= a < t ==> !taken@[a],
            decreases n - t,
        {
            taken.push(false);
            t = t + 1;
        }
        let mut out: Vec<PageSearchResult> = Vec::new();
        let ghost mut picked: Seq<int> = seq![];
        let mut more = true;
        while more && out.len() < limit
            invariant
                self.wf(),
                ps@ == self.pages@,
                kv == opt_str_view(kb_id),
                n == hits@.len(),
                taken@.len() == n,
                out@.len() == picked.len(),
                out@.len() <= limit,
                forall|a: int| 0 <= a < hits@.len() ==> (#[trigger] hits@[a]) < ps@.len() && page_search_match(ps@[hits@[a] as int], kv, query@),
                forall|a: int, b: int| 0 <= a < b < hits@.len() ==> hits@[a] < hits@[b],
                forall|a: int| 0 <= a < picked.len() ==> 0 <= #[trigger] picked[a] < n,
                forall|a: int, b: int| 0 <= a < b < picked.len() ==> picked[a] != picked[b],
                forall|j: int| 0 <= j < n ==> (#[trigger] taken@[j] <==> picked.contains(j)),
                forall|k: int| 0 <= k < out@.len() ==> search_item(#[trigger] out@[k], ps@[hits@[picked[k]] as int], self.kbs@, ps@, include_content),
                forall|a: int, b: int| 0 <= a < b < out@.len() ==> out@[a].updated_at >= out@[b].updated_at,
                forall|j: int, k: int| #![trigger taken@[j], out@[k]] 0 <= j < n && !taken@[j] && 0 <= k < out@.len() ==> out@[k].updated_at >= ps@[hits@[j] as int].updated_at,
                !more ==> forall|j: int| 0 <= j < n ==> #[trigger] taken@[j],
            decreases limit - out@.len() + if more { 1int } else { 0int },
        {
            let mut best: Option<usize> = None;
            let mut j: usize = 0;
            while j < n
                invariant
                    j <= n,
                    n == hits@.len(),
                    taken@.len() == n,
                    forall|a: int| 0 <= a < hits@.len() ==> (#[trigger] hits@[a]) < ps@.len(),
                    ps@ == self.pages@,
                    best matches Some(b) ==> b < j && !taken@[b as int] && forall|x: int| 0 <= x < j && !taken@[x] ==> ps@[hits@[x] as int].updated_at <= ps@[hits@[b as int] as int].updated_at,
                    best is None ==> forall|x: int| 0 <= x < j ==> taken@[x],
                decreases n - j,
            {
                if !taken[j] {
                    match best {
                        Some(b) => {
                            if self.pages[hits[j]].updated_at > self.pages[hits[b]].updated_at {
                                best = Some(j);
                            }
                        },
                        None => {
                            best = Some(j);
                        },
                    }
                }
                j = j + 1;
            }
            match best {
                Some(b) => {
                    let item = self.search_item_of(hits[b], include_content);
                    let ghost old_taken = taken@;
                    let ghost old_out = out@;
                    let ghost old_picked = picked;
                    taken.set(b, true);
                    out.push(item);
                    proof {
                        assert(taken@ == old_taken.update(b as int, true));
                        assert(!picked.contains(b as int));
                        picked = picked.push(b as int);
                        assert forall|jj: int| 0 <= jj < n implies (#[trigger] taken@[jj] <==> picked.contains(jj)) by {
                            if jj == b {
                                assert(picked[picked.len() - 1] == jj);
                            } else {
                                assert(taken@[jj] == old_taken[jj]);
                                assert(old_taken[jj] <==> old_picked.contains(jj));
                                if picked.contains(jj) {
                                    let a = choose|a: int| 0 <= a < picked.len() && picked[a] == jj;
                                    assert(a < old_picked.len());
                                    assert(old_picked[a] == jj);
                                }
                                if old_picked.contains(jj) {
                                    let a = choose|a: int| 0 <= a < old_picked.len() && old_picked[a] == jj;
                                    assert(picked[a] == jj);
                                }
                            }
                        }
                        assert forall|k: int| 0 <= k < out@.len() implies search_item(#[trigger] out@[k], ps@[hits@[picked[k]] as int], self.kbs@, ps@, include_content) by {
                            if k < old_out.len() {
                                assert(out@[k] == old_out[k]);
                            }
                        }
                        assert forall|a: int, c: int| 0 <= a < c < out@.len() implies out@[a].updated_at >= out@[c].updated_at by {
                            if c == out@.len() - 1 {
                                assert(!old_taken[b as int]);
                                assert(out@[a] == old_out[a]);
                            } else {
                                assert(out@[a] == old_out[a] && out@[c] == old_out[c]);
                            }
                        }
                        assert forall|jj: int, k: int| #![trigger taken@[jj], out@[k]] 0 <= jj < n && !taken@[jj] && 0 <= k < out@.len() implies out@[k].updated_at >= ps@[hits@[jj] as int].updated_at by {
                            assert(taken@[jj] == old_taken[jj]);
                            if k < old_out.len() {
                                assert(out@[k] == old_out[k]);
                            }
                        }
                    }
                },
                None => {
                    more = false;
                },
            }
        }
        proof {
            assert forall|k: int| 0 <= k < out@.len() implies search_hit(#[trigger] out@[k], self.pages@, self.kbs@, kv, query@, include_content) by {
                let pk = picked[k];
                assert(0 <= pk < n);
                let i = hits@[pk] as int;
                assert(i < ps@.len() && page_search_match(ps@[i], kv, query@));
                assert(search_item(out@[k], ps@[i], self.kbs@, ps@, include_content));
            }
            assert forall|a: int, b: int| 0 <= a < b < out@.len() implies out@[a].id@ != out@[b].id@ && out@[a].updated_at >= out@[b].updated_at by {
                let (x, y) = (picked[a], picked[b]);
                let (ix, iy) = (hits@[x] as int, hits@[y] as int);
                assert(out@[a].id == ps@[ix].id && out@[b].id == ps@[iy].id);
                if x < y { assert(hits@[x] < hits@[y]); } else { assert(hits@[y] < hits@[x]); }
                if ix < iy { assert(ps@[ix].id@ != ps@[iy].id@); } else { assert(ps@[iy].id@ != ps@[ix].id@); }
            }
            assert forall|i: int| 0 <= i < self.pages@.len() && #[trigger] page_search_match(self.pages@[i], kv, query@) implies (exists|k: int|
                    0 <= k < out@.len() && out@[k].id == self.pages@[i].id) || (out@.len() == limit && forall|k: int|
                    0 <= k < out@.len() ==> out@[k].updated_at >= self.pages@[i].updated_at) by {
                assert(hits@.contains(i as usize));
                let j = choose|j: int| 0 <= j < hits@.len() && hits@[j] == i as usize;
                if taken@[j] {
                    let k = choose|k: int| 0 <= k < picked.len() && picked[k] == j;
                    assert(out@[k].id == ps@[i].id);
                }
            }
        }
        out
    }

    /// Up to `limit` live pages of any knowledge base, most recently updated
    /// first, with their content.
    pub fn get_recent_pages(&self, limit: usize) -> (r: Vec<PageSearchResult>)
        requires
            self.wf(),
        ensures
            r@.len() <= limit,
            forall|k: int| 0 <= k < r@.len() ==> search_hit(#[trigger] r@[k], self.pages(), self.kbs(), None, Seq::<char>::empty(), true),
            forall|a: int, b: int| 0 <= a < b < r@.len() ==> r@[a].id@ != r@[b].id@ && r@[a].updated_at >= r@[b].updated_at,
            forall|i: int|
                0 <= i < self.pages().len() && !(#[trigger] self.pages()[i]).is_deleted ==> (exists|k: int|
                    0 <= k < r@.len() && r@[k].id == self.pages()[i].id) || (r@.len() == limit && forall|k: int|
                    0 <= k < r@.len() ==> r@[k].updated_at >= self.pages()[i].updated_at),
    {
        proof {
            reveal_strlit("");
            assert(""@ =~= Seq::<char>::empty());
            assert(trim(Seq::<char>::empty()) =~= Seq::<char>::empty());
        }
        let r = self.search_knowledge_pages("", None, limit, true);
        proof {
            assert forall|i: int| 0 <= i < self.pages().len() && !(#[trigger] self.pages()[i]).is_deleted implies
                page_search_match(self.pages()[i], None, ""@) by {}
        }
        r
    }
}

/// Deleting a knowledge base leaves no page of it and no block of one of
/// its pages, and every remaining block still belongs to a stored page.
pub proof fn lemma_kb_delete_cascades(before: &KnowledgeStore, after: &KnowledgeStore, id: Seq<char>)
    requires
        before.wf(),
        after.wf(),
        kb_deleted(*before, *after, id),
    ensures
        forall|j: int|
            0 <= j < before.pages().len() && (#[trigger] before.pages()[j]).kb_id@ == id ==> !has_page(after.pages(), before.pages()[j].id@),
        forall|j: int|
            0 <= j < before.blocks().len() && has_page_in(before.pages(), (#[trigger] before.blocks()[j]).page_id@, id) ==> !has_block(after.blocks(), before.blocks()[j].id@),
        forall|i: int| 0 <= i < after.pages().len() ==> (#[trigger] after.pages()[i]).kb_id@ != id,
        forall|i: int|
            0 <= i < after.blocks().len() ==> has_page(after.pages(), (#[trigger] after.blocks()[i]).page_id@)
                && !has_page_in(before.pages(), after.blocks()[i].page_id@, id),
{
    assert forall|i: int| 0 <= i < after.pages().len() implies (#[trigger] after.pages()[i]).kb_id@ != id by {
        assert(after.pages().contains(after.pages()[i]));
    }
    assert forall|i: int| 0 <= i < after.blocks().len() implies has_page(after.pages(), (#[trigger] after.blocks()[i]).page_id@)
        && !has_page_in(before.pages(), after.blocks()[i].page_id@, id) by {
        after.lemma_wf_facts();
        assert(after.blocks().contains(after.blocks()[i]));
    }
    before.lemma_wf_facts();
    assert forall|j: int| 0 <= j < before.pages().len() && (#[trigger] before.pages()[j]).kb_id@ == id implies !has_page(after.pages(), before.pages()[j].id@) by {
        if has_page(after.pages(), before.pages()[j].id@) {
            let q = choose|q: int| 0 <= q < after.pages().len() && after.pages()[q].id@ == before.pages()[j].id@;
            assert(after.pages().contains(after.pages()[q]));
            let j2 = choose|j2: int| 0 <= j2 < before.pages().len() && before.pages()[j2] == after.pages()[q];
            if j2 < j { assert(before.pages()[j2].id@ != before.pages()[j].id@); }
            if j2 > j { assert(before.pages()[j].id@ != before.pages()[j2].id@); }
        }
    }
    assert forall|j: int| 0 <= j < before.blocks().len() && has_page_in(before.pages(), (#[trigger] before.blocks()[j]).page_id@, id) implies !has_block(after.blocks(), before.blocks()[j].id@) by {
        if has_block(after.blocks(), before.blocks()[j].id@) {
            let q = choose|q: int| 0 <= q < after.blocks().len() && after.blocks()[q].id@ == before.blocks()[j].id@;
            assert(after.blocks().contains(after.blocks()[q]));
            let j2 = choose|j2: int| 0 <= j2 < before.blocks().len() && before.blocks()[j2] == after.blocks()[q];
            if j2 < j { assert(before.blocks()[j2].id@ != before.blocks()[j].id@); }
            if j2 > j { assert(before.blocks()[j].id@ != before.blocks()[j2].id@); }
        }
    }
}

/// A soft-deleted page is never listed nor found by a search, yet it stays
/// stored and a lookup by identity still finds it.
pub proof fn lemma_soft_deleted_hidden(
    s: &KnowledgeStore,
    p: Page,
    kb: Seq<char>,
    parent: Option<Seq<char>>,
    q: Seq<char>,
)
    requires
        s.pages().contains(p),
        p.is_deleted,
    ensures
        !page_listed(s.pages(), p, kb, parent),
        !page_found(s.pages(), s.blocks(), p, kb, q),
        has_page(s.pages(), p.id@),
{
    let j = choose|j: int| 0 <= j < s.pages().len() && s.pages()[j] == p;
}

} // verus!
