//! Reading image data URLs (`data:<mime>;base64,<payload>`), and picking a
//! labelled field out of a block of text.
use vstd::prelude::*;
use crate::chars::{chars_of, string_of};
use crate::cardbox::contains_seq;
use crate::preview::{find_char, lemma_find_char_at, matches_at, occurs_at, split_lines, trim, trim_range};

verus! {

/// The first index from `k` on at which `pat` occurs in `s`, or -1.
pub open spec fn occurrence_from(s: Seq<char>, pat: Seq<char>, k: int) -> int
    decreases s.len() + 1 - k,
{
    if k < 0 || k + pat.len() > s.len() {
        -1
    } else if occurs_at(s, k, pat) {
        k
    } else {
        occurrence_from(s, pat, k + 1)
    }
}

/// The first index at which `pat` occurs in `s`, or -1.
pub open spec fn first_occurrence(s: Seq<char>, pat: Seq<char>) -> int {
    occurrence_from(s, pat, 0)
}

proof fn lemma_occurrence_from(s: Seq<char>, pat: Seq<char>, k: int)
    requires
        0 <= k,
    ensures
        occurrence_from(s, pat, k) == -1 || (k <= occurrence_from(s, pat, k) && occurrence_from(s, pat, k) + pat.len()
            <= s.len() && occurs_at(s, occurrence_from(s, pat, k), pat)),
    decreases s.len() + 1 - k,
{
    if k + pat.len() <= s.len() && !occurs_at(s, k, pat) {
        lemma_occurrence_from(s, pat, k + 1);
    }
}

/// The index of the first occurrence of `pat` in `s`.
fn find(s: &Vec<char>, pat: &Vec<char>) -> (r: Option<usize>)
    ensures
        match r {
            Some(i) => i as int == first_occurrence(s@, pat@),
            None => first_occurrence(s@, pat@) == -1,
        },
{
    if pat.len() > s.len() {
        return None;
    }
    let last = s.len() - pat.len();
    let mut i: usize = 0;
    while i <= last
        invariant
            last + pat@.len() == s@.len(),
            i <= last + 1,
            first_occurrence(s@, pat@) == occurrence_from(s@, pat@, i as int),
        decreases last + 1 - i,
    {
        if matches_at(s, i, pat) {
            return Some(i);
        }
        if i == last {
            assert(occurrence_from(s@, pat@, i + 1) == -1);
            return None;
        }
        i = i + 1;
    }
    None
}

fn copy_range(s: &Vec<char>, lo: usize, hi: usize) -> (r: Vec<char>)
    requires
        lo <= hi <= s@.len(),
    ensures
        r@ == s@.subrange(lo as int, hi as int),
{
    let mut r: Vec<char> = Vec::new();
    let mut k: usize = lo;
    while k < hi
        invariant
            lo <= k <= hi,
            hi <= s@.len(),
            r@ == s@.subrange(lo as int, k as int),
        decreases hi - k,
    {
        r.push(s[k]);
        k = k + 1;
        assert(s@.subrange(lo as int, k as int) =~= s@.subrange(lo as int, k - 1).push(s@[k - 1]));
    }
    r
}

/// The media type of a data URL: what lies between `data:` and the first
/// `;base64,`, or `image/jpeg` when the URL is not of that shape.
pub open spec fn mime_type_of(url: Seq<char>) -> Seq<char> {
    let e = first_occurrence(url, ";base64,"@);
    if url.len() >= 5 && url.take(5) == "data:"@ && e >= 5 {
        url.subrange(5, e)
    } else {
        "image/jpeg"@
    }
}

/// The payload of a data URL: what follows the first `;base64,`, or the
/// whole text when there is none.
pub open spec fn payload_of(url: Seq<char>) -> Seq<char> {
    let e = first_occurrence(url, ";base64,"@);
    if e >= 0 {
        url.skip(e + 8)
    } else {
        url
    }
}

/// The media type of an image data URL, `image/jpeg` by default.
pub fn get_image_mime_type(data_url: &str) -> (r: String)
    ensures
        r@ == mime_type_of(data_url@),
{
    proof {
        reveal_strlit("data:");
        reveal_strlit(";base64,");
        reveal_strlit("image/jpeg");
    }
    let u = chars_of(data_url);
    let prefix = chars_of("data:");
    let marker = chars_of(";base64,");
    if u.len() >= 5 && matches_at(&u, 0, &prefix) {
        assert(u@.subrange(0, 5) =~= u@.take(5));
        match find(&u, &marker) {
            Some(e) => {
                proof {
                    lemma_occurrence_from(u@, marker@, 0);
                }
                if e >= 5 {
                    let m = copy_range(&u, 5, e);
                    return string_of(&m);
                }
            },
            None => {},
        }
    }
    "image/jpeg".to_owned()
}

/// The base64 payload of a data URL, or the text itself when it has no
/// `;base64,` marker.
pub fn extract_base64_data(data_url: &str) -> (r: String)
    ensures
        r@ == payload_of(data_url@),
{
    proof {
        reveal_strlit(";base64,");
    }
    let u = chars_of(data_url);
    let n = u.len();
    let marker = chars_of(";base64,");
    match find(&u, &marker) {
        Some(e) => {
            proof {
                lemma_occurrence_from(u@, marker@, 0);
                assert(marker@.len() == 8);
                assert(e + 8 <= n);
            }
            let rest = copy_range(&u, e + 8, n);
            assert(rest@ =~= u@.skip(e + 8));
            string_of(&rest)
        },
        None => data_url.to_owned(),
    }
}

/// The first of `ls` that holds `f`, if any.
pub open spec fn first_line_with(ls: Seq<Seq<char>>, f: Seq<char>) -> Option<Seq<char>>
    decreases ls.len(),
{
    if ls.len() == 0 {
        None
    } else if first_occurrence(ls[0], f) >= 0 {
        Some(ls[0])
    } else {
        first_line_with(ls.skip(1), f)
    }
}

/// What follows the first `f` in `line`, up to the next `f`; with an empty
/// `f`, the first character of the line.
pub open spec fn after_label(line: Seq<char>, f: Seq<char>) -> Seq<char> {
    let rest = line.skip(first_occurrence(line, f) + f.len());
    if f.len() == 0 {
        if line.len() > 0 { line.take(1) } else { line }
    } else if first_occurrence(rest, f) >= 0 {
        rest.take(first_occurrence(rest, f))
    } else {
        rest
    }
}

/// The value labelled `f` in `text`: in the first line that holds `f`, what
/// follows the label, trimmed, when that is not empty.
pub open spec fn info_field(text: Seq<char>, f: Seq<char>) -> Option<Seq<char>> {
    match first_line_with(split_lines(text), f) {
        Some(line) => if trim(after_label(line, f)).len() > 0 {
            Some(trim(after_label(line, f)))
        } else {
            None
        },
        None => None,
    }
}

/// The value labelled `field_name` in `text` (`作者: Ann` gives `Ann` for
/// the label `作者:`), if the first line holding the label has one.
pub fn extract_info_field(text: &str, field_name: &str) -> (r: Option<String>)
    ensures
        match r {
            Some(v) => info_field(text@, field_name@) == Some(v@),
            None => info_field(text@, field_name@) is None,
        },
{
    let t = chars_of(text);
    let f = chars_of(field_name);
    let n = t.len();
    let mut start: usize = 0;
    let mut more = true;
    assert(t@.skip(0) =~= t@);
    while more
        invariant
            n == t@.len(),
            t@ == text@,
            start <= n,
            f@ == field_name@,
            more ==> first_line_with(split_lines(t@), f@) == first_line_with(split_lines(t@.skip(start as int)), f@),
            !more ==> first_line_with(split_lines(t@), f@) is None,
        decreases n - start + if more { 1int } else { 0int },
    {
        let ghost rest = t@.skip(start as int);
        let mut j: usize = start;
        while j < n && t[j] != '\n'
            invariant
                start <= j <= n,
                n == t@.len(),
                forall|q: int| start <= q < j ==> t@[q] != '\n',
            decreases n - j,
        {
            j = j + 1;
        }
        proof {
            assert forall|q: int| 0 <= q < j - start implies rest[q] != '\n' by {
                assert(rest[q] == t@[start + q]);
            }
            lemma_find_char_at(rest, '\n', j - start);
        }
        let line = copy_range(&t, start, j);
        let ghost lines = split_lines(rest);
        if j < n {
            assert(rest.take(j - start) =~= t@.subrange(start as int, j as int));
            assert(rest.skip(j - start + 1) =~= t@.skip(j + 1));
        } else {
            assert(rest =~= t@.subrange(start as int, j as int));
        }
        assert(lines[0] == line@);
        assert(lines.skip(1) =~= if j < n { split_lines(t@.skip(j + 1)) } else { seq![] });
        match find(&line, &f) {
            Some(e) => {
                proof {
                    lemma_occurrence_from(line@, f@, 0);
                    assert(first_line_with(lines, f@) == Some(line@));
                }
                let ln = line.len();
                let after: Vec<char> = if f.len() == 0 {
                    let k: usize = if ln > 0 { 1 } else { 0 };
                    let a = copy_range(&line, 0, k);
                    assert(a@ =~= (if line@.len() > 0 { line@.take(1) } else { line@ }));
                    a
                } else {
                    let rest_line = copy_range(&line, e + f.len(), ln);
                    assert(rest_line@ =~= line@.skip(e + f@.len()));
                    match find(&rest_line, &f) {
                        Some(e2) => {
                            proof {
                                lemma_occurrence_from(rest_line@, f@, 0);
                            }
                            let a = copy_range(&rest_line, 0, e2);
                            assert(a@ =~= rest_line@.take(e2 as int));
                            a
                        },
                        None => rest_line,
                    }
                };
                assert(after@ == after_label(line@, f@));
                let v = trim_range(&after, 0, after.len());
                assert(after@.subrange(0, after@.len() as int) =~= after@);
                if v.len() > 0 {
                    return Some(string_of(&v));
                } else {
                    return None;
                }
            },
            None => {
                assert(first_line_with(lines, f@) == first_line_with(lines.skip(1), f@));
            },
        }
        if j < n {
            start = j + 1;
        } else {
            more = false;
        }
    }
    None
}

} // verus!
