//! Plain-text previews of card contents written in HTML.
use vstd::prelude::*;
use crate::chars::{chars_of, string_of};

verus! {

/// Most lines a preview keeps.
pub const PREVIEW_LINES: usize = 5;

/// `pat` occurs in `s` at index `i`.
pub open spec fn occurs_at(s: Seq<char>, i: int, pat: Seq<char>) -> bool {
    0 <= i && i + pat.len() <= s.len() && s.subrange(i, i + pat.len()) == pat
}

/// `s` with every occurrence of `pat` replaced by `rep`, scanning from the
/// left without overlap.
pub open spec fn replaced(s: Seq<char>, pat: Seq<char>, rep: Seq<char>) -> Seq<char>
    decreases s.len(),
{
    if s.len() == 0 || pat.len() == 0 {
        s
    } else if occurs_at(s, 0, pat) {
        rep + replaced(s.skip(pat.len() as int), pat, rep)
    } else {
        seq![s[0]] + replaced(s.skip(1), pat, rep)
    }
}

/// The index of the first `c` in `s`, or -1.
pub open spec fn find_char(s: Seq<char>, c: char) -> int
    decreases s.len(),
{
    if s.len() == 0 {
        -1
    } else if s[0] == c {
        0
    } else {
        let k = find_char(s.skip(1), c);
        if k < 0 {
            -1
        } else {
            k + 1
        }
    }
}

/// `s` with each `<` that some `>` follows removed together with everything
/// up to and including the first such `>`.
pub open spec fn tags_stripped(s: Seq<char>) -> Seq<char>
    decreases s.len(),
{
    if s.len() == 0 {
        s
    } else if s[0] == '<' && 0 <= find_char(s.skip(1), '>') && find_char(s.skip(1), '>') + 2 <= s.len() {
        tags_stripped(s.skip(find_char(s.skip(1), '>') + 2))
    } else {
        seq![s[0]] + tags_stripped(s.skip(1))
    }
}

/// The characters that `char::is_whitespace` accepts.
pub open spec fn is_ws(c: char) -> bool {
    c == '\t' || c == '\n' || c == '\u{0B}' || c == '\u{0C}' || c == '\r' || c == ' ' || c
        == '\u{85}' || c == '\u{A0}' || c == '\u{1680}' || ('\u{2000}' <= c && c <= '\u{200A}')
        || c == '\u{2028}' || c == '\u{2029}' || c == '\u{202F}' || c == '\u{205F}' || c
        == '\u{3000}'
}

pub open spec fn trim_start(s: Seq<char>) -> Seq<char>
    decreases s.len(),
{
    if s.len() > 0 && is_ws(s[0]) {
        trim_start(s.skip(1))
    } else {
        s
    }
}

pub open spec fn trim_end(s: Seq<char>) -> Seq<char>
    decreases s.len(),
{
    if s.len() > 0 && is_ws(s.last()) {
        trim_end(s.drop_last())
    } else {
        s
    }
}

/// `s` without leading and trailing whitespace.
pub open spec fn trim(s: Seq<char>) -> Seq<char> {
    trim_end(trim_start(s))
}

/// The pieces of `s` between line breaks.
pub open spec fn split_lines(s: Seq<char>) -> Seq<Seq<char>>
    decreases s.len(),
{
    let k = find_char(s, '\n');
    if k < 0 || k >= s.len() {
        seq![s]
    } else {
        seq![s.take(k)] + split_lines(s.skip(k + 1))
    }
}

/// The first `k` lines of `ls` that are not blank, trimmed.
pub open spec fn pick_lines(ls: Seq<Seq<char>>, k: nat) -> Seq<Seq<char>>
    decreases ls.len(),
{
    if ls.len() == 0 || k == 0 {
        seq![]
    } else if trim(ls[0]).len() == 0 {
        pick_lines(ls.skip(1), k)
    } else {
        seq![trim(ls[0])] + pick_lines(ls.skip(1), (k - 1) as nat)
    }
}

/// The lines of `ls` joined with line breaks.
pub open spec fn join_lines(ls: Seq<Seq<char>>) -> Seq<char>
    decreases ls.len(),
{
    if ls.len() == 0 {
        seq![]
    } else if ls.len() == 1 {
        ls[0]
    } else {
        join_lines(ls.drop_last()) + seq!['\n'] + ls.last()
    }
}

/// The markup of `html` turned into line breaks and bullets, in this order.
pub open spec fn markup_replaced(html: Seq<char>) -> Seq<char> {
    let s = replaced(html, "<p>"@, ""@);
    let s = replaced(s, "</p>"@, "\n"@);
    let s = replaced(s, "<h1>"@, ""@);
    let s = replaced(s, "</h1>"@, "\n"@);
    let s = replaced(s, "<h2>"@, ""@);
    let s = replaced(s, "</h2>"@, "\n"@);
    let s = replaced(s, "<h3>"@, ""@);
    let s = replaced(s, "</h3>"@, "\n"@);
    let s = replaced(s, "<li>"@, "\u{2022} "@);
    let s = replaced(s, "</li>"@, "\n"@);
    let s = replaced(s, "<ul>"@, ""@);
    let s = replaced(s, "</ul>"@, ""@);
    let s = replaced(s, "<ol>"@, ""@);
    let s = replaced(s, "</ol>"@, ""@);
    let s = replaced(s, "<br>"@, "\n"@);
    replaced(s, "&nbsp;"@, " "@)
}

/// The preview of `html`: its text without markup, at most five non-blank
/// lines, each trimmed, joined by line breaks.
pub open spec fn preview_of(html: Seq<char>) -> Seq<char> {
    join_lines(pick_lines(split_lines(tags_stripped(markup_replaced(html))), PREVIEW_LINES as nat))
}

/// Relies on regex's `Regex::replace_all` with the pattern `<[^>]*>`: the
/// leftmost-first matches are each a `<` up to the first `>` after it.
#[verifier::external_body]
fn strip_tags(text: &Vec<char>) -> (r: Vec<char>)
    ensures
        r@ == tags_stripped(text@),
{
    let s: String = text.iter().collect();
    match regex::Regex::new(r"<[^>]*>") {
        Ok(re) => re.replace_all(&s, "").chars().collect(),
        Err(_) => s.chars().collect(),
    }
}

/// `pat` occurs in `s` at `i`.
pub(crate) fn matches_at(s: &Vec<char>, i: usize, pat: &Vec<char>) -> (r: bool)
    requires
        i <= s@.len(),
    ensures
        r == occurs_at(s@, i as int, pat@),
{
    if pat.len() > s.len() - i {
        return false;
    }
    let n = s.len();
    let mut k: usize = 0;
    while k < pat.len()
        invariant
            n == s@.len(),
            k <= pat@.len(),
            i <= s@.len(),
            i + pat@.len() <= s@.len(),
            forall|j: int| 0 <= j < k ==> s@[i + j] == pat@[j],
        decreases pat@.len() - k,
    {
        if s[i + k] != pat[k] {
            assert(s@.subrange(i as int, i + pat@.len())[k as int] != pat@[k as int]);
            return false;
        }
        k = k + 1;
    }
    assert(s@.subrange(i as int, i + pat@.len()) =~= pat@);
    true
}

proof fn lemma_skip_skip(s: Seq<char>, a: int, b: int)
    requires
        0 <= a,
        0 <= b,
        a + b <= s.len(),
    ensures
        s.skip(a).skip(b) == s.skip(a + b),
{
    assert(s.skip(a).skip(b) =~= s.skip(a + b));
}

/// Replaces every occurrence of `pat` in `s` by `rep`.
pub fn replace_all(s: &Vec<char>, pat: &Vec<char>, rep: &Vec<char>) -> (r: Vec<char>)
    requires
        pat@.len() > 0,
    ensures
        r@ == replaced(s@, pat@, rep@),
{
    let mut out: Vec<char> = Vec::new();
    let mut i: usize = 0;
    assert(s@.skip(0) =~= s@);
    while i < s.len()
        invariant
            i <= s@.len(),
            pat@.len() > 0,
            out@ + replaced(s@.skip(i as int), pat@, rep@) == replaced(s@, pat@, rep@),
        decreases s@.len() - i,
    {
        let ghost rest = s@.skip(i as int);
        if matches_at(s, i, pat) {
            assert(rest.subrange(0, pat@.len() as int) =~= s@.subrange(i as int, i + pat@.len()));
            assert(occurs_at(rest, 0, pat@));
            proof {
                lemma_skip_skip(s@, i as int, pat@.len() as int);
            }
            let mut k: usize = 0;
            let ghost out0 = out@;
            while k < rep.len()
                invariant
                    k <= rep@.len(),
                    out@ == out0 + rep@.subrange(0, k as int),
                decreases rep@.len() - k,
            {
                out.push(rep[k]);
                k = k + 1;
                assert(rep@.subrange(0, k as int) =~= rep@.subrange(0, k - 1).push(rep@[k - 1]));
            }
            assert(rep@.subrange(0, rep@.len() as int) =~= rep@);
            assert(out0 + (rep@ + replaced(s@.skip(i + pat@.len()), pat@, rep@)) =~= out@ + replaced(
                s@.skip(i + pat@.len()),
                pat@,
                rep@,
            ));
            i = i + pat.len();
        } else {
            proof {
                if pat@.len() <= rest.len() {
                    assert(rest.subrange(0, pat@.len() as int) =~= s@.subrange(i as int, i + pat@.len()));
                }
                lemma_skip_skip(s@, i as int, 1);
            }
            let ghost out0 = out@;
            out.push(s[i]);
            assert(out0 + (seq![s@[i as int]] + replaced(s@.skip(i + 1), pat@, rep@)) =~= out@ + replaced(
                s@.skip(i + 1),
                pat@,
                rep@,
            ));
            i = i + 1;
        }
    }
    assert(replaced(s@.skip(i as int), pat@, rep@) =~= seq![]);
    assert(out@ + seq![] =~= out@);
    out
}


pub(crate) proof fn lemma_find_char_at(s: Seq<char>, c: char, k: int)
    requires
        0 <= k <= s.len(),
        forall|j: int| 0 <= j < k ==> s[j] != c,
        k < s.len() ==> s[k] == c,
    ensures
        find_char(s, c) == if k < s.len() { k } else { -1 },
    decreases s.len(),
{
    if s.len() > 0 && s[0] != c {
        assert forall|j: int| 0 <= j < k - 1 implies s.skip(1)[j] != c by {
            assert(s.skip(1)[j] == s[j + 1]);
        }
        lemma_find_char_at(s.skip(1), c, k - 1);
    }
}

fn is_ws_char(c: char) -> (r: bool)
    ensures
        r == is_ws(c),
{
    c == '\t' || c == '\n' || c == '\u{0B}' || c == '\u{0C}' || c == '\r' || c == ' ' || c
        == '\u{85}' || c == '\u{A0}' || c == '\u{1680}' || ('\u{2000}' <= c && c <= '\u{200A}')
        || c == '\u{2028}' || c == '\u{2029}' || c == '\u{202F}' || c == '\u{205F}' || c
        == '\u{3000}'
}

/// The characters of `s` from `lo` up to `hi` without surrounding whitespace.
pub(crate) fn trim_range(s: &Vec<char>, lo: usize, hi: usize) -> (r: Vec<char>)
    requires
        lo <= hi <= s@.len(),
    ensures
        r@ == trim(s@.subrange(lo as int, hi as int)),
{
    let mut a: usize = lo;
    while a < hi && is_ws_char(s[a])
        invariant
            lo <= a <= hi <= s@.len(),
            trim_start(s@.subrange(lo as int, hi as int)) == trim_start(s@.subrange(a as int, hi as int)),
        decreases hi - a,
    {
        assert(s@.subrange(a as int, hi as int).skip(1) =~= s@.subrange(a + 1, hi as int));
        a = a + 1;
    }
    let mut b: usize = hi;
    while b > a && is_ws_char(s[b - 1])
        invariant
            lo <= a <= b <= hi <= s@.len(),
            trim_end(s@.subrange(a as int, hi as int)) == trim_end(s@.subrange(a as int, b as int)),
        decreases b - a,
    {
        assert(s@.subrange(a as int, b as int).drop_last() =~= s@.subrange(a as int, b - 1));
        b = b - 1;
    }
    let mut r: Vec<char> = Vec::new();
    let mut k: usize = a;
    while k < b
        invariant
            a <= k <= b <= s@.len(),
            r@ == s@.subrange(a as int, k as int),
        decreases b - k,
    {
        r.push(s[k]);
        k = k + 1;
        assert(s@.subrange(a as int, k as int) =~= s@.subrange(a as int, k - 1).push(s@[k - 1]));
    }
    r
}

/// The views of a vector of character vectors.
pub open spec fn lines_view(v: Seq<Vec<char>>) -> Seq<Seq<char>> {
    v.map_values(|l: Vec<char>| l@)
}

/// The first `PREVIEW_LINES` non-blank lines of `s`, trimmed.
fn pick_preview_lines(s: &Vec<char>) -> (r: Vec<Vec<char>>)
    ensures
        lines_view(r@) == pick_lines(split_lines(s@), PREVIEW_LINES as nat),
{
    let n = s.len();
    let mut picked: Vec<Vec<char>> = Vec::new();
    let mut start: usize = 0;
    let mut more = true;
    assert(s@.skip(0) =~= s@);
    while more && picked.len() < PREVIEW_LINES
        invariant
            n == s@.len(),
            start <= n,
            picked@.len() <= PREVIEW_LINES,
            more ==> lines_view(picked@) + pick_lines(
                split_lines(s@.skip(start as int)),
                (PREVIEW_LINES - picked@.len()) as nat,
            ) == pick_lines(split_lines(s@), PREVIEW_LINES as nat),
            !more ==> lines_view(picked@) == pick_lines(split_lines(s@), PREVIEW_LINES as nat),
        decreases n - start + if more { 1int } else { 0int },
    {
        let ghost rest = s@.skip(start as int);
        let ghost before = lines_view(picked@);
        let ghost m = (PREVIEW_LINES - picked@.len()) as nat;
        let mut j: usize = start;
        while j < n && s[j] != '\n'
            invariant
                start <= j <= n,
                n == s@.len(),
                forall|q: int| start <= q < j ==> s@[q] != '\n',
            decreases n - j,
        {
            j = j + 1;
        }
        proof {
            assert forall|q: int| 0 <= q < j - start implies rest[q] != '\n' by {
                assert(rest[q] == s@[start + q]);
            }
            lemma_find_char_at(rest, '\n', j - start);
        }
        let line = trim_range(s, start, j);
        if j < n {
            assert(rest.take(j - start) =~= s@.subrange(start as int, j as int));
            assert(rest.skip(j - start + 1) =~= s@.skip(j + 1));
        } else {
            assert(rest =~= s@.subrange(start as int, j as int));
        }
        let ghost lines = split_lines(rest);
        assert(lines[0] == s@.subrange(start as int, j as int));
        assert(lines.skip(1) =~= if j < n { split_lines(s@.skip(j + 1)) } else { seq![] });
        if line.len() > 0 {
            picked.push(line);
            assert(lines_view(picked@) =~= before + seq![trim(lines[0])]);
        } else {
            assert(lines_view(picked@) =~= before);
        }
        if j < n {
            start = j + 1;
        } else {
            more = false;
        }
        proof {
            if !more {
                assert(lines_view(picked@) =~= lines_view(picked@) + pick_lines(seq![], (PREVIEW_LINES - picked@.len()) as nat));
            }
        }
    }
    proof {
        if more {
            assert(lines_view(picked@) + pick_lines(split_lines(s@.skip(start as int)), 0) =~= lines_view(picked@));
        }
    }
    picked
}

/// The lines of `ls` joined by line breaks.
fn join_with_breaks(ls: &Vec<Vec<char>>) -> (r: Vec<char>)
    ensures
        r@ == join_lines(lines_view(ls@)),
{
    let mut out: Vec<char> = Vec::new();
    let mut k: usize = 0;
    while k < ls.len()
        invariant
            k <= ls@.len(),
            out@ == join_lines(lines_view(ls@).take(k as int)),
        decreases ls@.len() - k,
    {
        let ghost out0 = out@;
        if k > 0 {
            out.push('\n');
        }
        let line = &ls[k];
        let mut q: usize = 0;
        let ghost mid = out@;
        while q < line.len()
            invariant
                q <= line@.len(),
                out@ == mid + line@.subrange(0, q as int),
            decreases line@.len() - q,
        {
            out.push(line[q]);
            q = q + 1;
            assert(line@.subrange(0, q as int) =~= line@.subrange(0, q - 1).push(line@[q - 1]));
        }
        assert(line@.subrange(0, line@.len() as int) =~= line@);
        let ghost t = lines_view(ls@).take(k + 1);
        assert(t.drop_last() =~= lines_view(ls@).take(k as int));
        assert(t.last() == ls@[k as int]@);
        if k == 0 {
            assert(out@ =~= t[0]);
        } else {
            assert(out@ =~= out0 + seq!['\n'] + t.last());
        }
        k = k + 1;
    }
    assert(lines_view(ls@).take(k as int) =~= lines_view(ls@));
    out
}

fn replace_lit(s: &Vec<char>, pat: &str, rep: &str) -> (r: Vec<char>)
    requires
        pat@.len() > 0,
    ensures
        r@ == replaced(s@, pat@, rep@),
{
    let p = chars_of(pat);
    let q = chars_of(rep);
    replace_all(s, &p, &q)
}

/// A plain-text excerpt of `html`: paragraph, heading, list and line-break
/// markup becomes line breaks and bullets, other tags are removed, and the
/// first five non-blank lines are kept, trimmed and joined by line breaks.
pub fn generate_preview_from_html(html: &str) -> (r: String)
    ensures
        r@ == preview_of(html@),
{
    proof {
        reveal_strlit("<p>");
        reveal_strlit("</p>");
        reveal_strlit("<h1>");
        reveal_strlit("</h1>");
        reveal_strlit("<h2>");
        reveal_strlit("</h2>");
        reveal_strlit("<h3>");
        reveal_strlit("</h3>");
        reveal_strlit("<li>");
        reveal_strlit("</li>");
        reveal_strlit("<ul>");
        reveal_strlit("</ul>");
        reveal_strlit("<ol>");
        reveal_strlit("</ol>");
        reveal_strlit("<br>");
        reveal_strlit("&nbsp;");
    }
    let s = chars_of(html);
    let s = replace_lit(&s, "<p>", "");
    let s = replace_lit(&s, "</p>", "\n");
    let s = replace_lit(&s, "<h1>", "");
    let s = replace_lit(&s, "</h1>", "\n");
    let s = replace_lit(&s, "<h2>", "");
    let s = replace_lit(&s, "</h2>", "\n");
    let s = replace_lit(&s, "<h3>", "");
    let s = replace_lit(&s, "</h3>", "\n");
    let s = replace_lit(&s, "<li>", "\u{2022} ");
    let s = replace_lit(&s, "</li>", "\n");
    let s = replace_lit(&s, "<ul>", "");
    let s = replace_lit(&s, "</ul>", "");
    let s = replace_lit(&s, "<ol>", "");
    let s = replace_lit(&s, "</ol>", "");
    let s = replace_lit(&s, "<br>", "\n");
    let s = replace_lit(&s, "&nbsp;", " ");
    let clean = strip_tags(&s);
    let lines = pick_preview_lines(&clean);
    let joined = join_with_breaks(&lines);
    string_of(&joined)
}

} // verus!
