//! Conversions between strings and character vectors, and byte helpers.
use vstd::prelude::*;

verus! {

/// Relies on `str::chars` collected into a `Vec`: the characters of `s`, in order.
#[verifier::external_body]
pub(crate) fn chars_of(s: &str) -> (r: Vec<char>)
    ensures
        r@ == s@,
{
    s.chars().collect()
}

/// Relies on collecting `char`s into a `String` (`FromIterator<char>`): the same characters.
#[verifier::external_body]
pub(crate) fn string_of(v: &Vec<char>) -> (r: String)
    ensures
        r@ == v@,
{
    v.iter().collect()
}

/// The characters of an optional string.
pub open spec fn opt_view(o: Option<String>) -> Option<Seq<char>> {
    match o {
        Some(s) => Some(s@),
        None => None,
    }
}

/// The characters of an optional string slice.
pub open spec fn opt_str_view(o: Option<&str>) -> Option<Seq<char>> {
    match o {
        Some(s) => Some(s@),
        None => None,
    }
}

/// `id` is given and lies in `1..next`.
pub open spec fn id_below(id: Option<i64>, next: i64) -> bool {
    match id {
        Some(x) => 1 <= x < next,
        None => false,
    }
}

/// A copy of an optional string.
pub(crate) fn copy_opt(o: &Option<String>) -> (r: Option<String>)
    ensures
        r == *o,
{
    match o {
        Some(s) => Some(s.clone()),
        None => None,
    }
}

/// Appends `b` to the end of `a`.
pub fn append_bytes(a: &mut Vec<u8>, b: &[u8])
    ensures
        final(a)@ == old(a)@ + b@,
{
    let n = b.len();
    let ghost a0 = a@;
    let mut i: usize = 0;
    while i < n
        invariant
            n == b@.len(),
            i <= n,
            a@ == a0 + b@.subrange(0, i as int),
        decreases n - i,
    {
        a.push(b[i]);
        i = i + 1;
        assert(b@.subrange(0, i as int) == b@.subrange(0, i as int - 1).push(b@[i as int - 1]));
    }
    assert(b@.subrange(0, n as int) == b@);
}

/// Copies the bytes of `b` from index `lo` up to `hi`.
pub fn sub_bytes(b: &[u8], lo: usize, hi: usize) -> (r: Vec<u8>)
    requires
        lo <= hi <= b@.len(),
    ensures
        r@ == b@.subrange(lo as int, hi as int),
{
    let mut r: Vec<u8> = Vec::new();
    let mut i: usize = lo;
    while i < hi
        invariant
            lo <= i <= hi,
            hi <= b@.len(),
            r@ == b@.subrange(lo as int, i as int),
        decreases hi - i,
    {
        r.push(b[i]);
        i = i + 1;
        assert(b@.subrange(lo as int, i as int) == b@.subrange(lo as int, i as int - 1).push(b@[i as int - 1]));
    }
    r
}

} // verus!
