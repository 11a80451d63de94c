//! Character-level helpers shared by the path handling code.

use vstd::prelude::*;

verus! {

/// The characters of `s`, one element per `char`.
pub fn chars_of(s: &str) -> (v: Vec<char>)
    ensures
        v@ == s@,
{
    let mut v: Vec<char> = Vec::new();
    for c in it: s.chars()
        invariant
            v@ == it.seq().take(it.index()),
            it.seq() == s@,
    {
        v.push(c);
        assert(it.seq().take(it.index() + 1) =~= it.seq().take(it.index()).push(c));
    }
    v
}

/// Calls `String::push`, which appends one character at the end of the
/// string; the contract claims exactly that.
#[verifier::external_body]
fn push_char(s: &mut String, c: char)
    ensures
        final(s)@ == old(s)@.push(c),
{
    s.push(c);
}

/// The string made of the characters of `v`, in order.
pub fn string_of(v: &Vec<char>) -> (s: String)
    ensures
        s@ == v@,
{
    let mut s = String::new();
    let n = v.len();
    for i in 0..n
        invariant
            n == v@.len(),
            s@ == v@.take(i as int),
    {
        push_char(&mut s, v[i]);
        assert(v@.take(i + 1) =~= v@.take(i as int).push(v@[i as int]));
    }
    assert(v@.take(n as int) =~= v@);
    s
}

/// Appends `p[lo..hi]` to `out`.
pub fn push_range(out: &mut Vec<char>, p: &Vec<char>, lo: usize, hi: usize)
    requires
        lo <= hi <= p@.len(),
    ensures
        final(out)@ == old(out)@ + p@.subrange(lo as int, hi as int),
{
    let ghost start = out@;
    let mut k = lo;
    while k < hi
        invariant
            lo <= k <= hi,
            hi <= p@.len(),
            out@ == start + p@.subrange(lo as int, k as int),
        decreases hi - k,
    {
        out.push(p[k]);
        k = k + 1;
        assert(p@.subrange(lo as int, k as int) =~= p@.subrange(lo as int, k - 1).push(
            p@[k - 1],
        ));
    }
}

/// `p[lo..hi]` as a vector of its own.
pub fn sub_chars(p: &Vec<char>, lo: usize, hi: usize) -> (r: Vec<char>)
    requires
        lo <= hi <= p@.len(),
    ensures
        r@ == p@.subrange(lo as int, hi as int),
{
    let mut r: Vec<char> = Vec::new();
    push_range(&mut r, p, lo, hi);
    assert(r@ =~= p@.subrange(lo as int, hi as int));
    r
}

} // verus!
