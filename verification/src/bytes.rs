//! Byte-level helpers shared by the compiler, matcher and formatter.

use vstd::prelude::*;

verus! {

/// Whitespace as the matcher understands it: the ASCII characters that
/// separate "words" on a line.
pub open spec fn spec_is_ws(b: u8) -> bool {
    b == 32 || b == 9 || b == 10 || b == 13 || b == 11 || b == 12
}

/// Executable test for [`spec_is_ws`].
#[verifier::when_used_as_spec(spec_is_ws)]
pub fn is_ws(b: u8) -> (r: bool)
    ensures
        r == spec_is_ws(b),
{
    b == 32 || b == 9 || b == 10 || b == 13 || b == 11 || b == 12
}

/// True when `s` has the bytes of `pre` at offset `at`.
pub open spec fn has_bytes_at(s: Seq<u8>, at: int, pre: Seq<u8>) -> bool {
    &&& 0 <= at
    &&& at + pre.len() <= s.len()
    &&& s.subrange(at, at + pre.len()) == pre
}

/// Compares `s[at .. at + pre.len()]` with `pre`.
pub fn bytes_at(s: &[u8], at: usize, pre: &[u8]) -> (r: bool)
    requires
        at <= s@.len(),
    ensures
        r == has_bytes_at(s@, at as int, pre@),
{
    if s.len() - at < pre.len() {
        return false;
    }
    let mut i: usize = 0;
    while i < pre.len()
        invariant
            0 <= i <= pre.len(),
            at + pre.len() <= s.len(),
            forall|j: int| 0 <= j < i ==> s@[at + j] == pre@[j],
        decreases pre.len() - i,
    {
        if s[at + i] != pre[i] {
            assert(s@.subrange(at as int, at + pre@.len())[i as int] != pre@[i as int]);
            return false;
        }
        i = i + 1;
    }
    assert(s@.subrange(at as int, at + pre@.len()) =~= pre@);
    true
}

/// Index of the first occurrence of `b` in `s`, or `s.len()` when absent.
pub open spec fn find_byte(s: Seq<u8>, b: u8) -> int
    decreases s.len(),
{
    if s.len() == 0 {
        0
    } else if s[0] == b {
        0
    } else {
        1 + find_byte(s.skip(1), b)
    }
}

pub proof fn lemma_find_byte(s: Seq<u8>, b: u8)
    ensures
        0 <= find_byte(s, b) <= s.len(),
        forall|i: int| 0 <= i < find_byte(s, b) ==> s[i] != b,
        find_byte(s, b) < s.len() ==> s[find_byte(s, b)] == b,
    decreases s.len(),
{
    if s.len() > 0 && s[0] != b {
        lemma_find_byte(s.skip(1), b);
        assert forall|i: int| 0 <= i < find_byte(s, b) implies s[i] != b by {
            if i >= 1 {
                assert(s.skip(1)[i - 1] != b);
            }
        }
    }
}

/// First occurrence of `b` in `s[start..end]`, as an absolute index;
/// `end` when absent.
pub fn find_limited(s: &[u8], start: usize, end: usize, b: u8) -> (r: usize)
    requires
        start <= end <= s@.len(),
    ensures
        start <= r <= end,
        r - start == find_byte(s@.subrange(start as int, end as int), b),
{
    let ghost sub = s@.subrange(start as int, end as int);
    proof {
        lemma_find_byte(sub, b);
    }
    let mut i: usize = start;
    while i < end && s[i] != b
        invariant
            start <= i <= end <= s@.len(),
            sub == s@.subrange(start as int, end as int),
            forall|j: int| 0 <= j < i - start ==> sub[j] != b,
        decreases end - i,
    {
        i = i + 1;
    }
    proof {
        let f = find_byte(sub, b);
        if i < end {
            assert(sub[i - start] == b);
            if f < i - start {
                assert(sub[f] != b);
            }
            if f > i - start {
                assert(sub[i - start] != b);
            }
        } else {
            if f < sub.len() {
                assert(sub[f] != b);
            }
        }
    }
    i
}

/// A fresh copy of `s[a..b]`.
pub fn sub_vec(s: &[u8], a: usize, b: usize) -> (r: Vec<u8>)
    requires
        a <= b <= s@.len(),
    ensures
        r@ == s@.subrange(a as int, b as int),
{
    vstd::slice::slice_to_vec(vstd::slice::slice_subrange(s, a, b))
}

/// Appends all of `more` to `out`.
pub fn push_all(out: &mut Vec<u8>, more: &[u8])
    ensures
        final(out)@ == old(out)@ + more@,
{
    let mut i: usize = 0;
    while i < more.len()
        invariant
            i <= more@.len(),
            out@ == old(out)@ + more@.take(i as int),
        decreases more@.len() - i,
    {
        out.push(more[i]);
        assert(more@.take(i + 1) =~= more@.take(i as int).push(more@[i as int]));
        i = i + 1;
    }
    assert(more@.take(more@.len() as int) =~= more@);
}

/// A fresh copy of a byte vector.
pub fn copy_vec(v: &Vec<u8>) -> (r: Vec<u8>)
    ensures
        r@ == v@,
{
    vstd::slice::slice_to_vec(v.as_slice())
}

/// Equality of two byte strings.
pub fn bytes_eq(a: &[u8], b: &[u8]) -> (r: bool)
    ensures
        r == (a@ == b@),
{
    if a.len() != b.len() {
        assert(a@ != b@);
        return false;
    }
    let r = bytes_at(a, 0, b);
    assert(a@.subrange(0, b@.len() as int) =~= a@);
    r
}

} // verus!
