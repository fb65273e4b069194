//! Searching and copying in byte strings.

use vstd::prelude::*;
use vstd::slice::slice_subrange;

verus! {

/// The byte `:`.
pub const COLON: u8 = 58;

/// The line feed.
pub const NEWLINE: u8 = 10;

/// The carriage return.
pub const CARRIAGE_RETURN: u8 = 13;

/// Where `b` first stands in `s`; the length of `s` if it stands nowhere.
pub open spec fn find_byte(s: Seq<u8>, b: u8) -> nat
    decreases s.len(),
{
    if s.len() == 0 || s[0] == b {
        0
    } else {
        1 + find_byte(s.drop_first(), b)
    }
}

/// `find_byte` is the one position with `b` on it, or the end, and no `b` before it.
pub proof fn lemma_find_byte(s: Seq<u8>, b: u8, i: int)
    requires
        0 <= i <= s.len(),
        forall|j: int| 0 <= j < i ==> s[j] != b,
        i < s.len() ==> s[i] == b,
    ensures
        find_byte(s, b) == i,
    decreases i,
{
    if i > 0 {
        let t = s.drop_first();
        assert(s[0] != b);
        assert forall|j: int| 0 <= j < i - 1 implies t[j] != b by {
            assert(t[j] == s[j + 1]);
        }
        lemma_find_byte(t, b, i - 1);
    }
}

/// `find_byte` stays within the string, and finds `b` where it stops short of
/// the end.
pub proof fn lemma_find_byte_bounds(s: Seq<u8>, b: u8)
    ensures
        find_byte(s, b) <= s.len(),
        find_byte(s, b) < s.len() ==> s[find_byte(s, b) as int] == b,
        forall|j: int| 0 <= j < find_byte(s, b) ==> s[j] != b,
    decreases s.len(),
{
    if s.len() == 0 || s[0] == b {
    } else {
        let t = s.drop_first();
        lemma_find_byte_bounds(t, b);
        assert forall|j: int| 0 <= j < find_byte(s, b) implies s[j] != b by {
            if j > 0 {
                assert(t[j - 1] == s[j]);
            }
        }
    }
}

/// Finds the first `b` at or after `start`.
pub fn position_from(s: &[u8], start: usize, b: u8) -> (i: usize)
    requires
        start <= s@.len(),
    ensures
        i == start + find_byte(s@.skip(start as int), b),
        start <= i <= s@.len(),
{
    let n: usize = s.len();
    let mut i: usize = start;
    while i < n && s[i] != b
        invariant
            start <= i <= n,
            n == s@.len(),
            forall|j: int| start <= j < i ==> s@[j] != b,
        decreases n - i,
    {
        i = i + 1;
    }
    proof {
        let t = s@.skip(start as int);
        assert forall|j: int| 0 <= j < i - start implies t[j] != b by {
            assert(t[j] == s@[j + start]);
        }
        lemma_find_byte(t, b, i - start);
    }
    i
}

/// Copies the bytes of `s` from `from` up to `to`.
pub fn copy_range(s: &[u8], from: usize, to: usize) -> (r: Vec<u8>)
    requires
        from <= to <= s@.len(),
    ensures
        r@ == s@.subrange(from as int, to as int),
{
    let part = slice_subrange(s, from, to);
    let mut r: Vec<u8> = Vec::new();
    r.extend_from_slice(part);
    assert(r@ =~= s@.subrange(from as int, to as int));
    r
}

} // verus!
