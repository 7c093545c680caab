use vstd::prelude::*;

verus! {

/// `n` is the length of the longest common leading run of `a` and `b`.
pub open spec fn is_common_prefix_len(a: Seq<u8>, b: Seq<u8>, n: int) -> bool {
    &&& 0 <= n <= a.len()
    &&& n <= b.len()
    &&& a.take(n) == b.take(n)
    &&& (n < a.len() && n < b.len() ==> a[n] != b[n])
}

/// There is one common prefix length of two byte strings.
pub proof fn lemma_common_prefix_len_unique(a: Seq<u8>, b: Seq<u8>, n1: int, n2: int)
    requires
        is_common_prefix_len(a, b, n1),
        is_common_prefix_len(a, b, n2),
    ensures
        n1 == n2,
{
    if n1 < n2 {
        assert(a.take(n2)[n1] == b.take(n2)[n1]);
    } else if n2 < n1 {
        assert(a.take(n1)[n2] == b.take(n1)[n2]);
    }
}

/// Length of the longest run of bytes with which both `a` and `b` begin.
pub fn common_prefix_len(a: &[u8], b: &[u8]) -> (r: usize)
    ensures
        is_common_prefix_len(a@, b@, r as int),
{
    let mut i: usize = 0;
    while i < a.len() && i < b.len()
        invariant
            i <= a@.len(),
            i <= b@.len(),
            a@.take(i as int) == b@.take(i as int),
        decreases a@.len() - i,
    {
        if a[i] != b[i] {
            return i;
        }
        assert(a@.take(i + 1) == a@.take(i as int).push(a@[i as int]));
        assert(b@.take(i + 1) == b@.take(i as int).push(b@[i as int]));
        i = i + 1;
    }
    i
}

/// A fresh copy of the bytes of `s` from position `from` up to `to`.
pub(crate) fn copy_range(s: &[u8], from: usize, to: usize) -> (r: Vec<u8>)
    requires
        from <= to <= s@.len(),
    ensures
        r@ == s@.subrange(from as int, to as int),
{
    vstd::slice::slice_to_vec(vstd::slice::slice_subrange(s, from, to))
}

} // verus!
