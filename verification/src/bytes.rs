//! The lexicographic order of byte strings, as a sign.
use vstd::prelude::*;
use vstd::string::StringSliceAdditionalSpecFns;

verus! {

/// `-1`, `0` or `1` as `a` comes before, equals or comes after `b` in
/// lexicographic byte order (a proper prefix comes first).
pub open spec fn byte_rank(a: Seq<u8>, b: Seq<u8>) -> int
    decreases a.len(),
{
    if a.len() == 0 {
        if b.len() == 0 {
            0
        } else {
            -1
        }
    } else if b.len() == 0 {
        1
    } else if a[0] < b[0] {
        -1
    } else if a[0] > b[0] {
        1
    } else {
        byte_rank(a.drop_first(), b.drop_first())
    }
}

/// Skipping a common prefix keeps the order.
proof fn lemma_rank_skip(a: Seq<u8>, b: Seq<u8>, i: int)
    requires
        0 <= i <= a.len(),
        i <= b.len(),
        forall|j: int| 0 <= j < i ==> a[j] == b[j],
    ensures
        byte_rank(a, b) == byte_rank(a.subrange(i, a.len() as int), b.subrange(i, b.len() as int)),
    decreases i,
{
    if i > 0 {
        lemma_rank_skip(a.drop_first(), b.drop_first(), i - 1);
        assert(a.drop_first().subrange(i - 1, a.len() - 1) =~= a.subrange(i, a.len() as int));
        assert(b.drop_first().subrange(i - 1, b.len() - 1) =~= b.subrange(i, b.len() as int));
    } else {
        assert(a.subrange(0, a.len() as int) =~= a);
        assert(b.subrange(0, b.len() as int) =~= b);
    }
}

/// Swapping the strings flips the sign.
pub proof fn lemma_rank_antisym(a: Seq<u8>, b: Seq<u8>)
    ensures
        byte_rank(a, b) == -byte_rank(b, a),
    decreases a.len(),
{
    if a.len() > 0 && b.len() > 0 && a[0] == b[0] {
        lemma_rank_antisym(a.drop_first(), b.drop_first());
    }
}

/// The order is transitive.
pub proof fn lemma_rank_trans(a: Seq<u8>, b: Seq<u8>, c: Seq<u8>)
    requires
        byte_rank(a, b) <= 0,
        byte_rank(b, c) <= 0,
    ensures
        byte_rank(a, c) <= 0,
    decreases a.len(),
{
    if a.len() > 0 && b.len() > 0 && c.len() > 0 && a[0] == b[0] && b[0] == c[0] {
        lemma_rank_trans(a.drop_first(), b.drop_first(), c.drop_first());
    }
}

/// The lexicographic order of the bytes of two strings, as a sign.
pub fn byte_compare(a: &str, b: &str) -> (r: i8)
    ensures
        r == byte_rank(a.spec_bytes(), b.spec_bytes()),
{
    let x = a.as_bytes();
    let y = b.as_bytes();
    let mut i: usize = 0;
    while i < x.len() && i < y.len() && x[i] == y[i]
        invariant
            0 <= i <= x@.len(),
            i <= y@.len(),
            forall|j: int| 0 <= j < i ==> x@[j] == y@[j],
        decreases x.len() - i,
    {
        i += 1;
    }
    proof {
        lemma_rank_skip(x@, y@, i as int);
        let xs = x@.subrange(i as int, x@.len() as int);
        let ys = y@.subrange(i as int, y@.len() as int);
        if i < x@.len() && i < y@.len() {
            assert(xs[0] == x@[i as int]);
            assert(ys[0] == y@[i as int]);
        }
    }
    if i == x.len() {
        if i == y.len() {
            0
        } else {
            -1
        }
    } else if i == y.len() {
        1
    } else if x[i] < y[i] {
        -1
    } else {
        1
    }
}

} // verus!
