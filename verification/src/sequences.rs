//! Sequences of records: element-wise clones and the newest end of a sequence.

use vstd::prelude::*;

verus! {

/// `dst` could be what cloning every element of `src` in order gives: the
/// two have the same length and each element of `dst` is a clone of, or equal
/// to, the element of `src` at its index.
pub open spec fn clones_of<T: Clone>(src: Seq<T>, dst: Seq<T>) -> bool {
    &&& src.len() == dst.len()
    &&& forall|i: int| 0 <= i < src.len() ==> cloned(#[trigger] src[i], dst[i])
}

/// Cloning a record of type `T` gives an equal record.
pub open spec fn clone_is_exact<T: Clone>() -> bool {
    forall|a: T, b: T| #[trigger] cloned(a, b) ==> a == b
}

/// The last `k` elements of `s` in order, or all of `s` where it has fewer.
pub open spec fn newest<T>(s: Seq<T>, k: nat) -> Seq<T> {
    if k >= s.len() {
        s
    } else {
        s.skip(s.len() - k)
    }
}

/// Where cloning is exact, an element-wise clone is the same sequence.
pub proof fn lemma_exact_clones_are_equal<T: Clone>(src: Seq<T>, dst: Seq<T>)
    requires
        clone_is_exact::<T>(),
        clones_of(src, dst),
    ensures
        src == dst,
{
    assert forall|i: int| 0 <= i < src.len() implies src[i] == dst[i] by {
        assert(cloned(src[i], dst[i]));
    }
    assert(src =~= dst);
}

} // verus!
