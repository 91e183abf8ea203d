//! Inferring how a structure repeats from the offsets at which it was found.
use vstd::prelude::*;
use vstd::relations::{sorted_by, total_ordering};
use vstd::seq_lib::lemma_sorted_unique;
use crate::ir::{Array, ArrayView, CursedArray, RegularArray};

verus! {

/// The order of offsets by size.
pub open spec fn by_size() -> spec_fn(u32, u32) -> bool {
    |a: u32, b: u32| a <= b
}

/// `offsets` in ascending order.
pub open spec fn ascending(offsets: Seq<u32>) -> Seq<u32> {
    offsets.sort_by(by_size())
}

/// Entry `n` of `sorted` lies `n` strides above `base`, for every `n`.
pub open spec fn is_progression(sorted: Seq<u32>, base: int, stride: int) -> bool {
    forall|n: int| 0 <= n < sorted.len() ==> sorted[n] == base + n * stride
}

/// The stride that the two smallest offsets suggest; 0 for a single offset.
pub open spec fn guessed_stride(sorted: Seq<u32>) -> int {
    if sorted.len() == 1 {
        0
    } else {
        sorted[1] - sorted[0]
    }
}

/// The base offset and the shape of the array that a non-empty list of
/// offsets describes. The base is the smallest offset. Where the offsets in
/// ascending order rise by one stride each, the stride between the two
/// smallest, the array is regular; else it lists every offset, in ascending
/// order, relative to the base.
pub open spec fn shape_of(offsets: Seq<u32>) -> (u32, ArrayView)
    recommends
        offsets.len() > 0,
{
    let sorted = ascending(offsets);
    let base = sorted[0];
    let stride = guessed_stride(sorted);
    if is_progression(sorted, base as int, stride) {
        (base, ArrayView::Regular { len: sorted.len() as u32, stride: stride as u32 })
    } else {
        (base, ArrayView::Cursed { offsets: sorted.map_values(|o: u32| (o - base) as u32) })
    }
}

/// The order by size is total.
pub proof fn lemma_by_size_is_total()
    ensures
        total_ordering(by_size()),
{
    assert(vstd::relations::reflexive(by_size()));
    assert(vstd::relations::antisymmetric(by_size()));
    assert(vstd::relations::transitive(by_size()));
    assert(vstd::relations::strongly_connected(by_size()));
}

/// A list in ascending order that holds what `offsets` holds is `offsets`
/// in ascending order.
pub proof fn lemma_ascending_is_unique(sorted: Seq<u32>, offsets: Seq<u32>)
    requires
        sorted.to_multiset() == offsets.to_multiset(),
        forall|i: int, j: int| 0 <= i <= j < sorted.len() ==> sorted[i] <= sorted[j],
    ensures
        sorted == ascending(offsets),
{
    lemma_by_size_is_total();
    offsets.lemma_sort_by_ensures(by_size());
    assert(sorted_by(sorted, by_size()));
    lemma_sorted_unique(sorted, ascending(offsets), by_size());
}

/// The shape does not depend on the order in which the offsets are given:
/// two lists of any length that hold the same offsets, each as often, are
/// equally long and have the same base and the same shape, the order of
/// listed offsets included.
pub proof fn lemma_shape_ignores_order(a: Seq<u32>, b: Seq<u32>)
    requires
        a.to_multiset() == b.to_multiset(),
    ensures
        a.len() == b.len(),
        shape_of(a) == shape_of(b),
{
    a.to_multiset_ensures();
    b.to_multiset_ensures();
    lemma_by_size_is_total();
    a.lemma_sort_by_ensures(by_size());
    b.lemma_sort_by_ensures(by_size());
    lemma_sorted_unique(ascending(a), ascending(b), by_size());
}

/// The base offset is one of the offsets, and none is smaller.
pub proof fn lemma_base_is_least(offsets: Seq<u32>)
    requires
        offsets.len() > 0,
    ensures
        offsets.contains(shape_of(offsets).0),
        forall|i: int| 0 <= i < offsets.len() ==> shape_of(offsets).0 <= offsets[i],
{
    broadcast use vstd::seq_lib::group_to_multiset_ensures;

    lemma_by_size_is_total();
    offsets.lemma_sort_by_ensures(by_size());
    let sorted = ascending(offsets);
    assert(sorted.len() == offsets.len()) by {
        assert(sorted.to_multiset().len() == offsets.to_multiset().len());
    }
    assert(sorted.to_multiset().contains(sorted[0]));
    assert forall|i: int| 0 <= i < offsets.len() implies sorted[0] <= offsets[i] by {
        assert(offsets.to_multiset().contains(offsets[i]));
        assert(sorted.contains(offsets[i]));
        let j = choose|j: int| 0 <= j < sorted.len() && sorted[j] == offsets[i];
        if 0 < j {
            assert(by_size()(sorted[0], sorted[j]));
        }
    }
}

/// Calls `sort_unstable` of std: afterwards the vector holds what it held,
/// in ascending order.
#[verifier::external_body]
fn sort_offsets(v: &mut Vec<u32>)
    ensures
        final(v)@.to_multiset() == old(v)@.to_multiset(),
        forall|i: int, j: int| 0 <= i <= j < final(v)@.len() ==> final(v)@[i] <= final(v)@[j],
{
    v.sort_unstable();
}

/// Infers the base offset and the shape of an array from the offsets of its
/// elements, given in any order.
pub fn calc_array(offsets: Vec<u32>) -> (r: (u32, Array))
    requires
        0 < offsets.len() <= u32::MAX,
    ensures
        r.0 == shape_of(offsets@).0,
        r.1@ == shape_of(offsets@).1,
{
    broadcast use vstd::seq_lib::group_to_multiset_ensures;

    let ghost given = offsets@;
    let mut offsets = offsets;
    sort_offsets(&mut offsets);
    proof {
        lemma_ascending_is_unique(offsets@, given);
        assert(offsets@.to_multiset().len() == given.to_multiset().len());
    }
    let ghost sorted = offsets@;
    let n: usize = offsets.len();
    let start_offset: u32 = offsets[0];
    let stride: u32 = if n == 1 {
        0
    } else {
        offsets[1] - offsets[0]
    };
    let mut k: usize = 0;
    let mut regular: bool = true;
    while k < n && regular
        invariant
            k <= n,
            n == offsets.len(),
            n <= u32::MAX,
            offsets@ == sorted,
            regular ==> forall|j: int| 0 <= j < k ==> sorted[j] == start_offset + j * stride,
            !regular ==> !is_progression(sorted, start_offset as int, stride as int),
        decreases n - k + if regular { 1int } else { 0int },
    {
        assert(k * stride <= 0xffff_ffff * 0xffff_ffff) by (nonlinear_arith)
            requires
                k <= 0xffff_ffff,
                stride <= 0xffff_ffff,
        ;
        let expected: u64 = start_offset as u64 + (k as u64) * (stride as u64);
        if offsets[k] as u64 == expected {
            k += 1;
        } else {
            regular = false;
        }
    }
    if regular {
        (start_offset, Array::Regular(RegularArray { len: n as u32, stride }))
    } else {
        let mut j: usize = 0;
        while j < n
            invariant
                j <= n,
                n == offsets.len(),
                n == sorted.len(),
                start_offset == sorted[0],
                forall|p: int, q: int| 0 <= p <= q < sorted.len() ==> sorted[p] <= sorted[q],
                forall|p: int| 0 <= p < j ==> offsets@[p] == sorted[p] - start_offset,
                forall|p: int| j <= p < n ==> offsets@[p] == sorted[p],
            decreases n - j,
        {
            assert(sorted[0] <= sorted[j as int]);
            offsets[j] = offsets[j] - start_offset;
            j += 1;
        }
        assert(offsets@ =~= sorted.map_values(|o: u32| (o - start_offset) as u32));
        (start_offset, Array::Cursed(CursedArray { offsets }))
    }
}

} // verus!
