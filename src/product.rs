use vstd::prelude::*;

use itertools::Itertools;

verus! {

/// The tuples `[i] + t`, for each `i < m` in increasing order and each `t` of
/// `rest` in order.
pub open spec fn prefixed(m: int, rest: Seq<Seq<usize>>) -> Seq<Seq<usize>>
    decreases m,
{
    if m <= 0 {
        Seq::empty()
    } else {
        prefixed(m - 1, rest) + rest.map_values(|t: Seq<usize>| seq![(m - 1) as usize] + t)
    }
}

/// Every tuple that picks one index below each size, in lexicographic order:
/// the last position varies fastest.
pub open spec fn index_product(sizes: Seq<usize>) -> Seq<Seq<usize>>
    decreases sizes.len(),
{
    if sizes.len() == 0 {
        seq![Seq::empty()]
    } else {
        prefixed(sizes[0] as int, index_product(sizes.drop_first()))
    }
}

/// Each tuple of `ts` has one index below each size.
pub open spec fn tuples_within(ts: Seq<Seq<usize>>, sizes: Seq<usize>) -> bool {
    forall|k: int|
        0 <= k < ts.len() ==> (#[trigger] ts[k]).len() == sizes.len() && forall|p: int|
            0 <= p < sizes.len() ==> ts[k][p] < sizes[p]
}

/// Relies on itertools' `multi_cartesian_product` over the ranges `0..n`:
/// it yields every tuple of indices, the last position varying fastest.
#[verifier::external_body]
pub(crate) fn index_tuples(sizes: &Vec<usize>) -> (r: Vec<Vec<usize>>)
    requires
        sizes@.len() > 0,
    ensures
        r@.map_values(|t: Vec<usize>| t@) == index_product(sizes@),
{
    sizes.iter().map(|&n| 0..n).multi_cartesian_product().collect()
}

proof fn lemma_prefixed_within(m: int, rest: Seq<Seq<usize>>, sizes: Seq<usize>)
    requires
        sizes.len() > 0,
        0 <= m <= sizes[0],
        tuples_within(rest, sizes.drop_first()),
    ensures
        tuples_within(prefixed(m, rest), sizes),
    decreases m,
{
    if m > 0 {
        lemma_prefixed_within(m - 1, rest, sizes);
        let a = prefixed(m - 1, rest);
        let b = rest.map_values(|t: Seq<usize>| seq![(m - 1) as usize] + t);
        assert forall|k: int| 0 <= k < a.len() + b.len() implies (#[trigger] (a + b)[k]).len()
            == sizes.len() && forall|p: int| 0 <= p < sizes.len() ==> (a + b)[k][p] < sizes[p] by {
            if k >= a.len() {
                let t = rest[k - a.len()];
                assert((a + b)[k] == seq![(m - 1) as usize] + t);
                assert forall|p: int| 0 <= p < sizes.len() implies (a + b)[k][p] < sizes[p] by {
                    if p > 0 {
                        assert(t[p - 1] < sizes.drop_first()[p - 1]);
                    }
                }
            }
        }
    }
}

/// Every tuple of the product has one index below each size.
pub proof fn lemma_index_product_within(sizes: Seq<usize>)
    ensures
        tuples_within(index_product(sizes), sizes),
    decreases sizes.len(),
{
    if sizes.len() > 0 {
        lemma_index_product_within(sizes.drop_first());
        lemma_prefixed_within(sizes[0] as int, index_product(sizes.drop_first()), sizes);
    }
}

} // verus!
