//! Size tiers: how far back a merge of the newest pieces reaches.
use vstd::prelude::*;

verus! {

/// The sizes from `j` on, added up.
pub open spec fn sum_from(sizes: Seq<u64>, j: int) -> int
    decreases sizes.len() - j,
{
    if j >= sizes.len() {
        0
    } else {
        sizes[j] + sum_from(sizes, j + 1)
    }
}

/// A merge reaches back to `r`: as long as the newer pieces together are at
/// least as large as the piece in front of them, that piece joins.
pub open spec fn reaches(sizes: Seq<u64>, r: int) -> bool {
    &&& 0 <= r < sizes.len()
    &&& forall|j: int| r < j < sizes.len() ==> #[trigger] sum_from(sizes, j) >= sizes[j - 1]
    &&& r > 0 ==> sum_from(sizes, r) < sizes[r - 1]
}

/// Every piece is smaller than the one in front of it.
pub open spec fn descending(sizes: Seq<u64>) -> bool {
    forall|j: int| 0 < j < sizes.len() ==> sizes[j] < #[trigger] sizes[j - 1]
}

/// There is one place that a merge reaches.
pub proof fn lemma_reaches_unique(sizes: Seq<u64>, a: int, b: int)
    requires
        reaches(sizes, a),
        reaches(sizes, b),
    ensures
        a == b,
{
    if a < b {
        assert(sum_from(sizes, b) >= sizes[b - 1]);
    }
    if b < a {
        assert(sum_from(sizes, a) >= sizes[a - 1]);
    }
}

proof fn lemma_sum_fits(sizes: Seq<u64>, j: int)
    requires
        0 <= j <= sizes.len(),
    ensures
        0 <= sum_from(sizes, j) <= sizes.len() * 0xFFFF_FFFF_FFFF_FFFF,
        sum_from(sizes, j) <= (sizes.len() - j) * 0xFFFF_FFFF_FFFF_FFFF,
    decreases sizes.len() - j,
{
    if j < sizes.len() {
        lemma_sum_fits(sizes, j + 1);
    }
}

/// How far back a merge of the newest pieces reaches. The last index means
/// that the newest piece is smaller than the one in front of it, so that there
/// is nothing to merge.
pub fn carry_from(sizes: &Vec<u64>) -> (r: usize)
    requires
        sizes@.len() > 0,
    ensures
        reaches(sizes@, r as int),
{
    let n: usize = sizes.len();
    let mut from: usize = n - 1;
    let mut run: u128 = sizes[from] as u128;
    assert(sum_from(sizes@, from + 1) == 0);
    while from > 0 && run >= sizes[from - 1] as u128
        invariant
            from < sizes@.len(),
            n == sizes@.len(),
            run == sum_from(sizes@, from as int),
            forall|j: int| from < j < sizes@.len() ==> #[trigger] sum_from(sizes@, j) >= sizes@[j - 1],
        decreases from,
    {
        proof {
            lemma_sum_fits(sizes@, from - 1);
            assert(n * 0xFFFF_FFFF_FFFF_FFFF <= 0xFFFF_FFFF_FFFF_FFFF * 0xFFFF_FFFF_FFFF_FFFF)
                by (nonlinear_arith)
                requires
                    n <= 0xFFFF_FFFF_FFFF_FFFF,
            ;
            assert(sum_from(sizes@, from - 1) == sizes@[from - 1] + sum_from(sizes@, from as int));
        }
        from = from - 1;
        run = run + sizes[from] as u128;
    }
    from
}

/// Merging what a merge reaches keeps the sizes descending, whatever the
/// merged piece loses.
pub proof fn law_merge_keeps_sizes_descending(sizes: Seq<u64>, r: int, merged: u64)
    requires
        reaches(sizes, r),
        descending(sizes.take(sizes.len() - 1)),
        merged <= sum_from(sizes, r),
    ensures
        descending(sizes.take(r).push(merged)),
{
    let out = sizes.take(r).push(merged);
    let old_sizes = sizes.take(sizes.len() - 1);
    assert forall|j: int| 0 < j < out.len() implies out[j] < #[trigger] out[j - 1] by {
        if j < r {
            assert(old_sizes[j] < old_sizes[j - 1]);
        }
    }
}

/// Where nothing is left to merge, the newest piece is the smallest.
pub proof fn law_settled_sizes_descend(sizes: Seq<u64>)
    requires
        reaches(sizes, sizes.len() - 1),
        descending(sizes.take(sizes.len() - 1)),
    ensures
        descending(sizes),
{
    let n = sizes.len() as int;
    let init = sizes.take(n - 1);
    assert(sum_from(sizes, n) == 0);
    assert forall|j: int| 0 < j < n implies sizes[j] < #[trigger] sizes[j - 1] by {
        if j < n - 1 {
            assert(init[j] < init[j - 1]);
        } else {
            assert(sum_from(sizes, j) == sizes[j] + sum_from(sizes, j + 1));
        }
    }
}

} // verus!
