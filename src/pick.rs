//! Weighted random choice among alternatives.
use crate::rng::next_u32;
use vstd::prelude::*;

verus! {

/// Sum of the first `k` weights.
pub open spec fn prefix_sum(w: Seq<u32>, k: int) -> int
    decreases k,
{
    if k <= 0 {
        0
    } else {
        prefix_sum(w, k - 1) + w[k - 1]
    }
}

/// Sum of all weights.
pub open spec fn total_weight(w: Seq<u32>) -> int {
    prefix_sum(w, w.len() as int)
}

proof fn lemma_prefix_sum_monotone(w: Seq<u32>, j: int, k: int)
    requires
        0 <= j <= k <= w.len(),
    ensures
        0 <= prefix_sum(w, j) <= prefix_sum(w, k),
    decreases k - j,
{
    if j < k {
        lemma_prefix_sum_monotone(w, j, k - 1);
    }
    lemma_prefix_sum_nonneg(w, j);
}

proof fn lemma_prefix_sum_nonneg(w: Seq<u32>, k: int)
    ensures
        0 <= prefix_sum(w, k),
    decreases k,
{
    if k > 0 {
        lemma_prefix_sum_nonneg(w, k - 1);
    }
}

/// One more weight adds its value to the sum.
pub proof fn lemma_prefix_sum_push(w: Seq<u32>, i: int)
    requires
        0 <= i < w.len(),
    ensures
        prefix_sum(w, i + 1) == prefix_sum(w, i) + w[i],
{
}

/// Sums over equal prefixes are equal.
pub proof fn lemma_prefix_sum_same(a: Seq<u32>, b: Seq<u32>, k: int)
    requires
        0 <= k <= a.len(),
        k <= b.len(),
        forall|j: int| 0 <= j < k ==> a[j] == b[j],
    ensures
        prefix_sum(a, k) == prefix_sum(b, k),
    decreases k,
{
    if k > 0 {
        lemma_prefix_sum_same(a, b, k - 1);
    }
}

/// A positive weight makes the total positive.
pub proof fn lemma_prefix_sum_positive(w: Seq<u32>, j: int)
    requires
        0 <= j < w.len(),
        w[j] > 0,
    ensures
        total_weight(w) > 0,
{
    lemma_prefix_sum_at_least(w, j, w.len() as int);
}

proof fn lemma_prefix_sum_at_least(w: Seq<u32>, j: int, k: int)
    requires
        0 <= j < k <= w.len(),
    ensures
        prefix_sum(w, k) >= w[j],
    decreases k,
{
    if k - 1 > j {
        lemma_prefix_sum_at_least(w, j, k - 1);
    } else {
        lemma_prefix_sum_nonneg(w, k - 1);
    }
    lemma_prefix_sum_monotone(w, k - 1, k);
}

/// The alternative whose band contains `point`, where the bands are laid out
/// end to end in order, each as wide as its weight.
pub fn pick_band(weights: &Vec<u32>, point: u32) -> (r: usize)
    requires
        point < total_weight(weights@),
    ensures
        r < weights@.len(),
        prefix_sum(weights@, r as int) <= point < prefix_sum(weights@, r as int + 1),
{
    let mut bound: u64 = 0;
    let mut i: usize = 0;
    while i < weights.len()
        invariant
            i <= weights@.len(),
            bound == prefix_sum(weights@, i as int),
            bound <= point,
            point < total_weight(weights@),
        decreases weights@.len() - i,
    {
        proof {
            lemma_prefix_sum_monotone(weights@, i as int + 1, weights@.len() as int);
        }
        let next = bound + weights[i] as u64;
        if (point as u64) < next {
            return i;
        }
        bound = next;
        i += 1;
    }
    i
}

/// Draws one alternative with probability proportional to its weight: one
/// 32-bit draw, taken modulo the total, picks the band it falls in.
pub fn weighted_choice(rng: &mut rand::rngs::StdRng, weights: &Vec<u32>) -> (r: usize)
    requires
        0 < total_weight(weights@) <= u32::MAX,
    ensures
        r < weights@.len(),
        weights@[r as int] > 0,
{
    let mut total: u32 = 0;
    let mut i: usize = 0;
    while i < weights.len()
        invariant
            i <= weights@.len(),
            total == prefix_sum(weights@, i as int),
            0 < total_weight(weights@) <= u32::MAX,
        decreases weights@.len() - i,
    {
        proof {
            lemma_prefix_sum_monotone(weights@, i as int + 1, weights@.len() as int);
        }
        total = total + weights[i];
        i += 1;
    }
    let draw = next_u32(rng);
    pick_band(weights, draw % total)
}

} // verus!
