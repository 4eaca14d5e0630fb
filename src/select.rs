//! Tournament selection.
use crate::population::Population;
use crate::rng::uniform_below;
use vstd::prelude::*;

verus! {

/// Position in `cands` of the tournament winner among the first `k`
/// contenders: the highest rank, the last one among equals.
pub open spec fn winner_pos(ranks: Seq<i64>, cands: Seq<usize>, k: int) -> int
    decreases k,
{
    if k <= 1 {
        0
    } else {
        let m = winner_pos(ranks, cands, k - 1);
        if ranks[cands[k - 1] as int] >= ranks[cands[m] as int] {
            k - 1
        } else {
            m
        }
    }
}

/// The winner's rank is at least that of every one of the first `k`
/// contenders.
proof fn lemma_winner_pos_best(ranks: Seq<i64>, cands: Seq<usize>, k: int)
    requires
        1 <= k <= cands.len(),
        forall|j: int| 0 <= j < cands.len() ==> #[trigger] cands[j] < ranks.len(),
    ensures
        forall|j: int|
            0 <= j < k ==> ranks[#[trigger] cands[j] as int] <= ranks[cands[winner_pos(ranks, cands, k)] as int],
    decreases k,
{
    lemma_winner_pos_in_range(ranks, cands, k);
    if k > 1 {
        lemma_winner_pos_best(ranks, cands, k - 1);
        lemma_winner_pos_in_range(ranks, cands, k - 1);
    }
}

proof fn lemma_winner_pos_in_range(ranks: Seq<i64>, cands: Seq<usize>, k: int)
    requires
        k >= 1,
    ensures
        0 <= winner_pos(ranks, cands, k) < k,
    decreases k,
{
    if k > 1 {
        lemma_winner_pos_in_range(ranks, cands, k - 1);
    }
}

/// The winner among the contenders `candidates` (positions in `ranks`): the
/// highest rank, the last one among equals.
pub fn tournament_winner(ranks: &Vec<i64>, candidates: &Vec<usize>) -> (r: usize)
    requires
        candidates@.len() > 0,
        forall|k: int| 0 <= k < candidates@.len() ==> #[trigger] candidates@[k] < ranks@.len(),
    ensures
        r == candidates@[winner_pos(ranks@, candidates@, candidates@.len() as int)],
        r < ranks@.len(),
        candidates@.contains(r),
        forall|k: int| 0 <= k < candidates@.len() ==> ranks@[#[trigger] candidates@[k] as int] <= ranks@[r as int],
{
    let mut best: usize = 0;
    let mut k: usize = 1;
    while k < candidates.len()
        invariant
            1 <= k <= candidates@.len(),
            best == winner_pos(ranks@, candidates@, k as int),
            forall|j: int| 0 <= j < candidates@.len() ==> #[trigger] candidates@[j] < ranks@.len(),
        decreases candidates@.len() - k,
    {
        proof {
            lemma_winner_pos_in_range(ranks@, candidates@, k as int);
        }
        if ranks[candidates[k]] >= ranks[candidates[best]] {
            best = k;
        }
        k += 1;
    }
    proof {
        lemma_winner_pos_in_range(ranks@, candidates@, candidates@.len() as int);
        lemma_winner_pos_best(ranks@, candidates@, candidates@.len() as int);
    }
    candidates[best]
}

/// Tournament selection: draws `tournament_size` positions of the population
/// independently and uniformly (with replacement) and returns the position
/// of the best-ranked of them, as `tournament_winner` picks it. Since any
/// position may be drawn, what holds of every outcome is that it is a
/// position of the population.
pub fn tournament_selection<F>(tournament_size: usize, pop: &Population<F>, rng: &mut rand::rngs::StdRng) -> (r: usize)
    requires
        tournament_size >= 1,
        pop.scored(),
        pop.population@.len() > 0,
    ensures
        r < pop.population@.len(),
{
    let count = pop.n();
    let mut candidates: Vec<usize> = Vec::new();
    let mut i: usize = 0;
    while i < tournament_size
        invariant
            i <= tournament_size,
            count == pop.population@.len(),
            pop.scored(),
            count > 0,
            candidates@.len() == i,
            forall|k: int| 0 <= k < i ==> #[trigger] candidates@[k] < count,
        decreases tournament_size - i,
    {
        candidates.push(uniform_below(rng, count));
        i += 1;
    }
    tournament_winner(&pop.ranks, &candidates)
}

} // verus!
