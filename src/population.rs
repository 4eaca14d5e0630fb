//! Populations of programs with their fitness results.
use crate::fitness::{rank_of_total, rank_spec, NAN_RANK};
use crate::rng::{next_u32, rng_from_seed};
use crate::tree::Node;
use std::sync::Arc;
use vstd::prelude::*;

verus! {

/// A collection of programs with, once scored, one fitness result and one
/// rank per program (`scores[i]` and `ranks[i]` belong to `population[i]`).
pub struct Population<F> {
    /// The programs.
    pub population: Vec<Arc<Node>>,
    /// Generation index of this population.
    pub generation: u32,
    /// Fitness results, index-aligned with the programs.
    pub scores: Vec<F>,
    /// Rank of each fitness total, index-aligned with the programs.
    pub ranks: Vec<i64>,
}

/// `order` lists positions of `ranks` from worst to best: by rank, and among
/// equal ranks by position, each step strictly increasing. With as many
/// entries as `ranks`, each below its length, it is the stable sort of all
/// positions by rank.
pub open spec fn rank_order(ranks: Seq<i64>, order: Seq<usize>) -> bool {
    &&& order.len() == ranks.len()
    &&& forall|k: int| 0 <= k < order.len() ==> (#[trigger] order[k]) < ranks.len()
    &&& forall|k: int|
        0 <= k < order.len() - 1 ==> key_less(ranks, #[trigger] order[k], order[k + 1])
}

/// `fitness` and `rank` are what `scoring_fn` may give for `program` with
/// some generator: its fitness result and the rank of the total it reports.
pub open spec fn scored_by<F, S: Fn(&Arc<Node>, &mut rand::rngs::StdRng) -> (F, u32)>(
    scoring_fn: S,
    program: &Arc<Node>,
    fitness: F,
    rank: i64,
) -> bool {
    exists|g: &mut rand::rngs::StdRng, bits: u32|
        #[trigger] scoring_fn.ensures((program, g), (fitness, bits)) && rank == rank_spec(bits)
}

/// Position `w` holds the highest rank, and no later position holds as high
/// a rank.
pub open spec fn is_champion(ranks: Seq<i64>, w: int) -> bool {
    &&& 0 <= w < ranks.len()
    &&& forall|i: int| 0 <= i < ranks.len() ==> ranks[i] <= ranks[w]
    &&& forall|i: int| w < i < ranks.len() ==> ranks[i] < ranks[w]
}

/// Position `a` comes before position `b`: lower rank, or equal rank and
/// lower position.
pub open spec fn key_less(ranks: Seq<i64>, a: usize, b: usize) -> bool {
    ranks[a as int] < ranks[b as int] || (ranks[a as int] == ranks[b as int] && a < b)
}

impl<F> Population<F> {
    /// Every program has its fitness result and rank.
    pub open spec fn scored(&self) -> bool {
        self.scores@.len() == self.population@.len() && self.ranks@.len() == self.population@.len()
    }

    /// An empty population of the given generation, with room for `n`
    /// programs.
    pub fn new(n: usize, generation: u32) -> (r: Population<F>)
        ensures
            r.population@.len() == 0,
            r.scores@.len() == 0,
            r.ranks@.len() == 0,
            r.generation == generation,
    {
        Population {
            population: Vec::with_capacity(n),
            generation,
            scores: Vec::new(),
            ranks: Vec::new(),
        }
    }

    /// Adds one program.
    pub fn add(&mut self, program: Arc<Node>)
        ensures
            final(self).population@ == old(self).population@.push(program),
            final(self).generation == old(self).generation,
            final(self).scores@ == old(self).scores@,
            final(self).ranks@ == old(self).ranks@,
    {
        self.population.push(program);
    }

    /// Number of programs.
    pub fn n(&self) -> (r: usize)
        ensures
            r == self.population@.len(),
    {
        self.population.len()
    }

    /// Scores every program with `scoring_fn`, which returns the fitness
    /// result and the bit pattern of its total; each evaluation gets a
    /// generator of its own, seeded from `rng`. The results replace the
    /// previous ones, one per program in program order.
    pub fn score<S: Fn(&Arc<Node>, &mut rand::rngs::StdRng) -> (F, u32)>(
        &mut self,
        scoring_fn: S,
        rng: &mut rand::rngs::StdRng,
    )
        requires
            forall|p: &Arc<Node>, g: &mut rand::rngs::StdRng| #[trigger] scoring_fn.requires((p, g)),
        ensures
            final(self).population@ == old(self).population@,
            final(self).generation == old(self).generation,
            final(self).scored(),
            forall|i: int|
                0 <= i < final(self).population@.len() ==> #[trigger] scored_by(
                    scoring_fn,
                    &final(self).population@[i],
                    final(self).scores@[i],
                    final(self).ranks@[i],
                ),
    {
        let mut scores: Vec<F> = Vec::new();
        let mut ranks: Vec<i64> = Vec::new();
        let mut i: usize = 0;
        while i < self.population.len()
            invariant
                i <= self.population@.len(),
                scores@.len() == i,
                ranks@.len() == i,
                forall|p: &Arc<Node>, g: &mut rand::rngs::StdRng| #[trigger] scoring_fn.requires((p, g)),
                forall|j: int|
                    0 <= j < i ==> #[trigger] scored_by(scoring_fn, &self.population@[j], scores@[j], ranks@[j]),
            decreases self.population@.len() - i,
        {
            let high = next_u32(rng) as u64;
            let low = next_u32(rng) as u64;
            let mut own = rng_from_seed(high * 0x1_0000_0000 + low);
            let (fitness, bits) = scoring_fn(&self.population[i], &mut own);
            scores.push(fitness);
            ranks.push(rank_of_total(bits));
            proof {
                assert(scored_by(scoring_fn, &self.population@[i as int], scores@[i as int], ranks@[i as int]));
                assert forall|j: int|
                    0 <= j < i + 1 implies #[trigger] scored_by(scoring_fn, &self.population@[j], scores@[j], ranks@[j]) by {}
            }
            i += 1;
        }
        self.scores = scores;
        self.ranks = ranks;
    }

    /// Takes fitness results computed elsewhere, with the bit patterns of
    /// their totals, one per program in program order.
    pub fn set_scores(&mut self, scores: Vec<F>, totals: Vec<u32>)
        requires
            scores@.len() == old(self).population@.len(),
            totals@.len() == old(self).population@.len(),
        ensures
            final(self).population@ == old(self).population@,
            final(self).generation == old(self).generation,
            final(self).scores@ == scores@,
            final(self).scored(),
            forall|i: int| 0 <= i < totals@.len() ==> final(self).ranks@[i] == rank_spec(#[trigger] totals@[i]),
    {
        let mut ranks: Vec<i64> = Vec::new();
        let mut i: usize = 0;
        while i < totals.len()
            invariant
                i <= totals@.len(),
                ranks@.len() == i,
                forall|j: int| 0 <= j < i ==> ranks@[j] == rank_spec(#[trigger] totals@[j]),
            decreases totals@.len() - i,
        {
            ranks.push(rank_of_total(totals[i]));
            i += 1;
        }
        self.scores = scores;
        self.ranks = ranks;
    }

    /// Positions, in increasing order, of the programs whose fitness total is
    /// a number (not NaN).
    pub fn defined_positions(&self) -> (r: Vec<usize>)
        ensures
            forall|k: int| 0 <= k < r@.len() ==> (#[trigger] r@[k]) < self.ranks@.len() && self.ranks@[r@[k] as int] != NAN_RANK,
            forall|k: int| 0 <= k < r@.len() - 1 ==> #[trigger] r@[k] < r@[k + 1],
            forall|i: int| 0 <= i < self.ranks@.len() && self.ranks@[i] != NAN_RANK ==> r@.contains(i as usize),
    {
        let mut r: Vec<usize> = Vec::new();
        let mut i: usize = 0;
        while i < self.ranks.len()
            invariant
                i <= self.ranks@.len(),
                forall|k: int| 0 <= k < r@.len() ==> (#[trigger] r@[k]) < i && self.ranks@[r@[k] as int] != NAN_RANK,
                forall|k: int| 0 <= k < r@.len() - 1 ==> #[trigger] r@[k] < r@[k + 1],
                forall|j: int| 0 <= j < i && self.ranks@[j] != NAN_RANK ==> r@.contains(j as usize),
            decreases self.ranks@.len() - i,
        {
            if self.ranks[i] != NAN_RANK {
                let ghost before = r@;
                r.push(i);
                proof {
                    assert forall|j: int| 0 <= j < i + 1 && self.ranks@[j] != NAN_RANK implies r@.contains(j as usize) by {
                        if j < i {
                            let k = choose|k: int| 0 <= k < before.len() && before[k] == j as usize;
                            assert(r@[k] == before[k]);
                        } else {
                            assert(r@[before.len() as int] == i);
                        }
                    }
                }
            }
            i += 1;
        }
        r
    }

    /// Position of the best program: the highest rank, the last one among
    /// equals.
    pub fn champion_index(&self) -> (r: usize)
        requires
            self.scored(),
            self.population@.len() > 0,
        ensures
            r < self.population@.len(),
            is_champion(self.ranks@, r as int),
    {
        let mut best: usize = 0;
        let mut i: usize = 1;
        while i < self.ranks.len()
            invariant
                1 <= i <= self.ranks@.len(),
                self.ranks@.len() == self.population@.len(),
                best < i,
                forall|j: int| 0 <= j < i ==> self.ranks@[j] <= self.ranks@[best as int],
                forall|j: int| best < j < i ==> self.ranks@[j] < self.ranks@[best as int],
            decreases self.ranks@.len() - i,
        {
            if self.ranks[i] >= self.ranks[best] {
                best = i;
            }
            i += 1;
        }
        best
    }

    /// The best program with its fitness result and generation.
    pub fn champion(&self) -> (r: CreatureScore<'_, F>)
        requires
            self.scored(),
            self.population@.len() > 0,
        ensures
            r.generation == self.generation,
            exists|w: int|
                #[trigger] is_champion(self.ranks@, w) && *r.program == self.population@[w] && *r.fitness
                    == self.scores@[w],
    {
        let w = self.champion_index();
        let r = CreatureScore { generation: self.generation, program: &self.population[w], fitness: &self.scores[w] };
        proof {
            assert(is_champion(self.ranks@, w as int));
        }
        r
    }

    /// Positions of all programs from worst to best: by rank, and by position
    /// among equal ranks.
    pub fn rank_order(&self) -> (r: Vec<usize>)
        requires
            self.scored(),
        ensures
            rank_order(self.ranks@, r@),
    {
        let ranks = &self.ranks;
        let mut order: Vec<usize> = Vec::new();
        let mut i: usize = 0;
        while i < ranks.len()
            invariant
                i <= ranks@.len(),
                order@.len() == i,
                forall|k: int| 0 <= k < order@.len() ==> (#[trigger] order@[k]) < i,
                forall|k: int|
                    0 <= k < order@.len() - 1 ==> key_less(ranks@, #[trigger] order@[k], order@[k + 1]),
            decreases ranks@.len() - i,
        {
            let mut pos: usize = 0;
            while pos < order.len() && ranks[order[pos]] <= ranks[i]
                invariant
                    pos <= order@.len(),
                    i < ranks@.len(),
                    forall|k: int| 0 <= k < order@.len() ==> (#[trigger] order@[k]) < i,
                    forall|k: int| 0 <= k < pos ==> ranks@[#[trigger] order@[k] as int] <= ranks@[i as int],
                decreases order@.len() - pos,
            {
                pos += 1;
            }
            let ghost before = order@;
            order.insert(pos, i);
            proof {
                assert(order@ == before.insert(pos as int, i));
                assert forall|k: int| 0 <= k < order@.len() implies (#[trigger] order@[k]) < i + 1 by {
                    if k < pos {
                        assert(order@[k] == before[k]);
                    } else if k > pos {
                        assert(order@[k] == before[k - 1]);
                    }
                }
                assert forall|k: int| 0 <= k < order@.len() - 1 implies key_less(
                    ranks@,
                    #[trigger] order@[k],
                    order@[k + 1],
                ) by {
                    if k + 1 < pos {
                        assert(order@[k] == before[k] && order@[k + 1] == before[k + 1]);
                    } else if k + 1 == pos {
                        assert(order@[k] == before[k]);
                        assert(ranks@[before[k] as int] <= ranks@[i as int]);
                    } else if k == pos {
                        assert(order@[k + 1] == before[k]);
                    } else {
                        assert(order@[k] == before[k - 1] && order@[k + 1] == before[k]);
                    }
                }
            }
            i += 1;
        }
        order
    }

    /// The best `n` programs, from worst to best among them: the last `n` in
    /// the stable order by rank.
    pub fn best_n(&self, n: usize) -> (r: Vec<Arc<Node>>)
        requires
            self.scored(),
            n <= self.population@.len(),
        ensures
            exists|order: Seq<usize>|
                #[trigger] rank_order(self.ranks@, order) && r@.len() == n && forall|k: int|
                    0 <= k < n ==> r@[k] == self.population@[order[self.population@.len() - n + k] as int],
    {
        let order = self.rank_order();
        let start = order.len() - n;
        let mut r: Vec<Arc<Node>> = Vec::new();
        let mut k: usize = start;
        while k < order.len()
            invariant
                start <= k <= order@.len(),
                start == order@.len() - n,
                rank_order(self.ranks@, order@),
                self.scored(),
                r@.len() == k - start,
                forall|j: int| 0 <= j < k - start ==> r@[j] == self.population@[order@[start + j] as int],
            decreases order@.len() - k,
        {
            r.push(Arc::clone(&self.population[order[k]]));
            k += 1;
        }
        r
    }
}

/// The best program of a population, with its fitness result and the
/// population's generation.
pub struct CreatureScore<'a, F> {
    pub generation: u32,
    pub program: &'a Arc<Node>,
    pub fitness: &'a F,
}

} // verus!
