//! The evolution loop: building the next generation.
use crate::crossover::{crossover_tree, share_kind, swapped};
use crate::mutate::is_mutation;
use crate::mutate::mutate_tree;
use crate::pick::{prefix_sum, total_weight, weighted_choice};
use crate::population::Population;
use crate::random_pop::{lemma_replaced_conforms, lemma_subtree_conforms, Grammar};
use crate::rng::uniform_below;
use crate::tree::{is_path, node_of, replaced, subtree_at, Node};
use std::sync::Arc;
use vstd::prelude::*;

verus! {

/// Parameters of `evolve`: the shares of the three operators and the bound
/// of the target heights drawn for mutation.
pub struct Weights {
    pub reproduce: u32,
    pub mutate: u32,
    pub crossover: u32,
    pub tree_height: i32,
}

/// Every program of `programs` is a tree of kind `kind` of the grammar.
pub open spec fn all_conform(g: Grammar, programs: Seq<Arc<Node>>, kind: int) -> bool {
    forall|i: int| 0 <= i < programs.len() ==> g.conforms(*#[trigger] programs[i], kind)
}

/// The operator shares for one draw: reproduce, mutate, crossover; the
/// crossover share counts only when there are two programs to cross.
pub fn operator_weights(weights: &Weights, n: usize) -> (r: Vec<u32>)
    ensures
        r@ == seq![weights.reproduce, weights.mutate, if n < 2 { 0 } else { weights.crossover }],
{
    let cross = if n < 2 {
        0
    } else {
        weights.crossover
    };
    vec![weights.reproduce, weights.mutate, cross]
}

/// Position `i` is one that `selector` may pick from `pop`.
pub open spec fn chosen<F, S: Fn(&Population<F>, &mut rand::rngs::StdRng) -> usize>(
    selector: S,
    pop: &Population<F>,
    i: usize,
) -> bool {
    &&& i < pop.population@.len()
    &&& exists|g: &mut rand::rngs::StdRng| #[trigger] selector.ensures((pop, g), i)
}

/// `t` is a program of `pop` that `selector` picked.
pub open spec fn is_copy_of<F, S: Fn(&Population<F>, &mut rand::rngs::StdRng) -> usize>(
    selector: S,
    pop: &Population<F>,
    t: Node,
) -> bool {
    exists|i: usize| #[trigger] chosen(selector, pop, i) && *pop.population@[i as int] == t
}

/// `t` is a mutation of a program of `pop` that `selector` picked.
pub open spec fn is_mutant_of<F, S: Fn(&Population<F>, &mut rand::rngs::StdRng) -> usize>(
    g: Grammar,
    selector: S,
    pop: &Population<F>,
    t: Node,
) -> bool {
    exists|i: usize| #[trigger] chosen(selector, pop, i) && is_mutation(g, *pop.population@[i as int], t)
}

/// `t` and `o` are the two offspring of crossing `a` and `b`, in either
/// order.
pub open spec fn crossed(a: Node, b: Node, t: Node, o: Node) -> bool {
    swapped(a, b, t, o) || swapped(a, b, o, t)
}

/// `t` is one of the two offspring of crossing two programs of `pop` that
/// `selector` picked.
pub open spec fn is_offspring_of<F, S: Fn(&Population<F>, &mut rand::rngs::StdRng) -> usize>(
    selector: S,
    pop: &Population<F>,
    t: Node,
) -> bool {
    exists|i: usize, j: usize, o: Node|
        chosen(selector, pop, i) && chosen(selector, pop, j) && #[trigger] crossed(
            *pop.population@[i as int],
            *pop.population@[j as int],
            t,
            o,
        )
}

/// `t` was made from parents that `selector` picked from `pop`, by an
/// operator with a positive share: a copy of a parent, a mutation of one,
/// or an offspring of two.
pub open spec fn bred_from<F, S: Fn(&Population<F>, &mut rand::rngs::StdRng) -> usize>(
    g: Grammar,
    weights: Weights,
    selector: S,
    pop: &Population<F>,
    t: Node,
) -> bool {
    ||| weights.reproduce > 0 && is_copy_of(selector, pop, t)
    ||| weights.mutate > 0 && is_mutant_of(g, selector, pop, t)
    ||| weights.crossover > 0 && is_offspring_of(selector, pop, t)
}

/// Builds the next generation: until it holds as many programs as `pop`,
/// draws an operator by its share and applies it to parents chosen by
/// `selector`: reproduce copies one parent, mutate adds a mutation of one
/// parent (grown towards a target height drawn below `tree_height`),
/// crossover adds both offspring of two parents (so the result may hold one
/// program more than `pop`). Crossover is not drawn while `pop` holds fewer
/// than two programs.
pub fn evolve<F, S: Fn(&Population<F>, &mut rand::rngs::StdRng) -> usize>(
    pop: Population<F>,
    weights: &Weights,
    grammar: &Grammar,
    rng: &mut rand::rngs::StdRng,
    selector: S,
) -> (r: Population<F>)
    requires
        grammar.wf(),
        pop.scored(),
        pop.generation < u32::MAX,
        pop.population@.len() > 0 ==> all_conform(*grammar, pop.population@, pop.population@[0].kind as int),
        weights.reproduce + weights.mutate + weights.crossover <= u32::MAX,
        pop.population@.len() > 0 ==> weights.reproduce + weights.mutate > 0 || (weights.crossover > 0
            && pop.population@.len() >= 2),
        weights.mutate > 0 ==> weights.tree_height > 0,
        forall|p: &Population<F>, g: &mut rand::rngs::StdRng|
            p.scored() && p.population@.len() > 0 ==> #[trigger] selector.requires((p, g)),
        forall|p: &Population<F>, g: &mut rand::rngs::StdRng, i: usize|
            #[trigger] selector.ensures((p, g), i) ==> i < p.population@.len(),
    ensures
        r.generation == pop.generation + 1,
        pop.population@.len() <= r.population@.len() <= pop.population@.len() + 1,
        weights.crossover == 0 || pop.population@.len() < 2 ==> r.population@.len() == pop.population@.len(),
        weights.reproduce == 0 && weights.mutate == 0 && pop.population@.len() >= 2 ==> r.population@.len()
            == pop.population@.len() + pop.population@.len() % 2,
        r.scores@.len() == 0,
        r.ranks@.len() == 0,
        pop.population@.len() > 0 ==> all_conform(*grammar, r.population@, pop.population@[0].kind as int),
        forall|k: int|
            0 <= k < r.population@.len() ==> bred_from(*grammar, *weights, selector, &pop, *#[trigger] r.population@[k]),
{
    let n = pop.n();
    let mut ret: Population<F> = Population::new(n, pop.generation + 1);
    if n == 0 {
        return ret;
    }
    let root_kind = pop.population[0].kind;
    let ws = operator_weights(weights, n);
    proof {
        assert(prefix_sum(ws@, 0) == 0);
        assert(prefix_sum(ws@, 1) == ws@[0]);
        assert(prefix_sum(ws@, 2) == ws@[0] + ws@[1]);
        assert(prefix_sum(ws@, 3) == ws@[0] + ws@[1] + ws@[2]);
    }
    while ret.n() < n
        invariant
            n == pop.population@.len(),
            n > 0,
            root_kind == pop.population@[0].kind,
            all_conform(*grammar, pop.population@, root_kind as int),
            all_conform(*grammar, ret.population@, root_kind as int),
            ret.population@.len() <= n + 1,
            weights.crossover == 0 || n < 2 ==> ret.population@.len() <= n,
            weights.reproduce == 0 && weights.mutate == 0 ==> ret.population@.len() % 2 == 0,
            forall|k: int|
                0 <= k < ret.population@.len() ==> bred_from(*grammar, *weights, selector, &pop, *#[trigger] ret.population@[k]),
            ret.generation == pop.generation + 1,
            ret.scores@.len() == 0,
            ret.ranks@.len() == 0,
            ws@ == seq![weights.reproduce, weights.mutate, if n < 2 { 0 } else { weights.crossover }],
            0 < total_weight(ws@) <= u32::MAX,
            grammar.wf(),
            pop.scored(),
            weights.mutate > 0 ==> weights.tree_height > 0,
            forall|p: &Population<F>, g: &mut rand::rngs::StdRng|
                p.scored() && p.population@.len() > 0 ==> #[trigger] selector.requires((p, g)),
            forall|p: &Population<F>, g: &mut rand::rngs::StdRng, i: usize|
                #[trigger] selector.ensures((p, g), i) ==> i < p.population@.len(),
        decreases n + 1 - ret.population@.len(),
    {
        let op = weighted_choice(rng, &ws);
        let ghost before = ret.population@;
        if op == 0 {
            let winner = selector(&pop, rng);
            let copy = Arc::clone(&pop.population[winner]);
            proof {
                assert(chosen(selector, &pop, winner));
                assert(is_copy_of(selector, &pop, *copy));
            }
            ret.add(copy);
        } else if op == 1 {
            let winner = selector(&pop, rng);
            let target_height = uniform_below(rng, weights.tree_height as usize) as i32;
            let parent = &pop.population[winner];
            let mutation = mutate_tree(parent, grammar, target_height, rng);
            proof {
                assert(is_mutation(*grammar, *pop.population@[winner as int], *mutation));
                assert(chosen(selector, &pop, winner));
                assert(is_mutant_of(*grammar, selector, &pop, *mutation));
            }
            ret.add(mutation);
        } else {
            let one = selector(&pop, rng);
            let two = selector(&pop, rng);
            let a = &pop.population[one];
            let b = &pop.population[two];
            proof {
                assert(is_path(**a, Seq::empty()) && is_path(**b, Seq::empty()));
                assert(subtree_at(**a, Seq::empty()).unwrap().kind == subtree_at(**b, Seq::empty()).unwrap().kind);
                assert(share_kind(**a, **b));
            }
            let (child1, child2) = crossover_tree(a, b, rng);
            proof {
                lemma_offspring_conform(*grammar, node_of(*a), node_of(*b), node_of(child1), node_of(child2), root_kind as int);
                assert(swapped(*pop.population@[one as int], *pop.population@[two as int], *child1, *child2));
                assert(crossed(*pop.population@[one as int], *pop.population@[two as int], *child1, *child2));
                assert(crossed(*pop.population@[one as int], *pop.population@[two as int], *child2, *child1));
                assert(chosen(selector, &pop, one));
                assert(chosen(selector, &pop, two));
                assert(is_offspring_of(selector, &pop, *child1));
                assert(is_offspring_of(selector, &pop, *child2));
            }
            ret.add(child1);
            ret.add(child2);
        }
        proof {
            assert forall|i: int| 0 <= i < ret.population@.len() implies grammar.conforms(
                *#[trigger] ret.population@[i],
                root_kind as int,
            ) && bred_from(*grammar, *weights, selector, &pop, *ret.population@[i]) by {
                if i < before.len() {
                    assert(ret.population@[i] == before[i]);
                }
            }
        }
    }
    ret
}

/// Both offspring of crossing two trees of kind `k` are trees of kind `k`.
proof fn lemma_offspring_conform(g: Grammar, a: Node, b: Node, c1: Node, c2: Node, k: int)
    requires
        g.conforms(a, k),
        g.conforms(b, k),
        swapped(a, b, c1, c2),
    ensures
        g.conforms(c1, k),
        g.conforms(c2, k),
{
    let (p, q) = choose|p: Seq<usize>, q: Seq<usize>|
        {
            &&& is_path(a, p)
            &&& is_path(b, q)
            &&& subtree_at(a, p).unwrap().kind == subtree_at(b, q).unwrap().kind
            &&& #[trigger] replaced(a, p, subtree_at(b, q).unwrap(), c1)
            &&& #[trigger] replaced(b, q, subtree_at(a, p).unwrap(), c2)
        };
    lemma_subtree_conforms(g, a, k, p);
    lemma_subtree_conforms(g, b, k, q);
    lemma_replaced_conforms(g, a, k, p, subtree_at(b, q).unwrap(), c1);
    lemma_replaced_conforms(g, b, k, q, subtree_at(a, p).unwrap(), c2);
}

} // verus!
