//! Mutation: replacing one randomly chosen subtree by a fresh one.
use crate::random_pop::{lemma_replaced_conforms, lemma_subtree_conforms, random_tree, Grammar, NodeWeights};
use crate::rng::uniform_below;
use crate::tree::{
    depth_of, find_nodes_and_parents, is_path, lemma_record_subtree, node_of, path_of, preorder, record_of,
    replace_to_root, replaced, root_of, subtree_at, Node, NodeInTree,
};
use std::sync::Arc;
use vstd::prelude::*;

verus! {

impl Node {
    /// A mutation of this node: a fresh random subtree of the same kind,
    /// grown towards `max_height`.
    pub fn mutate(&self, max_height: i32, grammar: &Grammar, rng: &mut rand::rngs::StdRng) -> (r: Arc<Node>)
        requires
            grammar.wf(),
            self.kind < grammar.kinds@.len(),
        ensures
            grammar.conforms(*r, self.kind as int),
    {
        Arc::new(random_tree(grammar, self.kind, NodeWeights::fixed(max_height), rng))
    }
}

/// `r` is `t` with one subtree replaced by a tree of the same kind that
/// follows the grammar.
pub open spec fn is_mutation(g: Grammar, t: Node, r: Node) -> bool {
    exists|p: Seq<usize>, s: Node|
        is_path(t, p) && s.kind == subtree_at(t, p).unwrap().kind && g.conforms(s, s.kind as int)
            && #[trigger] replaced(t, p, s, r)
}

/// `target_height - depth`, or the least `i32` when that is smaller.
pub open spec fn height_left(target_height: int, depth: int) -> int {
    if target_height - depth >= i32::MIN {
        target_height - depth
    } else {
        i32::MIN as int
    }
}

/// The height left for a replacement at depth `depth` under a target height:
/// `target_height - depth`, held within `i32`.
pub fn remaining_height(target_height: i32, depth: usize) -> (r: i32)
    ensures
        r == height_left(target_height as int, depth as int),
{
    let d: i64 = if depth as u64 > 0x1_0000_0000u64 {
        0x1_0000_0000i64
    } else {
        depth as i64
    };
    let diff: i64 = target_height as i64 - d;
    if diff < i32::MIN as i64 {
        i32::MIN
    } else {
        diff as i32
    }
}

/// The tree that `mutate_tree` builds once it has picked the record `picked`
/// and drawn the replacement `mutated`: the whole tree rebuilt with that
/// replacement at the picked node.
pub fn mutate_at(picked: &Arc<NodeInTree>, mutated: Arc<Node>) -> (r: Arc<Node>)
    requires
        crate::tree::valid_record(**picked),
    ensures
        replaced(root_of(**picked), path_of(**picked), *mutated, *r),
{
    replace_to_root(picked, mutated)
}

/// Mutates a random node: picks one node of the tree uniformly, asks it for
/// a mutation grown towards the height left at its depth, and rebuilds the
/// tree around it.
pub fn mutate_tree(ast: &Arc<Node>, grammar: &Grammar, target_height: i32, rng: &mut rand::rngs::StdRng) -> (r: Arc<Node>)
    requires
        grammar.wf(),
        grammar.conforms(**ast, ast.kind as int),
    ensures
        grammar.conforms(*r, ast.kind as int),
        is_mutation(*grammar, **ast, *r),
{
    let naps = find_nodes_and_parents(ast);
    proof {
        assert(preorder(**ast).len() >= 1);
        assert(naps@.map_values(|x: Arc<NodeInTree>| path_of(*x)).len() == naps@.len());
    }
    let idx = uniform_below(rng, naps.len());
    let picked = &naps[idx];
    let ghost rec = record_of(*picked);
    proof {
        assert(crate::tree::valid_record(rec) && root_of(rec) == **ast);
        lemma_record_subtree(rec);
        lemma_subtree_conforms(*grammar, node_of(*ast), ast.kind as int, path_of(rec));
    }
    let height_diff = remaining_height(target_height, depth_of(picked));
    let mutated = picked.node.mutate(height_diff, grammar, rng);
    let ghost m = node_of(mutated);
    let r = mutate_at(picked, mutated);
    proof {
        lemma_replaced_conforms(*grammar, node_of(*ast), ast.kind as int, path_of(rec), m, node_of(r));
        assert(replaced(**ast, path_of(rec), m, *r));
        assert(is_mutation(*grammar, **ast, *r));
    }
    r
}

/// Mutates a random node with a mutation of the caller's choosing: picks one
/// node of the tree uniformly, asks `mutator` for its replacement grown
/// towards the height left at its depth, and rebuilds the tree around it.
pub fn mutate_tree_with<M: Fn(&Arc<Node>, i32, &mut rand::rngs::StdRng) -> Arc<Node>>(
    ast: &Arc<Node>,
    grammar: &Grammar,
    target_height: i32,
    rng: &mut rand::rngs::StdRng,
    mutator: M,
) -> (r: Arc<Node>)
    requires
        grammar.wf(),
        grammar.conforms(**ast, ast.kind as int),
        forall|n: &Arc<Node>, h: i32, g: &mut rand::rngs::StdRng|
            n.kind < grammar.kinds@.len() ==> #[trigger] mutator.requires((n, h, g)),
        forall|n: &Arc<Node>, h: i32, g: &mut rand::rngs::StdRng, m: Arc<Node>|
            #[trigger] mutator.ensures((n, h, g), m) ==> grammar.conforms(*m, n.kind as int),
    ensures
        grammar.conforms(*r, ast.kind as int),
        is_mutation(*grammar, **ast, *r),
        exists|p: Seq<usize>, n: &Arc<Node>, h: i32, g: &mut rand::rngs::StdRng, m: Arc<Node>|
            {
                &&& is_path(**ast, p)
                &&& **n == subtree_at(**ast, p).unwrap()
                &&& h == height_left(target_height as int, p.len() as int)
                &&& #[trigger] mutator.ensures((n, h, g), m)
                &&& #[trigger] replaced(**ast, p, *m, *r)
            },
{
    let naps = find_nodes_and_parents(ast);
    proof {
        assert(preorder(**ast).len() >= 1);
        assert(naps@.map_values(|x: Arc<NodeInTree>| path_of(*x)).len() == naps@.len());
    }
    let idx = uniform_below(rng, naps.len());
    let picked = &naps[idx];
    let ghost rec = record_of(*picked);
    proof {
        assert(crate::tree::valid_record(rec) && root_of(rec) == **ast);
        lemma_record_subtree(rec);
        lemma_subtree_conforms(*grammar, node_of(*ast), ast.kind as int, path_of(rec));
    }
    let depth = depth_of(picked);
    let height_diff = remaining_height(target_height, depth);
    proof {
        let len = path_of(rec).len();
        if len > usize::MAX {
            assert(height_left(target_height as int, depth as int) == height_left(target_height as int, len as int));
        }
    }
    let mutated = mutator(&picked.node, height_diff, rng);
    let ghost m = node_of(mutated);
    let r = mutate_at(picked, mutated);
    proof {
        lemma_replaced_conforms(*grammar, node_of(*ast), ast.kind as int, path_of(rec), m, node_of(r));
        assert(replaced(**ast, path_of(rec), m, *r));
        assert(is_mutation(*grammar, **ast, *r));
    }
    r
}

} // verus!
