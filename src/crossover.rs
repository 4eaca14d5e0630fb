//! Crossover: swapping subtrees of the same kind between two trees.
use crate::rng::uniform_below;
use crate::tree::{
    find_nodes_and_parents, is_path, lemma_path_in_preorder, lemma_record_subtree, node_of, path_of,
    paths_of, preorder, record_of, replace_to_root, replaced, root_of, subtree_at, valid_record, Node,
    NodeInTree,
};
use std::sync::Arc;
use vstd::prelude::*;

verus! {

/// The records of one node kind.
pub struct KindGroup {
    pub kind: usize,
    pub members: Vec<Arc<NodeInTree>>,
}

/// The records among the first `n` of `naps` whose node is of kind `k`, in
/// their order in `naps`.
pub open spec fn of_kind(naps: Seq<Arc<NodeInTree>>, k: usize, n: int) -> Seq<Arc<NodeInTree>>
    decreases n,
{
    if n <= 0 {
        Seq::empty()
    } else if naps[n - 1].node.kind == k {
        of_kind(naps, k, n - 1).push(naps[n - 1])
    } else {
        of_kind(naps, k, n - 1)
    }
}

proof fn lemma_of_kind_absent(naps: Seq<Arc<NodeInTree>>, k: usize, n: int)
    requires
        0 <= n <= naps.len(),
        forall|j: int| 0 <= j < n ==> (#[trigger] naps[j]).node.kind != k,
    ensures
        of_kind(naps, k, n) == Seq::<Arc<NodeInTree>>::empty(),
    decreases n,
{
    if n > 0 {
        lemma_of_kind_absent(naps, k, n - 1);
    }
}

/// `groups` sorts the records of `naps` by node kind: one non-empty group per
/// kind that occurs, holding exactly the records of `naps` of its kind, in
/// their order in `naps`.
pub open spec fn grouped(groups: Seq<KindGroup>, naps: Seq<Arc<NodeInTree>>) -> bool {
    &&& forall|x: int|
        0 <= x < groups.len() ==> (#[trigger] groups[x]).members@ == of_kind(
            naps,
            groups[x].kind,
            naps.len() as int,
        )
    &&& forall|x: int, y: int|
        0 <= x < y < groups.len() ==> #[trigger] groups[x].kind != #[trigger] groups[y].kind
    &&& forall|x: int| 0 <= x < groups.len() ==> (#[trigger] groups[x]).members@.len() > 0
    &&& forall|x: int, m: int|
        0 <= x < groups.len() && 0 <= m < groups[x].members@.len() ==> {
            &&& (#[trigger] groups[x].members@[m]).node.kind == groups[x].kind
            &&& naps.contains(groups[x].members@[m])
        }
    &&& forall|j: int| 0 <= j < naps.len() ==> has_group(groups, (#[trigger] naps[j]).node.kind)
}

/// Some group in `groups` is for kind `k`.
pub open spec fn has_group(groups: Seq<KindGroup>, k: usize) -> bool {
    exists|x: int| 0 <= x < groups.len() && #[trigger] groups[x].kind == k
}

/// Some node of `a` and some node of `b` have the same kind.
pub open spec fn share_kind(a: Node, b: Node) -> bool {
    exists|p: Seq<usize>, q: Seq<usize>|
        is_path(a, p) && is_path(b, q) && #[trigger] subtree_at(a, p).unwrap().kind
            == #[trigger] subtree_at(b, q).unwrap().kind
}

/// `c1` and `c2` are `a` and `b` with a subtree of `a` and a subtree of `b`
/// of the same kind swapped.
pub open spec fn swapped(a: Node, b: Node, c1: Node, c2: Node) -> bool {
    exists|p: Seq<usize>, q: Seq<usize>|
        {
            &&& is_path(a, p)
            &&& is_path(b, q)
            &&& subtree_at(a, p).unwrap().kind == subtree_at(b, q).unwrap().kind
            &&& #[trigger] replaced(a, p, subtree_at(b, q).unwrap(), c1)
            &&& #[trigger] replaced(b, q, subtree_at(a, p).unwrap(), c2)
        }
}

/// Groups records by the kind of their node.
pub fn group_by_type(naps: Vec<Arc<NodeInTree>>) -> (r: Vec<KindGroup>)
    ensures
        grouped(r@, naps@),
{
    let mut groups: Vec<KindGroup> = Vec::new();
    let mut i: usize = 0;
    while i < naps.len()
        invariant
            i <= naps@.len(),
            forall|x: int, y: int|
                0 <= x < y < groups@.len() ==> #[trigger] groups@[x].kind != #[trigger] groups@[y].kind,
            forall|x: int| 0 <= x < groups@.len() ==> (#[trigger] groups@[x]).members@.len() > 0,
            forall|x: int|
                0 <= x < groups@.len() ==> (#[trigger] groups@[x]).members@ == of_kind(
                    naps@,
                    groups@[x].kind,
                    i as int,
                ),
            forall|x: int, m: int|
                0 <= x < groups@.len() && 0 <= m < groups@[x].members@.len() ==> {
                    &&& (#[trigger] groups@[x].members@[m]).node.kind == groups@[x].kind
                    &&& naps@.contains(groups@[x].members@[m])
                },
            forall|j: int| 0 <= j < i ==> has_group(groups@, (#[trigger] naps@[j]).node.kind),
        decreases naps@.len() - i,
    {
        let nap = Arc::clone(&naps[i]);
        let kind = nap.node.kind;
        let mut pos: usize = 0;
        while pos < groups.len() && groups[pos].kind != kind
            invariant
                pos <= groups@.len(),
                forall|x: int| 0 <= x < pos ==> (#[trigger] groups@[x]).kind != kind,
            decreases groups@.len() - pos,
        {
            pos += 1;
        }
        let ghost before = groups@;
        if pos < groups.len() {
            groups[pos].members.push(nap);
            proof {
                assert forall|x: int| 0 <= x < groups@.len() implies #[trigger] groups@[x].kind == before[x].kind
                    && (x != pos ==> groups@[x] == before[x]) by {}
                assert forall|x: int, m: int|
                    0 <= x < groups@.len() && 0 <= m < groups@[x].members@.len() implies {
                        &&& (#[trigger] groups@[x].members@[m]).node.kind == groups@[x].kind
                        &&& naps@.contains(groups@[x].members@[m])
                    } by {
                    if x == pos && m == before[x].members@.len() {
                        assert(naps@[i as int] == groups@[x].members@[m]);
                    } else {
                        assert(groups@[x].members@[m] == before[x].members@[m]);
                    }
                }
                assert forall|x: int| 0 <= x < groups@.len() implies (#[trigger] groups@[x]).members@ == of_kind(
                    naps@,
                    groups@[x].kind,
                    i + 1,
                ) by {
                    if x == pos {
                        assert(groups@[x].members@ =~= before[x].members@.push(naps@[i as int]));
                    } else {
                        assert(groups@[x] == before[x]);
                    }
                }
                assert forall|j: int| 0 <= j < i + 1 implies has_group(groups@, (#[trigger] naps@[j]).node.kind) by {
                    if j == i {
                        assert(groups@[pos as int].kind == naps@[j].node.kind);
                    } else {
                        let x = choose|x: int|
                            0 <= x < before.len() && #[trigger] before[x].kind == naps@[j].node.kind;
                        assert(groups@[x].kind == naps@[j].node.kind);
                    }
                }
            }
        } else {
            let mut members: Vec<Arc<NodeInTree>> = Vec::new();
            members.push(nap);
            groups.push(KindGroup { kind, members });
            proof {
                assert forall|x: int| 0 <= x < before.len() implies #[trigger] groups@[x] == before[x] by {}
                assert forall|j: int| 0 <= j < i implies (#[trigger] naps@[j]).node.kind != kind by {
                    let x = choose|x: int|
                        0 <= x < before.len() && #[trigger] before[x].kind == naps@[j].node.kind;
                    assert(before[x].kind != kind);
                }
                lemma_of_kind_absent(naps@, kind, i as int);
                assert forall|x: int| 0 <= x < groups@.len() implies (#[trigger] groups@[x]).members@ == of_kind(
                    naps@,
                    groups@[x].kind,
                    i + 1,
                ) by {
                    if x == before.len() {
                        assert(groups@[x].members@ =~= Seq::<Arc<NodeInTree>>::empty().push(naps@[i as int]));
                    } else {
                        assert(groups@[x] == before[x]);
                    }
                }
                assert forall|x: int, m: int|
                    0 <= x < groups@.len() && 0 <= m < groups@[x].members@.len() implies {
                        &&& (#[trigger] groups@[x].members@[m]).node.kind == groups@[x].kind
                        &&& naps@.contains(groups@[x].members@[m])
                    } by {
                    if x == before.len() {
                        assert(naps@[i as int] == groups@[x].members@[m]);
                    } else {
                        assert(groups@[x] == before[x]);
                    }
                }
                assert forall|j: int| 0 <= j < i + 1 implies has_group(groups@, (#[trigger] naps@[j]).node.kind) by {
                    if j == i {
                        assert(groups@[before.len() as int].kind == naps@[j].node.kind);
                    } else {
                        let x = choose|x: int|
                            0 <= x < before.len() && #[trigger] before[x].kind == naps@[j].node.kind;
                        assert(groups@[x].kind == naps@[j].node.kind);
                    }
                }
            }
        }
        i += 1;
    }
    groups
}

/// The two offspring of swapping the node of `nap1` and the node of `nap2`
/// between their trees.
pub fn crossover_at(nap1: &Arc<NodeInTree>, nap2: &Arc<NodeInTree>) -> (r: (Arc<Node>, Arc<Node>))
    requires
        valid_record(**nap1),
        valid_record(**nap2),
    ensures
        replaced(root_of(**nap1), path_of(**nap1), *nap2.node, *r.0),
        replaced(root_of(**nap2), path_of(**nap2), *nap1.node, *r.1),
{
    let child1 = replace_to_root(nap1, Arc::clone(&nap2.node));
    let child2 = replace_to_root(nap2, Arc::clone(&nap1.node));
    (child1, child2)
}

/// Crossing a tree with itself at the roots gives back two copies of it.
pub proof fn lemma_crossover_at_roots(a: Node, r1: Node, r2: Node)
    requires
        replaced(a, Seq::empty(), subtree_at(a, Seq::empty()).unwrap(), r1),
        replaced(a, Seq::empty(), subtree_at(a, Seq::empty()).unwrap(), r2),
    ensures
        r1 == a,
        r2 == a,
{
}

/// All pairs of positions `(x, y)` with `nodes1[x]` and `nodes2[y]` of the
/// same kind.
fn shared_groups(nodes1: &Vec<KindGroup>, nodes2: &Vec<KindGroup>) -> (shared: Vec<(usize, usize)>)
    ensures
        forall|k: int|
            0 <= k < shared@.len() ==> {
                &&& (#[trigger] shared@[k]).0 < nodes1@.len()
                &&& shared@[k].1 < nodes2@.len()
                &&& nodes1@[shared@[k].0 as int].kind == nodes2@[shared@[k].1 as int].kind
            },
        forall|a: int, b: int|
            0 <= a < nodes1@.len() && 0 <= b < nodes2@.len() && nodes1@[a].kind == nodes2@[b].kind
                ==> shared@.contains((a as usize, b as usize)),
{
    let mut shared: Vec<(usize, usize)> = Vec::new();
    let mut x: usize = 0;
    while x < nodes1.len()
        invariant
            x <= nodes1@.len(),
            forall|k: int|
                0 <= k < shared@.len() ==> {
                    &&& (#[trigger] shared@[k]).0 < nodes1@.len()
                    &&& shared@[k].1 < nodes2@.len()
                    &&& nodes1@[shared@[k].0 as int].kind == nodes2@[shared@[k].1 as int].kind
                },
            forall|a: int, b: int|
                0 <= a < x && 0 <= b < nodes2@.len() && nodes1@[a].kind == nodes2@[b].kind
                    ==> shared@.contains((a as usize, b as usize)),
        decreases nodes1@.len() - x,
    {
        let mut y: usize = 0;
        while y < nodes2.len()
            invariant
                x < nodes1@.len(),
                y <= nodes2@.len(),
                forall|k: int|
                    0 <= k < shared@.len() ==> {
                        &&& (#[trigger] shared@[k]).0 < nodes1@.len()
                        &&& shared@[k].1 < nodes2@.len()
                        &&& nodes1@[shared@[k].0 as int].kind == nodes2@[shared@[k].1 as int].kind
                    },
                forall|a: int, b: int|
                    0 <= a < x && 0 <= b < nodes2@.len() && nodes1@[a].kind == nodes2@[b].kind
                        ==> shared@.contains((a as usize, b as usize)),
                forall|b: int|
                    0 <= b < y && nodes1@[x as int].kind == nodes2@[b].kind ==> shared@.contains(
                        (x, b as usize),
                    ),
            decreases nodes2@.len() - y,
        {
            if nodes1[x].kind == nodes2[y].kind {
                let ghost before = shared@;
                shared.push((x, y));
                proof {
                    assert(shared@[before.len() as int] == (x, y));
                    assert forall|k: int| 0 <= k < before.len() implies shared@[k] == before[k] by {}
                    assert forall|a: int, b: int|
                        0 <= a < x && 0 <= b < nodes2@.len() && nodes1@[a].kind == nodes2@[b].kind
                            implies shared@.contains((a as usize, b as usize)) by {
                        let k = choose|k: int| 0 <= k < before.len() && before[k] == (a as usize, b as usize);
                        assert(shared@[k] == before[k]);
                    }
                    assert forall|b: int|
                        0 <= b < y + 1 && nodes1@[x as int].kind == nodes2@[b].kind implies shared@.contains(
                            (x, b as usize),
                        ) by {
                        if b < y {
                            let k = choose|k: int| 0 <= k < before.len() && before[k] == (x, b as usize);
                            assert(shared@[k] == before[k]);
                        }
                    }
                }
            }
            y += 1;
        }
        x += 1;
    }
    shared
}

/// The record of a group member: a valid record of `t` whose node, of the
/// group's kind, is the subtree at its path.
proof fn lemma_member_path(t: Node, naps: Seq<Arc<NodeInTree>>, groups: Seq<KindGroup>, x: int, m: int) -> (p: Seq<usize>)
    requires
        forall|i: int| 0 <= i < naps.len() ==> valid_record(*#[trigger] naps[i]) && root_of(*naps[i]) == t,
        grouped(groups, naps),
        0 <= x < groups.len(),
        0 <= m < groups[x].members@.len(),
    ensures
        is_path(t, p),
        subtree_at(t, p).unwrap().kind == groups[x].kind,
        p == path_of(*groups[x].members@[m]),
        valid_record(*groups[x].members@[m]),
        root_of(*groups[x].members@[m]) == t,
{
    let nap = groups[x].members@[m];
    assert(naps.contains(nap));
    let j = choose|j: int| 0 <= j < naps.len() && naps[j] == nap;
    assert(valid_record(*naps[j]));
    lemma_record_subtree(record_of(nap));
    path_of(record_of(nap))
}

/// Whether some node of `ast1` and some node of `ast2` have the same kind,
/// which `crossover_tree` needs.
pub fn shares_kind(ast1: &Arc<Node>, ast2: &Arc<Node>) -> (r: bool)
    ensures
        r == share_kind(**ast1, **ast2),
{
    let naps1 = find_nodes_and_parents(ast1);
    let naps2 = find_nodes_and_parents(ast2);
    let ghost n1 = naps1@;
    let ghost n2 = naps2@;
    let nodes1 = group_by_type(naps1);
    let nodes2 = group_by_type(naps2);
    let shared = shared_groups(&nodes1, &nodes2);
    proof {
        if shared@.len() == 0 {
            if share_kind(node_of(*ast1), node_of(*ast2)) {
                let (p, q) = choose|p: Seq<usize>, q: Seq<usize>|
                    is_path(node_of(*ast1), p) && is_path(node_of(*ast2), q) && #[trigger] subtree_at(
                        node_of(*ast1),
                        p,
                    ).unwrap().kind == #[trigger] subtree_at(node_of(*ast2), q).unwrap().kind;
                let a = lemma_group_of_path(node_of(*ast1), n1, nodes1@, p);
                let b = lemma_group_of_path(node_of(*ast2), n2, nodes2@, q);
                assert(shared@.contains((a as usize, b as usize)));
            }
        } else {
            let (g1, g2) = shared@[0];
            let p = lemma_member_path(node_of(*ast1), n1, nodes1@, g1 as int, 0);
            let q = lemma_member_path(node_of(*ast2), n2, nodes2@, g2 as int, 0);
            assert(subtree_at(**ast1, p).unwrap().kind == subtree_at(**ast2, q).unwrap().kind);
        }
    }
    shared.len() > 0
}

/// Crosses two trees that share a node kind: picks a node kind found in
/// both uniformly, then one node of that kind in each tree uniformly, and
/// returns the two trees with those subtrees swapped.
pub fn crossover_tree(ast1: &Arc<Node>, ast2: &Arc<Node>, rng: &mut rand::rngs::StdRng) -> (r: (Arc<Node>, Arc<Node>))
    requires
        share_kind(**ast1, **ast2),
    ensures
        swapped(**ast1, **ast2, *r.0, *r.1),
{
    let naps1 = find_nodes_and_parents(ast1);
    let naps2 = find_nodes_and_parents(ast2);
    let ghost n1 = naps1@;
    let ghost n2 = naps2@;
    let nodes1 = group_by_type(naps1);
    let nodes2 = group_by_type(naps2);
    let shared = shared_groups(&nodes1, &nodes2);
    proof {
        let (p, q) = choose|p: Seq<usize>, q: Seq<usize>|
            is_path(node_of(*ast1), p) && is_path(node_of(*ast2), q) && #[trigger] subtree_at(
                node_of(*ast1),
                p,
            ).unwrap().kind == #[trigger] subtree_at(node_of(*ast2), q).unwrap().kind;
        let a = lemma_group_of_path(node_of(*ast1), n1, nodes1@, p);
        let b = lemma_group_of_path(node_of(*ast2), n2, nodes2@, q);
        assert(shared@.contains((a as usize, b as usize)));
    }
    let pick = uniform_below(rng, shared.len());
    let (g1, g2) = shared[pick];
    let group1 = &nodes1[g1].members;
    let group2 = &nodes2[g2].members;
    let nap1 = &group1[uniform_below(rng, group1.len())];
    let nap2 = &group2[uniform_below(rng, group2.len())];
    let ghost rec1 = record_of(*nap1);
    let ghost rec2 = record_of(*nap2);
    proof {
        let j1 = choose|j: int| 0 <= j < n1.len() && n1[j] == *nap1;
        let j2 = choose|j: int| 0 <= j < n2.len() && n2[j] == *nap2;
        assert(valid_record(*n1[j1]) && root_of(*n1[j1]) == **ast1);
        assert(valid_record(*n2[j2]) && root_of(*n2[j2]) == **ast2);
        lemma_record_subtree(rec1);
        lemma_record_subtree(rec2);
    }
    let r = crossover_at(nap1, nap2);
    proof {
        let p = path_of(rec1);
        let q = path_of(rec2);
        assert(subtree_at(node_of(*ast1), p).unwrap().kind == subtree_at(node_of(*ast2), q).unwrap().kind);
        assert(share_kind(**ast1, **ast2));
        assert(replaced(node_of(*ast1), p, subtree_at(node_of(*ast2), q).unwrap(), node_of(r.0)));
        assert(replaced(node_of(*ast2), q, subtree_at(node_of(*ast1), p).unwrap(), node_of(r.1)));
        assert(is_path(node_of(*ast1), p));
        assert(is_path(node_of(*ast2), q));
        assert(replaced(**ast1, p, subtree_at(**ast2, q).unwrap(), *r.0));
        assert(replaced(**ast2, q, subtree_at(**ast1, p).unwrap(), *r.1));
        assert(swapped(**ast1, **ast2, *r.0, *r.1));
    }
    r
}

/// The group that holds the kind of the node at path `p`.
proof fn lemma_group_of_path(t: Node, naps: Seq<Arc<NodeInTree>>, groups: Seq<KindGroup>, p: Seq<usize>) -> (x: int)
    requires
        forall|i: int| 0 <= i < naps.len() ==> valid_record(*#[trigger] naps[i]) && root_of(*naps[i]) == t,
        paths_of(naps) == preorder(t),
        grouped(groups, naps),
        is_path(t, p),
    ensures
        0 <= x < groups.len(),
        groups[x].kind == subtree_at(t, p).unwrap().kind,
{
    lemma_path_in_preorder(t, p);
    let j = choose|j: int| 0 <= j < preorder(t).len() && preorder(t)[j] == p;
    assert(paths_of(naps)[j] == path_of(*naps[j]));
    lemma_record_subtree(record_of(naps[j]));
    assert(has_group(groups, naps[j].node.kind));
    let x = choose|x: int| 0 <= x < groups.len() && #[trigger] groups[x].kind == naps[j].node.kind;
    x
}

} // verus!
