//! Program trees, path-tracked traversal and rebuilding along a path.
use std::sync::Arc;
use vstd::prelude::*;

verus! {

/// One node of a program tree.
///
/// `kind` is the node-kind tag shared by every node built from the same part
/// of a grammar, `label` says which variant of that kind the node is, `data`
/// is its payload and `children` are its subtrees, which may be shared with
/// other trees.
#[derive(PartialEq, Eq, Debug)]
pub struct Node {
    pub kind: usize,
    pub label: usize,
    pub data: u32,
    pub children: Vec<Arc<Node>>,
}

/// A node of a tree together with the record of its parent: the chain of
/// records is the path from the node up to the root.
///
/// `position` is the index of the node among its parent's children (zero for
/// the root); it identifies the exact occurrence, so structurally equal
/// siblings are never confused.
pub struct NodeInTree {
    pub node: Arc<Node>,
    pub position: usize,
    pub root_path: Option<Arc<NodeInTree>>,
}

// ---------------------------------------------------------------------------
// Mathematical model

/// Height of a tree: a leaf has depth 1.
pub open spec fn depth_spec(t: Node) -> nat
    decreases t,
{
    1 + max_depth_of(t.children@, t.children@.len() as int)
}

/// Largest depth among the first `k` subtrees of `ch` (0 when there are none).
pub open spec fn max_depth_of(ch: Seq<Arc<Node>>, k: int) -> nat
    decreases ch, k,
{
    if k <= 0 || k > ch.len() {
        0
    } else {
        let d = depth_spec(*ch[k - 1]);
        let m = max_depth_of(ch, k - 1);
        if d > m {
            d
        } else {
            m
        }
    }
}

/// The subtree reached from `t` by following the child positions in `p`.
pub open spec fn subtree_at(t: Node, p: Seq<usize>) -> Option<Node>
    decreases p.len(),
{
    if p.len() == 0 {
        Some(t)
    } else if p[0] < t.children@.len() {
        subtree_at(*t.children@[p[0] as int], p.subrange(1, p.len() as int))
    } else {
        None
    }
}

/// `p` leads to a node of `t`.
pub open spec fn is_path(t: Node, p: Seq<usize>) -> bool {
    subtree_at(t, p).is_some()
}

/// Two nodes agree on everything but their children.
pub open spec fn same_shell(a: Node, b: Node) -> bool {
    a.kind == b.kind && a.label == b.label && a.data == b.data
}

/// `r` is `t` with the subtree at path `p` replaced by `new`: the nodes on
/// the path are rebuilt, every other child is kept as it was.
pub open spec fn replaced(t: Node, p: Seq<usize>, new: Node, r: Node) -> bool
    decreases p.len(),
{
    if p.len() == 0 {
        r == new
    } else {
        let i = p[0] as int;
        &&& 0 <= i < t.children@.len()
        &&& same_shell(t, r)
        &&& r.children@.len() == t.children@.len()
        &&& forall|j: int| 0 <= j < t.children@.len() && j != i ==> r.children@[j] == t.children@[j]
        &&& replaced(*t.children@[i], p.subrange(1, p.len() as int), new, *r.children@[i])
    }
}

/// The path from the root of a record's tree down to the record's node.
pub open spec fn path_of(rec: NodeInTree) -> Seq<usize>
    decreases rec,
{
    match rec.root_path {
        None => Seq::empty(),
        Some(parent) => path_of(*parent).push(rec.position),
    }
}

/// The root of the tree a record belongs to.
pub open spec fn root_of(rec: NodeInTree) -> Node
    decreases rec,
{
    match rec.root_path {
        None => *rec.node,
        Some(parent) => root_of(*parent),
    }
}

/// Every link of the chain is a true parent/child link.
pub open spec fn valid_record(rec: NodeInTree) -> bool
    decreases rec,
{
    match rec.root_path {
        None => rec.position == 0,
        Some(parent) => {
            &&& valid_record(*parent)
            &&& rec.position < parent.node.children@.len()
            &&& *rec.node == *parent.node.children@[rec.position as int]
        },
    }
}

/// All paths of a tree in pre-order: the root, then each child's paths in turn.
pub open spec fn preorder(t: Node) -> Seq<Seq<usize>>
    decreases t,
{
    seq![Seq::<usize>::empty()] + preorder_children(t.children@, t.children@.len() as int)
}

/// Pre-order paths of the first `k` subtrees in `ch`, each prefixed with the
/// position of its subtree.
pub open spec fn preorder_children(ch: Seq<Arc<Node>>, k: int) -> Seq<Seq<usize>>
    decreases ch, k,
{
    if k <= 0 || k > ch.len() {
        Seq::empty()
    } else {
        preorder_children(ch, k - 1) + prefixed((k - 1) as usize, preorder(*ch[k - 1]))
    }
}

/// Every path of `ps` with `i` put in front.
pub open spec fn prefixed(i: usize, ps: Seq<Seq<usize>>) -> Seq<Seq<usize>> {
    ps.map_values(|q: Seq<usize>| seq![i] + q)
}

/// Every path of `ps` with `prefix` put in front.
pub open spec fn under(prefix: Seq<usize>, ps: Seq<Seq<usize>>) -> Seq<Seq<usize>> {
    ps.map_values(|q: Seq<usize>| prefix + q)
}

/// The paths of a sequence of records.
pub open spec fn paths_of(recs: Seq<Arc<NodeInTree>>) -> Seq<Seq<usize>> {
    recs.map_values(|x: Arc<NodeInTree>| path_of(*x))
}

/// The `i`-th subtree in `ch`.
pub open spec fn at(ch: Seq<Arc<Node>>, i: int) -> Node {
    *ch[i]
}

/// The node behind a shared handle.
pub open spec fn node_of(x: Arc<Node>) -> Node {
    *x
}

/// The record behind a shared handle.
pub open spec fn record_of(x: Arc<NodeInTree>) -> NodeInTree {
    *x
}

/// The record of a record's parent.
pub open spec fn parent_of(rec: NodeInTree) -> NodeInTree {
    *rec.root_path.unwrap()
}

// ---------------------------------------------------------------------------
// Lemmas

/// The depth of a tree is one more than the largest depth of its children;
/// a leaf has depth 1.
pub proof fn lemma_depth_law(t: Node)
    ensures
        t.children@.len() == 0 ==> depth_spec(t) == 1,
        forall|i: int| 0 <= i < t.children@.len() ==> depth_spec(*t.children@[i]) + 1 <= depth_spec(t),
        t.children@.len() > 0 ==> exists|i: int|
            0 <= i < t.children@.len() && depth_spec(t) == depth_spec(*t.children@[i]) + 1,
{
    lemma_max_depth_of(t.children@, t.children@.len() as int);
}

proof fn lemma_max_depth_of(ch: Seq<Arc<Node>>, k: int)
    requires
        0 <= k <= ch.len(),
    ensures
        forall|i: int| 0 <= i < k ==> depth_spec(*ch[i]) <= max_depth_of(ch, k),
        k > 0 ==> exists|i: int| 0 <= i < k && max_depth_of(ch, k) == depth_spec(*ch[i]),
    decreases k,
{
    if k > 0 {
        lemma_max_depth_of(ch, k - 1);
        if depth_spec(at(ch, k - 1)) > max_depth_of(ch, k - 1) {
            assert(max_depth_of(ch, k) == depth_spec(*ch[k - 1]));
        } else {
            assert(k - 1 > 0 ==> exists|i: int| 0 <= i < k - 1 && max_depth_of(ch, k - 1) == depth_spec(*ch[i]));
        }
    }
}

/// Following `p` and then `q` is following `p + q`.
pub proof fn lemma_subtree_concat(t: Node, p: Seq<usize>, q: Seq<usize>)
    ensures
        subtree_at(t, p + q) == match subtree_at(t, p) {
            Some(s) => subtree_at(s, q),
            None => None,
        },
    decreases p.len(),
{
    if p.len() == 0 {
        assert(p + q =~= q);
    } else {
        let pq = p + q;
        assert(pq[0] == p[0]);
        assert(pq.subrange(1, pq.len() as int) =~= p.subrange(1, p.len() as int) + q);
        if p[0] < t.children@.len() {
            lemma_subtree_concat(at(t.children@, p[0] as int), p.subrange(1, p.len() as int), q);
        }
    }
}

/// The node of a valid record is the subtree at its path in its tree.
pub proof fn lemma_record_subtree(rec: NodeInTree)
    requires
        valid_record(rec),
    ensures
        subtree_at(root_of(rec), path_of(rec)) == Some(*rec.node),
    decreases rec,
{
    if rec.root_path.is_some() {
        {
            let parent = parent_of(rec);
            lemma_record_subtree(parent);
            let pp = path_of(parent);
            lemma_subtree_concat(root_of(parent), pp, seq![rec.position]);
            assert(root_of(rec) == root_of(parent));
            assert(path_of(rec) == pp.push(rec.position));
            assert(pp + seq![rec.position] =~= pp.push(rec.position));
            let one = seq![rec.position];
            assert(one.subrange(1, 1) =~= Seq::<usize>::empty());
            assert(subtree_at(at(parent.node.children@, rec.position as int), one.subrange(1, 1)) == Some(*rec.node));
            assert(subtree_at(*parent.node, one) == Some(*rec.node));
        }
    }
}

/// Putting `pp` in front of the pre-order paths of the subtree at position
/// `i` gives the path `pp.push(i)` followed by that subtree's children's
/// paths under `pp.push(i)`.
proof fn lemma_under_prefixed(pp: Seq<usize>, i: usize, c: Node)
    ensures
        under(pp, prefixed(i, preorder(c))) =~= seq![pp.push(i)] + under(
            pp.push(i),
            preorder_children(c.children@, c.children@.len() as int),
        ),
{
    let pc = preorder_children(c.children@, c.children@.len() as int);
    let lhs = under(pp, prefixed(i, preorder(c)));
    let rhs = seq![pp.push(i)] + under(pp.push(i), pc);
    assert(preorder(c) == seq![Seq::<usize>::empty()] + pc);
    assert(lhs.len() == rhs.len());
    assert forall|k: int| 0 <= k < lhs.len() implies lhs[k] == rhs[k] by {
        if k == 0 {
            assert(seq![i] + Seq::<usize>::empty() =~= seq![i]);
            assert(pp + seq![i] =~= pp.push(i));
        } else {
            let q = pc[k - 1];
            assert(preorder(c)[k] == q);
            assert(pp + (seq![i] + q) =~= pp.push(i) + q);
        }
    }
}

/// A path of a tree that starts with `i` continues with a path of child `i`.
pub proof fn lemma_path_head(t: Node, p: Seq<usize>)
    requires
        is_path(t, p),
        p.len() > 0,
    ensures
        p[0] < t.children@.len(),
        is_path(at(t.children@, p[0] as int), p.subrange(1, p.len() as int)),
        subtree_at(t, p) == subtree_at(at(t.children@, p[0] as int), p.subrange(1, p.len() as int)),
{
}

/// Every path of a tree appears in its pre-order listing.
pub proof fn lemma_path_in_preorder(t: Node, p: Seq<usize>)
    requires
        is_path(t, p),
    ensures
        preorder(t).contains(p),
    decreases p.len(),
{
    if p.len() == 0 {
        assert(preorder(t)[0] == p);
    } else {
        let i = p[0] as int;
        let q = p.subrange(1, p.len() as int);
        let c = at(t.children@, i);
        lemma_path_in_preorder(c, q);
        let m = choose|m: int| 0 <= m < preorder(c).len() && preorder(c)[m] == q;
        assert(seq![p[0]] + q =~= p);
        assert(prefixed(p[0], preorder(c))[m] == p);
        lemma_preorder_children_contains(t.children@, i, t.children@.len() as int, p);
        let pc = preorder_children(t.children@, t.children@.len() as int);
        let n = choose|n: int| 0 <= n < pc.len() && pc[n] == p;
        assert(preorder(t)[n + 1] == p);
    }
}

proof fn lemma_preorder_children_contains(ch: Seq<Arc<Node>>, i: int, k: int, p: Seq<usize>)
    requires
        0 <= i < k <= ch.len(),
        prefixed(i as usize, preorder(at(ch, i))).contains(p),
    ensures
        preorder_children(ch, k).contains(p),
    decreases k,
{
    let prev = preorder_children(ch, k - 1);
    let last = prefixed((k - 1) as usize, preorder(at(ch, k - 1)));
    assert(preorder_children(ch, k) == prev + last);
    if i == k - 1 {
        let m = choose|m: int| 0 <= m < last.len() && last[m] == p;
        assert((prev + last)[prev.len() + m] == p);
    } else {
        lemma_preorder_children_contains(ch, i, k - 1, p);
        let m = choose|m: int| 0 <= m < prev.len() && prev[m] == p;
        assert((prev + last)[m] == p);
    }
}

/// Rebuilding along `p` towards `x`, where `x` is the subtree at `p` rebuilt
/// along `q` towards `new`, is rebuilding along `p + q` towards `new`.
pub proof fn lemma_replaced_concat(t: Node, p: Seq<usize>, q: Seq<usize>, new: Node, x: Node, r: Node)
    requires
        replaced(t, p, x, r),
        is_path(t, p),
        replaced(subtree_at(t, p).unwrap(), q, new, x),
    ensures
        replaced(t, p + q, new, r),
    decreases p.len(),
{
    if p.len() == 0 {
        assert(p + q =~= q);
    } else {
        let pq = p + q;
        let i = p[0] as int;
        assert(pq[0] == p[0]);
        assert(pq.subrange(1, pq.len() as int) =~= p.subrange(1, p.len() as int) + q);
        lemma_replaced_concat(
            at(t.children@, i),
            p.subrange(1, p.len() as int),
            q,
            new,
            x,
            at(r.children@, i),
        );
    }
}

/// What a rebuild keeps and what it changes: the new subtree stands at the
/// path, and every path that neither leads to it nor runs through it reaches
/// the same subtree as before.
pub proof fn lemma_replace_keeps_off_path(t: Node, p: Seq<usize>, new: Node, r: Node, q: Seq<usize>)
    requires
        replaced(t, p, new, r),
    ensures
        subtree_at(r, p) == Some(new),
        !is_prefix(q, p) && !is_prefix(p, q) ==> subtree_at(r, q) == subtree_at(t, q),
    decreases p.len(),
{
    if p.len() > 0 {
        let i = p[0] as int;
        let p1 = p.subrange(1, p.len() as int);
        lemma_replace_keeps_off_path(at(t.children@, i), p1, new, at(r.children@, i), q.subrange(1, q.len() as int));
        if !is_prefix(q, p) && !is_prefix(p, q) {
            assert(q.len() > 0);
            if q[0] == p[0] {
                let q1 = q.subrange(1, q.len() as int);
                if is_prefix(q1, p1) {
                    assert forall|k: int| 0 <= k < q.len() implies q[k] == p[k] by {
                        if k > 0 {
                            assert(q[k] == q1[k - 1]);
                        }
                    }
                }
                if is_prefix(p1, q1) {
                    assert forall|k: int| 0 <= k < p.len() implies p[k] == q[k] by {
                        if k > 0 {
                            assert(p[k] == p1[k - 1]);
                        }
                    }
                }
            }
        }
    }
}

/// `a` is a prefix of `b`.
pub open spec fn is_prefix(a: Seq<usize>, b: Seq<usize>) -> bool {
    a.len() <= b.len() && forall|k: int| 0 <= k < a.len() ==> a[k] == b[k]
}

// ---------------------------------------------------------------------------
// Operations on nodes

impl Node {
    /// The node-kind tag.
    pub fn node_type(&self) -> (r: usize)
        ensures
            r == self.kind,
    {
        self.kind
    }

    /// Number of children.
    pub fn num_children(&self) -> (r: usize)
        ensures
            r == self.children@.len(),
    {
        self.children.len()
    }

    /// A duplicate of this node: the same kind, variant and payload, sharing
    /// the same subtrees.
    pub fn copy(&self) -> (r: Node)
        ensures
            same_shell(r, *self),
            r.children@ == self.children@,
    {
        let mut children: Vec<Arc<Node>> = Vec::new();
        let mut i: usize = 0;
        while i < self.children.len()
            invariant
                i <= self.children@.len(),
                children@ == self.children@.subrange(0, i as int),
            decreases self.children@.len() - i,
        {
            children.push(Arc::clone(&self.children[i]));
            i += 1;
        }
        proof {
            assert(children@ =~= self.children@);
        }
        Node { kind: self.kind, label: self.label, data: self.data, children }
    }

    /// A new node equal to this one but for the child at `position`, which is
    /// `new_child`; all other children are shared unchanged.
    pub fn replace_child(&self, position: usize, new_child: Arc<Node>) -> (r: Node)
        requires
            position < self.children@.len(),
        ensures
            replaced(*self, seq![position], *new_child, r),
    {
        let mut slot: Option<Arc<Node>> = Some(new_child);
        let mut children: Vec<Arc<Node>> = Vec::new();
        let mut i: usize = 0;
        while i < self.children.len()
            invariant
                i <= self.children@.len(),
                position < self.children@.len(),
                children@.len() == i,
                forall|j: int| 0 <= j < i && j != position ==> children@[j] == self.children@[j],
                i <= position ==> slot == Some(new_child),
                position < i ==> children@[position as int] == new_child,
            decreases self.children@.len() - i,
        {
            let c = clone_or_replace(&self.children[i], i, position, &mut slot);
            children.push(c);
            i += 1;
        }
        let r = Node { kind: self.kind, label: self.label, data: self.data, children };
        proof {
            let p = seq![position];
            assert(p.subrange(1, 1) =~= Seq::<usize>::empty());
            assert(r.children@[position as int] == new_child);
            assert(at(r.children@, position as int) == *new_child);
            assert(replaced(at(self.children@, position as int), p.subrange(1, 1), *new_child, at(r.children@, position as int)));
        }
        r
    }
}

/// Keep or replace one child while rebuilding a node.
///
/// The child at `index` is the one being replaced when `index == position`:
/// then the replacement is taken out of `new_child`, so it is used exactly
/// once. Otherwise the child is shared as it is.
pub fn clone_or_replace(
    child: &Arc<Node>,
    index: usize,
    position: usize,
    new_child: &mut Option<Arc<Node>>,
) -> (r: Arc<Node>)
    requires
        index == position ==> old(new_child).is_some(),
    ensures
        index == position ==> r == old(new_child).unwrap() && final(new_child).is_none(),
        index != position ==> r == *child && *final(new_child) == *old(new_child),
{
    if index == position {
        match new_child.take() {
            Some(c) => c,
            None => Arc::clone(child),
        }
    } else {
        Arc::clone(child)
    }
}

/// The depth of a tree: a leaf has depth 1.
pub fn depth(node: &Node) -> (r: usize)
    requires
        depth_spec(*node) <= usize::MAX,
    ensures
        r == depth_spec(*node),
    decreases node,
{
    let mut best: usize = 0;
    let mut i: usize = 0;
    while i < node.children.len()
        invariant
            i <= node.children@.len(),
            best == max_depth_of(node.children@, i as int),
            depth_spec(*node) <= usize::MAX,
            depth_spec(*node) == 1 + max_depth_of(node.children@, node.children@.len() as int),
        decreases node.children@.len() - i,
    {
        proof {
            lemma_max_depth_of(node.children@, node.children@.len() as int);
        }
        let d = depth(&node.children[i]);
        if d > best {
            best = d;
        }
        i += 1;
    }
    best + 1
}

/// Every node of the tree under `root`, each with its record, in pre-order
/// (the root first).
pub fn find_nodes_and_parents(root: &Arc<Node>) -> (r: Vec<Arc<NodeInTree>>)
    ensures
        forall|i: int| 0 <= i < r@.len() ==> valid_record(*#[trigger] r@[i]) && root_of(*r@[i]) == **root,
        paths_of(r@) == preorder(**root),
{
    let mut result: Vec<Arc<NodeInTree>> = Vec::new();
    let top = Arc::new(NodeInTree { node: Arc::clone(root), position: 0, root_path: None });
    result.push(Arc::clone(&top));
    proof {
        assert(paths_of(result@) =~= seq![Seq::<usize>::empty()]);
        assert(path_of(*top) =~= Seq::<usize>::empty());
    }
    find_nodes_and_parents_into(root, &top, &mut result);
    proof {
        let pc = preorder_children(root.children@, root.children@.len() as int);
        assert(paths_of(result@) =~= paths_of(result@.subrange(0, 1)) + paths_of(
            result@.subrange(1, result@.len() as int),
        ));
        assert(under(Seq::<usize>::empty(), pc) =~= pc) by {
            assert forall|k: int| 0 <= k < pc.len() implies Seq::<usize>::empty() + pc[k] == pc[k] by {
                assert(Seq::<usize>::empty() + pc[k] =~= pc[k]);
            }
        }
        assert(result@.subrange(0, 1) =~= seq![top]);
        assert(result@[0] == result@.subrange(0, 1)[0]);
        assert forall|i: int| 0 <= i < result@.len() implies valid_record(*#[trigger] result@[i])
            && root_of(*result@[i]) == **root by {
            if i == 0 {
                assert(result@[0] == top);
            }
        }
        assert(paths_of(seq![top]) =~= seq![Seq::<usize>::empty()]);
    }
    result
}

/// Appends a record for every node below `parent`, in pre-order.
fn find_nodes_and_parents_into(
    parent: &Arc<Node>,
    parent_root_path: &Arc<NodeInTree>,
    acc: &mut Vec<Arc<NodeInTree>>,
)
    requires
        valid_record(**parent_root_path),
        parent_root_path.node == *parent,
    ensures
        final(acc)@.len() >= old(acc)@.len(),
        final(acc)@.subrange(0, old(acc)@.len() as int) == old(acc)@,
        forall|i: int|
            old(acc)@.len() <= i < final(acc)@.len() ==> valid_record(*#[trigger] final(acc)@[i])
                && root_of(*final(acc)@[i]) == root_of(**parent_root_path),
        paths_of(final(acc)@.subrange(old(acc)@.len() as int, final(acc)@.len() as int)) == under(
            path_of(**parent_root_path),
            preorder_children(parent.children@, parent.children@.len() as int),
        ),
    decreases parent,
{
    let ghost start = acc@.len();
    let ghost pp = path_of(record_of(*parent_root_path));
    let mut i: usize = 0;
    while i < parent.children.len()
        invariant
            i <= parent.children@.len(),
            valid_record(**parent_root_path),
            parent_root_path.node == *parent,
            pp == path_of(**parent_root_path),
            acc@.len() >= start,
            acc@.subrange(0, start as int) == old(acc)@,
            start == old(acc)@.len(),
            forall|k: int|
                start <= k < acc@.len() ==> valid_record(*#[trigger] acc@[k]) && root_of(*acc@[k])
                    == root_of(**parent_root_path),
            paths_of(acc@.subrange(start as int, acc@.len() as int)) == under(
                pp,
                preorder_children(parent.children@, i as int),
            ),
        decreases parent.children@.len() - i,
    {
        let child = &parent.children[i];
        let rec = Arc::new(
            NodeInTree {
                node: Arc::clone(child),
                position: i,
                root_path: Some(Arc::clone(parent_root_path)),
            },
        );
        let ghost before = acc@;
        acc.push(Arc::clone(&rec));
        let ghost mid = acc@;
        find_nodes_and_parents_into(child, &rec, acc);
        proof {
            let c = at(parent.children@, i as int);
            let ch = parent.children@;
            assert(path_of(*rec) == pp.push(i));
            assert(root_of(*rec) == root_of(**parent_root_path));
            lemma_under_prefixed(pp, i, c);
            assert(preorder_children(ch, i + 1) == preorder_children(ch, i as int) + prefixed(
                i,
                preorder(c),
            ));
            assert(under(pp, preorder_children(ch, i + 1)) =~= under(pp, preorder_children(ch, i as int))
                + under(pp, prefixed(i, preorder(c))));
            assert(acc@.subrange(0, mid.len() as int) == mid);
            assert(mid =~= before.push(rec));
            assert forall|k: int| 0 <= k < mid.len() implies acc@[k] == mid[k] by {
                assert(acc@.subrange(0, mid.len() as int)[k] == acc@[k]);
            }
            assert(acc@.subrange(start as int, acc@.len() as int) =~= before.subrange(
                start as int,
                before.len() as int,
            ) + seq![rec] + acc@.subrange(mid.len() as int, acc@.len() as int)) by {
                let lhs = acc@.subrange(start as int, acc@.len() as int);
                let rhs = before.subrange(start as int, before.len() as int) + seq![rec]
                    + acc@.subrange(mid.len() as int, acc@.len() as int);
                assert(lhs.len() == rhs.len());
                assert forall|k: int| 0 <= k < lhs.len() implies lhs[k] == rhs[k] by {
                    let g = k + start;
                    if g < mid.len() {
                        assert(acc@.subrange(0, mid.len() as int)[g] == acc@[g]);
                        if g < before.len() {
                            assert(rhs[k] == before[g]);
                        } else {
                            assert(rhs[k] == rec);
                        }
                    } else {
                        assert(rhs[k] == acc@[g]);
                    }
                }
            }
            assert(paths_of(seq![rec]) =~= seq![pp.push(i)]);
            assert(paths_of(acc@.subrange(start as int, acc@.len() as int)) =~= paths_of(
                before.subrange(start as int, before.len() as int),
            ) + paths_of(seq![rec]) + paths_of(acc@.subrange(mid.len() as int, acc@.len() as int)));
            assert(acc@.subrange(0, start as int) =~= old(acc)@) by {
                assert(acc@.subrange(0, start as int) =~= mid.subrange(0, start as int));
                assert(mid.subrange(0, start as int) =~= before.subrange(0, start as int));
            }
            assert forall|k: int| start <= k < acc@.len() implies valid_record(*#[trigger] acc@[k])
                && root_of(*acc@[k]) == root_of(**parent_root_path) by {
                if k < mid.len() {
                    assert(acc@.subrange(0, mid.len() as int)[k] == acc@[k]);
                    assert(acc@[k] == mid[k]);
                    if k < before.len() {
                        assert(mid[k] == before[k]);
                    } else {
                        assert(mid[k] == rec);
                    }
                }
            }
        }
        i += 1;
    }
}

/// The depth of a record's node below the root (zero for the root).
///
/// A chain longer than the largest `usize` counts as that largest value.
pub fn depth_of(rec: &NodeInTree) -> (r: usize)
    ensures
        path_of(*rec).len() <= usize::MAX ==> r == path_of(*rec).len(),
        path_of(*rec).len() > usize::MAX ==> r == usize::MAX,
    decreases rec,
{
    match &rec.root_path {
        None => 0,
        Some(parent) => {
            let d = depth_of(parent);
            if d == usize::MAX {
                d
            } else {
                d + 1
            }
        },
    }
}

/// A copy of the whole tree of `nap` in which the node of `nap` is replaced by
/// `new_child`: only the nodes on the path to the root are rebuilt, every
/// other subtree is shared.
pub fn replace_to_root(nap: &Arc<NodeInTree>, new_child: Arc<Node>) -> (r: Arc<Node>)
    requires
        valid_record(**nap),
    ensures
        replaced(root_of(**nap), path_of(**nap), *new_child, *r),
{
    let mut slot: Option<Arc<Node>> = Some(new_child);
    do_replace_to_root(nap, &mut slot)
}

fn do_replace_to_root(nap: &Arc<NodeInTree>, new_child: &mut Option<Arc<Node>>) -> (r: Arc<Node>)
    requires
        valid_record(**nap),
        old(new_child).is_some(),
    ensures
        replaced(root_of(**nap), path_of(**nap), *old(new_child).unwrap(), *r),
    decreases nap,
{
    let ghost given = new_child.unwrap();
    let c = match new_child.take() {
        Some(c) => c,
        None => Arc::clone(&nap.node),
    };
    match &nap.root_path {
        None => c,
        Some(parent) => {
            let new_node = Arc::new(parent.node.replace_child(nap.position, c));
            let ghost nn = node_of(new_node);
            let mut next: Option<Arc<Node>> = Some(new_node);
            let r = do_replace_to_root(parent, &mut next);
            proof {
                let pr = parent_of(record_of(*nap));
                let pp = path_of(pr);
                lemma_record_subtree(pr);
                lemma_replaced_concat(root_of(pr), pp, seq![nap.position], node_of(given), nn, node_of(r));
                assert(pp + seq![nap.position] =~= pp.push(nap.position));
            }
            r
        },
    }
}

} // verus!
