//! Grammars, height-biased random generation of trees, and random
//! populations.
use crate::pick::{
    lemma_prefix_sum_positive, lemma_prefix_sum_push, lemma_prefix_sum_same, prefix_sum, total_weight,
    weighted_choice,
};
use crate::population::{rank_order, Population};
use crate::rng::uniform_below;
use crate::tree::{
    at, depth_spec, is_path, lemma_depth_law, lemma_path_head, node_of, replaced, subtree_at, Node,
};
use std::sync::Arc;
use vstd::prelude::*;

verus! {

/// Smallest weight a kind of node gets, so that a choice always exists.
pub const MIN_WEIGHT: i32 = 1;

/// Deepest level the weights are defined for: the step times the level
/// stays within `i32`.
pub const MAX_WEIGHT_LEVEL: i32 = 21_474_836;

/// Deepest level at which generation may still produce internal nodes: the
/// cut-off that makes every generation finish. At this level internal
/// variants get no weight, so only leaves are drawn.
pub const MAX_LEVEL: i32 = 1000;

/// Most variants a node kind may have.
pub const MAX_VARIANTS: usize = 1000;

/// One way to build a node of some kind: the kinds of its subtrees, in order,
/// and the bound of its payload (the payload is drawn below it; a bound of 0
/// means the node carries no payload and holds 0).
pub struct Variant {
    pub child_kinds: Vec<usize>,
    pub data_bound: u32,
}

/// The node kinds of a program representation: `kinds[k]` lists the variants
/// of the kind tagged `k`.
pub struct Grammar {
    pub kinds: Vec<Vec<Variant>>,
}

/// A variant is a leaf when it has no subtrees.
pub open spec fn is_leaf(v: Variant) -> bool {
    v.child_kinds@.len() == 0
}

/// Kind `k` of `kinds` has between one and `MAX_VARIANTS` variants, at least
/// one of them a leaf, and every subtree kind that its variants name exists.
pub open spec fn kind_ok(kinds: Seq<Vec<Variant>>, k: int) -> bool {
    &&& 0 < kinds[k]@.len() <= MAX_VARIANTS
    &&& exists|j: int| 0 <= j < kinds[k]@.len() && is_leaf(#[trigger] kinds[k]@[j])
    &&& forall|j: int, c: int|
        0 <= j < kinds[k]@.len() && 0 <= c < kinds[k]@[j].child_kinds@.len()
            ==> #[trigger] kinds[k]@[j].child_kinds@[c] < kinds.len()
}

impl Grammar {
    /// Every kind has between one and `MAX_VARIANTS` variants, at least one of
    /// them a leaf, and every subtree kind that a variant names exists.
    pub open spec fn wf(&self) -> bool {
        forall|k: int| 0 <= k < self.kinds@.len() ==> #[trigger] kind_ok(self.kinds@, k)
    }

    /// Whether the grammar is well formed (see `wf`).
    pub fn is_wf(&self) -> (r: bool)
        ensures
            r == self.wf(),
    {
        let n = self.kinds.len();
        let mut k: usize = 0;
        while k < n
            invariant
                k <= n,
                n == self.kinds@.len(),
                forall|x: int| 0 <= x < k ==> #[trigger] kind_ok(self.kinds@, x),
            decreases n - k,
        {
            let variants = &self.kinds[k];
            if variants.len() == 0 || variants.len() > MAX_VARIANTS {
                proof {
                    assert(!kind_ok(self.kinds@, k as int));
                }
                return false;
            }
            let mut has_leaf = false;
            let mut j: usize = 0;
            while j < variants.len()
                invariant
                    j <= variants@.len(),
                    variants == self.kinds@[k as int],
                    k < n,
                    n == self.kinds@.len(),
                    has_leaf <==> exists|y: int| 0 <= y < j && is_leaf(#[trigger] variants@[y]),
                    forall|y: int, c: int|
                        0 <= y < j && 0 <= c < variants@[y].child_kinds@.len()
                            ==> #[trigger] variants@[y].child_kinds@[c] < n,
                decreases variants@.len() - j,
            {
                let child_kinds = &variants[j].child_kinds;
                if child_kinds.len() == 0 {
                    has_leaf = true;
                }
                let mut c: usize = 0;
                while c < child_kinds.len()
                    invariant
                        c <= child_kinds@.len(),
                        child_kinds == variants@[j as int].child_kinds,
                        j < variants@.len(),
                        variants == self.kinds@[k as int],
                        k < n,
                        n == self.kinds@.len(),
                        forall|d: int| 0 <= d < c ==> #[trigger] child_kinds@[d] < n,
                    decreases child_kinds@.len() - c,
                {
                    if child_kinds[c] >= n {
                        proof {
                            assert(self.kinds@[k as int]@[j as int].child_kinds@[c as int] >= n);
                            assert(!kind_ok(self.kinds@, k as int));
                        }
                        return false;
                    }
                    c += 1;
                }
                j += 1;
            }
            if !has_leaf {
                proof {
                    assert(!kind_ok(self.kinds@, k as int));
                }
                return false;
            }
            k += 1;
        }
        true
    }

    /// `t` is a tree of kind `k` built by this grammar's rules all the way
    /// down.
    pub open spec fn conforms(&self, t: Node, k: int) -> bool
        decreases t,
    {
        &&& t.kind == k
        &&& 0 <= k < self.kinds@.len()
        &&& t.label < self.kinds@[k]@.len()
        &&& {
            let v = self.kinds@[k]@[t.label as int];
            &&& t.children@.len() == v.child_kinds@.len()
            &&& if v.data_bound == 0 {
                t.data == 0
            } else {
                t.data < v.data_bound
            }
            &&& forall|i: int|
                0 <= i < t.children@.len() ==> self.conforms(
                    #[trigger] at(t.children@, i),
                    v.child_kinds@[i] as int,
                )
        }
    }
}

/// Weights to use when deciding between internal and leaf nodes.
///
/// Made for a target height; every level down the tree shifts the weights
/// away from internal nodes and towards leaves.
#[derive(Clone, Copy)]
pub struct NodeWeights {
    pub current_level: i32,
    pub per_level: i32,
}

/// The weight of internal nodes at `level` with step `per_level`.
pub open spec fn internal_weight(per_level: int, level: int) -> int {
    if 100 - per_level * level > MIN_WEIGHT {
        100 - per_level * level
    } else {
        MIN_WEIGHT as int
    }
}

/// The weight of leaves at `level` with step `per_level`.
pub open spec fn leaf_weight(per_level: int, level: int) -> int {
    if per_level * level > MIN_WEIGHT {
        per_level * level
    } else {
        MIN_WEIGHT as int
    }
}

/// Weights made for a target height `h` between 2 and 101 strongly favour
/// internal nodes at the root (100 against 1) and favour leaves from level
/// `h - 1` on.
pub proof fn lemma_leaves_favoured(h: int, level: int)
    requires
        2 <= h <= 101,
        h - 1 <= level,
    ensures
        internal_weight(step_for(h), 0) == 100,
        leaf_weight(step_for(h), 0) == 1,
        leaf_weight(step_for(h), level) > internal_weight(step_for(h), level),
{
    let per = step_for(h);
    assert(per == 100int / (h - 1));
    assert(1 <= per && per * (h - 1) <= 100 && 100 < per * (h - 1) + (h - 1)) by (nonlinear_arith)
        requires
            per == 100int / (h - 1),
            2 <= h <= 101,
    ;
    assert(per * level >= per * (h - 1)) by (nonlinear_arith)
        requires
            per >= 1,
            level >= h - 1,
    ;
    assert(per * (h - 1) > 50) by (nonlinear_arith)
        requires
            per >= 1,
            100 < per * (h - 1) + (h - 1),
            2 <= h <= 101,
    ;
}

/// The weight step for a target height: 100 spread over the levels above
/// the last one.
pub open spec fn step_for(target_height: int) -> int {
    100int / (if target_height - 1 > 1 {
        target_height - 1
    } else {
        1
    })
}

impl NodeWeights {
    /// The level lies in `0..=MAX_WEIGHT_LEVEL` and the step in `0..=100`.
    pub open spec fn wf(&self) -> bool {
        0 <= self.current_level <= MAX_WEIGHT_LEVEL && 0 <= self.per_level <= 100
    }

    /// Weights at the root for trees of the given target height.
    pub fn fixed(target_height: i32) -> (r: NodeWeights)
        ensures
            r.wf(),
            r.current_level == 0,
            r.per_level == step_for(target_height as int),
    {
        let h: i64 = target_height as i64 - 1;
        let d: i64 = if h > 1 {
            h
        } else {
            1
        };
        NodeWeights { current_level: 0, per_level: (100 / d) as i32 }
    }

    /// Weights at the root for a target height drawn at random below
    /// `max_height`.
    pub fn randomized(max_height: i32, rng: &mut rand::rngs::StdRng) -> (r: NodeWeights)
        requires
            max_height > 1,
        ensures
            r.wf(),
            r.current_level == 0,
            exists|h: int| 1 <= h < max_height && r.per_level == step_for(h),
    {
        let draw = uniform_below(rng, (max_height - 1) as usize);
        NodeWeights::fixed(1 + draw as i32)
    }

    /// Weight of internal nodes at the current level, at least `MIN_WEIGHT`.
    pub fn internal(&self) -> (r: u32)
        requires
            self.wf(),
        ensures
            r == internal_weight(self.per_level as int, self.current_level as int),
            1 <= r <= 100,
    {
        proof {
            assert(0 <= self.per_level * self.current_level <= 100 * MAX_WEIGHT_LEVEL) by (nonlinear_arith)
                requires
                    self.wf(),
            ;
        }
        let w = 100 - self.per_level * self.current_level;
        if w > MIN_WEIGHT {
            w as u32
        } else {
            MIN_WEIGHT as u32
        }
    }

    /// Weight of leaves at the current level, at least `MIN_WEIGHT`.
    pub fn leaf(&self) -> (r: u32)
        requires
            self.wf(),
        ensures
            r == leaf_weight(self.per_level as int, self.current_level as int),
            1 <= r <= 100 * MAX_WEIGHT_LEVEL,
    {
        proof {
            assert(0 <= self.per_level * self.current_level <= 100 * MAX_WEIGHT_LEVEL) by (nonlinear_arith)
                requires
                    self.wf(),
            ;
        }
        let w = self.per_level * self.current_level;
        if w > MIN_WEIGHT {
            w as u32
        } else {
            MIN_WEIGHT as u32
        }
    }

    /// The weights one level further down.
    pub fn next_level(&self) -> (r: NodeWeights)
        requires
            self.wf(),
            self.current_level < MAX_WEIGHT_LEVEL,
        ensures
            r.wf(),
            r.current_level == self.current_level + 1,
            r.per_level == self.per_level,
            internal_weight(r.per_level as int, r.current_level as int) <= internal_weight(
                self.per_level as int,
                self.current_level as int,
            ),
            leaf_weight(r.per_level as int, r.current_level as int) >= leaf_weight(
                self.per_level as int,
                self.current_level as int,
            ),
    {
        proof {
            assert(self.per_level * (self.current_level + 1) >= self.per_level * self.current_level)
                by (nonlinear_arith)
                requires
                    self.per_level >= 0,
            ;
        }
        NodeWeights { current_level: self.current_level + 1, per_level: self.per_level }
    }

    /// A random subtree of kind `kind`, one level further down.
    ///
    /// Generation stops growing trees at `MAX_LEVEL`: this level is not
    /// a limit of the weights themselves (they are defined down to
    /// `MAX_WEIGHT_LEVEL`) but the cut-off that makes every generation
    /// finish, so the current level must lie above it.
    pub fn gen_child(&self, grammar: &Grammar, kind: usize, rng: &mut rand::rngs::StdRng) -> (r: Arc<Node>)
        requires
            self.wf(),
            self.current_level < MAX_LEVEL,
            grammar.wf(),
            kind < grammar.kinds@.len(),
        ensures
            grammar.conforms(*r, kind as int),
            depth_spec(*r) <= MAX_LEVEL - self.current_level,
        decreases MAX_LEVEL - self.current_level, 0int,
    {
        Arc::new(random_tree(grammar, kind, self.next_level(), rng))
    }
}

/// The weight of variant `v` for a draw biased by `weights`: the leaf weight
/// for a leaf, the internal weight otherwise, and 0 for an internal variant
/// once `MAX_LEVEL` is reached.
pub open spec fn variant_weight(v: Variant, weights: NodeWeights) -> int {
    if is_leaf(v) {
        leaf_weight(weights.per_level as int, weights.current_level as int)
    } else if weights.current_level < MAX_LEVEL {
        internal_weight(weights.per_level as int, weights.current_level as int)
    } else {
        0
    }
}

/// The weights with which the variants of kind `kind` are drawn.
pub fn variant_weights(grammar: &Grammar, kind: usize, weights: NodeWeights) -> (r: Vec<u32>)
    requires
        weights.wf(),
        weights.current_level <= MAX_LEVEL,
        grammar.wf(),
        kind < grammar.kinds@.len(),
    ensures
        r@.len() == grammar.kinds@[kind as int]@.len(),
        forall|j: int| 0 <= j < r@.len() ==> #[trigger] r@[j] == variant_weight(grammar.kinds@[kind as int]@[j], weights),
        0 < total_weight(r@) <= u32::MAX,
{
    let variants = &grammar.kinds[kind];
    let leaf_w = weights.leaf();
    proof {
        assert(kind_ok(grammar.kinds@, kind as int));
        assert(leaf_weight(weights.per_level as int, weights.current_level as int) <= 100 * MAX_LEVEL)
            by (nonlinear_arith)
            requires
                0 <= weights.per_level <= 100,
                0 <= weights.current_level <= MAX_LEVEL,
        ;
    }
    let internal_w = if weights.current_level < MAX_LEVEL {
        weights.internal()
    } else {
        0
    };
    let mut ws: Vec<u32> = Vec::new();
    let mut i: usize = 0;
    while i < variants.len()
        invariant
            i <= variants@.len(),
            kind < grammar.kinds@.len(),
            variants == grammar.kinds@[kind as int],
            0 < variants@.len() <= MAX_VARIANTS,
            ws@.len() == i,
            leaf_w == leaf_weight(weights.per_level as int, weights.current_level as int),
            1 <= leaf_w <= 100 * MAX_LEVEL,
            weights.current_level < MAX_LEVEL ==> internal_w == internal_weight(weights.per_level as int, weights.current_level as int),
            weights.current_level >= MAX_LEVEL ==> internal_w == 0,
            internal_w <= 100,
            forall|j: int| 0 <= j < i ==> #[trigger] ws@[j] == variant_weight(variants@[j], weights),
            prefix_sum(ws@, i as int) <= i * 100 * MAX_LEVEL,
        decreases variants@.len() - i,
    {
        let w = if variants[i].child_kinds.len() == 0 {
            leaf_w
        } else {
            internal_w
        };
        let ghost before = ws@;
        ws.push(w);
        proof {
            lemma_prefix_sum_same(before, ws@, i as int);
            lemma_prefix_sum_push(ws@, i as int);
        }
        i += 1;
    }
    proof {
        assert(grammar.wf());
        assert(exists|j: int| 0 <= j < variants@.len() && is_leaf(#[trigger] variants@[j]));
        let j = choose|j: int| 0 <= j < variants@.len() && is_leaf(#[trigger] variants@[j]);
        assert(ws@[j] > 0);
        lemma_prefix_sum_positive(ws@, j);
    }
    ws
}

/// A random tree of kind `kind`, biased by `weights`: its variant is drawn
/// by `variant_weights`, its subtrees are generated one level further down,
/// and its payload is drawn below its bound.
///
/// `MAX_LEVEL` is the generation cut-off that makes every call finish: at
/// that level internal variants get weight 0 instead of the floor of 1, so
/// only leaves are drawn, and no tree grows deeper. Weights made for target
/// heights of practical size reach it with vanishing probability.
pub fn random_tree(grammar: &Grammar, kind: usize, weights: NodeWeights, rng: &mut rand::rngs::StdRng) -> (r: Node)
    requires
        weights.wf(),
        weights.current_level <= MAX_LEVEL,
        grammar.wf(),
        kind < grammar.kinds@.len(),
    ensures
        grammar.conforms(r, kind as int),
        variant_weight(grammar.kinds@[kind as int]@[r.label as int], weights) > 0,
        depth_spec(r) <= MAX_LEVEL - weights.current_level + 1,
    decreases MAX_LEVEL - weights.current_level, 1int,
{
    let variants = &grammar.kinds[kind];
    let ws = variant_weights(grammar, kind, weights);
    let label = weighted_choice(rng, &ws);
    let variant = &variants[label];
    let mut children: Vec<Arc<Node>> = Vec::new();
    let mut c: usize = 0;
    while c < variant.child_kinds.len()
        invariant
            c <= variant.child_kinds@.len(),
            variant == grammar.kinds@[kind as int]@[label as int],
            label < grammar.kinds@[kind as int]@.len(),
            grammar.wf(),
            weights.wf(),
            kind < grammar.kinds@.len(),
            variant.child_kinds@.len() > 0 ==> weights.current_level < MAX_LEVEL,
            children@.len() == c,
            forall|j: int| 0 <= j < c ==> grammar.conforms(
                #[trigger] at(children@, j),
                variant.child_kinds@[j] as int,
            ),
            forall|j: int| 0 <= j < c ==> depth_spec(#[trigger] at(children@, j)) <= MAX_LEVEL
                - weights.current_level,
        decreases variant.child_kinds@.len() - c,
    {
        proof {
            assert(kind_ok(grammar.kinds@, kind as int));
            assert(variant.child_kinds@[c as int] < grammar.kinds@.len());
        }
        let child_kind = variant.child_kinds[c];
        let child = weights.gen_child(grammar, child_kind, rng);
        let ghost before = children@;
        let ghost cn = node_of(child);
        children.push(child);
        proof {
            assert(children@[c as int] == child);
            assert(at(children@, c as int) == cn);
            assert(grammar.conforms(cn, child_kind as int));
            assert forall|j: int| 0 <= j < c + 1 implies grammar.conforms(
                #[trigger] at(children@, j),
                variant.child_kinds@[j] as int,
            ) && depth_spec(at(children@, j)) <= MAX_LEVEL - weights.current_level by {
                if j < c {
                    assert(children@[j] == before[j]);
                    assert(at(children@, j) == at(before, j));
                }
            }
        }
        c += 1;
    }
    let data: u32 = if variant.data_bound == 0 {
        0
    } else {
        uniform_below(rng, variant.data_bound as usize) as u32
    };
    let r = Node { kind, label, data, children };
    proof {
        lemma_depth_law(r);
        if r.children@.len() > 0 {
            let i = choose|i: int|
                0 <= i < r.children@.len() && depth_spec(r) == depth_spec(*r.children@[i]) + 1;
            assert(depth_spec(at(r.children@, i)) <= MAX_LEVEL - weights.current_level);
        }
    }
    r
}

/// Every subtree of a conforming tree conforms, with its own kind.
pub proof fn lemma_subtree_conforms(g: Grammar, t: Node, k: int, p: Seq<usize>)
    requires
        g.conforms(t, k),
        is_path(t, p),
    ensures
        g.conforms(subtree_at(t, p).unwrap(), subtree_at(t, p).unwrap().kind as int),
    decreases p.len(),
{
    if p.len() > 0 {
        lemma_path_head(t, p);
        let i = p[0] as int;
        let v = g.kinds@[k]@[t.label as int];
        assert(g.conforms(at(t.children@, i), v.child_kinds@[i] as int));
        lemma_subtree_conforms(g, at(t.children@, i), v.child_kinds@[i] as int, p.subrange(1, p.len() as int));
    }
}

/// Replacing a subtree of a conforming tree by a conforming tree of the same
/// kind gives a conforming tree.
pub proof fn lemma_replaced_conforms(g: Grammar, t: Node, k: int, p: Seq<usize>, new: Node, r: Node)
    requires
        g.conforms(t, k),
        is_path(t, p),
        g.conforms(new, subtree_at(t, p).unwrap().kind as int),
        replaced(t, p, new, r),
    ensures
        g.conforms(r, k),
    decreases p.len(),
{
    if p.len() == 0 {
    } else {
        lemma_path_head(t, p);
        let i = p[0] as int;
        let v = g.kinds@[k]@[t.label as int];
        assert(g.conforms(at(t.children@, i), v.child_kinds@[i] as int));
        lemma_replaced_conforms(
            g,
            at(t.children@, i),
            v.child_kinds@[i] as int,
            p.subrange(1, p.len() as int),
            new,
            at(r.children@, i),
        );
        assert forall|j: int| 0 <= j < r.children@.len() implies g.conforms(
            #[trigger] at(r.children@, j),
            v.child_kinds@[j] as int,
        ) by {
            if j != i {
                assert(r.children@[j] == t.children@[j]);
                assert(g.conforms(at(t.children@, j), v.child_kinds@[j] as int));
            }
        }
    }
}

/// A random population of `n` trees of kind `root_kind`, generation 0: the
/// target heights of the trees rise evenly from 1 to about `max_depth`
/// along the population.
pub fn random_population<F>(
    n: usize,
    max_depth: usize,
    grammar: &Grammar,
    root_kind: usize,
    rng: &mut rand::rngs::StdRng,
) -> (r: Population<F>)
    requires
        grammar.wf(),
        root_kind < grammar.kinds@.len(),
        n > 0 ==> 0 < max_depth <= n,
        n < i32::MAX,
    ensures
        r.population@.len() == n,
        r.generation == 0,
        r.scores@.len() == 0,
        r.ranks@.len() == 0,
        forall|i: int| 0 <= i < n ==> grammar.conforms(*#[trigger] r.population@[i], root_kind as int),
{
    let mut ret: Population<F> = Population::new(n, 0);
    fill_random(&mut ret, n, max_depth, grammar, root_kind, rng);
    ret
}

/// Adds `count` random trees of kind `root_kind` whose target heights rise
/// evenly from 1 to about `max_depth`.
fn fill_random<F>(
    pop: &mut Population<F>,
    count: usize,
    max_depth: usize,
    grammar: &Grammar,
    root_kind: usize,
    rng: &mut rand::rngs::StdRng,
)
    requires
        grammar.wf(),
        root_kind < grammar.kinds@.len(),
        count > 0 ==> 0 < max_depth <= count,
        count < i32::MAX,
    ensures
        final(pop).population@.len() == old(pop).population@.len() + count,
        final(pop).population@.subrange(0, old(pop).population@.len() as int) == old(pop).population@,
        final(pop).generation == old(pop).generation,
        final(pop).scores@ == old(pop).scores@,
        final(pop).ranks@ == old(pop).ranks@,
        forall|i: int|
            old(pop).population@.len() <= i < final(pop).population@.len() ==> grammar.conforms(
                *#[trigger] final(pop).population@[i],
                root_kind as int,
            ),
{
    if count == 0 {
        proof {
            assert(pop.population@.subrange(0, pop.population@.len() as int) =~= pop.population@);
        }
        return;
    }
    let step = count / max_depth;
    proof {
        assert(step > 0) by (nonlinear_arith)
            requires
                0 < max_depth <= count,
                step == count / max_depth,
        ;
    }
    let ghost start = pop.population@;
    let mut i: usize = 0;
    while i < count
        invariant
            i <= count,
            step > 0,
            count < i32::MAX,
            grammar.wf(),
            root_kind < grammar.kinds@.len(),
            pop.population@.len() == start.len() + i,
            pop.population@.subrange(0, start.len() as int) == start,
            pop.generation == old(pop).generation,
            pop.scores@ == old(pop).scores@,
            pop.ranks@ == old(pop).ranks@,
            start == old(pop).population@,
            forall|j: int|
                start.len() <= j < pop.population@.len() ==> grammar.conforms(
                    *#[trigger] pop.population@[j],
                    root_kind as int,
                ),
        decreases count - i,
    {
        let height = 1 + i / step;
        let tree = random_tree(grammar, root_kind, NodeWeights::fixed(height as i32), rng);
        let ghost before = pop.population@;
        pop.add(Arc::new(tree));
        proof {
            assert forall|j: int| 0 <= j < before.len() implies pop.population@[j] == before[j] by {}
            assert(pop.population@.subrange(0, start.len() as int) =~= before.subrange(0, start.len() as int));
        }
        i += 1;
    }
}

/// The next generation made of the best `keep` programs of `pop` (worst to
/// best among them) followed by random trees of kind `root_kind` up to the
/// size of `pop`, their target heights rising evenly from 1 to about
/// `max_depth`.
pub fn retain_best<F>(
    keep: usize,
    pop: Population<F>,
    max_depth: usize,
    grammar: &Grammar,
    root_kind: usize,
    rng: &mut rand::rngs::StdRng,
) -> (r: Population<F>)
    requires
        pop.scored(),
        keep <= pop.population@.len(),
        pop.population@.len() - keep > 0 ==> 0 < max_depth <= pop.population@.len() - keep,
        pop.population@.len() - keep < i32::MAX,
        pop.generation < u32::MAX,
        grammar.wf(),
        root_kind < grammar.kinds@.len(),
    ensures
        r.generation == pop.generation + 1,
        r.population@.len() == pop.population@.len(),
        r.scores@.len() == 0,
        r.ranks@.len() == 0,
        exists|order: Seq<usize>|
            #[trigger] rank_order(pop.ranks@, order) && forall|k: int|
                0 <= k < keep ==> r.population@[k] == pop.population@[order[pop.population@.len() - keep + k] as int],
        forall|i: int|
            keep <= i < r.population@.len() ==> grammar.conforms(*#[trigger] r.population@[i], root_kind as int),
{
    let filler = pop.n() - keep;
    let mut ret: Population<F> = Population::new(keep, 0);
    ret.generation = pop.generation + 1;
    let best = pop.best_n(keep);
    let mut k: usize = 0;
    while k < best.len()
        invariant
            k <= best@.len(),
            best@.len() == keep,
            ret.population@ == best@.subrange(0, k as int),
            ret.generation == pop.generation + 1,
            ret.scores@.len() == 0,
            ret.ranks@.len() == 0,
        decreases best@.len() - k,
    {
        ret.add(Arc::clone(&best[k]));
        proof {
            assert(best@.subrange(0, k + 1) =~= best@.subrange(0, k as int).push(best@[k as int]));
        }
        k += 1;
    }
    let ghost kept = ret.population@;
    fill_random(&mut ret, filler, max_depth, grammar, root_kind, rng);
    proof {
        assert(kept =~= best@);
        assert forall|j: int| 0 <= j < keep implies ret.population@[j] == best@[j] by {
            assert(ret.population@.subrange(0, keep as int)[j] == ret.population@[j]);
        }
        let order = choose|order: Seq<usize>|
            #[trigger] rank_order(pop.ranks@, order) && best@.len() == keep && forall|k: int|
                0 <= k < keep ==> best@[k] == pop.population@[order[pop.population@.len() - keep + k] as int];
        assert(rank_order(pop.ranks@, order));
        assert forall|k: int| 0 <= k < keep implies ret.population@[k] == pop.population@[order[pop.population@.len()
            - keep + k] as int] by {
            assert(ret.population@[k] == best@[k]);
        }
    }
    ret
}

} // verus!
