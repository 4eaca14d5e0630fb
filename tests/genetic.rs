use moonlander_gp::crossover::{crossover_at, crossover_tree, shares_kind};
use moonlander_gp::evolve::{evolve, operator_weights, Weights};
use moonlander_gp::fitness::{merge_plan, rank_of_total, same_name, NAN_RANK};
use moonlander_gp::mutate::{mutate_tree, mutate_tree_with, remaining_height};
use moonlander_gp::pick::{pick_band, weighted_choice};
use moonlander_gp::population::Population;
use moonlander_gp::random_pop::{
    random_population, random_tree, retain_best, variant_weights, Grammar, NodeWeights, Variant,
};
use moonlander_gp::select::{tournament_selection, tournament_winner};
use moonlander_gp::tree::{depth, find_nodes_and_parents, Node};
use rand::rngs::StdRng;
use rand::{RngCore, SeedableRng};
use std::sync::Arc;

/// A list: one node kind (tag 0) with `Cons(next)` and `Nil`.
fn list_grammar() -> Grammar {
    Grammar {
        kinds: vec![vec![
            Variant { child_kinds: vec![0], data_bound: 0 },
            Variant { child_kinds: vec![], data_bound: 0 },
        ]],
    }
}

/// Statements (tag 0: two-way branch or a command) over commands (tag 1:
/// a leaf with one of four values).
fn statement_grammar() -> Grammar {
    Grammar {
        kinds: vec![
            vec![
                Variant { child_kinds: vec![0, 0], data_bound: 0 },
                Variant { child_kinds: vec![1], data_bound: 0 },
                Variant { child_kinds: vec![], data_bound: 0 },
            ],
            vec![Variant { child_kinds: vec![], data_bound: 4 }],
        ],
    }
}

fn conforms(g: &Grammar, t: &Node, kind: usize) -> bool {
    if t.kind != kind || kind >= g.kinds.len() || t.label >= g.kinds[kind].len() {
        return false;
    }
    let v = &g.kinds[kind][t.label];
    let data_ok = if v.data_bound == 0 { t.data == 0 } else { t.data < v.data_bound };
    data_ok
        && t.children.len() == v.child_kinds.len()
        && t.children.iter().zip(v.child_kinds.iter()).all(|(c, k)| conforms(g, c, *k))
}

fn leaf(kind: usize, n: u32) -> Arc<Node> {
    Arc::new(Node { kind, label: 0, data: n, children: vec![] })
}

fn scored(programs: Vec<Arc<Node>>, totals: Vec<f32>) -> Population<f32> {
    let mut pop: Population<f32> = Population::new(programs.len(), 0);
    for p in programs {
        pop.add(p);
    }
    let bits: Vec<u32> = totals.iter().map(|t| t.to_bits()).collect();
    pop.set_scores(totals, bits);
    pop
}

#[test]
fn test_node_heights_on_generation() {
    let target_height = 8;
    let n = 1000;
    let mut rng = StdRng::seed_from_u64(1);
    let grammar = list_grammar();

    let weights = NodeWeights::fixed(target_height);
    let programs: Vec<Node> = (0..n).map(|_| random_tree(&grammar, 0, weights, &mut rng)).collect();
    let avg_height = programs.iter().map(|p| depth(p) as f32).sum::<f32>() / n as f32;

    assert!(avg_height <= 0.6 * target_height as f32);
}

#[test]
fn test_node_heights_during_mutation() {
    let n = 1000;
    let target_height = 8;
    let mut rng = StdRng::seed_from_u64(2);
    let grammar = list_grammar();
    let weights = NodeWeights::fixed(target_height);

    let mut program = Arc::new(random_tree(&grammar, 0, weights, &mut rng));
    for _ in 0..n {
        program = mutate_tree(&program, &grammar, target_height, &mut rng);
        let depth = depth(&program);
        println!("Depth: {}", depth);
        assert!((depth as f32) < target_height as f32 * 1.5);
    }
}

#[test]
fn node_weights_shift_towards_leaves() {
    let w = NodeWeights::fixed(8);
    assert_eq!(0, w.current_level);
    assert_eq!(14, w.per_level);
    assert_eq!(100, w.internal());
    assert_eq!(1, w.leaf());
    let w3 = w.next_level().next_level().next_level();
    assert_eq!(3, w3.current_level);
    assert_eq!(58, w3.internal());
    assert_eq!(42, w3.leaf());
    let mut deep = w;
    for _ in 0..8 {
        deep = deep.next_level();
    }
    assert_eq!(1, deep.internal());
    assert_eq!(112, deep.leaf());
    assert_eq!(100, NodeWeights::fixed(1).per_level);
    assert_eq!(100, NodeWeights::fixed(-5).per_level);
    assert_eq!(100, NodeWeights::fixed(i32::MIN).per_level);
    assert_eq!(0, NodeWeights::fixed(500).per_level);
}

#[test]
fn randomized_weights_use_a_height_below_the_bound() {
    let mut rng = StdRng::seed_from_u64(3);
    for _ in 0..100 {
        let w = NodeWeights::randomized(5, &mut rng);
        assert_eq!(0, w.current_level);
        assert!([100, 50, 33].contains(&w.per_level));
    }
}

#[test]
fn random_trees_follow_the_grammar() {
    let mut rng = StdRng::seed_from_u64(4);
    let grammar = statement_grammar();
    for h in 1..10 {
        let t = random_tree(&grammar, 0, NodeWeights::fixed(h), &mut rng);
        assert!(conforms(&grammar, &t, 0));
        let c = NodeWeights::fixed(h).gen_child(&grammar, 1, &mut rng);
        assert!(conforms(&grammar, &c, 1));
    }
}

#[test]
fn random_payloads_vary() {
    let mut rng = StdRng::seed_from_u64(5);
    let grammar = statement_grammar();
    let values: std::collections::BTreeSet<u32> =
        (0..200).map(|_| random_tree(&grammar, 1, NodeWeights::fixed(3), &mut rng).data).collect();
    assert_eq!(4, values.len());
}

#[test]
fn mutation_keeps_grammar() {
    let mut rng = StdRng::seed_from_u64(6);
    let grammar = statement_grammar();
    let mut program = Arc::new(random_tree(&grammar, 0, NodeWeights::fixed(5), &mut rng));
    for _ in 0..300 {
        program = mutate_tree(&program, &grammar, 5, &mut rng);
        assert!(conforms(&grammar, &program, 0));
    }
}

#[test]
fn mutate_node_regenerates_same_kind() {
    let mut rng = StdRng::seed_from_u64(7);
    let grammar = statement_grammar();
    let node = leaf(1, 2);
    for _ in 0..20 {
        let m = node.mutate(3, &grammar, &mut rng);
        assert_eq!(1, m.kind);
        assert!(m.data < 4);
    }
}

#[test]
fn remaining_height_values() {
    assert_eq!(5, remaining_height(8, 3));
    assert_eq!(-2, remaining_height(8, 10));
    assert_eq!(i32::MIN, remaining_height(i32::MIN, 1));
}

#[test]
fn crossover_of_tree_with_itself_at_roots_is_no_op() {
    let grammar = statement_grammar();
    let mut rng = StdRng::seed_from_u64(8);
    let a = Arc::new(random_tree(&grammar, 0, NodeWeights::fixed(4), &mut rng));
    let naps = find_nodes_and_parents(&a);
    let (c1, c2) = crossover_at(&naps[0], &naps[0]);
    assert_eq!(*a, *c1);
    assert_eq!(*a, *c2);
}

#[test]
fn crossover_swaps_matching_subtrees() {
    let a = Arc::new(Node {
        kind: 0,
        label: 0,
        data: 0,
        children: vec![leaf(1, 1), leaf(0, 2)],
    });
    let b = Arc::new(Node { kind: 0, label: 0, data: 7, children: vec![leaf(1, 3), leaf(0, 4)] });
    let n1 = find_nodes_and_parents(&a);
    let n2 = find_nodes_and_parents(&b);
    let (c1, c2) = crossover_at(&n1[1], &n2[1]);
    assert_eq!(3, c1.children[0].data);
    assert_eq!(1, c2.children[0].data);
    assert!(Arc::ptr_eq(&c1.children[1], &a.children[1]));
    assert!(Arc::ptr_eq(&c2.children[1], &b.children[1]));
    assert_eq!(0, c1.data);
    assert_eq!(7, c2.data);
}

#[test]
fn crossover_tree_keeps_kinds_and_grammar() {
    let grammar = statement_grammar();
    let mut rng = StdRng::seed_from_u64(9);
    for _ in 0..100 {
        let a = Arc::new(random_tree(&grammar, 0, NodeWeights::fixed(4), &mut rng));
        let b = Arc::new(random_tree(&grammar, 0, NodeWeights::fixed(4), &mut rng));
        assert!(shares_kind(&a, &b));
        let (c1, c2) = crossover_tree(&a, &b, &mut rng);
        assert!(conforms(&grammar, &c1, 0));
        assert!(conforms(&grammar, &c2, 0));
        let size = |t: &Arc<Node>| find_nodes_and_parents(t).len();
        assert_eq!(size(&a) + size(&b), size(&c1) + size(&c2));
    }
}

#[test]
fn trees_without_shared_kind_are_detected() {
    let a = leaf(0, 1);
    let b = leaf(1, 1);
    assert!(!shares_kind(&a, &b));
    let c = Arc::new(Node { kind: 0, label: 1, data: 0, children: vec![leaf(1, 2)] });
    assert!(shares_kind(&c, &b));
    assert!(shares_kind(&b, &c));
    assert!(shares_kind(&a, &c));
}

#[test]
fn crossover_of_leaves_swaps_them() {
    let mut rng = StdRng::seed_from_u64(11);
    let a = leaf(0, 1);
    let b = leaf(0, 2);
    let (c1, c2) = crossover_tree(&a, &b, &mut rng);
    assert!(Arc::ptr_eq(&c1, &b));
    assert!(Arc::ptr_eq(&c2, &a));
}

#[test]
fn nan_ranks_lowest() {
    let nan = rank_of_total(f32::NAN.to_bits());
    assert_eq!(NAN_RANK, nan);
    assert_eq!(nan, rank_of_total((-f32::NAN).to_bits()));
    for x in [f32::NEG_INFINITY, -1e30, -2.0, -0.0, 0.0, 1e-30, 2.0, 4.0, f32::INFINITY] {
        assert!(nan < rank_of_total(x.to_bits()));
    }
    assert_eq!(rank_of_total(0.0f32.to_bits()), rank_of_total((-0.0f32).to_bits()));
    let ordered = [f32::NEG_INFINITY, -3.5, -1.0, -1e-20, 0.0, 1e-20, 1.0, 3.5, f32::INFINITY];
    for w in ordered.windows(2) {
        assert!(rank_of_total(w[0].to_bits()) < rank_of_total(w[1].to_bits()));
    }
}

#[test]
fn best_of_totals_with_nan() {
    let pop = scored(vec![leaf(0, 0), leaf(0, 1), leaf(0, 2)], vec![2.0, 4.0, f32::NAN]);
    assert_eq!(1, pop.champion_index());
    let champion = pop.champion();
    assert_eq!(4.0, *champion.fitness);
    assert_eq!(1, champion.program.data);
    assert_eq!(0, champion.generation);
}

#[test]
fn champion_takes_last_of_equals() {
    let pop = scored(vec![leaf(0, 0), leaf(0, 1), leaf(0, 2)], vec![5.0, 5.0, 1.0]);
    assert_eq!(1, pop.champion_index());
}

#[test]
fn best_n_in_stable_rank_order() {
    let programs: Vec<Arc<Node>> = (0..5).map(|i| leaf(0, i)).collect();
    let pop = scored(programs, vec![3.0, f32::NAN, 7.0, 3.0, -1.0]);
    assert_eq!(vec![1, 4, 0, 3, 2], pop.rank_order());
    let best: Vec<u32> = pop.best_n(3).iter().map(|p| p.data).collect();
    assert_eq!(vec![0, 3, 2], best);
    assert!(pop.best_n(0).is_empty());
}

#[test]
fn score_aligns_results_with_programs() {
    let programs: Vec<Arc<Node>> = (0..6).map(|i| leaf(0, i)).collect();
    let mut pop: Population<u32> = Population::new(6, 3);
    for p in programs {
        pop.add(p);
    }
    let mut rng = StdRng::seed_from_u64(24);
    pop.score(|p: &Arc<Node>, _r: &mut StdRng| (p.data * 10, (p.data as f32).to_bits()), &mut rng);
    assert_eq!(pop.n(), pop.scores.len());
    assert_eq!(pop.n(), pop.ranks.len());
    for i in 0..pop.n() {
        assert_eq!(pop.population[i].data * 10, pop.scores[i]);
        assert_eq!(rank_of_total((i as f32).to_bits()), pop.ranks[i]);
    }
    assert_eq!(5, pop.champion_index());
    assert_eq!(3, pop.generation);
}

#[test]
fn tournament_returns_member() {
    let mut rng = StdRng::seed_from_u64(12);
    let pop = scored(vec![leaf(0, 0), leaf(0, 1), leaf(0, 2), leaf(0, 3), leaf(0, 4)], vec![1.0, 2.0, 3.0, 4.0, 5.0]);
    for size in 1..10 {
        for _ in 0..50 {
            assert!(tournament_selection(size, &pop, &mut rng) < 5);
        }
    }
    let single = scored(vec![leaf(0, 0)], vec![f32::NAN]);
    assert_eq!(0, tournament_selection(3, &single, &mut rng));
}

#[test]
fn large_tournament_finds_best() {
    let mut rng = StdRng::seed_from_u64(13);
    let pop = scored(vec![leaf(0, 0), leaf(0, 1), leaf(0, 2)], vec![1.0, 9.0, 3.0]);
    assert_eq!(1, tournament_selection(200, &pop, &mut rng));
}

#[test]
fn tournament_winner_takes_best_last_of_equals() {
    let ranks = vec![5, 9, 9, 1];
    assert_eq!(2, tournament_winner(&ranks, &vec![3, 1, 0, 2, 3]));
    assert_eq!(0, tournament_winner(&ranks, &vec![3, 0, 3]));
    assert_eq!(1, tournament_winner(&ranks, &vec![2, 1]));
    assert_eq!(3, tournament_winner(&ranks, &vec![3]));
}

#[test]
fn weighted_bands() {
    let w = vec![10, 0, 5];
    assert_eq!(0, pick_band(&w, 0));
    assert_eq!(0, pick_band(&w, 9));
    assert_eq!(2, pick_band(&w, 10));
    assert_eq!(2, pick_band(&w, 14));
    let mut rng = StdRng::seed_from_u64(14);
    let mut counts = [0usize; 3];
    for _ in 0..3000 {
        counts[weighted_choice(&mut rng, &w)] += 1;
    }
    assert_eq!(0, counts[1]);
    assert!(counts[0] > counts[2]);
}

#[test]
fn operator_shares_and_heights() {
    let weights = Weights { reproduce: 1, mutate: 2, crossover: 3, tree_height: 5 };
    assert_eq!(vec![1, 2, 3], operator_weights(&weights, 2));
    assert_eq!(vec![1, 2, 0], operator_weights(&weights, 1));
}

fn score_by_size(pop: &mut Population<f32>) {
    let mut rng = StdRng::seed_from_u64(25);
    pop.score(
        |p: &Arc<Node>, _r: &mut StdRng| {
            let s = find_nodes_and_parents(p).len() as f32;
            (s, s.to_bits())
        },
        &mut rng,
    );
}

#[test]
fn score_gives_each_evaluation_its_own_generator() {
    let programs: Vec<Arc<Node>> = (0..8).map(|i| leaf(0, i)).collect();
    let mut pop: Population<u32> = Population::new(8, 0);
    for p in programs {
        pop.add(p);
    }
    let mut rng = StdRng::seed_from_u64(26);
    pop.score(|_p: &Arc<Node>, r: &mut StdRng| { let x = r.next_u32(); (x, 0f32.to_bits()) }, &mut rng);
    let distinct: std::collections::BTreeSet<u32> = pop.scores.iter().cloned().collect();
    assert_eq!(8, distinct.len());
}

#[test]
fn evolve_keeps_size_within_one() {
    let mut rng = StdRng::seed_from_u64(15);
    let grammar = statement_grammar();
    for &size in &[1usize, 2, 7, 20] {
        let mut pop: Population<f32> = random_population(size, 1, &grammar, 0, &mut rng);
        let weights = Weights { reproduce: 10, mutate: 20, crossover: 70, tree_height: 6 };
        for generation in 1..15u32 {
            score_by_size(&mut pop);
            let before = pop.n();
            pop = evolve(pop, &weights, &grammar, &mut rng, |p: &Population<f32>, r: &mut StdRng| {
                tournament_selection(3, p, r)
            });
            assert!(pop.n() >= before && pop.n() <= before + 1);
            assert_eq!(generation, pop.generation);
            assert!(pop.population.iter().all(|t| conforms(&grammar, t, 0)));
        }
    }
}

#[test]
fn evolve_with_crossover_only_stays_within_one() {
    let mut rng = StdRng::seed_from_u64(19);
    let grammar = statement_grammar();
    let mut pop: Population<f32> = random_population(5, 1, &grammar, 0, &mut rng);
    let weights = Weights { reproduce: 0, mutate: 0, crossover: 1, tree_height: 0 };
    for _ in 0..10 {
        score_by_size(&mut pop);
        pop = evolve(pop, &weights, &grammar, &mut rng, |p: &Population<f32>, r: &mut StdRng| {
            tournament_selection(2, p, r)
        });
        assert_eq!(6, pop.n());
    }
}

#[test]
fn evolve_reproduce_only_copies_parents() {
    let mut rng = StdRng::seed_from_u64(16);
    let pop = scored(vec![leaf(0, 0), leaf(0, 1), leaf(0, 2)], vec![1.0, 2.0, 3.0]);
    let parents = pop.population.clone();
    let weights = Weights { reproduce: 1, mutate: 0, crossover: 0, tree_height: 0 };
    let next = evolve(pop, &weights, &statement_grammar(), &mut rng, |p: &Population<f32>, r: &mut StdRng| {
        tournament_selection(2, p, r)
    });
    assert_eq!(3, next.n());
    assert!(next.scores.is_empty());
    for t in &next.population {
        assert!(parents.iter().any(|p| Arc::ptr_eq(p, t)));
    }
}

#[test]
fn random_population_heights_rise() {
    let mut rng = StdRng::seed_from_u64(17);
    let grammar = list_grammar();
    let pop: Population<f32> = random_population(40, 4, &grammar, 0, &mut rng);
    assert_eq!(40, pop.n());
    assert_eq!(0, pop.generation);
    assert!(pop.scores.is_empty());
    let first: usize = pop.population[..10].iter().map(|t| depth(t)).sum();
    let last: usize = pop.population[30..].iter().map(|t| depth(t)).sum();
    assert!(first < last);
    let empty: Population<f32> = random_population(0, 0, &grammar, 0, &mut rng);
    assert_eq!(0, empty.n());
}

#[test]
fn retain_best_keeps_best_and_refills() {
    let mut rng = StdRng::seed_from_u64(18);
    let grammar = statement_grammar();
    let programs: Vec<Arc<Node>> = (0..6).map(|i| leaf(0, i)).collect();
    let mut pop = scored(programs.clone(), vec![1.0, 6.0, 2.0, 5.0, 3.0, 4.0]);
    pop.generation = 4;
    let next = retain_best(2, pop, 2, &grammar, 0, &mut rng);
    assert_eq!(6, next.n());
    assert_eq!(5, next.generation);
    assert!(Arc::ptr_eq(&next.population[0], &programs[3]));
    assert!(Arc::ptr_eq(&next.population[1], &programs[1]));
    assert!(next.population[2..].iter().all(|t| conforms(&grammar, t, 0)));
}

#[test]
fn merge_plan_matches_names() {
    let n = |xs: &[&str]| -> Vec<Vec<u8>> { xs.iter().map(|x| x.as_bytes().to_vec()).collect() };
    assert_eq!(vec![0], merge_plan(&n(&["a"]), &n(&["a"])));
    assert_eq!(vec![1], merge_plan(&n(&["a"]), &n(&["b"])));
    assert_eq!(vec![1, 2, 0, 2, 1], merge_plan(&n(&["a", "b"]), &n(&["b", "c", "a", "c", "b"])));
    assert_eq!(vec![0, 0, 1], merge_plan(&n(&[]), &n(&["x", "x", "y"])));
    assert_eq!(vec![0], merge_plan(&n(&["a", "a"]), &n(&["a"])));
    assert_eq!(vec![1], merge_plan(&n(&["ab"]), &n(&["a"])));
    assert!(merge_plan(&n(&["a"]), &n(&[])).is_empty());
    assert!(same_name(&n(&["food"])[0], &n(&["food"])[0]));
    assert!(!same_name(&n(&["food"])[0], &n(&["foot"])[0]));
}

#[test]
fn defined_totals_leave_out_nan() {
    let pop = scored(vec![leaf(0, 0), leaf(0, 1), leaf(0, 2)], vec![2.0, 4.0, f32::NAN]);
    let defined = pop.defined_positions();
    assert_eq!(vec![0, 1], defined);
    let avg = defined.iter().map(|&i| pop.scores[i]).sum::<f32>() / defined.len() as f32;
    assert_eq!(3.0, avg);
    assert_eq!(4.0, pop.scores[pop.champion_index()]);
    let all_nan = scored(vec![leaf(0, 0)], vec![f32::NAN]);
    assert!(all_nan.defined_positions().is_empty());
}

#[test]
fn variant_weights_follow_level() {
    let grammar = list_grammar();
    let w = NodeWeights::fixed(8);
    assert_eq!(vec![100, 1], variant_weights(&grammar, 0, w));
    let w3 = w.next_level().next_level().next_level();
    assert_eq!(vec![58, 42], variant_weights(&grammar, 0, w3));
    let mut last = w;
    for _ in 0..1000 {
        last = last.next_level();
    }
    assert_eq!(vec![0, 14000], variant_weights(&grammar, 0, last));
    let mut rng = StdRng::seed_from_u64(20);
    for _ in 0..20 {
        let t = random_tree(&grammar, 0, last, &mut rng);
        assert_eq!(1, t.label);
        assert_eq!(1, depth(&t));
    }
}

#[test]
fn evolve_without_crossover_keeps_exact_size() {
    let mut rng = StdRng::seed_from_u64(21);
    let grammar = statement_grammar();
    for &size in &[1usize, 2, 5, 8] {
        let mut pop: Population<f32> = random_population(size, 1, &grammar, 0, &mut rng);
        let weights = Weights { reproduce: 1, mutate: 3, crossover: 0, tree_height: 4 };
        for _ in 0..5 {
            score_by_size(&mut pop);
            pop = evolve(pop, &weights, &grammar, &mut rng, |p: &Population<f32>, r: &mut StdRng| {
                tournament_selection(2, p, r)
            });
            assert_eq!(size, pop.n());
        }
    }
}

#[test]
fn evolve_with_crossover_only_rounds_up_to_even() {
    let mut rng = StdRng::seed_from_u64(22);
    let grammar = statement_grammar();
    for &size in &[2usize, 3, 4, 7] {
        let mut pop: Population<f32> = random_population(size, 1, &grammar, 0, &mut rng);
        score_by_size(&mut pop);
        let weights = Weights { reproduce: 0, mutate: 0, crossover: 5, tree_height: 0 };
        let next = evolve(pop, &weights, &grammar, &mut rng, |p: &Population<f32>, r: &mut StdRng| {
            tournament_selection(2, p, r)
        });
        assert_eq!(size + size % 2, next.n());
    }
}

#[test]
fn grammar_well_formedness_is_checked() {
    assert!(list_grammar().is_wf());
    assert!(statement_grammar().is_wf());
    let no_leaf = Grammar { kinds: vec![vec![Variant { child_kinds: vec![0], data_bound: 0 }]] };
    assert!(!no_leaf.is_wf());
    let dangling = Grammar {
        kinds: vec![vec![
            Variant { child_kinds: vec![3], data_bound: 0 },
            Variant { child_kinds: vec![], data_bound: 0 },
        ]],
    };
    assert!(!dangling.is_wf());
    let empty_kind = Grammar { kinds: vec![vec![]] };
    assert!(!empty_kind.is_wf());
    assert!(Grammar { kinds: vec![] }.is_wf());
}

#[test]
fn mutation_with_custom_policy() {
    let mut rng = StdRng::seed_from_u64(23);
    let grammar = statement_grammar();
    let program = Arc::new(random_tree(&grammar, 0, NodeWeights::fixed(4), &mut rng));
    // Perturb leaf payloads only: a command keeps its place, its value moves on by one.
    let perturb = |n: &Arc<Node>, _h: i32, _r: &mut StdRng| -> Arc<Node> {
        if n.kind == 1 {
            Arc::new(Node { kind: 1, label: 0, data: (n.data + 1) % 4, children: vec![] })
        } else {
            Arc::clone(n)
        }
    };
    let mut current = program.clone();
    for _ in 0..50 {
        current = mutate_tree_with(&current, &grammar, 4, &mut rng, perturb);
        assert!(conforms(&grammar, &current, 0));
        assert_eq!(find_nodes_and_parents(&program).len(), find_nodes_and_parents(&current).len());
    }
}

#[test]
fn weights_defined_far_below_generation_cut_off() {
    let mut w = NodeWeights::fixed(8);
    for _ in 0..5000 {
        let next = w.next_level();
        assert!(next.internal() <= w.internal());
        assert!(next.leaf() >= w.leaf());
        w = next;
    }
    assert_eq!(5000, w.current_level);
    assert_eq!(1, w.internal());
    assert_eq!(70000, w.leaf());
}

#[test]
fn identity_mutation_gives_back_the_tree() {
    let mut rng = StdRng::seed_from_u64(27);
    let grammar = statement_grammar();
    let program = Arc::new(random_tree(&grammar, 0, NodeWeights::fixed(5), &mut rng));
    for _ in 0..30 {
        let same = mutate_tree_with(&program, &grammar, 5, &mut rng, |n: &Arc<Node>, _h: i32, _r: &mut StdRng| {
            Arc::clone(n)
        });
        assert_eq!(*program, *same);
    }
}
