//! A tree-based genetic-programming engine.
//!
//! Program trees are built from a `Grammar` of node kinds and share their
//! unchanged subtrees. The engine generates trees with a height bias,
//! mutates and crosses them, and evolves populations ranked by fitness.
pub mod crossover;
pub mod evolve;
pub mod fitness;
pub mod mutate;
pub mod num;
pub mod pick;
pub mod population;
pub mod random_pop;
pub mod rng;
pub mod select;
pub mod tree;

pub use crossover::crossover_tree;
pub use evolve::{evolve, Weights};
pub use mutate::mutate_tree;
pub use population::Population;
pub use random_pop::{random_population, retain_best, Grammar, NodeWeights, Variant};
pub use select::tournament_selection;
pub use tree::{clone_or_replace, depth, Node, NodeInTree};
