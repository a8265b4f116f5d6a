//! A generic Monte Carlo Tree Search engine.
//!
//! The search tree stores no game state in its nodes: each node carries only
//! the move history from the root, and the state is reconstructed on demand by
//! replaying that history onto a caller-supplied root state.

pub mod agent;
pub mod aliases;
pub mod defaults;
pub mod mcts_node;
pub mod ops;
mod rng;
pub mod tictactoe;
pub mod traits;
pub mod tree;
pub mod tree_search;

pub use crate::agent::{mcts_agent, mcts_uct_agent, random_agent};
pub use crate::aliases::{DefaultMcts, LazyMctsNode, LazyMctsTree, Nat, NodeId, Num};
pub use crate::mcts_node::MctsNode;
pub use crate::traits::{BackPropPolicy, Evaluator, GameTrait, LazyTreePolicy, Playout};
pub use crate::tree::MctsTree;
pub use crate::tree_search::LazyMcts;
pub use crate::defaults::{DefaultBackProp, DefaultLazyTreePolicy, DefaultPlayout, DefaultUctEvaluator};
pub use crate::tictactoe::TicTacToe;
pub use crate::ops::{lemma_uct_strict_in_rewards, spec_uct, uct_value, DEFAULT_C, C_MAX, FINE_SCALE, SCALE};
