use vstd::prelude::*;

use crate::defaults::{DefaultBackProp, DefaultLazyTreePolicy, DefaultPlayout, DefaultUctEvaluator};
use crate::mcts_node::MctsNode;
use crate::traits::GameTrait;
use crate::tree::MctsTree;
use crate::tree_search::LazyMcts;

verus! {

/// A lazy node stores no game state, only the move history from the root.
pub type LazyMctsNode<G, A> = MctsNode<Vec<<G as GameTrait>::Move>, <G as GameTrait>::Move, A>;

/// The search tree of lazy nodes for the game `G`.
pub type LazyMctsTree<G, A> = MctsTree<Vec<<G as GameTrait>::Move>, <G as GameTrait>::Move, A>;

/// The search engine with every policy at its default: UCT scoring, random
/// playouts, and a reward of 1 when the root player wins.
pub type DefaultMcts<State> = LazyMcts<
    State,
    DefaultLazyTreePolicy<State, DefaultUctEvaluator, ()>,
    DefaultPlayout,
    DefaultBackProp,
    DefaultUctEvaluator,
    (),
>;

/// Visit counts are plain 32-bit naturals.
pub type Nat = u32;

/// Scores are fixed-point numbers at scale `FINE_SCALE`
/// (a score of `1.5` is stored as `FINE_SCALE + FINE_SCALE / 2`).
pub type Num = u128;

/// A node of the search tree is addressed by its stable arena index.
pub type NodeId = usize;

} // verus!
