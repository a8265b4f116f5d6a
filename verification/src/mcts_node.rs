use vstd::prelude::*;

use crate::aliases::Nat;

verus! {

/// One node of the search tree.
///
/// `T` is the per-node payload describing the state this node stands for; the
/// lazy tree instantiates it with the move history from the root. `Move` is
/// the game's move type and `AdditionalInfo` an opaque slot for policy data.
#[derive(Clone, Debug)]
pub struct MctsNode<T, Move, AdditionalInfo> {
    /// Accumulated rewards, written only by backpropagation.
    pub sum_rewards: u64,
    /// Number of completed search iterations whose path passed through this node.
    pub n_visits: Nat,
    /// All the moves that do not have a child node yet; at creation this list
    /// holds every legal move of the state this node stands for.
    pub unvisited_moves: Vec<Move>,
    /// The game's hash of the state this node stands for (informational only).
    pub hash: u64,
    pub state: T,
    pub additional_info: AdditionalInfo,
}

impl<T, Move, AdditionalInfo> MctsNode<T, Move, AdditionalInfo> {
    /// True when this node still has an unexpanded move.
    #[inline]
    pub fn can_add_child(&self) -> (r: bool)
        ensures
            r == (self.unvisited_moves@.len() > 0),
    {
        !self.unvisited_moves.is_empty()
    }

    /// The stored hash of the state this node stands for.
    #[inline]
    pub fn hash(&self) -> (r: u64)
        ensures
            r == self.hash,
    {
        self.hash
    }
}

} // verus!
