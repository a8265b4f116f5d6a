use vstd::prelude::*;

use crate::aliases::DefaultMcts;
use crate::ops::{C_MAX, DEFAULT_C};
use crate::rng::random_index;
use crate::traits::GameTrait;

verus! {

/// Runs `playouts` search iterations with the default policies (UCT scoring
/// with exploration constant `sqrt(2)`, uniformly random playouts, win-or-
/// lose leaf rewards) and returns the engine's best move, always one of the
/// legal moves of `state`.
pub fn mcts_agent<Game: GameTrait>(state: &Game, playouts: usize) -> (m: Game::Move)
    requires
        !state.is_final_spec(),
        1 <= playouts < 4294967295usize,
    ensures
        state.legal_moves_spec().contains(m),
{
    mcts_uct_agent(state, playouts, DEFAULT_C)
}

/// Like `mcts_agent`, with a caller-chosen exploration constant, given in
/// fixed point with scale `SCALE`.
pub fn mcts_uct_agent<Game: GameTrait>(state: &Game, playouts: usize, c: u64) -> (m: Game::Move)
    requires
        !state.is_final_spec(),
        1 <= playouts < 4294967295usize,
        c <= C_MAX,
    ensures
        state.legal_moves_spec().contains(m),
{
    let mut mcts = DefaultMcts::<Game>::new(state);
    proof {
        state.lemma_nonfinal_has_moves();
    }
    let mut i: usize = 0;
    while i < playouts
        invariant
            mcts.inv(),
            mcts.spec_root_state() == *state,
            mcts.spec_root_visits() == i,
            i <= playouts < 4294967295usize,
            c <= C_MAX,
            mcts.spec_len() <= 1 + i,
            mcts.spec_children_count(0) > 0 || mcts.spec_unvisited_count(0) > 0,
            i >= 1 ==> mcts.spec_children_count(0) > 0,
        decreases playouts - i,
    {
        mcts.execute(&c, ());
        i = i + 1;
    }
    mcts.best_move(&c)
}

/// Picks a uniformly random legal move of `state`.
pub fn random_agent<Game: GameTrait>(state: &Game) -> (m: Game::Move)
    requires
        state.legal_moves_spec().len() > 0,
    ensures
        state.legal_moves_spec().contains(m),
{
    let moves = state.legals_moves();
    let i = random_index(moves.len());
    let m = moves[i];
    proof {
        assert(state.legal_moves_spec()[i as int] == m);
    }
    m
}

} // verus!
