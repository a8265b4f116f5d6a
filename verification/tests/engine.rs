use lazy_mcts::tictactoe::TicTacToe;
use lazy_mcts::{
    mcts_agent, mcts_uct_agent, DefaultMcts, DefaultPlayout, DefaultUctEvaluator, Evaluator,
    GameTrait, Playout, DEFAULT_C,
};

#[test]
fn test_root_visits_counts_executes() {
    let board = TicTacToe::new();
    let mut mcts = DefaultMcts::<TicTacToe>::new(&board);
    assert_eq!(mcts.root_visits(), 0);
    for k in 1..=1000u32 {
        mcts.execute(&DEFAULT_C, ());
        assert_eq!(mcts.root_visits(), k);
    }
}

#[test]
fn test_parent_visits_dominate_children() {
    let board = TicTacToe::new();
    let mut mcts = DefaultMcts::<TicTacToe>::new(&board);
    for _ in 0..300 {
        mcts.execute(&DEFAULT_C, ());
    }
    for id in 0..mcts.node_count() {
        for child in mcts.children_of(id) {
            assert!(mcts.visits_of(id) >= mcts.visits_of(child));
        }
    }
}

#[test]
fn test_unexpanded_plus_children_equals_legal_moves() {
    let board = TicTacToe::new();
    let mut mcts = DefaultMcts::<TicTacToe>::new(&board);
    for _ in 0..60 {
        mcts.execute(&DEFAULT_C, ());
    }
    for id in 0..mcts.node_count() {
        let mut state = board.clone_state();
        for m in mcts.history_of(id) {
            state.do_move(&m);
        }
        let legal = state.legals_moves().len();
        assert_eq!(mcts.unvisited_count_of(id) + mcts.children_of(id).len(), legal);
    }
}

#[test]
fn test_reconstruction_is_pure() {
    let board = TicTacToe::new();
    let mut mcts = DefaultMcts::<TicTacToe>::new(&board);
    for _ in 0..100 {
        mcts.execute(&DEFAULT_C, ());
    }
    for id in 0..mcts.node_count() {
        let history = mcts.history_of(id);
        let mut once = board.clone_state();
        for m in &history {
            once.do_move(m);
        }
        let mut twice = board.clone_state();
        for m in &history {
            twice.do_move(m);
        }
        assert_eq!(once, twice);
    }
}

#[test]
fn test_thousand_playouts_open_every_root_move() {
    let board = TicTacToe::new();
    let mut mcts = DefaultMcts::<TicTacToe>::new(&board);
    for _ in 0..1000 {
        mcts.execute(&DEFAULT_C, ());
    }
    // selection explores each child once before UCT comparison, so all nine
    // opening moves have a child of the root
    assert_eq!(mcts.children_of(0).len(), 9);
    assert_eq!(mcts.unvisited_count_of(0), 0);
    let best = mcts.best_move(&DEFAULT_C);
    assert!(board.legals_moves().contains(&best));
}

#[test]
fn test_best_move_after_single_execute() {
    let board = TicTacToe::new();
    let mut mcts = DefaultMcts::<TicTacToe>::new(&board);
    mcts.execute(&DEFAULT_C, ());
    let best = mcts.best_move(&DEFAULT_C);
    assert!(board.legals_moves().contains(&best));
}

#[test]
fn test_with_capacity_starts_empty() {
    let board = TicTacToe::new();
    let mcts = DefaultMcts::<TicTacToe>::with_capacity(&board, 64);
    assert_eq!(mcts.node_count(), 1);
    assert_eq!(mcts.root_visits(), 0);
    assert_eq!(mcts.sum_rewards_of(0), 0);
    assert_eq!(mcts.unvisited_count_of(0), 9);
    assert!(mcts.children_of(0).is_empty());
}

#[test]
fn test_mcts_agent_returns_legal_move() {
    let mut board = TicTacToe::new();
    board.do_move(&0);
    let m = mcts_agent(&board, 200);
    assert!(board.legals_moves().contains(&m));
    let m2 = mcts_uct_agent(&board, 200, 2_000_000_000);
    assert!(board.legals_moves().contains(&m2));
}

#[test]
fn test_interleaved_phases_accumulate_like_sequential() {
    // the concurrent discipline: several selections may be in flight before
    // their backpropagations land, and the landing order does not matter
    let board = TicTacToe::new();
    let turn = board.player_turn();
    let mut shared = DefaultMcts::<TicTacToe>::new(&board);
    let total = 40u32;
    let mut done = 0u32;
    while done < total {
        let burst = if total - done >= 2 { 2 } else { 1 };
        let mut pending = Vec::new();
        for _ in 0..burst {
            let (id, state) = shared.select_expand(&DEFAULT_C);
            pending.push((id, state));
        }
        // playouts happen outside any tree access, then land in reverse order
        while let Some((id, state)) = pending.pop() {
            let final_state = <DefaultPlayout as Playout<TicTacToe>>::playout(state, ());
            let reward =
                <DefaultUctEvaluator as Evaluator<TicTacToe, ()>>::evaluate_leaf(final_state, &turn);
            shared.backpropagate(id, reward);
            done += 1;
        }
    }
    assert_eq!(shared.root_visits(), total);

    let mut sequential = DefaultMcts::<TicTacToe>::new(&board);
    for _ in 0..total {
        sequential.execute(&DEFAULT_C, ());
    }
    assert_eq!(sequential.root_visits(), total);
}
