use lazy_mcts::random_agent;
use lazy_mcts::tictactoe::TicTacToe;
use lazy_mcts::GameTrait;

#[test]
fn test_empty_board_has_nine_moves() {
    let board = TicTacToe::new();
    let moves = board.legals_moves();
    assert_eq!(moves.len(), 9);
    for (i, m) in moves.iter().enumerate() {
        assert_eq!(*m, i as u8);
    }
    assert!(!board.is_final());
    assert_eq!(board.player_turn(), 1);
}

#[test]
fn test_do_move_fills_cell_and_passes_turn() {
    let mut board = TicTacToe::new();
    board.do_move(&4);
    assert_eq!(board.cell_at(4), 1);
    assert_eq!(board.player_turn(), 2);
    assert_eq!(board.legals_moves().len(), 8);
    board.do_move(&0);
    assert_eq!(board.cell_at(0), 2);
    assert_eq!(board.player_turn(), 1);
}

#[test]
fn test_row_win_is_detected() {
    let mut board = TicTacToe::new();
    // player 1 takes the top row, player 2 scatters
    board.do_move(&0);
    board.do_move(&3);
    board.do_move(&1);
    board.do_move(&4);
    board.do_move(&2);
    assert!(board.is_final());
    assert_eq!(board.get_winner(), 1);
}

#[test]
fn test_column_and_diagonal_wins() {
    let mut col = TicTacToe::new();
    col.do_move(&1);
    col.do_move(&0);
    col.do_move(&4);
    col.do_move(&3);
    col.do_move(&7);
    assert_eq!(col.get_winner(), 1);

    let mut diag = TicTacToe::new();
    diag.do_move(&0);
    diag.do_move(&1);
    diag.do_move(&4);
    diag.do_move(&2);
    diag.do_move(&8);
    assert_eq!(diag.get_winner(), 1);
}

#[test]
fn test_drawn_board_reports_nobody() {
    let mut board = TicTacToe::new();
    // 1 2 1 / 1 2 2 / 2 1 1 — full, no line
    for m in [0u8, 1, 2, 4, 3, 6, 5, 8, 7] {
        assert!(!board.is_final());
        board.do_move(&m);
    }
    assert!(board.is_final());
    assert_eq!(board.get_winner(), 0);
    assert_eq!(board.legals_moves().len(), 0);
}

#[test]
fn test_random_agent_plays_a_legal_move() {
    let mut board = TicTacToe::new();
    board.do_move(&4);
    for _ in 0..50 {
        let m = random_agent(&board);
        assert!(board.legals_moves().contains(&m));
        assert_ne!(m, 4);
    }
}
