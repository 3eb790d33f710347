use connect_four::game::{Game, Player, Token, NUM_ROWS};

#[test]
fn test_play_empty() {
    let mut g = Game::new();
    assert!(!g.play_move(0).is_none());
    assert_eq!(g.cell(0, 0), Some(Token::OWN));
    assert_eq!(g.current_player(), Player::A);
}

#[test]
fn test_vertical() {
    let mut g = Game::new();
    g.play_move(3);
    g.play_move(3);
    g.play_move(3);
    assert!(!g.is_win());
    g.play_move(3);
    assert!(g.is_win());
}

#[test]
fn test_horizontal() {
    let mut g = Game::new();
    g.play_move(3);
    g.play_move(4);
    g.play_move(5);
    assert!(!g.is_win());
    g.play_move(6);
    assert!(g.is_win());
}

#[test]
fn test_diag_rise() {
    let mut g = Game::new();
    g.play_move(4);
    g.play_move(5);
    g.play_move(5);
    g.play_move(6);
    g.play_move(6);
    g.play_move(6);
    g.next_player();
    g.play_move(3);
    g.play_move(4);
    g.play_move(5);
    assert!(!g.is_win());
    g.play_move(6);
    assert!(g.is_win());
}

#[test]
fn test_diag_fall() {
    let mut g = Game::new();
    g.play_move(3);
    g.play_move(3);
    g.play_move(3);
    g.play_move(4);
    g.play_move(4);
    g.play_move(5);
    g.next_player();
    g.play_move(3);
    g.play_move(4);
    g.play_move(5);
    assert!(!g.is_win());
    g.play_move(6);
    assert!(g.is_win());
}

#[test]
fn test_legal_moves() {
    let mut g = Game::new();
    assert_eq!(g.legal_moves(), vec![0, 1, 2, 3, 4, 5, 6]);
    for i in 0..NUM_ROWS {
        if i == 3 {
            g.next_player();
        }
        g.play_move(6);
    }
    assert_eq!(g.legal_moves(), vec![0, 1, 2, 3, 4, 5]);
    for _ in 0..4 {
        g.play_move(5);
    }
    assert_eq!(g.legal_moves(), Vec::<usize>::new());
}

#[test]
fn drop_returns_rows_and_counts_heights() {
    let mut g = Game::new();
    assert_eq!(g.play_move(2), Some(0));
    assert_eq!(g.play_move(2), Some(1));
    assert_eq!(g.play_move(0), Some(0));
    assert_eq!(g.column_height(2), 2);
    assert_eq!(g.column_height(0), 1);
    assert_eq!(g.column_height(1), 0);
    assert_eq!(g.cell(2, 1), Some(Token::OWN));
    assert_eq!(g.cell(2, 2), None);
}

#[test]
fn drop_into_full_column_changes_nothing() {
    let mut g = Game::new();
    for i in 0..NUM_ROWS {
        assert_eq!(g.play_move(1), Some(i));
        g.next_player();
    }
    let before: Vec<Option<Token>> = (0..NUM_ROWS).map(|r| g.cell(1, r)).collect();
    assert_eq!(g.play_move(1), None);
    assert_eq!(g.column_height(1), 6);
    let after: Vec<Option<Token>> = (0..NUM_ROWS).map(|r| g.cell(1, r)).collect();
    assert_eq!(before, after);
    assert_eq!(g.current_player(), Player::A);
}

#[test]
fn drop_off_the_board_is_refused() {
    let mut g = Game::new();
    assert_eq!(g.play_move(7), None);
    assert_eq!(g.play_move(100), None);
    assert_eq!(g.legal_moves(), vec![0, 1, 2, 3, 4, 5, 6]);
}

#[test]
fn switching_relabels_and_keeps_lines() {
    let mut g = Game::new();
    g.play_move(0);
    g.play_move(0);
    g.play_move(0);
    g.play_move(0);
    assert!(g.is_win());
    g.next_player();
    assert_eq!(g.current_player(), Player::B);
    assert_eq!(g.cell(0, 0), Some(Token::OPPONENT));
    assert!(!g.is_win());
    g.next_player();
    assert_eq!(g.current_player(), Player::A);
    assert_eq!(g.cell(0, 3), Some(Token::OWN));
    assert!(g.is_win());
}

#[test]
fn no_moves_exactly_when_terminal() {
    let mut g = Game::new();
    assert!(!g.is_terminal());
    assert!(!g.legal_moves().is_empty());
    for c in 0..7 {
        for _ in 0..NUM_ROWS {
            assert_eq!(g.is_terminal(), g.legal_moves().is_empty());
            g.play_move(c);
            g.next_player();
        }
    }
    assert!(g.is_terminal());
    assert!(g.legal_moves().is_empty());
}

#[test]
fn win_makes_the_game_terminal() {
    let mut g = Game::new();
    for c in 0..4 {
        g.play_move(c);
    }
    assert!(g.is_win());
    assert!(g.is_terminal());
    assert!(g.legal_moves().is_empty());
}

#[test]
fn heights_count_drops_per_column() {
    let mut g = Game::new();
    let moves = [0, 3, 3, 6, 0, 3, 1, 3, 3, 3];
    for &m in moves.iter() {
        g.play_move(m);
    }
    for c in 0..7 {
        let n = moves.iter().filter(|&&m| m == c).count();
        assert_eq!(g.column_height(c), n);
    }
    assert_eq!(g.column_height(3), 6);
    assert_eq!(g.play_move(3), None);
    assert_eq!(g.column_height(3), 6);
}

#[test]
fn off_board_queries_are_empty() {
    let mut g = Game::new();
    g.play_move(6);
    assert_eq!(g.column_height(7), 0);
    assert_eq!(g.cell(7, 0), None);
    assert_eq!(g.cell(6, 6), None);
    assert_eq!(g.cell(6, 0), Some(Token::OWN));
}

#[test]
fn diagonal_lines_need_all_four_cells() {
    let mut g = Game::new();
    // Rising diagonal from (0, 0) with the top stone missing.
    g.play_move(0);
    g.next_player();
    g.play_move(1);
    g.next_player();
    g.play_move(1);
    g.next_player();
    g.play_move(2);
    g.play_move(2);
    g.next_player();
    g.play_move(2);
    assert!(!g.is_win());
}

#[test]
fn heights_count_drops_with_switches_between() {
    let mut g = Game::new();
    let moves = [4, 4, 2, 4, 0, 2];
    for (i, &m) in moves.iter().enumerate() {
        if i % 2 == 1 {
            g.next_player();
        }
        g.play_move(m);
    }
    assert_eq!(g.column_height(4), 3);
    assert_eq!(g.column_height(2), 2);
    assert_eq!(g.column_height(0), 1);
    assert_eq!(g.column_height(1), 0);
}
