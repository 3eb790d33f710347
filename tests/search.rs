use connect_four::game::{Player, Token};
use connect_four::mcts::{outcome, playout, reward, Mcts};

// A root-to-leaf path: the first unvisited child at each step, else the first child.
fn leaf_path(m: &Mcts) -> Vec<usize> {
    let mut node = m.root();
    let mut path = vec![node];
    loop {
        let kids = m.children(node);
        if kids.is_empty() {
            return path;
        }
        node = match kids.iter().find(|&&c| m.node_visits(c) == 0) {
            Some(&c) => c,
            None => kids[0],
        };
        path.push(node);
    }
}

#[test]
fn fresh_engine_has_one_unexpanded_root() {
    let m = Mcts::new();
    assert_eq!(m.node_count(), 1);
    assert_eq!(m.root(), 0);
    assert!(m.children(0).is_empty());
    assert_eq!(m.node_visits(0), 0);
    assert_eq!(m.node_value(0), 0);
    assert!(!m.has_move(3));
}

#[test]
fn first_iteration_expands_root_and_visits_one_child() {
    let mut m = Mcts::new();
    assert!(m.mcts_iteration(vec![0]));
    assert_eq!(m.node_count(), 8);
    assert_eq!(m.children(0), vec![7, 6, 5, 4, 3, 2, 1]);
    assert_eq!(m.node_visits(0), 1);
    let visited: Vec<usize> = (1..8).filter(|&c| m.node_visits(c) == 1).collect();
    assert_eq!(visited.len(), 1);
    let c = visited[0];
    assert_eq!(m.node_value(c), -m.node_value(0));
    for k in 1..8 {
        let s = m.node_state(k);
        assert_eq!(s.current_player(), Player::B);
        assert_eq!(s.column_height(k - 1), 1);
        assert_eq!(s.cell(k - 1, 0), Some(Token::OWN));
    }
}

#[test]
fn iteration_refuses_a_path_that_is_not_root_to_leaf() {
    let mut m = Mcts::new();
    assert!(!m.mcts_iteration(vec![]));
    assert!(!m.mcts_iteration(vec![3]));
    assert!(m.mcts_iteration(vec![0]));
    assert!(!m.mcts_iteration(vec![0]));
    assert!(!m.mcts_iteration(vec![0, 0]));
    assert!(!m.mcts_iteration(vec![1]));
    assert_eq!(m.node_visits(0), 1);
    let before = m.node_visits(1);
    assert!(m.mcts_iteration(vec![0, 1]));
    assert_eq!(m.node_visits(0), 2);
    assert_eq!(m.node_visits(1), before + 1);
    assert_eq!(m.children(1).len(), 7);
}

#[test]
fn best_move_is_a_legal_column() {
    let mut m = Mcts::new();
    for _ in 0..300 {
        let p = leaf_path(&m);
        assert!(m.mcts_iteration(p));
    }
    let (col, value, visits) = m.best_move();
    assert!(col < 7);
    assert!(m.node_state(0).column_height(col) < 6);
    assert!(m.node_state(0).legal_moves().contains(&col));
    assert!(visits > 0);
    assert!(value.unsigned_abs() <= visits);
    assert_eq!(m.node_visits(0), 300);
}

#[test]
fn best_move_picks_highest_average() {
    let mut m = Mcts::new();
    for _ in 0..200 {
        let p = leaf_path(&m);
        assert!(m.mcts_iteration(p));
    }
    let (col, value, visits) = m.best_move();
    let u = value as f64 / visits as f64;
    for c in m.children(0) {
        let n = m.node_visits(c);
        if n > 0 {
            assert!(m.node_value(c) as f64 / n as f64 <= u);
        }
    }
    assert!(m.children(0).iter().any(|&c| m.node_state(c).column_height(col) == 1));
}

#[test]
fn execute_move_advances_root_to_child() {
    let mut m = Mcts::new();
    for _ in 0..20 {
        let p = leaf_path(&m);
        assert!(m.mcts_iteration(p));
    }
    let old_root = m.root();
    let old_player = m.node_state(old_root).current_player();
    assert!(m.has_move(4));
    m.execute_move(4);
    let r = m.root();
    assert_ne!(r, old_root);
    let s = m.node_state(r);
    assert_eq!(s.column_height(4), 1);
    for c in [0, 1, 2, 3, 5, 6] {
        assert_eq!(s.column_height(c), 0);
    }
    assert_ne!(s.current_player(), old_player);
    assert!(!m.has_move(9));
    assert_eq!(m.root(), r);
}

#[test]
fn execute_move_before_any_iteration_fails() {
    let mut m = Mcts::new();
    assert!(!m.has_move(3));
    assert!(!m.has_move(0));
    assert_eq!(m.root(), 0);
}

#[test]
fn reward_signs() {
    assert_eq!(reward(Some(Player::A), Player::A), 1);
    assert_eq!(reward(Some(Player::B), Player::A), -1);
    assert_eq!(reward(Some(Player::A), Player::B), -1);
    assert_eq!(reward(None, Player::B), 0);
}

#[test]
fn outcome_names_the_winner() {
    let mut g = connect_four::game::Game::new();
    for c in 0..4 {
        g.play_move(c);
    }
    assert_eq!(outcome(&g), Some(Player::A));
    g.next_player();
    assert_eq!(outcome(&g), None);
}

#[test]
fn playout_ends_the_game() {
    for _ in 0..20 {
        let g = connect_four::game::Game::new();
        let end = playout(&g);
        assert!(end.is_terminal());
        assert!(end.legal_moves().is_empty());
        match outcome(&end) {
            Some(p) => assert_eq!(p, end.current_player()),
            None => assert!(!end.is_win()),
        }
    }
}

#[test]
fn best_move_takes_the_first_created_child_on_ties() {
    let mut m = Mcts::new();
    for _ in 0..7 {
        let p = leaf_path(&m);
        assert!(m.mcts_iteration(p));
    }
    // Every child of the root has one visit; node k was created for column k - 1.
    let mut expected = 0;
    let mut best_value = i64::MIN;
    for k in 1..8 {
        assert_eq!(m.node_visits(k), 1);
        if m.node_value(k) > best_value {
            best_value = m.node_value(k);
            expected = k - 1;
        }
    }
    let (col, value, visits) = m.best_move();
    assert_eq!(col, expected);
    assert_eq!(value, best_value);
    assert_eq!(visits, 1);
}

#[test]
fn execute_move_then_root_average_matches_best_move() {
    let mut m = Mcts::new();
    for _ in 0..50 {
        let p = leaf_path(&m);
        assert!(m.mcts_iteration(p));
    }
    let (col, value, visits) = m.best_move();
    m.execute_move(col);
    assert_eq!(m.node_value(m.root()), value);
    assert_eq!(m.node_visits(m.root()), visits);
}

#[test]
fn playout_of_ended_board_returns_it() {
    let mut g = connect_four::game::Game::new();
    for _ in 0..4 {
        g.play_move(2);
    }
    let end = playout(&g);
    for c in 0..7 {
        assert_eq!(end.column_height(c), g.column_height(c));
    }
    assert_eq!(end.current_player(), g.current_player());
    assert_eq!(outcome(&end), Some(Player::A));
}

#[test]
fn playout_only_adds_stones() {
    let mut g = connect_four::game::Game::new();
    g.play_move(0);
    g.play_move(6);
    let end = playout(&g);
    assert_eq!(end.cell(0, 0).is_some(), true);
    assert_eq!(end.cell(6, 0).is_some(), true);
    for c in 0..7 {
        assert!(end.column_height(c) >= g.column_height(c));
    }
}
