use connect4::ai::{alpha_beta_search, choose_action, select_best, MinMax, SharedWindow, VALUES};
use connect4::game_logic::{Cell, Connect4, BOARD_HEIGHT, BOARD_WIDTH};

fn play_all(moves: &[usize]) -> Connect4 {
    let mut game = Connect4::new();
    for &column in moves {
        assert!(game.valid_action(column));
        game.play(column);
    }
    game
}

/// Static score for the player who made the last move, computed cell by cell.
fn static_score(game: &Connect4) -> i32 {
    let owner = Cell::from(game.next_player().other());
    let mut score = 0;
    for row in 0..BOARD_HEIGHT {
        for column in 0..BOARD_WIDTH {
            let weight = VALUES[row * BOARD_WIDTH + column];
            match game.cell(row, column).unwrap() {
                Cell::Empty => {}
                cell if cell == owner => score += weight,
                _ => score -= weight,
            }
        }
    }
    score
}

/// Plain minimax without pruning, for the player to move in the role `maximize`.
fn brute_force(game: &Connect4, depth: usize, maximize: bool) -> i32 {
    if game.check_winner().is_some() {
        return if maximize { -i32::MAX } else { i32::MAX };
    }
    if game.check_full() {
        return 0;
    }
    if depth == 0 {
        return static_score(game);
    }
    let mut best = if maximize { -i32::MAX } else { i32::MAX };
    for column in 0..BOARD_WIDTH {
        if game.valid_action(column) {
            let mut child = game.clone();
            child.play(column);
            let score = brute_force(&child, depth - 1, !maximize);
            best = if maximize { best.max(score) } else { best.min(score) };
        }
    }
    best
}

fn root_score(game: &Connect4, column: usize, depth: usize) -> i32 {
    let mut child = game.clone();
    child.play(column);
    brute_force(&child, depth - 1, false)
}

fn assert_optimal(game: &Connect4, depth: usize) {
    let chosen = choose_action(game, depth);
    assert!(game.valid_action(chosen));
    let best = (0..BOARD_WIDTH)
        .filter(|&c| game.valid_action(c))
        .map(|c| root_score(game, c, depth))
        .max()
        .unwrap();
    assert_eq!(root_score(game, chosen, depth), best);
}

#[test]
fn shallow_choices_match_brute_force() {
    let boards: Vec<Vec<usize>> = vec![
        vec![],
        vec![3],
        vec![3, 3, 2, 4],
        vec![0, 1, 0, 1, 0, 2],
        vec![3, 2, 3, 4, 5, 3, 1, 1],
        vec![6, 6, 6, 6, 0, 0, 0, 0, 3, 3, 2],
    ];
    for moves in &boards {
        let game = play_all(moves);
        for depth in 1..=2 {
            assert_optimal(&game, depth);
        }
    }
}

#[test]
fn depth_one_prefers_the_centre() {
    let game = Connect4::new();
    assert_eq!(choose_action(&game, 1), 3);
}

#[test]
fn immediate_win_is_played() {
    // Red has three tokens in column 0 and is to move.
    let game = play_all(&[0, 1, 0, 1, 0, 2]);
    for depth in 1..=4 {
        assert_eq!(choose_action(&game, depth), 0);
    }
}

#[test]
fn immediate_win_in_a_row_is_played() {
    // Red has the bottom row from column 1 to 3, column 0 and 4 open; Yellow stacked above.
    let game = play_all(&[1, 1, 2, 2, 3, 3]);
    for depth in 1..=2 {
        let chosen = choose_action(&game, depth);
        let mut after = game.clone();
        after.play(chosen);
        assert!(after.check_winner().is_some());
    }
}

fn wins_at_once(game: &Connect4, column: usize) -> bool {
    let mut after = game.clone();
    after.play(column);
    after.check_winner().is_some()
}

#[test]
fn deeper_search_forces_a_win_where_one_move_wins_at_once() {
    // Red can win at once; searched three moves deep it may prefer a later column that
    // wins by force, one move later.
    let game = play_all(&[4, 2, 6, 0, 2, 0, 6, 2, 0, 0, 3, 1]);
    assert!((0..BOARD_WIDTH).any(|c| game.valid_action(c) && wins_at_once(&game, c)));
    let chosen = choose_action(&game, 3);
    assert_eq!(chosen, 6);
    let mut after = game.clone();
    after.play(chosen);
    if after.check_winner().is_none() {
        for reply in 0..BOARD_WIDTH {
            if after.valid_action(reply) {
                let mut answered = after.clone();
                answered.play(reply);
                assert!(answered.check_winner().is_none());
                assert!((0..BOARD_WIDTH).any(|c| answered.valid_action(c) && wins_at_once(&answered, c)));
            }
        }
    }
}

#[test]
fn threat_is_blocked() {
    // Yellow has three tokens in column 6, Red cannot win at once.
    let game = play_all(&[0, 6, 0, 6, 1, 6]);
    assert_eq!(choose_action(&game, 2), 6);
}

#[test]
fn repeated_decisions_agree() {
    let game = play_all(&[3, 2, 4, 4, 2]);
    for depth in 1..=4 {
        assert_eq!(choose_action(&game, depth), choose_action(&game, depth));
    }
}

#[test]
fn deeper_search_plays_a_legal_column() {
    let game = play_all(&[3, 3, 3, 3, 3, 3, 2]);
    for depth in 3..=5 {
        let chosen = choose_action(&game, depth);
        assert!(game.valid_action(chosen));
    }
}

#[test]
fn search_scores_terminal_positions() {
    let won = play_all(&[0, 1, 0, 1, 0, 1, 0]);
    let window = SharedWindow::new(4);
    assert_eq!(alpha_beta_search(won.clone(), 3, &window, MinMax::Min), i32::MAX);
    assert_eq!(alpha_beta_search(won, 3, &window, MinMax::Max), -i32::MAX);
}

#[test]
fn search_at_depth_zero_is_the_static_score() {
    let game = play_all(&[3, 2]);
    let window = SharedWindow::new(1);
    // Yellow moved last: its token at column 2 weighs 10, Red's at column 3 weighs 15.
    assert_eq!(alpha_beta_search(game.clone(), 0, &window, MinMax::Max), -5);
    assert_eq!(static_score(&game), -5);
}

#[test]
fn fresh_window_search_matches_brute_force_for_both_roles() {
    for moves in [vec![], vec![3, 3, 2], vec![0, 1, 0, 1, 0, 2], vec![2, 3, 4, 3, 3]] {
        let game = play_all(&moves);
        for depth in 0..=1 {
            let window = SharedWindow::for_search(depth, MinMax::Max);
            let max = alpha_beta_search(game.clone(), depth, &window, MinMax::Max);
            assert_eq!(max, brute_force(&game, depth, true));
            let window = SharedWindow::for_search(depth, MinMax::Min);
            let min = alpha_beta_search(game.clone(), depth, &window, MinMax::Min);
            assert_eq!(min, brute_force(&game, depth, false));
        }
    }
}

#[test]
fn best_pair_is_the_largest() {
    assert_eq!(select_best(&vec![(5, 0), (7, 2), (7, 4), (3, 6)]), 4);
    assert_eq!(select_best(&vec![(-3, 1)]), 1);
    assert_eq!(select_best(&vec![(9, 0), (7, 2), (-7, 4)]), 0);
}
