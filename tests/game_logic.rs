use connect4::game_logic::{Cell, Connect4, Player, BOARD_HEIGHT, BOARD_WIDTH};

fn play_all(moves: &[usize]) -> Connect4 {
    let mut game = Connect4::new();
    for &column in moves {
        assert!(game.valid_action(column));
        game.play(column);
    }
    game
}

const DRAW_MOVES: [usize; 42] = [
    1, 0, 0, 0, 0, 0, 0, 1, 5, 1, 1, 2, 1, 1, 2, 3, 2, 2, 3, 2, 2, 3, 3, 4, 3, 3, 4, 5, 4, 4, 5,
    5, 5, 6, 6, 4, 6, 5, 6, 6, 4, 6,
];

#[test]
fn new_board_is_empty() {
    let game = Connect4::new();
    for row in 0..BOARD_HEIGHT {
        for column in 0..BOARD_WIDTH {
            assert_eq!(game.cell(row, column), Some(Cell::Empty));
        }
    }
    for column in 0..BOARD_WIDTH {
        assert_eq!(game.column_height(column), 0);
    }
    assert_eq!(game.to_play, Player::Red);
    assert_eq!(game.next_player(), Player::Red);
    assert_eq!(game.check_winner(), None);
    assert!(!game.check_full());
    assert!(!game.over());
}

#[test]
fn tokens_stack_in_their_column() {
    let game = play_all(&[3, 3, 4, 3, 3]);
    assert_eq!(game.column_height(3), 4);
    assert_eq!(game.column_height(4), 1);
    assert_eq!(game.column_height(0), 0);
    assert_eq!(game.cell(0, 3), Some(Cell::Red));
    assert_eq!(game.cell(1, 3), Some(Cell::Yellow));
    assert_eq!(game.cell(2, 3), Some(Cell::Yellow));
    assert_eq!(game.cell(3, 3), Some(Cell::Red));
    assert_eq!(game.cell(4, 3), Some(Cell::Empty));
    assert_eq!(game.cell(0, 4), Some(Cell::Red));
    assert_eq!(game.next_player(), Player::Yellow);
    assert_eq!(game.to_play, Player::Yellow);
}

#[test]
fn play_flips_the_player() {
    let mut game = Connect4::new();
    game.play(0);
    assert_eq!(game.to_play, Player::Yellow);
    game.play(0);
    assert_eq!(game.to_play, Player::Red);
}

#[test]
fn valid_action_rejects_outside_and_full_columns() {
    let mut game = Connect4::new();
    assert!(!game.valid_action(BOARD_WIDTH));
    assert!(!game.valid_action(100));
    for _ in 0..BOARD_HEIGHT {
        assert!(game.valid_action(2));
        game.play(2);
    }
    assert!(!game.valid_action(2));
    assert!(game.valid_action(1));
    assert_eq!(game.column_height(2), BOARD_HEIGHT);
}

#[test]
fn cell_rejects_coordinates_outside_the_board() {
    let game = play_all(&[0]);
    assert_eq!(game.cell(BOARD_HEIGHT, 0), None);
    assert_eq!(game.cell(0, BOARD_WIDTH), None);
    assert_eq!(game.cell(0, 0), Some(Cell::Red));
}

#[test]
fn vertical_win_for_first_mover() {
    let moves = [0, 1, 0, 1, 0, 1, 0];
    let mut game = Connect4::new();
    for &column in &moves {
        assert_eq!(game.check_winner(), None);
        assert!(!game.over());
        game.play(column);
    }
    assert_eq!(game.check_winner(), Some(Player::Red));
    assert!(game.over());
}

fn assert_wins_only_at_end(moves: &[usize], winner: Player) {
    let mut game = Connect4::new();
    for &column in moves {
        assert_eq!(game.check_winner(), None);
        game.play(column);
    }
    assert_eq!(game.check_winner(), Some(winner));
}

#[test]
fn horizontal_win() {
    assert_wins_only_at_end(&[0, 0, 1, 1, 2, 2, 3], Player::Red);
}

#[test]
fn horizontal_win_completed_in_the_middle() {
    assert_wins_only_at_end(&[0, 0, 1, 1, 3, 3, 2], Player::Red);
}

#[test]
fn diagonal_up_win() {
    assert_wins_only_at_end(&[0, 1, 1, 2, 2, 3, 2, 3, 3, 6, 3], Player::Red);
}

#[test]
fn diagonal_down_win() {
    assert_wins_only_at_end(&[6, 5, 5, 4, 4, 3, 4, 3, 3, 0, 3], Player::Red);
}

#[test]
fn vertical_win_for_second_player() {
    assert_wins_only_at_end(&[0, 1, 0, 1, 0, 1, 6, 1], Player::Yellow);
}

#[test]
fn three_in_a_row_is_no_win() {
    let game = play_all(&[0, 0, 1, 1, 2]);
    assert_eq!(game.check_winner(), None);
}

#[test]
fn full_board_without_run_is_a_draw() {
    let mut game = Connect4::new();
    for &column in DRAW_MOVES.iter() {
        assert!(!game.check_full());
        assert_eq!(game.check_winner(), None);
        game.play(column);
    }
    assert!(game.check_full());
    assert_eq!(game.check_winner(), None);
    assert!(game.over());
    for column in 0..BOARD_WIDTH {
        assert_eq!(game.column_height(column), BOARD_HEIGHT);
        assert!(!game.valid_action(column));
    }
    assert!(game.possible_moves().is_empty());
}

#[test]
fn possible_moves_lists_open_columns() {
    let game = Connect4::new();
    assert_eq!(game.possible_moves(), vec![0, 1, 2, 3, 4, 5, 6]);
    let game = play_all(&[3, 3, 3, 3, 3, 3]);
    assert_eq!(game.possible_moves(), vec![0, 1, 2, 4, 5, 6]);
}

#[test]
fn random_moves_fill_the_board() {
    let mut game = Connect4::new();
    for moves in 0..(BOARD_WIDTH * BOARD_HEIGHT) {
        assert!(!game.check_full());
        game.play_random_move();
        let total: usize = (0..BOARD_WIDTH).map(|c| game.column_height(c)).sum();
        assert_eq!(total, moves + 1);
    }
    assert!(game.check_full());
}

#[test]
fn clone_keeps_the_game() {
    let game = play_all(&[2, 3, 2]);
    let mut copy = game.clone();
    assert_eq!(copy, game);
    assert_eq!(copy.cell(1, 2), Some(Cell::Red));
    assert_eq!(copy.to_play, Player::Yellow);
    copy.play(2);
    assert_eq!(copy.cell(2, 2), Some(Cell::Yellow));
    assert_eq!(game.cell(2, 2), Some(Cell::Empty));
    assert_ne!(copy, game);
}

#[test]
fn render_shows_rows_from_the_top() {
    let game = play_all(&[0, 6]);
    let text: String = game.render().into_iter().collect();
    let empty_row = "| || || || || || || |\n";
    let mut expected = String::new();
    for _ in 0..5 {
        expected.push_str(empty_row);
    }
    expected.push_str("|X|| || || || || ||O|\n");
    expected.push_str(" 0  1  2  3  4  5  6 ");
    assert_eq!(text, expected);
}

#[test]
fn players_and_cells() {
    assert_eq!(Player::Red.other(), Player::Yellow);
    assert_eq!(Player::Yellow.other(), Player::Red);
    assert_eq!(Player::Red.select(1, 2), (1, 2));
    assert_eq!(Player::Yellow.select(1, 2), (2, 1));
    assert_eq!(Player::Red.name(), "red");
    assert_eq!(Player::Yellow.name(), "yellow");
    assert_eq!(Cell::from(Player::Red), Cell::Red);
    assert_eq!(Cell::from(Player::Yellow), Cell::Yellow);
    assert_eq!(char::from(Cell::Empty), ' ');
    assert_eq!(char::from(Cell::Red), 'X');
    assert_eq!(char::from(Cell::Yellow), 'O');
    assert_eq!(char::from(Player::Red), 'X');
    assert_eq!(char::from(Player::Yellow), 'O');
}
