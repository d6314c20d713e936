use connect4::communication::Message;
use connect4::game_logic::{Cell, Connect4, Player};
use connect4::session::{client_update, final_messages, moves_by_player, referee_action, ClientEvent};

fn play_all(moves: &[usize]) -> Connect4 {
    let mut game = Connect4::new();
    for &column in moves {
        game.play(column);
    }
    game
}

#[test]
fn referee_plays_valid_actions_only() {
    let mut game = Connect4::new();
    assert_eq!(referee_action(&mut game, &Message::Action(3)), Some(3));
    assert_eq!(game.cell(0, 3), Some(Cell::Red));
    assert_eq!(referee_action(&mut game, &Message::Action(7)), None);
    assert_eq!(referee_action(&mut game, &Message::Play), None);
    assert_eq!(game.to_play, Player::Yellow);
    let mut full_column = play_all(&[2, 2, 2, 2, 2, 2]);
    assert_eq!(referee_action(&mut full_column, &Message::Action(2)), None);
    assert_eq!(full_column.column_height(2), 6);
}

#[test]
fn final_messages_follow_the_winner() {
    let red = play_all(&[0, 1, 0, 1, 0, 1, 0]);
    assert_eq!(final_messages(&red), (Message::Win, Message::Lose));
    let yellow = play_all(&[0, 1, 0, 1, 0, 1, 6, 1]);
    assert_eq!(final_messages(&yellow), (Message::Lose, Message::Win));
    let open = play_all(&[0, 1]);
    assert_eq!(final_messages(&open), (Message::Draw, Message::Draw));
}

#[test]
fn client_follows_the_server() {
    let mut game = Connect4::new();
    assert_eq!(client_update(&mut game, &Message::Play), Some(ClientEvent::YourTurn));
    assert_eq!(client_update(&mut game, &Message::InvalidAction), Some(ClientEvent::Rejected));
    assert_eq!(client_update(&mut game, &Message::ValidAction(5)), Some(ClientEvent::Played(5)));
    assert_eq!(game.cell(0, 5), Some(Cell::Red));
    assert_eq!(client_update(&mut game, &Message::ValidAction(9)), None);
    assert_eq!(client_update(&mut game, &Message::Hello(Player::Red)), None);
    assert_eq!(client_update(&mut game, &Message::Action(1)), None);
    assert_eq!(client_update(&mut game, &Message::Win), Some(ClientEvent::GameOver));
    assert_eq!(client_update(&mut game, &Message::Draw), Some(ClientEvent::GameOver));
    assert_eq!(client_update(&mut game, &Message::Lose), Some(ClientEvent::GameOver));
    assert_eq!(game.column_height(5), 1);
}

#[test]
fn replay_lists_the_moves_of_each_player() {
    let (red, yellow) = moves_by_player(&vec![3, 4, 0, 6, 2]);
    assert_eq!(red.into_iter().collect::<String>(), "3;0;2;");
    assert_eq!(yellow.into_iter().collect::<String>(), "4;6;");
    let (red, yellow) = moves_by_player(&vec![]);
    assert!(red.is_empty() && yellow.is_empty());
}
