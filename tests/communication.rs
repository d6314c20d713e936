use connect4::communication::Message;
use connect4::game_logic::Player;

fn all_messages() -> Vec<Message> {
    vec![
        Message::Hello(Player::Red),
        Message::Hello(Player::Yellow),
        Message::Play,
        Message::Action(4),
        Message::ValidAction(6),
        Message::InvalidAction,
        Message::Lose,
        Message::Draw,
        Message::Win,
    ]
}

#[test]
fn messages_encode_to_their_bytes() {
    let expected: Vec<Vec<u8>> = vec![
        vec![0, 0],
        vec![0, 1],
        vec![1, 0],
        vec![1, 1, 4],
        vec![1, 2, 6],
        vec![1, 3],
        vec![2, 0],
        vec![2, 1],
        vec![2, 2],
    ];
    for (message, bytes) in all_messages().into_iter().zip(expected) {
        assert_eq!(message.to_bytes(), bytes);
    }
}

#[test]
fn messages_decode_from_a_padded_buffer() {
    for message in all_messages() {
        let mut buffer = [0u8; 1024];
        let bytes = message.to_bytes();
        buffer[..bytes.len()].copy_from_slice(&bytes);
        assert_eq!(Message::from_bytes(&buffer), Some(message));
    }
}

#[test]
fn unknown_or_short_bytes_decode_to_nothing() {
    assert_eq!(Message::from_bytes(&[]), None);
    assert_eq!(Message::from_bytes(&[1]), None);
    assert_eq!(Message::from_bytes(&[3, 0]), None);
    assert_eq!(Message::from_bytes(&[1, 4]), None);
    assert_eq!(Message::from_bytes(&[1, 1]), None);
    assert_eq!(Message::from_bytes(&[0, 2, 0]), None);
}
