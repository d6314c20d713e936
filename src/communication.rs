use crate::game_logic::Player;
use vstd::prelude::*;

verus! {

/// Messages between the server and a client. Each is a kind byte and a detail byte, and an
/// action byte for the two messages that carry a column.
#[derive(Copy, Clone, Debug, PartialEq, Eq, Structural)]
pub enum Message {
    /// Greeting that tells a client its side.
    Hello(Player),
    /// It is the client's turn.
    Play,
    /// The column that a client wants to play.
    Action(u8),
    /// The column that has been played.
    ValidAction(u8),
    /// The proposed column cannot be played.
    InvalidAction,
    Lose,
    Draw,
    Win,
}

/// The bytes that encode `message`.
pub open spec fn encoding(message: Message) -> Seq<u8> {
    match message {
        Message::Hello(Player::Red) => seq![0u8, 0u8],
        Message::Hello(Player::Yellow) => seq![0u8, 1u8],
        Message::Play => seq![1u8, 0u8],
        Message::Action(action) => seq![1u8, 1u8, action],
        Message::ValidAction(action) => seq![1u8, 2u8, action],
        Message::InvalidAction => seq![1u8, 3u8],
        Message::Lose => seq![2u8, 0u8],
        Message::Draw => seq![2u8, 1u8],
        Message::Win => seq![2u8, 2u8],
    }
}

/// The message that a buffer starts with, if any; the bytes after it are ignored.
pub open spec fn decoding(bytes: Seq<u8>) -> Option<Message> {
    if bytes.len() < 2 {
        None
    } else {
        let (kind, detail) = (bytes[0], bytes[1]);
        if kind == 0 && detail == 0 {
            Some(Message::Hello(Player::Red))
        } else if kind == 0 && detail == 1 {
            Some(Message::Hello(Player::Yellow))
        } else if kind == 1 && detail == 0 {
            Some(Message::Play)
        } else if kind == 1 && detail == 1 && bytes.len() >= 3 {
            Some(Message::Action(bytes[2]))
        } else if kind == 1 && detail == 2 && bytes.len() >= 3 {
            Some(Message::ValidAction(bytes[2]))
        } else if kind == 1 && detail == 3 {
            Some(Message::InvalidAction)
        } else if kind == 2 && detail == 0 {
            Some(Message::Lose)
        } else if kind == 2 && detail == 1 {
            Some(Message::Draw)
        } else if kind == 2 && detail == 2 {
            Some(Message::Win)
        } else {
            None
        }
    }
}

/// Decoding an encoded message, followed by any bytes, gives the message back.
pub proof fn lemma_decode_encode(message: Message, rest: Seq<u8>)
    ensures
        decoding(encoding(message) + rest) == Some(message),
{
    let bytes = encoding(message) + rest;
    assert(bytes[0] == encoding(message)[0]);
    assert(bytes[1] == encoding(message)[1]);
    if encoding(message).len() == 3 {
        assert(bytes[2] == encoding(message)[2]);
    }
}

impl Message {
    /// The message at the start of `bytes`, or `None` where the bytes encode no message.
    pub fn from_bytes(bytes: &[u8]) -> (r: Option<Message>)
        ensures
            r == decoding(bytes@),
    {
        if bytes.len() < 2 {
            return None;
        }
        let kind = bytes[0];
        let detail = bytes[1];
        if kind == 0 && detail == 0 {
            Some(Message::Hello(Player::Red))
        } else if kind == 0 && detail == 1 {
            Some(Message::Hello(Player::Yellow))
        } else if kind == 1 && detail == 0 {
            Some(Message::Play)
        } else if kind == 1 && detail == 1 && bytes.len() >= 3 {
            Some(Message::Action(bytes[2]))
        } else if kind == 1 && detail == 2 && bytes.len() >= 3 {
            Some(Message::ValidAction(bytes[2]))
        } else if kind == 1 && detail == 3 {
            Some(Message::InvalidAction)
        } else if kind == 2 && detail == 0 {
            Some(Message::Lose)
        } else if kind == 2 && detail == 1 {
            Some(Message::Draw)
        } else if kind == 2 && detail == 2 {
            Some(Message::Win)
        } else {
            None
        }
    }

    /// The bytes that encode this message.
    pub fn to_bytes(self) -> (r: Vec<u8>)
        ensures
            r@ == encoding(self),
    {
        let r = match self {
            Message::Hello(Player::Red) => vec![0, 0],
            Message::Hello(Player::Yellow) => vec![0, 1],
            Message::Play => vec![1, 0],
            Message::Action(action) => vec![1, 1, action],
            Message::ValidAction(action) => vec![1, 2, action],
            Message::InvalidAction => vec![1, 3],
            Message::Lose => vec![2, 0],
            Message::Draw => vec![2, 1],
            Message::Win => vec![2, 2],
        };
        assert(r@ =~= encoding(self));
        r
    }
}

} // verus!
