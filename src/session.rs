use crate::communication::Message;
use crate::game_logic::{is_legal, label_char, winner, Connect4, Player};
use vstd::prelude::*;

verus! {

/// What a message from the server means to a client that follows the game.
#[derive(Copy, Clone, Debug, PartialEq, Eq, Structural)]
pub enum ClientEvent {
    /// The client has to propose a column.
    YourTurn,
    /// The column that the client proposed was refused.
    Rejected,
    /// The column was played, and the client's copy of the game follows.
    Played(u8),
    /// The game is over; the message says how it ended for the client.
    GameOver,
}

/// The server's judgement of what the player to move sent: where it is an action on a column
/// that can be played, the column is played and returned, to be announced to both players;
/// otherwise the game is unchanged and the proposal refused.
pub fn referee_action(game: &mut Connect4, proposal: &Message) -> (r: Option<u8>)
    requires
        old(game).wf(),
    ensures
        final(game).wf(),
        match *proposal {
            Message::Action(action) => if is_legal(old(game)@, action as int) {
                r == Some(action) && final(game)@ == old(game)@.push(action as usize)
            } else {
                r is None && final(game)@ == old(game)@
            },
            _ => r is None && final(game)@ == old(game)@,
        },
{
    match *proposal {
        Message::Action(action) => {
            if game.valid_action(action as usize) {
                game.play(action as usize);
                Some(action)
            } else {
                None
            }
        },
        _ => None,
    }
}

/// The messages that announce the end of `game` to red and to yellow, in that order.
pub fn final_messages(game: &Connect4) -> (r: (Message, Message))
    requires
        game.wf(),
    ensures
        winner(game@) == Some(Player::Red) ==> r == (Message::Win, Message::Lose),
        winner(game@) == Some(Player::Yellow) ==> r == (Message::Lose, Message::Win),
        winner(game@) is None ==> r == (Message::Draw, Message::Draw),
{
    match game.check_winner() {
        Some(winner) => winner.select(Message::Win, Message::Lose),
        None => (Message::Draw, Message::Draw),
    }
}

/// A client's reading of `message` from the server, with its copy of the game brought up to
/// date. `None` where the message cannot come at this point: a greeting, an action, or a
/// played column that cannot be played.
pub fn client_update(game: &mut Connect4, message: &Message) -> (r: Option<ClientEvent>)
    requires
        old(game).wf(),
    ensures
        final(game).wf(),
        match *message {
            Message::Play => r == Some(ClientEvent::YourTurn) && final(game)@ == old(game)@,
            Message::InvalidAction => r == Some(ClientEvent::Rejected) && final(game)@ == old(
                game,
            )@,
            Message::ValidAction(action) => if is_legal(old(game)@, action as int) {
                r == Some(ClientEvent::Played(action)) && final(game)@ == old(game)@.push(
                    action as usize,
                )
            } else {
                r is None && final(game)@ == old(game)@
            },
            Message::Lose | Message::Draw | Message::Win => r == Some(ClientEvent::GameOver)
                && final(game)@ == old(game)@,
            _ => r is None && final(game)@ == old(game)@,
        },
{
    match *message {
        Message::Play => Some(ClientEvent::YourTurn),
        Message::InvalidAction => Some(ClientEvent::Rejected),
        Message::ValidAction(action) => {
            if game.valid_action(action as usize) {
                game.play(action as usize);
                Some(ClientEvent::Played(action))
            } else {
                None
            }
        },
        Message::Lose | Message::Draw | Message::Win => Some(ClientEvent::GameOver),
        _ => None,
    }
}

/// The moves of `history` made by the player who moves on positions of parity `parity` (0
/// for red, 1 for yellow) among the first `k`, each written as its digit and a semicolon.
pub open spec fn moves_text(history: Seq<u8>, parity: int, k: int) -> Seq<char>
    decreases k,
{
    if k <= 0 {
        Seq::empty()
    } else if (k - 1) % 2 == parity {
        moves_text(history, parity, k - 1) + seq![label_char(history[k - 1] as int), ';']
    } else {
        moves_text(history, parity, k - 1)
    }
}

/// The decimal digit of `d`.
fn decimal_digit(d: u8) -> (r: char)
    requires
        d < 10,
    ensures
        r == label_char(d as int),
{
    match d {
        0 => '0',
        1 => '1',
        2 => '2',
        3 => '3',
        4 => '4',
        5 => '5',
        6 => '6',
        7 => '7',
        8 => '8',
        _ => '9',
    }
}

/// The columns of a game's `history` as a replay lists them: those of red and those of
/// yellow, each as its digit followed by a semicolon.
pub fn moves_by_player(history: &Vec<u8>) -> (r: (Vec<char>, Vec<char>))
    requires
        forall|i: int| 0 <= i < history@.len() ==> #[trigger] history@[i] < 10,
    ensures
        r.0@ == moves_text(history@, 0, history@.len() as int),
        r.1@ == moves_text(history@, 1, history@.len() as int),
{
    let mut red: Vec<char> = Vec::new();
    let mut yellow: Vec<char> = Vec::new();
    let mut i: usize = 0;
    while i < history.len()
        invariant
            i <= history@.len(),
            forall|j: int| 0 <= j < history@.len() ==> #[trigger] history@[j] < 10,
            red@ == moves_text(history@, 0, i as int),
            yellow@ == moves_text(history@, 1, i as int),
        decreases history@.len() - i,
    {
        let digit = decimal_digit(history[i]);
        if i % 2 == 0 {
            red.push(digit);
            red.push(';');
            assert(red@ =~= moves_text(history@, 0, i + 1));
            assert(yellow@ =~= moves_text(history@, 1, i + 1));
        } else {
            yellow.push(digit);
            yellow.push(';');
            assert(red@ =~= moves_text(history@, 0, i + 1));
            assert(yellow@ =~= moves_text(history@, 1, i + 1));
        }
        i += 1;
    }
    (red, yellow)
}

} // verus!
