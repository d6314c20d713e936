use rand::Rng;
use vstd::prelude::*;

verus! {

/// Number of rows of the board.
pub const BOARD_HEIGHT: usize = 6;

/// Number of columns of the board.
pub const BOARD_WIDTH: usize = 7;

/// Number of cells of the board, `BOARD_WIDTH * BOARD_HEIGHT`.
pub const BOARD_SIZE: usize = 42;

/// Length of a run that wins the game.
pub const ALIGN_TARGET: i32 = 4;

/// Length of the longest line through the board: a row.
pub const MAX_CHECK_LEN: usize = 7;

/// The two sides of a game. Red moves first.
#[derive(Copy, Clone, Debug, PartialEq, Eq, Structural)]
pub enum Player {
    Red,
    Yellow,
}

/// Content of one cell of the board.
#[derive(Copy, Clone, Debug, PartialEq, Eq, Structural)]
pub enum Cell {
    Empty,
    Red,
    Yellow,
}

/// The opponent of `p`.
pub open spec fn spec_other(p: Player) -> Player {
    match p {
        Player::Red => Player::Yellow,
        Player::Yellow => Player::Red,
    }
}

/// The token that a player drops.
pub open spec fn token(p: Player) -> Cell {
    match p {
        Player::Red => Cell::Red,
        Player::Yellow => Cell::Yellow,
    }
}

impl Player {
    /// The opponent of this player.
    pub fn other(self) -> (r: Self)
        ensures
            r == spec_other(self),
    {
        match self {
            Player::Red => Player::Yellow,
            Player::Yellow => Player::Red,
        }
    }

    /// The name of the player, as shown to the players.
    pub fn name(self) -> (r: &'static str)
        ensures
            self == Player::Red ==> r@ == "red"@,
            self == Player::Yellow ==> r@ == "yellow"@,
    {
        match self {
            Player::Red => "red",
            Player::Yellow => "yellow",
        }
    }

    /// Orders a pair of values so that the one belonging to this player comes first,
    /// `player_1` belonging to red and `player_2` to yellow.
    pub fn select<T>(self, player_1: T, player_2: T) -> (r: (T, T))
        ensures
            self == Player::Red ==> r == (player_1, player_2),
            self == Player::Yellow ==> r == (player_2, player_1),
    {
        match self {
            Player::Red => (player_1, player_2),
            Player::Yellow => (player_2, player_1),
        }
    }
}

impl From<Player> for Cell {
    fn from(player: Player) -> (r: Cell)
        ensures
            r == token(player),
    {
        match player {
            Player::Red => Cell::Red,
            Player::Yellow => Cell::Yellow,
        }
    }
}

impl vstd::std_specs::convert::FromSpecImpl<Player> for Cell {
    open spec fn obeys_from_spec() -> bool {
        true
    }

    open spec fn from_spec(player: Player) -> Cell {
        token(player)
    }
}

/// The character that shows a cell on a terminal.
pub open spec fn cell_char(cell: Cell) -> char {
    match cell {
        Cell::Empty => ' ',
        Cell::Red => 'X',
        Cell::Yellow => 'O',
    }
}

impl From<Cell> for char {
    fn from(cell: Cell) -> (r: char)
        ensures
            r == cell_char(cell),
    {
        match cell {
            Cell::Empty => ' ',
            Cell::Red => 'X',
            Cell::Yellow => 'O',
        }
    }
}

impl vstd::std_specs::convert::FromSpecImpl<Cell> for char {
    open spec fn obeys_from_spec() -> bool {
        true
    }

    open spec fn from_spec(cell: Cell) -> char {
        cell_char(cell)
    }
}

impl From<Player> for char {
    fn from(player: Player) -> (r: char)
        ensures
            r == cell_char(token(player)),
    {
        char::from(Cell::from(player))
    }
}

impl vstd::std_specs::convert::FromSpecImpl<Player> for char {
    open spec fn obeys_from_spec() -> bool {
        true
    }

    open spec fn from_spec(player: Player) -> char {
        cell_char(token(player))
    }
}


/// The player who makes move number `n` of a game (counted from 0): red on even numbers.
pub open spec fn mover(n: int) -> Player {
    if n % 2 == 0 {
        Player::Red
    } else {
        Player::Yellow
    }
}

/// Number of the moves of `moves` that went into `column`.
pub open spec fn count_in(moves: Seq<usize>, column: int) -> nat
    decreases moves.len(),
{
    if moves.len() == 0 {
        0
    } else {
        count_in(moves.drop_last(), column) + if moves.last() == column {
            1nat
        } else {
            0nat
        }
    }
}

/// Content of the cell at (`row`, `column`) once `moves` have been played from the empty
/// board, each token falling to the lowest empty row of its column.
pub open spec fn history_cell(moves: Seq<usize>, row: int, column: int) -> Cell
    decreases moves.len(),
{
    if moves.len() == 0 {
        Cell::Empty
    } else if moves.last() == column && row == count_in(moves.drop_last(), column) {
        token(mover(moves.len() - 1))
    } else {
        history_cell(moves.drop_last(), row, column)
    }
}

/// A token can be dropped into `column` after `moves`.
pub open spec fn is_legal(moves: Seq<usize>, column: int) -> bool {
    0 <= column < BOARD_WIDTH && count_in(moves, column) < BOARD_HEIGHT
}

/// Every move of the sequence was legal when it was played.
pub open spec fn valid_history(moves: Seq<usize>) -> bool
    decreases moves.len(),
{
    moves.len() == 0 || (valid_history(moves.drop_last()) && is_legal(
        moves.drop_last(),
        moves.last() as int,
    ))
}

/// Every column holds `BOARD_HEIGHT` tokens.
pub open spec fn is_full(moves: Seq<usize>) -> bool {
    forall|c: int| 0 <= c < BOARD_WIDTH ==> #[trigger] count_in(moves, c) == BOARD_HEIGHT
}

/// Row and column of the token placed by the last move.
pub open spec fn last_position(moves: Seq<usize>) -> (int, int) {
    (count_in(moves.drop_last(), moves.last() as int) as int, moves.last() as int)
}

/// Offset of the cell at (`row`, `column`) in the flat board, rows from the bottom.
pub open spec fn cell_index(row: int, column: int) -> int {
    row * BOARD_WIDTH + column
}

/// Adding a move changes the count of its own column only, by one.
pub proof fn lemma_count_push(moves: Seq<usize>, column: usize, c: int)
    ensures
        count_in(moves.push(column), c) == count_in(moves, c) + if c == column {
            1nat
        } else {
            0nat
        },
{
    assert(moves.push(column).drop_last() =~= moves);
}

/// A valid history puts every move in a column of the board, and at most
/// `BOARD_HEIGHT` tokens in each column.
pub proof fn lemma_valid_history_bounds(moves: Seq<usize>)
    requires
        valid_history(moves),
    ensures
        forall|c: int| 0 <= c < BOARD_WIDTH ==> #[trigger] count_in(moves, c) <= BOARD_HEIGHT,
        forall|i: int| 0 <= i < moves.len() ==> #[trigger] moves[i] < BOARD_WIDTH,
    decreases moves.len(),
{
    if moves.len() > 0 {
        let prev = moves.drop_last();
        lemma_valid_history_bounds(prev);
        assert(moves =~= prev.push(moves.last()));
        assert forall|c: int| 0 <= c < BOARD_WIDTH implies #[trigger] count_in(moves, c)
            <= BOARD_HEIGHT by {
            lemma_count_push(prev, moves.last(), c);
        }
        assert forall|i: int| 0 <= i < moves.len() implies #[trigger] moves[i] < BOARD_WIDTH by {
            if i < prev.len() {
                assert(moves[i] == prev[i]);
            }
        }
    }
}

/// A legal move extends a valid history.
pub proof fn lemma_valid_child(moves: Seq<usize>, column: usize)
    requires
        valid_history(moves),
        is_legal(moves, column as int),
    ensures
        valid_history(moves.push(column)),
{
    assert(moves.push(column).drop_last() =~= moves);
}

/// Four cells of `s` equal to `x` start at `i`.
pub open spec fn run_at(s: Seq<Cell>, i: int, x: Cell) -> bool {
    &&& 0 <= i
    &&& i + ALIGN_TARGET <= s.len()
    &&& s[i] == x
    &&& s[i + 1] == x
    &&& s[i + 2] == x
    &&& s[i + 3] == x
}

/// `s` holds `ALIGN_TARGET` consecutive cells equal to `x`.
pub open spec fn has_run(s: Seq<Cell>, x: Cell) -> bool {
    exists|i: int| #[trigger] run_at(s, i, x)
}

/// Number of consecutive cells equal to `x` that end just before position `k` of `s`.
pub open spec fn trailing_run(s: Seq<Cell>, k: int, x: Cell) -> nat
    decreases k,
{
    if k <= 0 {
        0
    } else if s[k - 1] == x {
        trailing_run(s, k - 1, x) + 1
    } else {
        0
    }
}

/// One of the four axes of alignment, as a column step `dx` and a row step `dy`:
/// horizontal, vertical, diagonal up-right, diagonal down-right.
pub open spec fn is_axis(dx: int, dy: int) -> bool {
    (dx == 1 && dy == 0) || (dx == 0 && dy == 1) || (dx == 1 && dy == 1) || (dx == 1 && dy == -1)
}

/// The smaller of `a` and `b`.
pub open spec fn min_int(a: int, b: int) -> int {
    if a <= b {
        a
    } else {
        b
    }
}

/// The maximal line of cells of the board through (`row`, `column`) along the axis
/// (`dx`, `dy`): its length, and the row and column of its first cell.
pub open spec fn line_geometry(row: int, column: int, dx: int, dy: int) -> (int, int, int) {
    if dy == 0 {
        (BOARD_WIDTH as int, row, 0)
    } else if dx == 0 {
        (BOARD_HEIGHT as int, 0, column)
    } else if dy == 1 {
        let back = min_int(row, column);
        let ahead = min_int(BOARD_HEIGHT - 1 - row, BOARD_WIDTH - 1 - column);
        (1 + back + ahead, row - back, column - back)
    } else {
        let back = min_int(BOARD_HEIGHT - 1 - row, column);
        let ahead = min_int(row, BOARD_WIDTH - 1 - column);
        (1 + back + ahead, row + back, column - back)
    }
}

/// Row and column of the cell `k` steps along the axis (`dx`, `dy`) from (`row`, `column`).
pub open spec fn step(row: int, column: int, dx: int, dy: int, k: int) -> (int, int) {
    (row + if dy == 1 {
        k
    } else if dy == -1 {
        -k
    } else {
        0
    }, column + if dx == 1 {
        k
    } else {
        0
    })
}

/// Cell `k` of the maximal line through (`row`, `column`) along (`dx`, `dy`), or `Empty`
/// past its end.
pub open spec fn line_cell(moves: Seq<usize>, row: int, column: int, dx: int, dy: int, k: int) -> Cell {
    let (len, r0, c0) = line_geometry(row, column, dx, dy);
    if 0 <= k < len {
        history_cell(moves, step(r0, c0, dx, dy, k).0, step(r0, c0, dx, dy, k).1)
    } else {
        Cell::Empty
    }
}

/// The cells of the maximal line through (`row`, `column`) along (`dx`, `dy`), in order.
pub open spec fn line_cells(moves: Seq<usize>, row: int, column: int, dx: int, dy: int) -> Seq<Cell> {
    Seq::new(
        line_geometry(row, column, dx, dy).0 as nat,
        |k: int| line_cell(moves, row, column, dx, dy, k),
    )
}

/// The player who made the last move completed `ALIGN_TARGET` of their tokens in a row on
/// one of the four lines through that move.
pub open spec fn last_move_wins(moves: Seq<usize>) -> bool {
    let (r, c) = last_position(moves);
    let t = token(mover(moves.len() - 1));
    &&& moves.len() > 0
    &&& {
        ||| has_run(line_cells(moves, r, c, 1, 0), t)
        ||| has_run(line_cells(moves, r, c, 0, 1), t)
        ||| has_run(line_cells(moves, r, c, 1, 1), t)
        ||| has_run(line_cells(moves, r, c, 1, -1), t)
    }
}

/// The winner that the last move made, if any.
pub open spec fn winner(moves: Seq<usize>) -> Option<Player> {
    if last_move_wins(moves) {
        Some(mover(moves.len() - 1))
    } else {
        None
    }
}

/// The game is over: won by the last move, or drawn on a full board.
pub open spec fn is_over(moves: Seq<usize>) -> bool {
    winner(moves) is Some || is_full(moves)
}

/// The cells of a line lie on the board, and a line is no longer than `MAX_CHECK_LEN`.
pub proof fn lemma_line_in_bounds(row: int, column: int, dx: int, dy: int, k: int)
    requires
        0 <= row < BOARD_HEIGHT,
        0 <= column < BOARD_WIDTH,
        is_axis(dx, dy),
        0 <= k < line_geometry(row, column, dx, dy).0,
    ensures
        ({
            let (len, r0, c0) = line_geometry(row, column, dx, dy);
            let (r, c) = step(r0, c0, dx, dy, k);
            &&& 0 <= r < BOARD_HEIGHT
            &&& 0 <= c < BOARD_WIDTH
            &&& len <= MAX_CHECK_LEN
        }),
{
}

/// Cells past the end of a line are empty, so a run of a player's tokens lies in the line.
proof fn lemma_padded_run(moves: Seq<usize>, row: int, column: int, dx: int, dy: int, pad: Seq<Cell>, t: Cell)
    requires
        0 <= row < BOARD_HEIGHT,
        0 <= column < BOARD_WIDTH,
        is_axis(dx, dy),
        t != Cell::Empty,
        pad.len() == MAX_CHECK_LEN,
        forall|k: int| 0 <= k < MAX_CHECK_LEN ==> pad[k] == #[trigger] line_cell(moves, row, column, dx, dy, k),
    ensures
        has_run(pad, t) == has_run(line_cells(moves, row, column, dx, dy), t),
{
    let line = line_cells(moves, row, column, dx, dy);
    let len = line_geometry(row, column, dx, dy).0;
    assert(len <= MAX_CHECK_LEN) by {
        lemma_line_in_bounds(row, column, dx, dy, 0);
    }
    if has_run(pad, t) {
        let i = choose|i: int| #[trigger] run_at(pad, i, t);
        assert(line_cell(moves, row, column, dx, dy, i + 3) == t);
        assert(run_at(line, i, t));
    }
    if has_run(line, t) {
        let i = choose|i: int| #[trigger] run_at(line, i, t);
        assert(pad[i] == line_cell(moves, row, column, dx, dy, i));
        assert(pad[i + 1] == line_cell(moves, row, column, dx, dy, i + 1));
        assert(pad[i + 2] == line_cell(moves, row, column, dx, dy, i + 2));
        assert(pad[i + 3] == line_cell(moves, row, column, dx, dy, i + 3));
        assert(run_at(pad, i, t));
    }
}

/// Before any move, no line holds a token.
proof fn lemma_empty_line_no_run(moves: Seq<usize>, row: int, column: int, dx: int, dy: int, t: Cell)
    requires
        moves.len() == 0,
        t != Cell::Empty,
    ensures
        !has_run(line_cells(moves, row, column, dx, dy), t),
{
    let line = line_cells(moves, row, column, dx, dy);
    if has_run(line, t) {
        let i = choose|i: int| #[trigger] run_at(line, i, t);
        assert(line[i] == line_cell(moves, row, column, dx, dy, i));
    }
}

/// A prefix of a history holds at most as many moves into a column as the whole.
proof fn lemma_count_prefix(moves: Seq<usize>, k: int, column: int)
    requires
        0 <= k <= moves.len(),
    ensures
        count_in(moves.take(k), column) <= count_in(moves, column),
    decreases moves.len(),
{
    if k < moves.len() {
        let prev = moves.drop_last();
        assert(moves.take(k) =~= prev.take(k));
        lemma_count_prefix(prev, k, column);
    } else {
        assert(moves.take(k) =~= moves);
    }
}

/// Cells at or above the number of tokens of their column are empty.
pub proof fn lemma_rows_above_empty(moves: Seq<usize>, row: int, column: int)
    requires
        count_in(moves, column) <= row,
    ensures
        history_cell(moves, row, column) == Cell::Empty,
    decreases moves.len(),
{
    if moves.len() > 0 {
        lemma_rows_above_empty(moves.drop_last(), row, column);
    }
}

/// Tokens stack up in their column: the move at position `i` of a history lands in its
/// column on the row given by the number of earlier moves into that column, and the cell
/// holds the token of the player who made that move, whatever was played after it.
pub proof fn lemma_column_stack(moves: Seq<usize>, i: int)
    requires
        0 <= i < moves.len(),
    ensures
        history_cell(moves, count_in(moves.take(i), moves[i] as int) as int, moves[i] as int)
            == token(mover(i)),
    decreases moves.len(),
{
    let prev = moves.drop_last();
    let column = moves[i] as int;
    if i == moves.len() - 1 {
        assert(moves.take(i) =~= prev);
    } else {
        assert(moves.take(i) =~= prev.take(i));
        assert(prev[i] == moves[i]);
        lemma_column_stack(prev, i);
        assert(prev.take(i + 1).drop_last() =~= prev.take(i));
        lemma_count_prefix(prev, i + 1, column);
    }
}

/// Cell (`pos.0`, `pos.1`) lies on the board and holds `t`.
pub open spec fn holds(moves: Seq<usize>, pos: (int, int), t: Cell) -> bool {
    &&& 0 <= pos.0 < BOARD_HEIGHT
    &&& 0 <= pos.1 < BOARD_WIDTH
    &&& history_cell(moves, pos.0, pos.1) == t
}

/// The `ALIGN_TARGET` cells from (`row`, `column`) on along the axis (`dx`, `dy`) lie on the
/// board and hold `t`.
pub open spec fn four_from(moves: Seq<usize>, row: int, column: int, dx: int, dy: int, t: Cell) -> bool {
    &&& holds(moves, step(row, column, dx, dy, 0), t)
    &&& holds(moves, step(row, column, dx, dy, 1), t)
    &&& holds(moves, step(row, column, dx, dy, 2), t)
    &&& holds(moves, step(row, column, dx, dy, 3), t)
}

/// The last move completed `ALIGN_TARGET` tokens of its player in a row along the axis
/// (`dx`, `dy`), in a run that starts `back` cells (0 to 3) before the cell of that move.
pub open spec fn completes(moves: Seq<usize>, dx: int, dy: int, back: int) -> bool {
    let (row, column) = last_position(moves);
    let (r, c) = step(row, column, dx, dy, -back);
    &&& moves.len() > 0
    &&& is_axis(dx, dy)
    &&& 0 <= back < ALIGN_TARGET
    &&& four_from(moves, r, c, dx, dy, token(mover(moves.len() - 1)))
}

/// A move that completes `ALIGN_TARGET` tokens of its player in a row, along any of the four
/// axes, wins.
#[verifier::rlimit(40)]
pub proof fn lemma_completing_move_wins(moves: Seq<usize>, dx: int, dy: int, back: int)
    requires
        valid_history(moves),
        completes(moves, dx, dy, back),
    ensures
        winner(moves) == Some(mover(moves.len() - 1)),
{
    let (row, column) = last_position(moves);
    let t = token(mover(moves.len() - 1));
    let prev = moves.drop_last();
    assert(prev.push(moves.last()) =~= moves);
    lemma_count_push(prev, moves.last(), column);
    lemma_valid_history_bounds(moves);
    assert(moves[moves.len() - 1] < BOARD_WIDTH);
    let (len, r0, c0) = line_geometry(row, column, dx, dy);
    let start = if dy == 0 {
        column
    } else if dx == 0 {
        row
    } else {
        column - c0
    };
    let i = start - back;
    let line = line_cells(moves, row, column, dx, dy);
    let (r, c) = step(row, column, dx, dy, -back);
    assert(step(r0, c0, dx, dy, i) == step(row, column, dx, dy, -back));
    assert(step(r0, c0, dx, dy, i + 1) == step(r, c, dx, dy, 1));
    assert(step(r0, c0, dx, dy, i + 2) == step(r, c, dx, dy, 2));
    assert(step(r0, c0, dx, dy, i + 3) == step(r, c, dx, dy, 3));
    assert(0 <= i && i + 3 < len);
    assert(line[i] == t);
    assert(line[i + 1] == t);
    assert(line[i + 2] == t);
    assert(line[i + 3] == t);
    assert(run_at(line, i, t));
}

/// A reported winner is the player who made the last move, and the board holds
/// `ALIGN_TARGET` of that player's tokens in a row: a position without such a row reports
/// no winner.
pub proof fn lemma_winner_has_four(moves: Seq<usize>)
    requires
        valid_history(moves),
        winner(moves) is Some,
    ensures
        winner(moves) == Some(mover(moves.len() - 1)),
        exists|r: int, c: int, dx: int, dy: int|
            is_axis(dx, dy) && #[trigger] four_from(moves, r, c, dx, dy, token(mover(moves.len() - 1))),
{
    let (row, column) = last_position(moves);
    let t = token(mover(moves.len() - 1));
    let prev = moves.drop_last();
    assert(prev.push(moves.last()) =~= moves);
    lemma_count_push(prev, moves.last(), column);
    lemma_valid_history_bounds(moves);
    assert(moves[moves.len() - 1] < BOARD_WIDTH);
    let (dx, dy) = if has_run(line_cells(moves, row, column, 1, 0), t) {
        (1int, 0int)
    } else if has_run(line_cells(moves, row, column, 0, 1), t) {
        (0int, 1int)
    } else if has_run(line_cells(moves, row, column, 1, 1), t) {
        (1int, 1int)
    } else {
        (1int, -1int)
    };
    let line = line_cells(moves, row, column, dx, dy);
    let i = choose|i: int| #[trigger] run_at(line, i, t);
    let (len, r0, c0) = line_geometry(row, column, dx, dy);
    let (r, c) = step(r0, c0, dx, dy, i);
    lemma_line_in_bounds(row, column, dx, dy, i);
    lemma_line_in_bounds(row, column, dx, dy, i + 1);
    lemma_line_in_bounds(row, column, dx, dy, i + 2);
    lemma_line_in_bounds(row, column, dx, dy, i + 3);
    assert(line[i] == t && line[i + 1] == t && line[i + 2] == t && line[i + 3] == t);
    assert(step(r, c, dx, dy, 1) == step(r0, c0, dx, dy, i + 1));
    assert(step(r, c, dx, dy, 2) == step(r0, c0, dx, dy, i + 2));
    assert(step(r, c, dx, dy, 3) == step(r0, c0, dx, dy, i + 3));
    assert(four_from(moves, r, c, dx, dy, t));
}

/// Only the last move changes the board: every other cell holds what it held before it.
proof fn lemma_other_cells_unchanged(moves: Seq<usize>, row: int, column: int)
    requires
        moves.len() > 0,
        (row, column) != last_position(moves),
    ensures
        history_cell(moves, row, column) == history_cell(moves.drop_last(), row, column),
{
}

/// In a game where no earlier position had a winner, every run of `ALIGN_TARGET` equal
/// tokens on the board goes through the cell of the last move, and is made of the tokens of
/// the player who made it.
proof fn lemma_runs_through_last(moves: Seq<usize>, r: int, c: int, dx: int, dy: int, t: Cell)
    requires
        valid_history(moves),
        is_axis(dx, dy),
        t != Cell::Empty,
        four_from(moves, r, c, dx, dy, t),
        forall|k: int| 0 < k < moves.len() ==> #[trigger] winner(moves.take(k)) is None,
    ensures
        moves.len() > 0,
        t == token(mover(moves.len() - 1)),
        exists|j: int| 0 <= j < ALIGN_TARGET && #[trigger] step(r, c, dx, dy, j) == last_position(moves),
    decreases moves.len(),
{
    if moves.len() == 0 {
        assert(history_cell(moves, step(r, c, dx, dy, 0).0, step(r, c, dx, dy, 0).1) == Cell::Empty);
    } else {
        let last = last_position(moves);
        let prev = moves.drop_last();
        if step(r, c, dx, dy, 0) == last {
            assert(step(r, c, dx, dy, 0) == last_position(moves));
        } else if step(r, c, dx, dy, 1) == last {
            assert(step(r, c, dx, dy, 1) == last_position(moves));
        } else if step(r, c, dx, dy, 2) == last {
            assert(step(r, c, dx, dy, 2) == last_position(moves));
        } else if step(r, c, dx, dy, 3) == last {
            assert(step(r, c, dx, dy, 3) == last_position(moves));
        } else {
            lemma_other_cells_unchanged(moves, step(r, c, dx, dy, 0).0, step(r, c, dx, dy, 0).1);
            lemma_other_cells_unchanged(moves, step(r, c, dx, dy, 1).0, step(r, c, dx, dy, 1).1);
            lemma_other_cells_unchanged(moves, step(r, c, dx, dy, 2).0, step(r, c, dx, dy, 2).1);
            lemma_other_cells_unchanged(moves, step(r, c, dx, dy, 3).0, step(r, c, dx, dy, 3).1);
            assert(four_from(prev, r, c, dx, dy, t));
            assert forall|k: int| 0 < k < prev.len() implies #[trigger] winner(prev.take(k)) is None by {
                assert(prev.take(k) =~= moves.take(k));
                assert(winner(moves.take(k)) is None);
            }
            lemma_runs_through_last(prev, r, c, dx, dy, t);
            let j = choose|j: int| 0 <= j < ALIGN_TARGET && #[trigger] step(r, c, dx, dy, j) == last_position(prev);
            let (pr, pc) = last_position(prev);
            assert(step(pr, pc, dx, dy, -j) == (r, c));
            assert(completes(prev, dx, dy, j));
            lemma_completing_move_wins(prev, dx, dy, j);
            assert(moves.take(moves.len() - 1) =~= prev);
            assert(winner(moves.take(moves.len() - 1)) is None);
        }
        if exists|j: int| 0 <= j < ALIGN_TARGET && #[trigger] step(r, c, dx, dy, j) == last_position(moves) {
            let j = choose|j: int| 0 <= j < ALIGN_TARGET && #[trigger] step(r, c, dx, dy, j) == last_position(moves);
            assert(holds(moves, step(r, c, dx, dy, j), t));
        }
    }
}

/// In a game where no earlier position had a winner, the last move wins exactly when it
/// completes `ALIGN_TARGET` tokens of its player in a row through its own cell, along one of
/// the four axes.
pub proof fn lemma_first_win(moves: Seq<usize>)
    requires
        valid_history(moves),
        forall|k: int| 0 < k < moves.len() ==> #[trigger] winner(moves.take(k)) is None,
    ensures
        winner(moves) is Some <==> exists|dx: int, dy: int, back: int| #[trigger] completes(moves, dx, dy, back),
{
    if winner(moves) is Some {
        lemma_winner_has_four(moves);
        let t = token(mover(moves.len() - 1));
        let (r, c, dx, dy) = choose|r: int, c: int, dx: int, dy: int|
            is_axis(dx, dy) && #[trigger] four_from(moves, r, c, dx, dy, t);
        lemma_runs_through_last(moves, r, c, dx, dy, t);
        let j = choose|j: int| 0 <= j < ALIGN_TARGET && #[trigger] step(r, c, dx, dy, j) == last_position(moves);
        let (row, column) = last_position(moves);
        assert(step(row, column, dx, dy, -j) == (r, c));
        assert(completes(moves, dx, dy, j));
    }
    if exists|dx: int, dy: int, back: int| #[trigger] completes(moves, dx, dy, back) {
        let (dx, dy, back) = choose|dx: int, dy: int, back: int| #[trigger] completes(moves, dx, dy, back);
        lemma_completing_move_wins(moves, dx, dy, back);
    }
}

/// Relies on `rand::Rng::gen_range` over `0..n` with the generator of `rand::thread_rng`: the
/// value lies in the range, and the call panics where the range is empty.
#[verifier::external_body]
fn random_below(n: usize) -> (r: usize)
    requires
        n > 0,
    ensures
        r < n,
{
    rand::thread_rng().gen_range(0..n)
}

/// Text of the first `k` cells of `row`, each between two bars.
pub open spec fn row_cells_text(moves: Seq<usize>, row: int, k: int) -> Seq<char>
    decreases k,
{
    if k <= 0 {
        Seq::empty()
    } else {
        row_cells_text(moves, row, k - 1) + seq!['|', cell_char(history_cell(moves, row, k - 1)), '|']
    }
}

/// Text of the top `n` rows of the board, from the top down, each ended by a newline.
pub open spec fn rows_text(moves: Seq<usize>, n: int) -> Seq<char>
    decreases n,
{
    if n <= 0 {
        Seq::empty()
    } else {
        rows_text(moves, n - 1) + row_cells_text(moves, BOARD_HEIGHT - n, BOARD_WIDTH as int).push(
            '\n',
        )
    }
}

/// The digit that labels `column`.
pub open spec fn label_char(column: int) -> char {
    ('0' as int + column) as char
}

/// The labels of the first `k` columns, each between two spaces.
pub open spec fn footer_text(k: int) -> Seq<char>
    decreases k,
{
    if k <= 0 {
        Seq::empty()
    } else {
        footer_text(k - 1) + seq![' ', label_char(k - 1), ' ']
    }
}

/// The picture of the board after `moves`: the rows from the top down, then the column labels.
pub open spec fn board_text(moves: Seq<usize>) -> Seq<char> {
    rows_text(moves, BOARD_HEIGHT as int) + footer_text(BOARD_WIDTH as int)
}

/// The digit that labels `column`.
fn column_label(column: usize) -> (r: char)
    requires
        column < BOARD_WIDTH,
    ensures
        r == label_char(column as int),
{
    match column {
        0 => '0',
        1 => '1',
        2 => '2',
        3 => '3',
        4 => '4',
        5 => '5',
        _ => '6',
    }
}

/// The state of a game of connect four.
#[derive(Debug, PartialEq, Eq)]
pub struct Connect4 {
    /// Cells from bottom to top, row by row: cell (row, column) is at `row * BOARD_WIDTH + column`.
    pub board: [Cell; BOARD_SIZE],
    /// For each column, the number of its non-empty cells.
    columns_height: [usize; BOARD_WIDTH],
    /// The player who plays the next move.
    pub to_play: Player,
    /// Row and column of the last token placed.
    last_move: (usize, usize),
    /// The columns played so far, in order.
    played_moves: Vec<usize>,
}

/// A game is seen as the sequence of the columns played: everything else is a function of it.
impl View for Connect4 {
    type V = Seq<usize>;

    closed spec fn view(&self) -> Seq<usize> {
        self.played_moves@
    }
}

impl Connect4 {
    /// The fields agree with the history of the game.
    pub closed spec fn wf(&self) -> bool {
        let m = self.played_moves@;
        &&& valid_history(m)
        &&& forall|c: int|
            0 <= c < BOARD_WIDTH ==> #[trigger] self.columns_height@[c] == count_in(m, c)
        &&& forall|r: int, c: int|
            0 <= r < BOARD_HEIGHT && 0 <= c < BOARD_WIDTH ==> self.board@[cell_index(r, c)]
                == #[trigger] history_cell(m, r, c)
        &&& self.to_play == mover(m.len() as int)
        &&& self.last_move.0 < BOARD_HEIGHT && self.last_move.1 < BOARD_WIDTH
        &&& m.len() > 0 ==> self.last_move.0 == last_position(m).0 && self.last_move.1
            == last_position(m).1
    }

    /// The player who plays the next move.
    pub fn next_player(&self) -> (r: Player)
        requires
            self.wf(),
        ensures
            r == mover(self@.len() as int),
    {
        self.to_play
    }

    /// Every history that a well-formed game holds is valid.
    pub proof fn lemma_valid(&self)
        requires
            self.wf(),
        ensures
            valid_history(self@),
    {
    }

    /// Create an empty board to start a game.
    pub fn new() -> (r: Self)
        ensures
            r.wf(),
            r@ == Seq::<usize>::empty(),
    {
        let r = Connect4 {
            board: [Cell::Empty; BOARD_SIZE],
            columns_height: [0; BOARD_WIDTH],
            to_play: Player::Red,
            last_move: (0, 0),
            played_moves: Vec::new(),
        };
        assert forall|rr: int, c: int|
            0 <= rr < BOARD_HEIGHT && 0 <= c < BOARD_WIDTH implies r.board@[cell_index(rr, c)]
                == #[trigger] history_cell(r.played_moves@, rr, c) by {
            assert(0 <= cell_index(rr, c) < BOARD_SIZE);
        }
        r
    }

    /// Number of tokens in `column`.
    pub fn column_height(&self, column: usize) -> (r: usize)
        requires
            self.wf(),
            column < BOARD_WIDTH,
        ensures
            r == count_in(self@, column as int),
    {
        self.columns_height[column]
    }

    /// Verify if an action is valid: the column is on the board and is not full.
    pub fn valid_action(&self, column: usize) -> (r: bool)
        requires
            self.wf(),
        ensures
            r == is_legal(self@, column as int),
    {
        column < BOARD_WIDTH && self.columns_height[column] < BOARD_HEIGHT
    }

    /// Check if the board is fully completed.
    pub fn check_full(&self) -> (r: bool)
        requires
            self.wf(),
        ensures
            r == is_full(self@),
    {
        let mut column: usize = 0;
        while column < BOARD_WIDTH
            invariant
                self.wf(),
                column <= BOARD_WIDTH,
                forall|c: int| 0 <= c < column ==> #[trigger] count_in(self@, c) == BOARD_HEIGHT,
            decreases BOARD_WIDTH - column,
        {
            if self.columns_height[column] != BOARD_HEIGHT {
                assert(count_in(self@, column as int) != BOARD_HEIGHT);
                return false;
            }
            column += 1;
        }
        true
    }

    /// Offset of the cell at (`row`, `column`) in `board`.
    fn index(row: usize, column: usize) -> (r: usize)
        requires
            row < BOARD_HEIGHT,
            column < BOARD_WIDTH,
        ensures
            r == cell_index(row as int, column as int),
            r < BOARD_SIZE,
    {
        BOARD_WIDTH * row + column
    }

    /// Content of the cell at (`row`, `column`), for callers that checked the coordinates.
    pub(crate) fn at(&self, row: usize, column: usize) -> (r: Cell)
        requires
            self.wf(),
            row < BOARD_HEIGHT,
            column < BOARD_WIDTH,
        ensures
            r == history_cell(self@, row as int, column as int),
    {
        self.board[Self::index(row, column)]
    }

    /// Content of the cell at (`row`, `column`), or `None` where the coordinates are
    /// outside the board.
    pub fn cell(&self, row: usize, column: usize) -> (r: Option<Cell>)
        requires
            self.wf(),
        ensures
            row < BOARD_HEIGHT && column < BOARD_WIDTH ==> r == Some(
                history_cell(self@, row as int, column as int),
            ),
            !(row < BOARD_HEIGHT && column < BOARD_WIDTH) ==> r is None,
    {
        if row < BOARD_HEIGHT && column < BOARD_WIDTH {
            Some(self.board[Self::index(row, column)])
        } else {
            None
        }
    }

    /// Verify if there are `ALIGN_TARGET` cells of `player` in a row in `list`.
    fn check_winner_list(player: Player, list: [Cell; MAX_CHECK_LEN]) -> (r: bool)
        ensures
            r == has_run(list@, token(player)),
    {
        let mut count: i32 = 0;
        let target = Cell::from(player);
        let mut k: usize = 0;
        while k < MAX_CHECK_LEN
            invariant
                k <= MAX_CHECK_LEN,
                target == token(player),
                count == trailing_run(list@, k as int, target),
                count < ALIGN_TARGET,
                forall|i: int| 0 <= i && i + ALIGN_TARGET <= k ==> !#[trigger] run_at(list@, i, target),
            decreases MAX_CHECK_LEN - k,
        {
            let ghost s = list@;
            if list[k] == target {
                count += 1;
                if count == ALIGN_TARGET {
                    assert(run_at(s, k - 3, target)) by {
                        assert(trailing_run(s, k + 1, target) == 4);
                        assert(trailing_run(s, k as int, target) == 3);
                        assert(trailing_run(s, k - 1, target) == 2);
                        assert(trailing_run(s, k - 2, target) == 1);
                    }
                    return true;
                }
            } else {
                count = 0;
            }
            proof {
                assert forall|i: int| 0 <= i && i + ALIGN_TARGET <= k + 1 implies !#[trigger] run_at(
                    s,
                    i,
                    target,
                ) by {
                    if i + ALIGN_TARGET == k + 1 && run_at(s, i, target) {
                        assert(trailing_run(s, k - 2, target) >= 1);
                        assert(trailing_run(s, k - 1, target) >= 2);
                        assert(trailing_run(s, k as int, target) >= 3);
                        assert(trailing_run(s, k + 1, target) >= 4);
                    }
                }
            }
            k += 1;
        }
        false
    }

    /// Length and first cell of the maximal line through `pos` (row, column) along `dir`
    /// (column step, row step).
    fn compute_indices(pos: (i32, i32), dir: (i32, i32)) -> (r: (usize, i32, i32))
        requires
            0 <= pos.0 < BOARD_HEIGHT,
            0 <= pos.1 < BOARD_WIDTH,
            is_axis(dir.0 as int, dir.1 as int),
        ensures
            r.0 as int == line_geometry(pos.0 as int, pos.1 as int, dir.0 as int, dir.1 as int).0,
            r.1 as int == line_geometry(pos.0 as int, pos.1 as int, dir.0 as int, dir.1 as int).1,
            r.2 as int == line_geometry(pos.0 as int, pos.1 as int, dir.0 as int, dir.1 as int).2,
    {
        let (row, column) = pos;
        let (dx, dy) = dir;
        if dy == 0 {
            (BOARD_WIDTH, row, 0)
        } else if dx == 0 {
            (BOARD_HEIGHT, 0, column)
        } else {
            let height = BOARD_HEIGHT as i32;
            let width = BOARD_WIDTH as i32;
            let (pos_row, neg_row) = if dy == 1 {
                (row, height - 1 - row)
            } else {
                (height - 1 - row, row)
            };
            let mini = if pos_row <= column {
                pos_row
            } else {
                column
            };
            let maxi = if neg_row <= width - 1 - column {
                neg_row
            } else {
                width - 1 - column
            };
            let start_row = if dy == 1 {
                row - mini
            } else {
                row + mini
            };
            ((1 + mini + maxi) as usize, start_row, column - mini)
        }
    }

    /// The cells of the maximal line through `pos` along `dir`, padded with `Empty`.
    fn sub_board(&self, pos: (usize, usize), dir: (i32, i32)) -> (r: [Cell; MAX_CHECK_LEN])
        requires
            self.wf(),
            pos.0 < BOARD_HEIGHT,
            pos.1 < BOARD_WIDTH,
            is_axis(dir.0 as int, dir.1 as int),
        ensures
            forall|k: int|
                0 <= k < MAX_CHECK_LEN ==> r@[k] == #[trigger] line_cell(
                    self@,
                    pos.0 as int,
                    pos.1 as int,
                    dir.0 as int,
                    dir.1 as int,
                    k,
                ),
    {
        let (dx, dy) = dir;
        let (len, mut i, mut j) = Self::compute_indices((pos.0 as i32, pos.1 as i32), dir);
        let ghost (row, column) = (pos.0 as int, pos.1 as int);
        let ghost (r0, c0) = (i as int, j as int);
        proof {
            lemma_line_in_bounds(row, column, dx as int, dy as int, 0);
        }
        let mut check_slice = [Cell::Empty; MAX_CHECK_LEN];
        let mut ind: usize = 0;
        while ind < len
            invariant
                self.wf(),
                is_axis(dx as int, dy as int),
                0 <= row < BOARD_HEIGHT,
                0 <= column < BOARD_WIDTH,
                len as int == line_geometry(row, column, dx as int, dy as int).0,
                r0 == line_geometry(row, column, dx as int, dy as int).1,
                c0 == line_geometry(row, column, dx as int, dy as int).2,
                len <= MAX_CHECK_LEN,
                ind <= len,
                i as int == step(r0, c0, dx as int, dy as int, ind as int).0,
                j as int == step(r0, c0, dx as int, dy as int, ind as int).1,
                forall|k: int|
                    0 <= k < ind ==> check_slice@[k] == #[trigger] line_cell(
                        self@,
                        row,
                        column,
                        dx as int,
                        dy as int,
                        k,
                    ),
                forall|k: int| ind <= k < MAX_CHECK_LEN ==> check_slice@[k] == Cell::Empty,
            decreases len - ind,
        {
            proof {
                lemma_line_in_bounds(row, column, dx as int, dy as int, ind as int);
            }
            check_slice[ind] = self.at(i as usize, j as usize);
            i += dy;
            j += dx;
            ind += 1;
        }
        check_slice
    }

    /// Check if the last move won the game: `Some` of the player who made it, or `None`.
    pub fn check_winner(&self) -> (r: Option<Player>)
        requires
            self.wf(),
        ensures
            r == winner(self@),
    {
        let player = self.to_play.other();
        let pos = self.last_move;
        let ghost m = self@;
        let ghost t = token(player);
        proof {
            if m.len() > 0 {
                lemma_valid_history_bounds(m);
                assert(m.drop_last().push(m.last()) =~= m);
                lemma_count_push(m.drop_last(), m.last(), m.last() as int);
            }
        }
        let horizontal = self.sub_board(pos, (1, 0));
        let vertical = self.sub_board(pos, (0, 1));
        let diagonal_up = self.sub_board(pos, (1, 1));
        let diagonal_down = self.sub_board(pos, (1, -1));
        proof {
            let (r, c) = (pos.0 as int, pos.1 as int);
            lemma_padded_run(m, r, c, 1, 0, horizontal@, t);
            lemma_padded_run(m, r, c, 0, 1, vertical@, t);
            lemma_padded_run(m, r, c, 1, 1, diagonal_up@, t);
            lemma_padded_run(m, r, c, 1, -1, diagonal_down@, t);
            if m.len() == 0 {
                lemma_empty_line_no_run(m, r, c, 1, 0, t);
                lemma_empty_line_no_run(m, r, c, 0, 1, t);
                lemma_empty_line_no_run(m, r, c, 1, 1, t);
                lemma_empty_line_no_run(m, r, c, 1, -1, t);
            }
        }
        let winner = Self::check_winner_list(player, horizontal) || Self::check_winner_list(
            player,
            vertical,
        ) || Self::check_winner_list(player, diagonal_up) || Self::check_winner_list(
            player,
            diagonal_down,
        );
        if winner {
            Some(player)
        } else {
            None
        }
    }

    /// Check if the game is over: won by the last move, or drawn on a full board.
    pub fn over(&self) -> (r: bool)
        requires
            self.wf(),
        ensures
            r == is_over(self@),
    {
        self.check_winner().is_some() || self.check_full()
    }

    /// The columns that can be played, in increasing order.
    pub fn possible_moves(&self) -> (r: Vec<usize>)
        requires
            self.wf(),
        ensures
            forall|i: int, j: int| 0 <= i < j < r@.len() ==> r@[i] < r@[j],
            forall|i: int| 0 <= i < r@.len() ==> is_legal(self@, #[trigger] r@[i] as int),
            forall|c: int| is_legal(self@, c) ==> r@.contains(c as usize),
    {
        let mut possible_moves: Vec<usize> = Vec::new();
        let mut column: usize = 0;
        while column < BOARD_WIDTH
            invariant
                self.wf(),
                column <= BOARD_WIDTH,
                forall|i: int, j: int|
                    0 <= i < j < possible_moves@.len() ==> possible_moves@[i] < possible_moves@[j],
                forall|i: int|
                    0 <= i < possible_moves@.len() ==> possible_moves@[i] < column && is_legal(
                        self@,
                        #[trigger] possible_moves@[i] as int,
                    ),
                forall|c: int| 0 <= c < column && is_legal(self@, c) ==> possible_moves@.contains(c as usize),
            decreases BOARD_WIDTH - column,
        {
            if self.columns_height[column] < BOARD_HEIGHT {
                let ghost before = possible_moves@;
                possible_moves.push(column);
                proof {
                    assert forall|c: int| 0 <= c < column + 1 && is_legal(self@, c) implies possible_moves@.contains(
                        c as usize,
                    ) by {
                        if c < column {
                            let k = choose|k: int| 0 <= k < before.len() && before[k] == c as usize;
                            assert(possible_moves@[k] == c as usize);
                        } else {
                            assert(possible_moves@[before.len() as int] == c as usize);
                        }
                    }
                }
            }
            column += 1;
        }
        possible_moves
    }

    /// Play one of the columns that can be played, picked at random.
    pub fn play_random_move(&mut self)
        requires
            old(self).wf(),
            !is_full(old(self)@),
        ensures
            final(self).wf(),
            exists|column: usize|
                is_legal(old(self)@, column as int) && final(self)@ == old(self)@.push(column),
    {
        let possible_moves = self.possible_moves();
        proof {
            lemma_valid_history_bounds(self@);
            let c = choose|c: int| 0 <= c < BOARD_WIDTH && #[trigger] count_in(self@, c) != BOARD_HEIGHT;
            assert(is_legal(self@, c));
            assert(possible_moves@.contains(c as usize));
        }
        let chosen_index = random_below(possible_moves.len());
        let column = possible_moves[chosen_index];
        self.play(column);
    }

    /// The picture of the board for a terminal: one line per row from the top down, each
    /// cell between two bars, then the label of each column.
    pub fn render(&self) -> (r: Vec<char>)
        requires
            self.wf(),
        ensures
            r@ == board_text(self@),
    {
        let ghost m = self@;
        let mut text: Vec<char> = Vec::new();
        let mut n: usize = 0;
        while n < BOARD_HEIGHT
            invariant
                self.wf(),
                m == self@,
                n <= BOARD_HEIGHT,
                text@ == rows_text(m, n as int),
            decreases BOARD_HEIGHT - n,
        {
            let row = BOARD_HEIGHT - 1 - n;
            let ghost before = text@;
            let mut column: usize = 0;
            while column < BOARD_WIDTH
                invariant
                    self.wf(),
                    m == self@,
                    row < BOARD_HEIGHT,
                    column <= BOARD_WIDTH,
                    text@ == before + row_cells_text(m, row as int, column as int),
                decreases BOARD_WIDTH - column,
            {
                let ghost prev = text@;
                text.push('|');
                text.push(char::from(self.at(row, column)));
                text.push('|');
                assert(text@ =~= before + row_cells_text(m, row as int, column + 1));
                column += 1;
            }
            text.push('\n');
            assert(text@ =~= rows_text(m, n + 1));
            n += 1;
        }
        let ghost rows = text@;
        let mut column: usize = 0;
        while column < BOARD_WIDTH
            invariant
                column <= BOARD_WIDTH,
                text@ == rows + footer_text(column as int),
            decreases BOARD_WIDTH - column,
        {
            text.push(' ');
            text.push(column_label(column));
            text.push(' ');
            assert(text@ =~= rows + footer_text(column + 1));
            column += 1;
        }
        text
    }

    /// Play a move in `column`, which must be valid: the token of the player to move falls
    /// to the lowest empty row of the column, and the other player is to move.
    pub fn play(&mut self, column: usize)
        requires
            old(self).wf(),
            is_legal(old(self)@, column as int),
        ensures
            final(self).wf(),
            final(self)@ == old(self)@.push(column),
    {
        let ghost m = self.played_moves@;
        let row_move = self.columns_height[column];
        let index = Self::index(row_move, column);
        self.board[index] = Cell::from(self.to_play);
        self.to_play = self.to_play.other();
        self.columns_height[column] = row_move + 1;
        self.last_move = (row_move, column);
        self.played_moves.push(column);
        proof {
            let m2 = self.played_moves@;
            assert(m2.drop_last() =~= m);
            assert forall|c: int| 0 <= c < BOARD_WIDTH implies #[trigger] self.columns_height@[c]
                == count_in(m2, c) by {
                lemma_count_push(m, column, c);
            }
            assert forall|r: int, c: int|
                0 <= r < BOARD_HEIGHT && 0 <= c < BOARD_WIDTH implies self.board@[cell_index(r, c)]
                    == #[trigger] history_cell(m2, r, c) by {
                assert(old(self).board@[cell_index(r, c)] == history_cell(m, r, c));
            }
        }
    }
}

impl Clone for Connect4 {
    fn clone(&self) -> (r: Self)
        ensures
            r@ == self@,
            self.wf() ==> r.wf(),
    {
        let played_moves = self.played_moves.clone();
        assert(played_moves@ =~= self.played_moves@);
        Connect4 {
            board: self.board,
            columns_height: self.columns_height,
            to_play: self.to_play,
            last_move: self.last_move,
            played_moves,
        }
    }
}

} // verus!
