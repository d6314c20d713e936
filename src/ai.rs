use crate::game_logic::{
    count_in, history_cell, is_full, is_legal, mover, spec_other, token, valid_history, winner,
    cell_index, Cell, Connect4, BOARD_HEIGHT, BOARD_SIZE, BOARD_WIDTH,
};
use vstd::prelude::*;
use vstd::rwlock::{RwLock, RwLockPredicate};

verus! {

/// Positional weight of each cell, in the layout of the board: highest at the centre
/// column and in the middle rows.
pub const VALUES: [i32; BOARD_SIZE] = [
    3, 6, 10, 15, 10, 6, 3, 4, 7, 12, 17, 12, 7, 4, 5, 8, 15, 22, 15, 8, 5, 4, 8, 14, 19, 14, 8, 4,
    3, 7, 11, 16, 11, 7, 3, 2, 5, 9, 12, 9, 5, 2,
];

/// Order in which the moves of a node are searched: from the centre to the sides.
pub const PRIORITY_MOVES: [usize; BOARD_WIDTH] = [3, 2, 4, 1, 5, 0, 6];

/// Largest weight of `VALUES`.
pub const MAX_WEIGHT: i32 = 22;

/// Score of a node for the player to move there: a maximizer takes the largest score of
/// its children, a minimizer the smallest.
#[derive(Copy, Clone, Debug, PartialEq, Eq, Structural)]
pub enum MinMax {
    Min,
    Max,
}

/// The role of the opponent of a player in `role`.
pub open spec fn opposite(role: MinMax) -> MinMax {
    match role {
        MinMax::Min => MinMax::Max,
        MinMax::Max => MinMax::Min,
    }
}

/// `y` is strictly better than `x` for `role`.
pub open spec fn better(role: MinMax, x: int, y: int) -> bool {
    match role {
        MinMax::Min => x > y,
        MinMax::Max => x < y,
    }
}

/// The worst score for `role`: where a minimizer or a maximizer starts its search, and what a
/// node is worth where the opponent of the player to move has just won.
pub open spec fn start_value(role: MinMax) -> int {
    match role {
        MinMax::Min => i32::MAX as int,
        MinMax::Max => -(i32::MAX as int),
    }
}

impl MinMax {
    /// `y` is strictly better than `x` for this role.
    fn compare(self, x: i32, y: i32) -> (r: bool)
        ensures
            r == better(self, x as int, y as int),
    {
        match self {
            MinMax::Min => x > y,
            MinMax::Max => x < y,
        }
    }

    /// The worst score for this role.
    fn default_value(self) -> (r: i32)
        ensures
            r == start_value(self),
    {
        match self {
            MinMax::Min => i32::MAX,
            MinMax::Max => -i32::MAX,
        }
    }

    /// The role of the opponent.
    fn other(self) -> (r: Self)
        ensures
            r == opposite(self),
    {
        match self {
            MinMax::Min => MinMax::Max,
            MinMax::Max => MinMax::Min,
        }
    }
}

/// Score of one cell for the player who made the last move: its weight for a token of that
/// player, minus its weight for a token of the opponent, nothing for an empty cell.
pub open spec fn cell_value(moves: Seq<usize>, row: int, column: int) -> int {
    let cell = history_cell(moves, row, column);
    let weight = VALUES[cell_index(row, column)] as int;
    if cell == Cell::Empty {
        0
    } else if cell == token(mover(moves.len() - 1)) {
        weight
    } else {
        -weight
    }
}

/// Sum of the values of the first `k` cells of `row`.
pub open spec fn row_score(moves: Seq<usize>, row: int, k: int) -> int
    decreases k,
{
    if k <= 0 {
        0
    } else {
        row_score(moves, row, k - 1) + cell_value(moves, row, k - 1)
    }
}

/// Sum of the values of the cells of the first `r` rows.
pub open spec fn rows_score(moves: Seq<usize>, r: int) -> int
    decreases r,
{
    if r <= 0 {
        0
    } else {
        rows_score(moves, r - 1) + row_score(moves, r - 1, BOARD_WIDTH as int)
    }
}

/// Static score of a position for the player who made the last move.
pub open spec fn evaluation(moves: Seq<usize>) -> int {
    rows_score(moves, BOARD_HEIGHT as int)
}

/// Every weight lies between 0 and `MAX_WEIGHT`.
proof fn lemma_weight_bounds(i: int)
    requires
        0 <= i < BOARD_SIZE,
    ensures
        0 <= VALUES[i] <= MAX_WEIGHT,
{
}

/// The first `k` cells of a row score at most `MAX_WEIGHT` each, up or down.
proof fn lemma_row_score_bounds(moves: Seq<usize>, row: int, k: int)
    requires
        0 <= row < BOARD_HEIGHT,
        0 <= k <= BOARD_WIDTH,
    ensures
        -MAX_WEIGHT * k <= row_score(moves, row, k) <= MAX_WEIGHT * k,
    decreases k,
{
    if k > 0 {
        lemma_row_score_bounds(moves, row, k - 1);
        lemma_weight_bounds(cell_index(row, k - 1));
    }
}

/// The first `r` rows score at most `BOARD_WIDTH * MAX_WEIGHT` = 154 each, up or down.
proof fn lemma_rows_score_bounds(moves: Seq<usize>, r: int)
    requires
        0 <= r <= BOARD_HEIGHT,
    ensures
        -154 * r <= rows_score(moves, r) <= 154 * r,
    decreases r,
{
    if r > 0 {
        lemma_rows_score_bounds(moves, r - 1);
        lemma_row_score_bounds(moves, r - 1, BOARD_WIDTH as int);
    }
}

/// Evaluate a board with the positional weights of `VALUES`, for the player who made the
/// last move.
fn evaluate(game: Connect4) -> (r: i32)
    requires
        game.wf(),
    ensures
        r == evaluation(game@),
{
    let player = Cell::from(game.next_player().other());
    let ghost m = game@;
    assert(spec_other(mover(m.len() as int)) == mover(m.len() - 1));
    let mut score: i32 = 0;
    let mut row: usize = 0;
    while row < BOARD_HEIGHT
        invariant
            game.wf(),
            m == game@,
            player == token(mover(m.len() - 1)),
            row <= BOARD_HEIGHT,
            score == rows_score(m, row as int),
        decreases BOARD_HEIGHT - row,
    {
        let mut column: usize = 0;
        proof {
            lemma_rows_score_bounds(m, row as int);
        }
        while column < BOARD_WIDTH
            invariant
                game.wf(),
                m == game@,
                player == token(mover(m.len() - 1)),
                row < BOARD_HEIGHT,
                column <= BOARD_WIDTH,
                -924 <= rows_score(m, row as int) <= 924,
                score == rows_score(m, row as int) + row_score(m, row as int, column as int),
            decreases BOARD_WIDTH - column,
        {
            proof {
                lemma_row_score_bounds(m, row as int, column as int);
                lemma_weight_bounds(cell_index(row as int, column as int));
            }
            let cell = game.at(row, column);
            let weight = VALUES[BOARD_WIDTH * row + column];
            if cell == player {
                score += weight;
            } else if cell != Cell::Empty {
                score -= weight;
            }
            column += 1;
        }
        row += 1;
    }
    score
}

/// The score that plain depth-limited minimax gives a position after `moves`, with `role` the
/// role of the player to move: the extreme value against that player where the last move
/// won, 0 on a full board, the static evaluation at depth 0, and otherwise the best score of
/// the children for `role`.
pub open spec fn minimax(moves: Seq<usize>, depth: nat, role: MinMax) -> int
    decreases depth, 8nat,
{
    if winner(moves) is Some {
        start_value(role)
    } else if is_full(moves) {
        0
    } else if depth == 0 {
        evaluation(moves)
    } else {
        best_child(moves, (depth - 1) as nat, role, BOARD_WIDTH as nat)
    }
}

/// Best score for `role` among the legal moves of the first `k` of `PRIORITY_MOVES`, each
/// child searched to `child_depth`, starting from the worst score.
pub open spec fn best_child(moves: Seq<usize>, child_depth: nat, role: MinMax, k: nat) -> int
    decreases child_depth + 1, k,
{
    if k == 0 {
        start_value(role)
    } else {
        let prev = best_child(moves, child_depth, role, (k - 1) as nat);
        let column = PRIORITY_MOVES[k - 1];
        if k <= BOARD_WIDTH && is_legal(moves, column as int) {
            let score = minimax(moves.push(column), child_depth, opposite(role));
            if better(role, prev, score) {
                score
            } else {
                prev
            }
        } else {
            prev
        }
    }
}

/// The side that maximizes can force a win within `depth` more moves from the position after
/// `moves`, with `role` the role of the player to move: the maximizer has just won, or it is
/// the minimizer's turn and every legal reply leads to such a position, or the maximizer's
/// turn and one legal move does.
pub open spec fn forced_win(moves: Seq<usize>, depth: nat, role: MinMax) -> bool
    decreases depth, 8nat,
{
    if winner(moves) is Some {
        role == MinMax::Min
    } else if is_full(moves) || depth == 0 {
        false
    } else {
        forcing_children(moves, (depth - 1) as nat, role, BOARD_WIDTH as nat)
    }
}

/// Among the legal moves of the first `k` of `PRIORITY_MOVES`, each child forces a win within
/// `child_depth` (for a minimizer to move), or one of them does (for a maximizer).
pub open spec fn forcing_children(moves: Seq<usize>, child_depth: nat, role: MinMax, k: nat) -> bool
    decreases child_depth + 1, k,
{
    if k == 0 {
        role == MinMax::Min
    } else {
        let prev = forcing_children(moves, child_depth, role, (k - 1) as nat);
        let column = PRIORITY_MOVES[k - 1];
        if k <= BOARD_WIDTH && is_legal(moves, column as int) {
            let forced = forced_win(moves.push(column), child_depth, opposite(role));
            if role == MinMax::Min {
                prev && forced
            } else {
                prev || forced
            }
        } else {
            prev
        }
    }
}

/// For a maximizer, one forcing child is enough whatever comes after it.
proof fn lemma_forcing_children_max(moves: Seq<usize>, child_depth: nat, k1: nat, k2: nat)
    requires
        k1 <= k2,
        forcing_children(moves, child_depth, MinMax::Max, k1),
    ensures
        forcing_children(moves, child_depth, MinMax::Max, k2),
    decreases k2 - k1,
{
    if k1 < k2 {
        lemma_forcing_children_max(moves, child_depth, k1, (k2 - 1) as nat);
    }
}

/// `v` is the score of a position of the tree searched from the position after `moves`,
/// `depth` moves deep with `role` to move, carried up along one line of legal moves: the
/// worst score for `role` where the last move won, 0 on a full board, the static evaluation
/// at depth 0, and otherwise such a score of one of the legal children.
pub open spec fn searched_score(moves: Seq<usize>, depth: nat, role: MinMax, v: int) -> bool
    decreases depth, 8nat,
{
    if winner(moves) is Some {
        v == start_value(role)
    } else if is_full(moves) {
        v == 0
    } else if depth == 0 {
        v == evaluation(moves)
    } else {
        scoring_child(moves, (depth - 1) as nat, role, v, BOARD_WIDTH as nat)
    }
}

/// Among the legal moves of the first `k` of `PRIORITY_MOVES`, one leads to a position of
/// which `v` is a searched score to `child_depth`.
pub open spec fn scoring_child(moves: Seq<usize>, child_depth: nat, role: MinMax, v: int, k: nat) -> bool
    decreases child_depth + 1, k,
{
    if k == 0 {
        false
    } else {
        let column = PRIORITY_MOVES[k - 1];
        ||| scoring_child(moves, child_depth, role, v, (k - 1) as nat)
        ||| k <= BOARD_WIDTH && is_legal(moves, column as int) && searched_score(
            moves.push(column),
            child_depth,
            opposite(role),
            v,
        )
    }
}

/// A scoring child among the first moves stays one among more of them.
proof fn lemma_scoring_child_grows(moves: Seq<usize>, child_depth: nat, role: MinMax, v: int, k1: nat, k2: nat)
    requires
        k1 <= k2,
        scoring_child(moves, child_depth, role, v, k1),
    ensures
        scoring_child(moves, child_depth, role, v, k2),
    decreases k2 - k1,
{
    if k1 < k2 {
        lemma_scoring_child_grows(moves, child_depth, role, v, k1, (k2 - 1) as nat);
    }
}

/// The static score of a board lies within `BOARD_SIZE * MAX_WEIGHT` = 924 of 0, far from
/// the extreme scores of won positions.
proof fn lemma_evaluation_bounds(moves: Seq<usize>)
    ensures
        -924 <= evaluation(moves) <= 924,
{
    lemma_rows_score_bounds(moves, BOARD_HEIGHT as int);
}

/// Minimax scores lie between the two extreme scores.
proof fn lemma_minimax_range(moves: Seq<usize>, depth: nat, role: MinMax)
    ensures
        -i32::MAX <= minimax(moves, depth, role) <= i32::MAX,
    decreases depth, 8nat,
{
    lemma_evaluation_bounds(moves);
    if depth > 0 {
        lemma_best_child_range(moves, (depth - 1) as nat, role, BOARD_WIDTH as nat);
    }
}

/// The best score among children lies between the two extreme scores.
proof fn lemma_best_child_range(moves: Seq<usize>, child_depth: nat, role: MinMax, k: nat)
    ensures
        -i32::MAX <= best_child(moves, child_depth, role, k) <= i32::MAX,
    decreases child_depth + 1, k,
{
    if k > 0 {
        lemma_best_child_range(moves, child_depth, role, (k - 1) as nat);
        let column = PRIORITY_MOVES[k - 1];
        if k <= BOARD_WIDTH && is_legal(moves, column as int) {
            lemma_minimax_range(moves.push(column), child_depth, opposite(role));
        }
    }
}

/// Once a minimizer reaches the lowest score, the later children leave it there.
proof fn lemma_best_child_floor(moves: Seq<usize>, child_depth: nat, k1: nat, k2: nat)
    requires
        k1 <= k2,
        best_child(moves, child_depth, MinMax::Min, k1) == -i32::MAX,
    ensures
        best_child(moves, child_depth, MinMax::Min, k2) == -i32::MAX,
    decreases k2 - k1,
{
    if k1 < k2 {
        lemma_best_child_floor(moves, child_depth, k1, (k2 - 1) as nat);
        let column = PRIORITY_MOVES[k2 - 1];
        if k2 <= BOARD_WIDTH && is_legal(moves, column as int) {
            lemma_minimax_range(moves.push(column), child_depth, MinMax::Max);
        }
    }
}

/// Once a maximizer reaches the highest score, the later children leave it there.
proof fn lemma_best_child_ceiling(moves: Seq<usize>, child_depth: nat, k1: nat, k2: nat)
    requires
        k1 <= k2,
        best_child(moves, child_depth, MinMax::Max, k1) == i32::MAX,
    ensures
        best_child(moves, child_depth, MinMax::Max, k2) == i32::MAX,
    decreases k2 - k1,
{
    if k1 < k2 {
        lemma_best_child_ceiling(moves, child_depth, k1, (k2 - 1) as nat);
        let column = PRIORITY_MOVES[k2 - 1];
        if k2 <= BOARD_WIDTH && is_legal(moves, column as int) {
            lemma_minimax_range(moves.push(column), child_depth, MinMax::Min);
        }
    }
}

/// The bounds (alpha, beta) that prune the search: a maximizer stops where its best score
/// reaches beta, a minimizer where its best score falls to alpha.
#[derive(Copy, Clone, Debug, PartialEq, Eq, Structural)]
struct AlphaBeta(i32, i32);

impl AlphaBeta {
    /// Folds the new best score `value` of a node of role `min_max` into the bounds. Returns
    /// true where the node can stop: its score can no longer matter to the other side.
    /// Otherwise the bound of `min_max` is tightened: beta lowered for a minimizer, alpha
    /// raised for a maximizer.
    fn update(&mut self, value: i32, min_max: MinMax) -> (r: bool)
        ensures
            min_max == MinMax::Min ==> r == (old(self).0 >= value),
            min_max == MinMax::Max ==> r == (old(self).1 <= value),
            r ==> *final(self) == *old(self),
            !r && min_max == MinMax::Min ==> final(self).0 == old(self).0 && final(self).1 == if old(
                self,
            ).1 > value {
                value
            } else {
                old(self).1
            },
            !r && min_max == MinMax::Max ==> final(self).1 == old(self).1 && final(self).0 == if old(
                self,
            ).0 < value {
                value
            } else {
                old(self).0
            },
    {
        match min_max {
            MinMax::Min => {
                if self.0 >= value {
                    true
                } else {
                    if self.1 > value {
                        self.1 = value;
                    }
                    false
                }
            },
            MinMax::Max => {
                if self.1 <= value {
                    true
                } else {
                    if self.0 < value {
                        self.0 = value;
                    }
                    false
                }
            },
        }
    }
}

/// What the lock of a `SharedWindow` keeps true of its bounds: alpha below beta, both within
/// the scores, alpha at its start where `alpha_fixed` says that no maximizer with children
/// searches with the window, and beta at its start where `beta_fixed` says the same of
/// minimizers.
struct WindowInvariant {
    alpha_fixed: bool,
    beta_fixed: bool,
}

impl RwLockPredicate<AlphaBeta> for WindowInvariant {
    closed spec fn inv(self, v: AlphaBeta) -> bool {
        &&& -i32::MAX <= v.0 < v.1 <= i32::MAX
        &&& self.alpha_fixed ==> v.0 == -i32::MAX
        &&& self.beta_fixed ==> v.1 == i32::MAX
    }
}

/// The pruning window of one decision, shared by the searches of all its root moves,
/// possibly running at once: every read-modify-write of the bounds happens under its lock.
///
/// One window for the whole decision is not the window of sequential alpha-beta, which
/// belongs to one path from the root: a bound that one branch tightens can cut a node of
/// another branch, or of a later part of the same branch, that it tells nothing about. A
/// decision can then miss the best move. A search is still exact while the bound that could
/// cut it keeps its start value: in decisions of at most two moves, where no maximizer
/// searches below the root, and in a search of one node at most one move deep on a window
/// of its own.
pub struct SharedWindow {
    lock: RwLock<AlphaBeta, WindowInvariant>,
}

impl SharedWindow {
    /// Alpha stays at its start for the life of the window.
    pub closed spec fn alpha_fixed(&self) -> bool {
        self.lock.pred().alpha_fixed
    }

    /// Beta stays at its start for the life of the window.
    pub closed spec fn beta_fixed(&self) -> bool {
        self.lock.pred().beta_fixed
    }

    /// The window may serve a search of a node of `role` to `depth`: a bound that the window
    /// keeps fixed is one that such a search never moves.
    pub open spec fn admits(&self, depth: nat, role: MinMax) -> bool {
        &&& self.alpha_fixed() ==> depth == 0 || (role == MinMax::Min && depth <= 1)
        &&& self.beta_fixed() ==> depth == 0 || (role == MinMax::Max && depth <= 1)
    }

    /// A search of a node of `role` to `depth` on this window gives the plain minimax score:
    /// the one bound that could cut it is fixed at its start.
    pub open spec fn exact_for(&self, depth: nat, role: MinMax) -> bool {
        ||| self.alpha_fixed() && (depth == 0 || (role == MinMax::Min && depth <= 1))
        ||| self.beta_fixed() && (depth == 0 || (role == MinMax::Max && depth <= 1))
    }

    /// A fresh window (-i32::MAX, i32::MAX) for a decision searched to `search_depth`, whose
    /// root moves are searched as minimizer nodes `search_depth - 1` deep.
    pub fn new(search_depth: usize) -> (r: Self)
        ensures
            r.alpha_fixed() == (search_depth <= 2),
            !r.beta_fixed(),
    {
        let lock = RwLock::new(
            AlphaBeta(-i32::MAX, i32::MAX),
            Ghost(WindowInvariant { alpha_fixed: search_depth <= 2, beta_fixed: false }),
        );
        SharedWindow { lock }
    }

    /// A fresh window (-i32::MAX, i32::MAX) for the search of one node of role `min_max` to
    /// `depth`, used by no other search.
    pub fn for_search(depth: usize, min_max: MinMax) -> (r: Self)
        ensures
            r.admits(depth as nat, min_max),
            depth <= 1 ==> r.exact_for(depth as nat, min_max),
    {
        let ghost alpha_fixed = depth == 0 || (min_max == MinMax::Min && depth <= 1);
        let ghost beta_fixed = depth == 0 || (min_max == MinMax::Max && depth <= 1);
        let lock = RwLock::new(
            AlphaBeta(-i32::MAX, i32::MAX),
            Ghost(WindowInvariant { alpha_fixed, beta_fixed }),
        );
        SharedWindow { lock }
    }

    /// Under the lock, folds the new best score `value` of a node of role `min_max` into the
    /// bounds; true where the node can stop.
    fn update(&self, value: i32, min_max: MinMax) -> (r: bool)
        requires
            -i32::MAX <= value <= i32::MAX,
            self.alpha_fixed() ==> min_max == MinMax::Min,
            self.beta_fixed() ==> min_max == MinMax::Max,
        ensures
            min_max == MinMax::Min && r ==> value < i32::MAX,
            min_max == MinMax::Min && r && self.alpha_fixed() ==> value == -i32::MAX,
            min_max == MinMax::Max && r && self.beta_fixed() ==> value == i32::MAX,
    {
        let (mut bounds, handle) = self.lock.acquire_write();
        let cut = bounds.update(value, min_max);
        handle.release_write(bounds);
        cut
    }
}

/// Minimax search with alpha-beta pruning of the position `game` to `depth` more moves, for
/// the player to move in the role `min_max`. The bounds live in `alpha_beta`, which other
/// searches may tighten at the same time. Whatever they do, the result is the score of a
/// position of the searched tree carried up along one line of legal moves
/// (`searched_score`), and it is the plain minimax score where the window keeps the bound
/// that could cut this search fixed.
pub fn alpha_beta_search(
    game: Connect4,
    depth: usize,
    alpha_beta: &SharedWindow,
    min_max: MinMax,
) -> (r: i32)
    requires
        game.wf(),
        alpha_beta.admits(depth as nat, min_max),
    ensures
        -i32::MAX <= r <= i32::MAX,
        searched_score(game@, depth as nat, min_max, r as int),
        winner(game@) is Some ==> r == start_value(min_max),
        winner(game@) is None && is_full(game@) ==> r == 0,
        winner(game@) is None && !is_full(game@) && depth == 0 ==> r == evaluation(game@),
        r == i32::MAX ==> forced_win(game@, depth as nat, min_max),
        alpha_beta.exact_for(depth as nat, min_max) ==> r == minimax(game@, depth as nat, min_max),
    decreases depth,
{
    let ghost m = game@;
    proof {
        game.lemma_valid();
    }
    if game.check_winner().is_some() {
        return min_max.default_value();
    }
    if game.check_full() {
        return 0;
    }
    if depth == 0 {
        proof {
            lemma_evaluation_bounds(m);
        }
        return evaluate(game);
    }
    let ghost cd = (depth - 1) as nat;
    let ghost exact = alpha_beta.exact_for(depth as nat, min_max);
    let mut best = min_max.default_value();
    let mut k: usize = 0;
    while k < BOARD_WIDTH
        invariant
            game.wf(),
            m == game@,
            valid_history(m),
            winner(m) is None,
            !is_full(m),
            depth > 0,
            cd == depth - 1,
            alpha_beta.admits(depth as nat, min_max),
            exact == alpha_beta.exact_for(depth as nat, min_max),
            k <= BOARD_WIDTH,
            -i32::MAX <= best <= i32::MAX,
            best == i32::MAX ==> forcing_children(m, cd, min_max, k as nat),
            exact ==> best == best_child(m, cd, min_max, k as nat),
            (best == start_value(min_max) && forall|j: int|
                0 <= j < k ==> !is_legal(m, #[trigger] PRIORITY_MOVES[j] as int)) || scoring_child(
                m,
                cd,
                min_max,
                best as int,
                k as nat,
            ),
        decreases BOARD_WIDTH - k,
    {
        let action = PRIORITY_MOVES[k];
        if game.valid_action(action) {
            let mut child = game.clone();
            child.play(action);
            let score = alpha_beta_search(child, depth - 1, alpha_beta, min_max.other());
            proof {
                assert(PRIORITY_MOVES[k as int] == action);
                if score == i32::MAX && min_max == MinMax::Max {
                    lemma_forcing_children_max(m, cd, (k + 1) as nat, BOARD_WIDTH as nat);
                }
            }
            if min_max.compare(best, score) {
                if alpha_beta.update(score, min_max) {
                    proof {
                        assert(scoring_child(m, cd, min_max, score as int, (k + 1) as nat));
                        lemma_scoring_child_grows(m, cd, min_max, score as int, (k + 1) as nat, BOARD_WIDTH as nat);
                        if exact {
                            if min_max == MinMax::Min {
                                lemma_best_child_floor(m, cd, (k + 1) as nat, BOARD_WIDTH as nat);
                            } else {
                                lemma_best_child_ceiling(m, cd, (k + 1) as nat, BOARD_WIDTH as nat);
                            }
                        }
                    }
                    return score;
                }
                best = score;
            } else {
                proof {
                    if !scoring_child(m, cd, min_max, best as int, k as nat) {
                        assert(score == best);
                    }
                }
            }
        }
        k += 1;
    }
    proof {
        if !scoring_child(m, cd, min_max, best as int, BOARD_WIDTH as nat) {
            let c = lemma_not_full_has_move(m);
            lemma_priority_rank(c);
            assert(!is_legal(m, PRIORITY_MOVES[priority_rank(c)] as int));
        }
    }
    best
}

/// Position of `column` in `PRIORITY_MOVES`.
pub open spec fn priority_rank(column: int) -> int {
    if column == 3 {
        0
    } else if column == 2 {
        1
    } else if column == 4 {
        2
    } else if column == 1 {
        3
    } else if column == 5 {
        4
    } else if column == 0 {
        5
    } else {
        6
    }
}

/// Every column has its place in `PRIORITY_MOVES`.
proof fn lemma_priority_rank(column: int)
    requires
        0 <= column < BOARD_WIDTH,
    ensures
        0 <= priority_rank(column) < BOARD_WIDTH,
        PRIORITY_MOVES[priority_rank(column)] == column,
{
}

/// A minimizer's best score is at most the score of each legal child it has visited.
proof fn lemma_best_child_min_le(moves: Seq<usize>, child_depth: nat, k: nat, j: int)
    requires
        0 <= j < k <= BOARD_WIDTH,
        is_legal(moves, PRIORITY_MOVES[j] as int),
    ensures
        best_child(moves, child_depth, MinMax::Min, k) <= minimax(
            moves.push(PRIORITY_MOVES[j]),
            child_depth,
            MinMax::Max,
        ),
    decreases k,
{
    if j < k - 1 {
        lemma_best_child_min_le(moves, child_depth, (k - 1) as nat, j);
    }
}

/// A minimizer whose legal children all score above the lowest score scores above it too.
proof fn lemma_best_child_min_above_floor(moves: Seq<usize>, child_depth: nat, k: nat)
    requires
        k <= BOARD_WIDTH,
        forall|j: int|
            0 <= j < k && is_legal(moves, PRIORITY_MOVES[j] as int) ==> #[trigger] minimax(
                moves.push(PRIORITY_MOVES[j]),
                child_depth,
                MinMax::Max,
            ) > -i32::MAX,
    ensures
        best_child(moves, child_depth, MinMax::Min, k) > -i32::MAX,
    decreases k,
{
    if k > 0 {
        lemma_best_child_min_above_floor(moves, child_depth, (k - 1) as nat);
        let j = k - 1;
        if is_legal(moves, PRIORITY_MOVES[j] as int) {
            assert(minimax(moves.push(PRIORITY_MOVES[j]), child_depth, MinMax::Max) > -i32::MAX);
        }
    }
}

/// A minimizer with a legal move that does not force a win does not force a win.
proof fn lemma_forcing_children_min(moves: Seq<usize>, child_depth: nat, k: nat, j: int)
    requires
        0 <= j < k <= BOARD_WIDTH,
        is_legal(moves, PRIORITY_MOVES[j] as int),
        !forced_win(moves.push(PRIORITY_MOVES[j]), child_depth, MinMax::Max),
    ensures
        !forcing_children(moves, child_depth, MinMax::Min, k),
    decreases k,
{
    if j < k - 1 {
        lemma_forcing_children_min(moves, child_depth, (k - 1) as nat, j);
    }
}

/// A position that is not full has a legal move.
proof fn lemma_not_full_has_move(moves: Seq<usize>) -> (column: int)
    requires
        valid_history(moves),
        !is_full(moves),
    ensures
        is_legal(moves, column),
{
    crate::game_logic::lemma_valid_history_bounds(moves);
    let column = choose|c: int| 0 <= c < BOARD_WIDTH && #[trigger] count_in(moves, c) != BOARD_HEIGHT;
    column
}

/// Within two plies, the side that moves first forces a win only by winning at once.
proof fn lemma_shallow_forced_win(moves: Seq<usize>, depth: nat)
    requires
        valid_history(moves),
        depth <= 1,
        forced_win(moves, depth, MinMax::Min),
    ensures
        winner(moves) is Some,
{
    if winner(moves) is None && depth == 1 {
        let column = lemma_not_full_has_move(moves);
        lemma_priority_rank(column);
        lemma_forcing_children_min(moves, 0, BOARD_WIDTH as nat, priority_rank(column));
    }
}

/// Some legal move of the player to move after `moves` wins at once.
pub open spec fn wins_at_once(moves: Seq<usize>) -> bool {
    exists|c: int| is_legal(moves, c) && #[trigger] winner(moves.push(c as usize)) is Some
}

/// After `moves` the player to move cannot win at once, and `column` is the one legal move
/// after which the opponent cannot win at once.
pub open spec fn only_block(moves: Seq<usize>, column: int) -> bool {
    &&& is_legal(moves, column)
    &&& !wins_at_once(moves)
    &&& !wins_at_once(moves.push(column as usize))
    &&& forall|c: int| is_legal(moves, c) && c != column ==> #[trigger] wins_at_once(
        moves.push(c as usize),
    )
}

/// What the search of the root move `result.1` after `moves` guarantees of its score
/// `result.0`, the child searched to `child_depth` more moves; `exact` where the window kept
/// alpha fixed, so that the score is the plain minimax score.
pub open spec fn sound_root_result(
    moves: Seq<usize>,
    child_depth: nat,
    exact: bool,
    result: (i32, usize),
) -> bool {
    let child = moves.push(result.1);
    &&& result.1 < BOARD_WIDTH
    &&& is_legal(moves, result.1 as int)
    &&& -i32::MAX <= result.0 <= i32::MAX
    &&& searched_score(child, child_depth, MinMax::Min, result.0 as int)
    &&& winner(child) is Some ==> result.0 == i32::MAX
    &&& result.0 == i32::MAX ==> forced_win(child, child_depth, MinMax::Min)
    &&& exact ==> result.0 == minimax(child, child_depth, MinMax::Min)
}

/// `a` comes before `b` in the order of (score, action) pairs.
pub open spec fn pair_le(a: (i32, usize), b: (i32, usize)) -> bool {
    a.0 < b.0 || (a.0 == b.0 && a.1 <= b.1)
}

/// Every legal column after `moves` has a result in `results`.
pub open spec fn covers(moves: Seq<usize>, results: Seq<(i32, usize)>) -> bool {
    forall|c: int|
        is_legal(moves, c) ==> exists|i: int| 0 <= i < results.len() && #[trigger] results[i].1 == c
}

/// `scores` gives each legal column after `moves` a searched score of its child to
/// `child_depth`, and `column` has the largest of them, the last column among equals.
pub open spec fn best_under(moves: Seq<usize>, child_depth: nat, scores: Seq<int>, column: int) -> bool {
    &&& scores.len() == BOARD_WIDTH
    &&& forall|c: int|
        is_legal(moves, c) ==> searched_score(
            moves.push(c as usize),
            child_depth,
            MinMax::Min,
            #[trigger] scores[c],
        )
    &&& forall|c: int|
        is_legal(moves, c) ==> #[trigger] scores[c] < scores[column] || (scores[c] == scores[column]
            && c <= column)
}

/// What a column chosen by a search to `search_depth` moves after `moves` is owed: it can be
/// played; it has the best of searched scores of all the legal columns; where a move wins at once, it forces a win within the search (it wins at once
/// itself when the search looks at most two moves ahead); searched at most two moves ahead,
/// no legal column has a better minimax score; searched exactly two moves ahead, it is the
/// only move that keeps the opponent from winning at once, where there is one.
pub open spec fn sound_choice(moves: Seq<usize>, search_depth: nat, column: int) -> bool {
    let child_depth = (search_depth - 1) as nat;
    let chosen = moves.push(column as usize);
    &&& is_legal(moves, column)
    &&& exists|scores: Seq<int>| #[trigger] best_under(moves, child_depth, scores, column)
    &&& wins_at_once(moves) ==> forced_win(chosen, child_depth, MinMax::Min)
    &&& wins_at_once(moves) && search_depth <= 2 ==> winner(chosen) is Some
    &&& search_depth <= 2 ==> forall|c: int|
        is_legal(moves, c) ==> #[trigger] minimax(moves.push(c as usize), child_depth, MinMax::Min)
            <= minimax(chosen, child_depth, MinMax::Min)
    &&& forall|c: int| search_depth == 2 && #[trigger] only_block(moves, c) ==> column == c
}

/// Whatever order the searches of the root moves ran in, and tightened their shared window
/// in, the action of the largest (score, action) pair of their results is a sound choice,
/// provided there is a result for every legal column.
pub proof fn lemma_best_result_is_sound(
    moves: Seq<usize>,
    search_depth: nat,
    results: Seq<(i32, usize)>,
    b: int,
)
    requires
        valid_history(moves),
        search_depth >= 1,
        forall|i: int|
            0 <= i < results.len() ==> sound_root_result(
                moves,
                (search_depth - 1) as nat,
                search_depth <= 2,
                #[trigger] results[i],
            ),
        covers(moves, results),
        0 <= b < results.len(),
        forall|j: int| 0 <= j < results.len() ==> #[trigger] pair_le(results[j], results[b]),
    ensures
        sound_choice(moves, search_depth, results[b].1 as int),
{
    let cd = (search_depth - 1) as nat;
    let exact = search_depth <= 2;
    let best = results[b];
    let r = best.1;
    assert(sound_root_result(moves, cd, exact, best));
    let scores = Seq::new(
        BOARD_WIDTH as nat,
        |c: int|
            if c == r {
                best.0 as int
            } else {
                results[choose|i: int| 0 <= i < results.len() && #[trigger] results[i].1 == c].0 as int
            },
    );
    assert forall|c: int| is_legal(moves, c) implies searched_score(
        moves.push(c as usize),
        cd,
        MinMax::Min,
        #[trigger] scores[c],
    ) && (scores[c] < scores[r as int] || (scores[c] == scores[r as int] && c <= r)) by {
        if c != r {
            let i = choose|i: int| 0 <= i < results.len() && #[trigger] results[i].1 == c;
            assert(sound_root_result(moves, cd, exact, results[i]));
            assert(pair_le(results[i], best));
        } else {
            assert(moves.push(c as usize) == moves.push(r));
        }
    }
    assert(best_under(moves, cd, scores, r as int));
    assert forall|c: int| is_legal(moves, c) implies exists|i: int|
        0 <= i < results.len() && results[i].1 == c && results[i].0 <= best.0 by {
        let i = choose|i: int| 0 <= i < results.len() && #[trigger] results[i].1 == c;
        assert(pair_le(results[i], best));
    }
    if wins_at_once(moves) {
        let w = choose|c: int| is_legal(moves, c) && #[trigger] winner(moves.push(c as usize)) is Some;
        let i = choose|i: int| 0 <= i < results.len() && results[i].1 == w && results[i].0 <= best.0;
        assert(sound_root_result(moves, cd, exact, results[i]));
        assert(best.0 == i32::MAX);
        if search_depth <= 2 {
            crate::game_logic::lemma_valid_child(moves, r);
            lemma_shallow_forced_win(moves.push(r), cd);
        }
    }
    if search_depth <= 2 {
        assert forall|c: int| is_legal(moves, c) implies #[trigger] minimax(
            moves.push(c as usize),
            cd,
            MinMax::Min,
        ) <= minimax(moves.push(r), cd, MinMax::Min) by {
            let i = choose|i: int| 0 <= i < results.len() && results[i].1 == c && results[i].0 <= best.0;
            assert(sound_root_result(moves, cd, exact, results[i]));
        }
    }
    assert forall|c: int| search_depth == 2 && #[trigger] only_block(moves, c) implies r == c by {
        lemma_block_scores(moves, c);
        if r != c {
            let ri = r as int;
            assert(is_legal(moves, ri));
            assert(minimax(moves.push(ri as usize), 1, MinMax::Min) == -i32::MAX);
            assert(cd == 1);
            assert(minimax(moves.push(c as usize), cd, MinMax::Min) <= minimax(moves.push(r), cd, MinMax::Min));
        }
    }
    assert(moves.push(r as int as usize) == moves.push(r));
}

/// The action of the largest (score, action) pair of `results`: the best score, and among
/// equal scores the action that comes last.
pub fn select_best(results: &Vec<(i32, usize)>) -> (r: usize)
    requires
        results@.len() > 0,
    ensures
        exists|i: int|
            0 <= i < results@.len() && results@[i].1 == r && forall|j: int|
                0 <= j < results@.len() ==> #[trigger] pair_le(results@[j], results@[i]),
{
    let mut best: usize = 0;
    let mut i: usize = 1;
    while i < results.len()
        invariant
            1 <= i <= results@.len(),
            best < i,
            forall|j: int| 0 <= j < i ==> #[trigger] pair_le(results@[j], results@[best as int]),
        decreases results@.len() - i,
    {
        let (score, action) = results[i];
        let (best_score, best_action) = results[best];
        let ghost old_best = best as int;
        if score > best_score || (score == best_score && action >= best_action) {
            best = i;
        }
        assert forall|j: int| 0 <= j < i + 1 implies #[trigger] pair_le(
            results@[j],
            results@[best as int],
        ) by {
            if j < i {
                assert(pair_le(results@[j], results@[old_best]));
            }
        }
        i += 1;
    }
    results[best].1
}

/// Choose the column to play in `game` by a minimax search with alpha-beta pruning to
/// `search_depth` moves. The root moves are searched in turn, sharing one pruning window as
/// the concurrent searches of a decision do.
pub fn choose_action(game: &Connect4, search_depth: usize) -> (r: usize)
    requires
        game.wf(),
        search_depth >= 1,
        !is_full(game@),
    ensures
        r < BOARD_WIDTH,
        sound_choice(game@, search_depth as nat, r as int),
{
    let ghost m = game@;
    let ghost cd = (search_depth - 1) as nat;
    proof {
        game.lemma_valid();
    }
    let window = SharedWindow::new(search_depth);
    let ghost exact = window.alpha_fixed();
    let mut results: Vec<(i32, usize)> = Vec::new();
    let mut action: usize = 0;
    while action < BOARD_WIDTH
        invariant
            game.wf(),
            m == game@,
            valid_history(m),
            cd == search_depth - 1,
            search_depth >= 1,
            exact == window.alpha_fixed(),
            !window.beta_fixed(),
            exact == (search_depth <= 2),
            action <= BOARD_WIDTH,
            forall|i: int|
                0 <= i < results@.len() ==> #[trigger] sound_root_result(m, cd, exact, results@[i]),
            forall|c: int|
                0 <= c < action && is_legal(m, c) ==> exists|i: int|
                    0 <= i < results@.len() && #[trigger] results@[i].1 == c,
        decreases BOARD_WIDTH - action,
    {
        if game.valid_action(action) {
            let mut child = game.clone();
            child.play(action);
            let score = alpha_beta_search(child, search_depth - 1, &window, MinMax::Min);
            let ghost before = results@;
            results.push((score, action));
            proof {
                let n = results@.len() - 1;
                assert(sound_root_result(m, cd, exact, results@[n]));
                assert forall|i: int| 0 <= i < results@.len() implies #[trigger] sound_root_result(
                    m,
                    cd,
                    exact,
                    results@[i],
                ) by {
                    if i < n {
                        assert(results@[i] == before[i]);
                    }
                }
                assert forall|c: int| 0 <= c < action + 1 && is_legal(m, c) implies exists|i: int|
                    0 <= i < results@.len() && #[trigger] results@[i].1 == c by {
                    if c < action {
                        let i = choose|i: int| 0 <= i < before.len() && #[trigger] before[i].1 == c;
                        assert(results@[i] == before[i]);
                    } else {
                        assert(results@[n].1 == c);
                    }
                }
            }
        }
        action += 1;
    }
    proof {
        let c = lemma_not_full_has_move(m);
        let i = choose|i: int| 0 <= i < results@.len() && #[trigger] results@[i].1 == c;
        assert(sound_root_result(m, cd, exact, results@[i]));
        assert(covers(m, results@));
    }
    let r = select_best(&results);
    proof {
        let b = choose|i: int|
            0 <= i < results@.len() && results@[i].1 == r && forall|j: int|
                0 <= j < results@.len() ==> #[trigger] pair_le(results@[j], results@[i]);
        lemma_best_result_is_sound(m, search_depth as nat, results@, b);
    }
    r
}

/// Searched two moves deep, the only blocking move scores above the lowest score, and every
/// other move scores the lowest.
proof fn lemma_block_scores(moves: Seq<usize>, column: int)
    requires
        valid_history(moves),
        only_block(moves, column),
    ensures
        minimax(moves.push(column as usize), 1, MinMax::Min) > -i32::MAX,
        forall|c: int|
            is_legal(moves, c) && c != column ==> #[trigger] minimax(moves.push(c as usize), 1, MinMax::Min)
                == -i32::MAX,
{
    let blocked = moves.push(column as usize);
    assert(winner(blocked) is None);
    if !is_full(blocked) {
        assert forall|j: int|
            0 <= j < BOARD_WIDTH && is_legal(blocked, PRIORITY_MOVES[j] as int) implies #[trigger] minimax(
            blocked.push(PRIORITY_MOVES[j]),
            0,
            MinMax::Max,
        ) > -i32::MAX by {
            assert(winner(blocked.push(PRIORITY_MOVES[j] as int as usize)) is None);
            lemma_evaluation_bounds(blocked.push(PRIORITY_MOVES[j]));
        }
        lemma_best_child_min_above_floor(blocked, 0, BOARD_WIDTH as nat);
    }
    assert forall|c: int| is_legal(moves, c) && c != column implies #[trigger] minimax(
        moves.push(c as usize),
        1,
        MinMax::Min,
    ) == -i32::MAX by {
        let child = moves.push(c as usize);
        assert(winner(child) is None);
        assert(wins_at_once(child));
        let w = choose|w: int| is_legal(child, w) && #[trigger] winner(child.push(w as usize)) is Some;
        lemma_priority_rank(w);
        let j = priority_rank(w);
        assert(!is_full(child));
        lemma_best_child_min_le(child, 0, BOARD_WIDTH as nat, j);
        lemma_best_child_range(child, 0, MinMax::Min, BOARD_WIDTH as nat);
    }
}

} // verus!
