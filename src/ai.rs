use vstd::prelude::*;
use crate::board::{Board, Player, Square, SQUARES, WIDTH};
use crate::book::use_opening_book;
use crate::heuristic::heuristic_best_play;

verus! {

/// Relies on fastrand::usize: a value drawn from the range `0..n`, which is
/// not empty (fastrand panics on an empty range).
#[verifier::external_body]
pub(crate) fn random_below(n: usize) -> (r: usize)
    requires
        n > 0,
    ensures
        r < n,
{
    fastrand::usize(0..n)
}

/// Dropping a piece of `player` in column `c` is legal and wins at once.
pub open spec fn wins_with(b: Board, player: Player, c: int) -> bool {
    0 <= c < 7 && b.can_play_spec(c as u64) && b.wins_in(player, c as u64)
}

/// A winning column for `player`, picked at random among all of them.
fn random_winning_move(board: Board, player: Player) -> (r: Option<usize>)
    requires
        board.wf(),
    ensures
        r is Some ==> wins_with(board, player, r->Some_0 as int),
        r is None <==> forall|c: int| 0 <= c < 7 ==> !#[trigger] wins_with(board, player, c),
{
    let mut possible_moves: Vec<usize> = Vec::new();
    let mut column: usize = 0;
    while column < WIDTH
        invariant
            column <= 7,
            board.wf(),
            forall|k: int| 0 <= k < possible_moves.len() ==> wins_with(board, player, #[trigger] possible_moves@[k] as int),
            possible_moves.len() == 0 <==> forall|c: int| 0 <= c < column ==> !#[trigger] wins_with(board, player, c),
        decreases 7 - column,
    {
        if board.is_move_winning(column, player) {
            possible_moves.push(column);
            assert(wins_with(board, player, column as int));
        }
        column = column + 1;
    }
    if possible_moves.len() == 0 {
        None
    } else {
        Some(possible_moves[random_below(possible_moves.len())])
    }
}

/// A column where the side to move wins at once, if there is one.
fn try_to_win_immediately(board: Board) -> (r: Option<usize>)
    requires
        board.wf(),
    ensures
        r is Some ==> wins_with(board, board.player_spec(), r->Some_0 as int),
        r is None <==> forall|c: int| 0 <= c < 7 ==> !#[trigger] wins_with(board, board.player_spec(), c),
{
    random_winning_move(board, board.player_to_play())
}

/// A column where the opponent would win at once, and which must be blocked.
fn avoid_immediate_loss(board: Board) -> (r: Option<usize>)
    requires
        board.wf(),
    ensures
        r is Some ==> wins_with(board, board.player_spec().opponent_spec(), r->Some_0 as int),
        r is None <==> forall|c: int| 0 <= c < 7 ==> !#[trigger] wins_with(board, board.player_spec().opponent_spec(), c),
{
    random_winning_move(board, board.player_to_play().opponent())
}

pub open spec fn alternate(p: Player, i: int) -> Player {
    if i % 2 == 0 {
        p
    } else {
        p.opponent_spec()
    }
}

/// The lowest `height` squares of `column` hold pieces of alternating
/// colours, starting with `base` at the bottom.
pub open spec fn alternating(b: Board, column: int, height: int, base: Player) -> bool {
    forall|i: int| 0 <= i < height ==> #[trigger] b.square_at(column as u64, i as u64) == Square::Taken(alternate(base, i))
}

fn is_column_alternating(board: Board, column: usize, height: usize, base_player: Player) -> (r: bool)
    requires
        board.wf(),
        column < 7,
        height <= 6,
    ensures
        r == alternating(board, column as int, height as int, base_player),
{
    let mut player = base_player;
    let mut i: usize = 0;
    while i < height
        invariant
            i <= height <= 6,
            column < 7,
            board.wf(),
            player == alternate(base_player, i as int),
            alternating(board, column as int, i as int, base_player),
        decreases height - i,
    {
        match board.get_square(column, i) {
            Some(Square::Taken(p)) => {
                if p != player {
                    return false;
                }
            },
            _ => {
                return false;
            },
        }
        player = player.opponent();
        i = i + 1;
    }
    true
}

/// The opening line for Black when both sides have played the centre and
/// side columns as expected; `side` picks column 1 (0) or 5 (1) where the
/// position leaves the choice open.
pub open spec fn black_opening(b: Board, side: int) -> Option<usize> {
    let f = b.filled_spec() as int;
    let pick: usize = if side == 0 { 1 } else { 5 };
    if f >= 14 {
        None
    } else if !alternating(b, 3, if f < 5 { f } else { 5 }, Player::White) {
        None
    } else if f <= 4 {
        Some(3)
    } else if f == 5 {
        Some(pick)
    } else if f <= 8 {
        let s: usize = if b.square_at(1, 0) == Square::Taken(Player::Black) { 1 } else { 5 };
        if !alternating(b, s as int, f - 5, Player::Black) {
            None
        } else {
            Some(s)
        }
    } else if f <= 12 {
        if !alternating(b, 1, f - 9, Player::Black) || !alternating(b, 5, f - 9, Player::Black) {
            None
        } else if alternating(b, 1, 4, Player::Black) {
            Some(5)
        } else if alternating(b, 5, 4, Player::Black) {
            Some(1)
        } else {
            None
        }
    } else if !alternating(b, 1, 4, Player::Black) || !alternating(b, 5, 4, Player::Black) {
        None
    } else {
        Some(pick)
    }
}

/// The Black opening move for a given choice of side column.
pub fn black_opening_move(board: Board, side: usize) -> (r: Option<usize>)
    requires
        board.wf(),
    ensures
        r == black_opening(board, side as int),
{
    let filled = board.filled_squares();
    let pick: usize = if side == 0 {
        1
    } else {
        5
    };
    if filled >= 14 {
        return None;
    }
    let centre = if filled < 5 {
        filled
    } else {
        5
    };
    if !is_column_alternating(board, 3, centre, Player::White) {
        return None;
    }
    if filled <= 4 {
        Some(3)
    } else if filled == 5 {
        Some(pick)
    } else if filled <= 8 {
        let side_column: usize = if board.get_square(1, 0) == Some(Square::Taken(Player::Black)) {
            1
        } else {
            5
        };
        if !is_column_alternating(board, side_column, filled - 5, Player::Black) {
            None
        } else {
            Some(side_column)
        }
    } else if filled <= 12 {
        let minimal_height = filled - 9;
        if !is_column_alternating(board, 1, minimal_height, Player::Black) || !is_column_alternating(
            board,
            5,
            minimal_height,
            Player::Black,
        ) {
            None
        } else if is_column_alternating(board, 1, 4, Player::Black) {
            Some(5)
        } else if is_column_alternating(board, 5, 4, Player::Black) {
            Some(1)
        } else {
            None
        }
    } else if !is_column_alternating(board, 1, 4, Player::Black) || !is_column_alternating(
        board,
        5,
        4,
        Player::Black,
    ) {
        None
    } else {
        Some(pick)
    }
}

/// The Black opening move, with the side column drawn at random where the
/// position is symmetric.
fn black_best_move(board: Board) -> (r: Option<usize>)
    requires
        board.wf(),
    ensures
        r == black_opening(board, 0) || r == black_opening(board, 1),
{
    let side = random_below(2);
    black_opening_move(board, side)
}

/// The reply to White's first move: beside White's piece when it stands in
/// column 1 or 5, the centre otherwise.
pub open spec fn first_reply(b: Board) -> usize {
    if b.square_at(1, 0) == Square::Taken(Player::White) {
        2
    } else if b.square_at(5, 0) == Square::Taken(Player::White) {
        4
    } else {
        3
    }
}

/// What the engine's move `r` is owed to be on `b`: a column; the centre on
/// an empty board; the fixed reply to White's first move; the free column
/// when one square is left; otherwise a winning column when there is one,
/// or else a column that blocks an immediate loss when there is one.
pub open spec fn ai_move_ok(b: Board, r: usize) -> bool {
    let me = b.player_spec();
    let other = me.opponent_spec();
    &&& r < 7
    &&& b.filled_spec() == 0 ==> r == 3
    &&& b.filled_spec() == 1 ==> r == first_reply(b)
    &&& b.filled_spec() == 41 ==> b.can_play_spec(r as u64)
    &&& 2 <= b.filled_spec() <= 40 && (exists|c: int| 0 <= c < 7 && #[trigger] wins_with(b, me, c)) ==> wins_with(
        b,
        me,
        r as int,
    )
    &&& 2 <= b.filled_spec() <= 40 && (forall|c: int| 0 <= c < 7 ==> !#[trigger] wins_with(b, me, c)) && (exists|c: int|
        0 <= c < 7 && #[trigger] wins_with(b, other, c)) ==> wins_with(b, other, r as int)
}

/// The engine's move: the centre on an empty board, fixed replies to White's
/// first move, the last free column, a winning move, a blocking move, the
/// Black opening line, the opening book (from level 3), the proof-number
/// search, and column 0 when nothing else decides.
pub fn compute_ai_move(board: Board, level: usize, book: &[u8]) -> (r: usize)
    requires
        board.wf(),
        !board.is_full_spec(),
    ensures
        ai_move_ok(board, r),
{
    if board.filled_squares() == 0 {
        return 3;
    }
    if board.filled_squares() == 1 {
        return if board.get_square(1, 0) == Some(Square::Taken(Player::White)) {
            2
        } else if board.get_square(5, 0) == Some(Square::Taken(Player::White)) {
            4
        } else {
            3
        };
    }
    if board.filled_squares() == SQUARES - 1 {
        let ghost room = board.lemma_has_room();
        let mut column: usize = 0;
        while column < WIDTH
            invariant
                column <= 7,
                board.wf(),
                board.filled_spec() == 41,
                room < 7,
                board.can_play_spec(room),
                forall|c: int| 0 <= c < column ==> !#[trigger] board.can_play_spec(c as u64),
            decreases 7 - column,
        {
            if board.can_play(column) {
                return column;
            }
            column = column + 1;
        }
        assert(!board.can_play_spec(room as int as u64));
        return 0;
    }
    if let Some(winning_move) = try_to_win_immediately(board) {
        return winning_move;
    }
    if let Some(forced_move) = avoid_immediate_loss(board) {
        return forced_move;
    }
    if board.player_to_play() == Player::Black && level >= 3 {
        if let Some(best_move) = black_best_move(board) {
            return best_move;
        }
    }
    if level >= 3 {
        if let Some(opening) = use_opening_book(board, book) {
            return opening;
        }
    }
    if let Some(heuristic) = heuristic_best_play(board, false) {
        return heuristic;
    }
    0
}

} // verus!
