use vstd::prelude::*;
use crate::ai::{ai_move_ok, compute_ai_move};
use crate::board::Board;
use vstd::string::StringSliceAdditionalSpecFns;

verus! {

/// Why a request line was refused.
#[derive(Clone, Copy, Debug, PartialEq, Eq, Structural)]
pub enum CLIError {
    /// The line is malformed: a level other than `a`, `b` or `c`, a column
    /// outside `1..=7`, or no `0` at the end of the moves.
    SyntaxError,
    /// The moves cannot be played: a full column, or a move after the game
    /// was over.
    PositionalError,
}

/// Plays the moves of a request line from byte `k` on, one ASCII digit per
/// move (`1` to `7`), up to the terminating `0`.
pub open spec fn parse_moves(b: Board, s: Seq<u8>, k: int) -> Result<Board, CLIError>
    decreases s.len() - k,
{
    if k < 0 || k >= s.len() {
        Err(CLIError::SyntaxError)
    } else if s[k] == 48 {
        Ok(b)
    } else if 49 <= s[k] <= 55 {
        let c = (s[k] - 49) as u64;
        if !b.can_play_spec(c) {
            Err(CLIError::PositionalError)
        } else if b.play_spec(c).is_winning_spec() || b.play_spec(c).is_full_spec() {
            Err(CLIError::PositionalError)
        } else {
            parse_moves(b.play_spec(c), s, k + 1)
        }
    } else {
        Err(CLIError::SyntaxError)
    }
}

/// The level a request line asks for: `a`, `b` and `c` are levels 1 to 3.
pub open spec fn level_of(s: Seq<u8>) -> Option<usize> {
    if s.len() == 0 {
        None
    } else if s[0] == 97 {
        Some(1)
    } else if s[0] == 98 {
        Some(2)
    } else if s[0] == 99 {
        Some(3)
    } else {
        None
    }
}

/// The position and level a request line describes.
pub open spec fn parse_spec(s: Seq<u8>) -> Result<(Board, usize), CLIError> {
    match level_of(s) {
        None => Err(CLIError::SyntaxError),
        Some(level) => match parse_moves(Board::empty_spec(), s, 1) {
            Ok(b) => Ok((b, level)),
            Err(e) => Err(e),
        },
    }
}

proof fn lemma_parse_playable(b: Board, s: Seq<u8>, k: int)
    requires
        b.wf(),
        !b.is_full_spec(),
    ensures
        parse_moves(b, s, k) is Ok ==> {
            let r = parse_moves(b, s, k)->Ok_0;
            r.wf() && !r.is_full_spec() && (r == b || !r.is_winning_spec())
        },
    decreases s.len() - k,
{
    if 0 <= k < s.len() && 49 <= s[k] <= 55 {
        let c = (s[k] - 49) as u64;
        if b.can_play_spec(c) {
            let next = b.play_spec(c);
            b.lemma_play_wf(c);
            if !next.is_full_spec() {
                lemma_parse_playable(next, s, k + 1);
            }
        }
    }
}

/// Reads a request line: a level letter, then the moves played so far, one
/// digit `1` to `7` each, then `0`.
pub fn parse_input_string(input_string: &str) -> (r: Result<(Board, usize), CLIError>)
    ensures
        r == parse_spec(input_string.spec_bytes()),
        r is Ok ==> r->Ok_0.0.wf() && !r->Ok_0.0.is_full_spec(),
{
    let bytes = input_string.as_bytes();
    let ghost s = bytes@;
    if bytes.len() == 0 {
        return Err(CLIError::SyntaxError);
    }
    let level: usize = if bytes[0] == 97 {
        1
    } else if bytes[0] == 98 {
        2
    } else if bytes[0] == 99 {
        3
    } else {
        return Err(CLIError::SyntaxError);
    };
    let mut board = Board::new();
    let mut k: usize = 1;
    proof {
        lemma_parse_playable(board, s, 1);
    }
    while k < bytes.len()
        invariant
            1 <= k <= bytes@.len(),
            s == bytes@,
            s == input_string.spec_bytes(),
            board.wf(),
            !board.is_full_spec(),
            level_of(s) == Some(level),
            parse_moves(Board::empty_spec(), s, 1) == parse_moves(board, s, k as int),
        decreases bytes.len() - k,
    {
        let ch = bytes[k];
        if ch == 48 {
            assert(parse_moves(board, s, k as int) == Ok::<Board, CLIError>(board));
            return Ok((board, level));
        }
        if ch < 49 || ch > 55 {
            assert(parse_moves(board, s, k as int) == Err::<Board, CLIError>(CLIError::SyntaxError));
            return Err(CLIError::SyntaxError);
        }
        let column = (ch - 49) as usize;
        match board.make_move(column) {
            Ok(new_board) => {
                board = new_board;
                if board.is_endgame() {
                    return Err(CLIError::PositionalError);
                }
            },
            Err(_) => {
                return Err(CLIError::PositionalError);
            },
        }
        k = k + 1;
    }
    Err(CLIError::SyntaxError)
}

/// Answers a request line with the engine's column, numbered `1` to `7`.
pub fn play_game(input_string: &str, book: &[u8]) -> (r: Result<usize, CLIError>)
    ensures
        r is Err <==> parse_spec(input_string.spec_bytes()) is Err,
        r is Err ==> r->Err_0 == parse_spec(input_string.spec_bytes())->Err_0,
        r is Ok ==> 1 <= r->Ok_0 <= 7,
        r is Ok ==> ai_move_ok(parse_spec(input_string.spec_bytes())->Ok_0.0, (r->Ok_0 - 1) as usize),
{
    match parse_input_string(input_string) {
        Ok((board, level)) => Ok(compute_ai_move(board, level, book) + 1),
        Err(e) => Err(e),
    }
}

} // verus!
