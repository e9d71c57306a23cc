use vstd::prelude::*;
use vstd::arithmetic::div_mod::lemma_fundamental_div_mod_converse;

verus! {

/// The two sides. White always moves first.
#[derive(Clone, Copy, Debug, PartialEq, Eq, Structural)]
pub enum Player {
    White,
    Black,
}

impl Player {
    pub open spec fn opponent_spec(self) -> Player {
        match self {
            Player::White => Player::Black,
            Player::Black => Player::White,
        }
    }

    pub fn opponent(self) -> (r: Player)
        ensures
            r == self.opponent_spec(),
            r != self,
    {
        match self {
            Player::White => Player::Black,
            Player::Black => Player::White,
        }
    }
}

/// The content of one square of the board.
#[derive(Clone, Copy, Debug, PartialEq, Eq, Structural)]
pub enum Square {
    Empty,
    Taken(Player),
}

/// Rank of a square in the row-major board order: empty, then White, then Black.
pub open spec fn square_rank(s: Square) -> int {
    match s {
        Square::Empty => 0,
        Square::Taken(Player::White) => 1,
        Square::Taken(Player::Black) => 2,
    }
}

pub const WIDTH: usize = 7;

pub const HEIGHT: usize = 6;

pub const SQUARES: usize = 42;

/// One bit at the foot of every column.
pub const BOTTOM: u64 = 0x40810204081;

/// Every playable square (the sentinel bit above each column left out).
pub const BOARD_MASK: u64 = 0xfdfbf7efdfbf;

/// The seven bits that column `c` occupies in a bitboard (six squares and a sentinel).
pub open spec fn col_bits(x: u64, c: u64) -> u64 {
    (x >> ((7 * c) as u64)) & 0x7f
}

/// The occupancy mask after a piece is dropped into column `c`: the carry of
/// the added bit runs up through the stack to its first free square.
pub open spec fn push_mask(m: u64, c: u64) -> u64 {
    m | ((m + (1u64 << ((7 * c) as u64))) as u64)
}

/// A column filled from the bottom, with no gap: `h` low bits set, `h <= 6`.
pub open spec fn is_stack(p: u64) -> bool {
    p == 0 || p == 1 || p == 3 || p == 7 || p == 15 || p == 31 || p == 63
}

/// Number of pieces in a column pattern that `is_stack`.
pub open spec fn stack_height(p: u64) -> u64 {
    if p == 0 {
        0
    } else if p == 1 {
        1
    } else if p == 3 {
        2
    } else if p == 7 {
        3
    } else if p == 15 {
        4
    } else if p == 31 {
        5
    } else {
        6
    }
}

/// Whether bit `r` of a column pattern is set.
pub open spec fn has_row(p: u64, r: u64) -> bool {
    (p >> r) & 1 == 1
}

/// Sum of the column heights of the first `n` columns of an occupancy mask.
pub open spec fn heights_sum(mask: u64, n: nat) -> nat
    decreases n,
{
    if n == 0 {
        0
    } else {
        heights_sum(mask, (n - 1) as nat) + stack_height(col_bits(mask, (n - 1) as u64)) as nat
    }
}

/// A Connect-Four position as two bitboards: the pieces of the side to move,
/// and every occupied square. Column `c`, row `r` is bit `7 * c + r`.
#[derive(Clone, Copy, Debug, PartialEq, Eq, Structural)]
pub struct Board {
    current_player: u64,
    mask: u64,
    filled: usize,
}

impl Board {
    /// Pieces of the side to move.
    pub closed spec fn mover_bits(self) -> u64 {
        self.current_player
    }

    /// Every occupied square.
    pub closed spec fn occupied_bits(self) -> u64 {
        self.mask
    }

    pub closed spec fn filled_spec(self) -> nat {
        self.filled as nat
    }

    /// The board after the side to move drops a piece in column `c`.
    pub closed spec fn play_spec(self, c: u64) -> Board {
        Board {
            current_player: self.current_player ^ self.mask,
            mask: push_mask(self.mask, c),
            filled: (self.filled + 1) as usize,
        }
    }

    /// The board with no piece on it.
    pub closed spec fn empty_spec() -> Board {
        Board { current_player: 0, mask: 0, filled: 0 }
    }

    /// The board reflected left-right.
    pub closed spec fn mirror_spec(self) -> Board {
        Board {
            current_player: mirror_bits(self.current_player),
            mask: mirror_bits(self.mask),
            filled: self.filled,
        }
    }

    /// Well-formedness: pieces stack from the bottom of each column, the mover's
    /// pieces are occupied squares, and the piece count is the number of
    /// occupied squares.
    pub open spec fn wf(self) -> bool {
        &&& forall|c: u64| c < 7 ==> #[trigger] is_stack(col_bits(self.occupied_bits(), c))
        &&& self.occupied_bits() >> 49 == 0
        &&& self.mover_bits() & !self.occupied_bits() == 0
        &&& self.filled_spec() == heights_sum(self.occupied_bits(), 7)
    }

    /// Number of pieces in column `c`.
    pub open spec fn height(self, c: u64) -> u64 {
        stack_height(col_bits(self.occupied_bits(), c))
    }

    pub open spec fn player_spec(self) -> Player {
        if self.filled_spec() % 2 == 0 {
            Player::White
        } else {
            Player::Black
        }
    }

    /// The square at column `c`, row `r` (row 0 at the bottom).
    pub open spec fn square_at(self, c: u64, r: u64) -> Square {
        if !has_row(col_bits(self.occupied_bits(), c), r) {
            Square::Empty
        } else if has_row(col_bits(self.mover_bits(), c), r) {
            Square::Taken(self.player_spec())
        } else {
            Square::Taken(self.player_spec().opponent_spec())
        }
    }

    pub open spec fn can_play_spec(self, c: u64) -> bool {
        c < 7 && self.height(c) < 6
    }

    pub open spec fn is_full_spec(self) -> bool {
        self.filled_spec() == 42
    }

    /// The position after the side to move drops a piece in column `c`.
    pub open spec fn played(self, next: Board, c: u64) -> bool {
        &&& next.wf()
        &&& next.filled_spec() == self.filled_spec() + 1
        &&& forall|d: u64, r: u64|
            d < 7 && r < 6 ==> #[trigger] next.square_at(d, r) == if d == c && r == self.height(c) {
                Square::Taken(self.player_spec())
            } else {
                self.square_at(d, r)
            }
        &&& forall|d: u64| d < 7 ==> #[trigger] next.height(d) == if d == c {
            self.height(c) + 1
        } else {
            self.height(d) as int
        }
    }

    pub fn new() -> (r: Board)
        ensures
            r.wf(),
            r.filled_spec() == 0,
            r == Board::empty_spec(),
            forall|c: u64, row: u64| c < 7 && row < 6 ==> #[trigger] r.square_at(c, row) == Square::Empty,
            forall|c: u64| c < 7 ==> #[trigger] r.height(c) == 0,
    {
        let r = Board { current_player: 0, mask: 0, filled: 0 };
        proof {
            assert forall|c: u64| c < 7 implies #[trigger] col_bits(0, c) == 0 by {
                lemma_col_bits_zero(c, 0);
            }
            assert forall|c: u64, row: u64| c < 7 && row < 6 implies #[trigger] r.square_at(c, row) == Square::Empty by {
                lemma_col_bits_zero(c, row);
            }
            lemma_heights_sum_zero(7);
            lemma_col_bits_zero(0, 0);
        }
        r
    }

    pub fn player_to_play(self) -> (r: Player)
        ensures
            r == self.player_spec(),
    {
        if self.filled % 2 == 0 {
            Player::White
        } else {
            Player::Black
        }
    }

    pub fn is_full(self) -> (r: bool)
        ensures
            r == self.is_full_spec(),
    {
        self.filled == SQUARES
    }

    pub fn filled_squares(self) -> (r: usize)
        ensures
            r == self.filled_spec(),
    {
        self.filled
    }

    pub fn can_play(self, column: usize) -> (r: bool)
        requires
            self.wf(),
        ensures
            r == self.can_play_spec(column as u64),
    {
        if column >= WIDTH {
            return false;
        }
        let c = column as u64;
        let top_mask: u64 = (1u64 << 5u64) << ((7 * c) as u64);
        let m = self.mask;
        proof {
            assert(is_stack(col_bits(m, c)));
            lemma_top_bit(m, c);
        }
        m & top_mask == 0
    }

    /// Dropping a piece into a column with room gives a well-formed board with
    /// that one square added.
    pub proof fn lemma_play_wf(self, c: u64)
        requires
        self.wf(),
        self.can_play_spec(c),
        ensures
        self.played(self.play_spec(c), c),
    {
        let m = self.mask;
        let cur = self.current_player;
        let next = self.play_spec(c);
        lemma_heights_sum_bound(m, 7);
        let nm = next.mask;
        assert(is_stack(col_bits(m, c)));
        lemma_push_column(m, c, c);
        lemma_stack_push(col_bits(m, c));
        assert forall|d: u64| d < 7 && d != c implies #[trigger] col_bits(nm, d) == col_bits(m, d) by {
            lemma_push_column(m, c, d);
        }
        assert forall|d: u64| d < 7 implies #[trigger] is_stack(col_bits(nm, d)) by {
            if d != c {
                assert(col_bits(nm, d) == col_bits(m, d));
                assert(is_stack(col_bits(m, d)));
            }
        }
        assert forall|d: u64| d < 7 implies #[trigger] next.height(d) == if d == c {
            self.height(c) + 1
        } else {
            self.height(d) as int
        } by {
            if d != c {
                assert(col_bits(nm, d) == col_bits(m, d));
            }
        }
        assert(nm >> 49 == 0);
        assert((cur ^ m) & !nm == 0) by (bit_vector)
            requires
                nm == push_mask(m, c),
                cur & !m == 0,
                m >> 49 == 0,
                c < 7,
        ;
        lemma_heights_sum_push(m, nm, c, 7);
        assert forall|d: u64, r: u64| d < 7 && r < 6 implies #[trigger] next.square_at(d, r)
            == if d == c && r == self.height(c) {
            Square::Taken(self.player_spec())
        } else {
            self.square_at(d, r)
        } by {
            assert(is_stack(col_bits(m, d)));
            lemma_xor_col(cur, m, d);
            assert(col_bits(cur, d) & !col_bits(m, d) == 0) by {
                lemma_subset_col(cur, m, d);
            }
            let p = col_bits(m, d);
            let q = col_bits(cur, d);
            if d == c {
                lemma_push_row(p, q, r);
            } else {
                lemma_xor_row(p, q, r);
            }
        }
    }

    pub fn make_move(self, column: usize) -> (r: Result<Board, ()>)
        requires
            self.wf(),
        ensures
            r is Err <==> !self.can_play_spec(column as u64),
            r is Ok ==> self.played(r->Ok_0, column as u64),
            r is Ok ==> r->Ok_0 == self.play_spec(column as u64),
    {
        if !self.can_play(column) {
            return Err(());
        }
        let c = column as u64;
        let m = self.mask;
        let cur = self.current_player;
        proof {
            lemma_heights_sum_bound(m, 7);
            assert(m < 0x2000000000000 && (1u64 << (7 * c)) <= 0x40000000000) by (bit_vector)
                requires
                    m >> 49 == 0,
                    c < 7,
            ;
        }
        let next = Board {
            current_player: cur ^ m,
            mask: m | (m + (1u64 << (7 * c))),
            filled: self.filled + 1,
        };
        proof {
            self.lemma_play_wf(c);
        }
        Ok(next)
    }
}


/// Lexicographic comparison of two boards' square ranks, in row-major order
/// from square `k` on (square `k` is column `k % 7`, row `k / 7`). Rows are
/// taken from the bottom row up, left to right. The opening book's records
/// are sorted in this order, and the search uses the same order to pick the
/// canonical one of a board and its mirror: any total order serves that
/// purpose, since answers are mapped back through the mirror, and one order
/// keeps the search's canonical positions and the book's keys alike.
pub open spec fn row_major_from(a: Board, b: Board, k: nat) -> core::cmp::Ordering
    decreases 42 - k,
{
    if k >= 42 {
        core::cmp::Ordering::Equal
    } else {
        let sa = square_rank(a.square_at((k % 7) as u64, (k / 7) as u64));
        let sb = square_rank(b.square_at((k % 7) as u64, (k / 7) as u64));
        if sa < sb {
            core::cmp::Ordering::Less
        } else if sa > sb {
            core::cmp::Ordering::Greater
        } else {
            row_major_from(a, b, k + 1)
        }
    }
}

/// A bitboard reflected left-right: column `c` moves to column `6 - c`.
pub open spec fn mirror_bits(x: u64) -> u64 {
    ((x >> 42u64) & 0x3f) | (((x >> 35u64) & 0x3f) << 7u64) | (((x >> 28u64) & 0x3f) << 14u64) | (((x
        >> 21u64) & 0x3f) << 21u64) | (((x >> 14u64) & 0x3f) << 28u64) | (((x >> 7u64) & 0x3f) << 35u64)
        | ((x & 0x3f) << 42u64)
}

/// The left-right mirror image of a board.
pub open spec fn is_mirror(a: Board, b: Board) -> bool {
    &&& b.wf()
    &&& b.filled_spec() == a.filled_spec()
    &&& forall|c: u64, r: u64| c < 7 && r < 6 ==> #[trigger] b.square_at(c, r) == a.square_at((6 - c) as u64, r)
    &&& forall|c: u64| c < 7 ==> #[trigger] b.height(c) == a.height((6 - c) as u64)
}

/// The canonical form of a board: the smaller of it and its mirror in the
/// row-major order, the board itself when they compare equal.
pub open spec fn canonical_spec(b: Board, m: Board) -> (Board, bool) {
    if row_major_from(m, b, 0) == core::cmp::Ordering::Less {
        (m, true)
    } else {
        (b, false)
    }
}

/// One bit at the foot of each of the first `width` columns.
pub open spec fn bottom_bits(width: nat) -> u64
    decreases width,
{
    if width == 0 {
        0
    } else {
        bottom_bits((width - 1) as nat) | (1u64 << ((7 * (width - 1)) as u64))
    }
}

impl Board {
    /// One bit at the foot of each of the first `width` columns.
    pub fn bottom(width: usize) -> (r: u64)
        requires
            width <= 7,
        ensures
            r == bottom_bits(width as nat),
    {
        let mut r: u64 = 0;
        let mut k: usize = 0;
        while k < width
            invariant
                k <= width <= 7,
                r == bottom_bits(k as nat),
            decreases width - k,
        {
            r = r | (1u64 << (7 * k as u64));
            k = k + 1;
        }
        r
    }

    /// The six playable squares of a column.
    pub fn column_mask(column: usize) -> (r: u64)
        requires
            column < 7,
        ensures
            r == 0x3fu64 << (7 * column as u64),
    {
        0x3fu64 << (7 * column as u64)
    }

    /// One square in each column, at row `row`.
    pub fn row_mask(row: usize) -> (r: u64)
        requires
            row < 6,
        ensures
            r == BOTTOM << (row as u64),
    {
        BOTTOM << (row as u64)
    }

    /// The single bit of column `column`, row `row`.
    pub fn square_mask(column: usize, row: usize) -> (r: u64)
        requires
            column < 7,
            row < 6,
        ensures
            r == 1u64 << ((7 * column + row) as u64),
    {
        let r = Self::column_mask(column) & Self::row_mask(row);
        let c = column as u64;
        let w = row as u64;
        proof {
            assert((0x3fu64 << (7 * c)) & (0x40810204081u64 << w) == 1u64 << (7 * c + w)) by (bit_vector)
                requires
                    c < 7,
                    w < 6,
            ;
        }
        r
    }

    pub fn get_square(&self, column: usize, row: usize) -> (r: Option<Square>)
        requires
            self.wf(),
        ensures
            column < 7 && row < 6 ==> r == Some(self.square_at(column as u64, row as u64)),
            !(column < 7 && row < 6) ==> r is None,
    {
        if column >= WIDTH || row >= HEIGHT {
            None
        } else {
            let sq = Self::square_mask(column, row);
            let c = column as u64;
            let w = row as u64;
            let m = self.mask;
            let cur = self.current_player;
            proof {
                lemma_square_bit(m, c, w);
                lemma_square_bit(cur, c, w);
            }
            Some(
                if m & sq == 0 {
                    Square::Empty
                } else {
                    Square::Taken(
                        if cur & sq != 0 {
                            self.player_to_play()
                        } else {
                            self.player_to_play().opponent()
                        },
                    )
                },
            )
        }
    }

    /// Each column's bits moved to the mirrored column (sentinel bits dropped).
    fn symmetric(values: u64) -> (r: u64)
        ensures
            forall|c: u64| c < 7 ==> #[trigger] col_bits(r, c) == col_bits(values, (6 - c) as u64) & 0x3f,
            r >> 49 == 0,
            r == mirror_bits(values),
    {
        let mut result: u64 = 0;
        let mut column: usize = 0;
        proof {
            assert forall|d: u64| d < 7 implies #[trigger] col_bits(0, d) == 0 by {
                lemma_col_bits_zero(d, 0);
            }
            assert(0u64 >> 49u64 == 0) by (bit_vector);
        }
        while column < WIDTH
            invariant
                column <= 7,
                result >> 49 == 0,
                forall|d: u64| d < 7 ==> #[trigger] col_bits(result, d) == if 6 - d < column {
                    col_bits(values, (6 - d) as u64) & 0x3f
                } else {
                    0
                },
            decreases 7 - column,
        {
            let target = WIDTH - 1 - column;
            let selected = values & Self::column_mask(column);
            let moved = if target < column {
                selected >> ((column - target) as u64 * 7)
            } else {
                selected << ((target - column) as u64 * 7)
            };
            let c = column as u64;
            let old_result = result;
            result = result | moved;
            proof {
                assert(moved == (((values >> (7 * c)) & 0x3f) << ((7 * (6 - c)) as u64))) by (bit_vector)
                    requires
                        c < 7,
                        selected == values & (0x3fu64 << (7 * c)),
                        moved == if 6 - c < c {
                            selected >> (((c - (6 - c)) * 7) as u64)
                        } else {
                            selected << ((((6 - c) - c) * 7) as u64)
                        },
                ;
                assert forall|d: u64| d < 7 implies #[trigger] col_bits(result, d) == if 6 - d < column + 1 {
                    col_bits(values, (6 - d) as u64) & 0x3f
                } else {
                    0
                } by {
                    lemma_mirror_step(old_result, values, c, d);
                    let a = col_bits(old_result, d);
                    let x = col_bits(values, c) & 0x3f;
                    assert(0u64 | x == x && a | 0u64 == a) by (bit_vector);
                }
                lemma_mirror_high(old_result, values, c);
            }
            column = column + 1;
        }
        proof {
            lemma_mirror_bits_cols(values);
            assert forall|c: u64| c < 7 implies #[trigger] col_bits(result, c) == col_bits(mirror_bits(values), c) by {
                assert(col_bits(result, c) == col_bits(values, (6 - c) as u64) & 0x3f);
            }
            lemma_cols_eq(result, mirror_bits(values));
        }
        result
    }

    pub fn symmetric_board(self) -> (r: Board)
        requires
            self.wf(),
        ensures
            is_mirror(self, r),
            r == self.mirror_spec(),
    {
        let r = Board {
            current_player: Self::symmetric(self.current_player),
            mask: Self::symmetric(self.mask),
            filled: self.filled,
        };
        proof {
            self.lemma_mirror_facts();
        }
        r
    }

    /// Square-by-square comparison in row-major order, bottom row first (the
    /// order the opening book is sorted in), empty before White before Black.
    pub fn row_major_comparison(self, other: Board) -> (r: core::cmp::Ordering)
        requires
            self.wf(),
            other.wf(),
        ensures
            r == row_major_from(self, other, 0),
    {
        let mut k: usize = 0;
        while k < SQUARES
            invariant
                k <= 42,
                self.wf(),
                other.wf(),
                row_major_from(self, other, 0) == row_major_from(self, other, k as nat),
            decreases 42 - k,
        {
            let column = k % 7;
            let row = k / 7;
            let a = square_code(self.get_square(column, row));
            let b = square_code(other.get_square(column, row));
            if a < b {
                return core::cmp::Ordering::Less;
            } else if a > b {
                return core::cmp::Ordering::Greater;
            }
            k = k + 1;
        }
        core::cmp::Ordering::Equal
    }

    /// The number that identifies a position: the two bitboards summed.
    pub open spec fn key_spec(self) -> int {
        self.mover_bits() + self.occupied_bits()
    }

    /// A number that identifies the position: the two bitboards summed.
    pub fn key(self) -> (r: u64)
        requires
            self.wf(),
        ensures
            r == self.key_spec(),
    {
        let cur = self.current_player;
        let m = self.mask;
        proof {
            assert(cur <= m && m < 0x2000000000000) by (bit_vector)
                requires
                    cur & !m == 0,
                    m >> 49 == 0,
            ;
        }
        cur + m
    }

    /// The canonical form of the board and whether it is the mirror image.
    pub fn canonical(self) -> (r: (Board, bool))
        requires
            self.wf(),
        ensures
            r.0.wf(),
            r.0.filled_spec() == self.filled_spec(),
            is_mirror(self, self.mirror_spec()),
            r == canonical_spec(self, self.mirror_spec()),
    {
        let m = self.symmetric_board();
        match m.row_major_comparison(self) {
            core::cmp::Ordering::Less => (m, true),
            _ => (self, false),
        }
    }
}

/// Squares where four aligned bits start, along the direction of stride `s`
/// (7: horizontal, 1: vertical, 8 and 6: the two diagonals).
pub open spec fn run4(x: u64, s: u64) -> u64 {
    (x & (x >> s)) & ((x & (x >> s)) >> ((2 * s) as u64))
}

/// Whether a bitboard holds four aligned pieces in any direction.
pub open spec fn has_four_bits(x: u64) -> bool {
    run4(x, 7) != 0 || run4(x, 6) != 0 || run4(x, 8) != 0 || run4(x, 1) != 0
}

/// Squares that would complete four aligned pieces with `p` along stride `s`:
/// the square is at one end of three, or in the gap of two and one.
pub open spec fn threats_along(p: u64, s: u64) -> u64 {
    let one_left = p >> s;
    let one_right = p << s;
    let two_left = one_left & (p >> ((2 * s) as u64));
    let two_right = one_right & (p << ((2 * s) as u64));
    (two_right & (p << ((3 * s) as u64))) | (two_right & one_left) | (two_left & (p >> ((3 * s) as u64))) | (
    two_left & one_right)
}

/// Squares that would complete four aligned pieces with `p`, in any direction.
pub open spec fn threat_bits(p: u64) -> u64 {
    ((p << 1u64) & (p << 2u64) & (p << 3u64)) | threats_along(p, 7) | threats_along(p, 6) | threats_along(
        p,
        8,
    )
}

/// The lowest free square of every column that is not full.
pub open spec fn drop_squares(m: u64) -> u64 {
    ((m + BOTTOM) as u64) & BOARD_MASK
}

impl Board {
    /// Pieces of a side.
    pub open spec fn bits_of(self, player: Player) -> u64 {
        if self.player_spec() == player {
            self.mover_bits()
        } else {
            self.mover_bits() ^ self.occupied_bits()
        }
    }

    /// Squares where `player`'s next piece, dropped now, would complete four.
    pub open spec fn winning_squares(self, player: Player) -> u64 {
        threat_bits(self.bits_of(player)) & drop_squares(self.occupied_bits())
    }

    /// The side that moved last has four aligned pieces.
    pub open spec fn is_winning_spec(self) -> bool {
        has_four_bits(self.mover_bits() ^ self.occupied_bits())
    }

    /// Whether a piece of `player` in column `c` wins at once.
    pub open spec fn wins_in(self, player: Player, c: u64) -> bool {
        self.winning_squares(player) & (0x3fu64 << ((7 * c) as u64)) != 0
    }

    pub open spec fn first_winning_from(self, k: int) -> Option<usize>
        decreases 7 - k,
    {
        if k >= 7 || k < 0 {
            None
        } else if self.wins_in(self.player_spec(), k as u64) {
            Some(k as usize)
        } else {
            self.first_winning_from(k + 1)
        }
    }

    fn is_winning(self) -> (r: bool)
        ensures
            r == self.is_winning_spec(),
    {
        let m = self.mask;
        let cur = self.current_player;
        let last_player = m ^ cur;
        proof {
            assert(last_player == cur ^ m) by (bit_vector)
                requires
                    last_player == m ^ cur,
            ;
        }
        let horizontal_1 = last_player & (last_player >> 7u64);
        let horizontal_2 = horizontal_1 & (horizontal_1 >> 14u64);
        if horizontal_2 != 0 {
            return true;
        }
        let diagonal1_1 = last_player & (last_player >> 6u64);
        let diagonal1_2 = diagonal1_1 & (diagonal1_1 >> 12u64);
        if diagonal1_2 != 0 {
            return true;
        }
        let diagonal2_1 = last_player & (last_player >> 8u64);
        let diagonal2_2 = diagonal2_1 & (diagonal2_1 >> 16u64);
        if diagonal2_2 != 0 {
            return true;
        }
        let vertical_1 = last_player & (last_player >> 1u64);
        let vertical_2 = vertical_1 & (vertical_1 >> 2u64);
        vertical_2 != 0
    }

    fn winning_positions(self, player: Player) -> (r: u64)
        requires
            self.wf(),
        ensures
            r == self.winning_squares(player),
    {
        let p = if self.player_to_play() == player {
            self.current_player
        } else {
            self.current_player ^ self.mask
        };
        let mut result = (p << 1u64) & (p << 2u64) & (p << 3u64);
        let one_left = p >> 7u64;
        let one_right = p << 7u64;
        let two_left = one_left & (p >> 14u64);
        let two_right = one_right & (p << 14u64);
        result = result | (two_right & (p << 21u64));
        result = result | (two_right & one_left);
        result = result | (two_left & (p >> 21u64));
        result = result | (two_left & one_right);
        let one_top_left = p >> 6u64;
        let one_bottom_right = p << 6u64;
        let two_top_left = one_top_left & (p >> 12u64);
        let two_bottom_right = one_bottom_right & (p << 12u64);
        result = result | (two_bottom_right & (p << 18u64));
        result = result | (two_bottom_right & one_top_left);
        result = result | (two_top_left & (p >> 18u64));
        result = result | (two_top_left & one_bottom_right);
        let one_bottom_left = p >> 8u64;
        let one_top_right = p << 8u64;
        let two_bottom_left = one_bottom_left & (p >> 16u64);
        let two_top_right = one_top_right & (p << 16u64);
        result = result | (two_top_right & (p << 24u64));
        result = result | (two_top_right & one_bottom_left);
        result = result | (two_bottom_left & (p >> 24u64));
        result = result | (two_bottom_left & one_top_right);
        let m = self.mask;
        proof {
            assert(m < 0x2000000000000 && result == threat_bits(p)) by (bit_vector)
                requires
                    m >> 49 == 0,
                    result == ((p << 1u64) & (p << 2u64) & (p << 3u64)) | ((p << 7u64) & (p << 14u64) & (p
                        << 21u64)) | ((p << 7u64) & (p << 14u64) & (p >> 7u64)) | ((p >> 7u64) & (p
                        >> 14u64) & (p >> 21u64)) | ((p >> 7u64) & (p >> 14u64) & (p << 7u64)) | ((p
                        << 6u64) & (p << 12u64) & (p << 18u64)) | ((p << 6u64) & (p << 12u64) & (p
                        >> 6u64)) | ((p >> 6u64) & (p >> 12u64) & (p >> 18u64)) | ((p >> 6u64) & (p
                        >> 12u64) & (p << 6u64)) | ((p << 8u64) & (p << 16u64) & (p << 24u64)) | ((p
                        << 8u64) & (p << 16u64) & (p >> 8u64)) | ((p >> 8u64) & (p >> 16u64) & (p
                        >> 24u64)) | ((p >> 8u64) & (p >> 16u64) & (p << 8u64)),
            ;
        }
        result & ((m + BOTTOM) & BOARD_MASK)
    }

    pub fn is_move_winning(self, column: usize, player: Player) -> (r: bool)
        requires
            self.wf(),
        ensures
            r == (self.can_play_spec(column as u64) && self.wins_in(player, column as u64)),
    {
        if column >= WIDTH || !self.can_play(column) {
            return false;
        }
        self.winning_positions(player) & Self::column_mask(column) != 0
    }

    /// The first column in which the side to move wins at once.
    pub fn get_winning_move(self) -> (r: Option<usize>)
        requires
            self.wf(),
        ensures
            r == self.first_winning_from(0),
            r is Some ==> self.can_play_spec(r->Some_0 as u64),
    {
        let w = self.winning_positions(self.player_to_play());
        let mut column: usize = 0;
        while column < WIDTH
            invariant
                column <= 7,
                self.wf(),
                w == self.winning_squares(self.player_spec()),
                self.first_winning_from(0) == self.first_winning_from(column as int),
            decreases 7 - column,
        {
            if w & Self::column_mask(column) != 0 {
                proof {
                    self.lemma_wins_playable(self.player_spec(), column as u64);
                }
                return Some(column);
            }
            column = column + 1;
        }
        None
    }

    pub fn is_endgame(self) -> (r: bool)
        ensures
            r == (self.is_winning_spec() || self.is_full_spec()),
    {
        self.is_winning() || self.is_full()
    }

    /// A winning square lies on top of a column that still has room.
    proof fn lemma_wins_playable(self, player: Player, c: u64)
        requires
            self.wf(),
            c < 7,
            self.wins_in(player, c),
        ensures
            self.can_play_spec(c),
    {
        let m = self.occupied_bits();
        let t = threat_bits(self.bits_of(player));
        self.lemma_no_sentinel();
        assert(is_stack(col_bits(m, c)));
        assert(((t & ((((m + 0x40810204081u64) as u64) & 0xfdfbf7efdfbfu64)) & (0x3fu64 << (7 * c))) != 0)
            ==> ((m >> (7 * c)) & 0x7f) != 63) by (bit_vector)
            requires
                c < 7,
                m & !0xfdfbf7efdfbfu64 == 0,
                m >> 49 == 0,
        ;
    }

    /// The sentinel bits above the columns are never set.
    proof fn lemma_no_sentinel(self)
        requires
            self.wf(),
        ensures
            self.occupied_bits() & !BOARD_MASK == 0,
    {
        let m = self.occupied_bits();
        assert(is_stack(col_bits(m, 0)));
        assert(is_stack(col_bits(m, 1)));
        assert(is_stack(col_bits(m, 2)));
        assert(is_stack(col_bits(m, 3)));
        assert(is_stack(col_bits(m, 4)));
        assert(is_stack(col_bits(m, 5)));
        assert(is_stack(col_bits(m, 6)));
        assert(m & !0xfdfbf7efdfbfu64 == 0) by (bit_vector)
            requires
                m >> 49 == 0,
                (m >> 0u64) & 0x7f <= 63,
                (m >> 7u64) & 0x7f <= 63,
                (m >> 14u64) & 0x7f <= 63,
                (m >> 21u64) & 0x7f <= 63,
                (m >> 28u64) & 0x7f <= 63,
                (m >> 35u64) & 0x7f <= 63,
                (m >> 42u64) & 0x7f <= 63,
        ;
    }
}

/// Rank of a square read from the board: empty, then White, then Black.
fn square_code(s: Option<Square>) -> (r: u8)
    requires
        s is Some,
    ensures
        r == square_rank(s->Some_0),
{
    match s {
        Some(Square::Taken(Player::White)) => 1,
        Some(Square::Taken(Player::Black)) => 2,
        _ => 0,
    }
}

impl Board {
    /// A board that is not full has a column with room.
    pub proof fn lemma_has_room(self) -> (c: u64)
        requires
            self.wf(),
            !self.is_full_spec(),
        ensures
            c < 7,
            self.can_play_spec(c),
    {
        if forall|c: u64| c < 7 ==> !#[trigger] self.can_play_spec(c) {
            lemma_full_heights(self, 7);
            assert(false);
        }
        choose|c: u64| c < 7 && self.can_play_spec(c)
    }
}

proof fn lemma_full_heights(b: Board, n: nat)
    requires
        b.wf(),
        n <= 7,
        forall|c: u64| c < 7 ==> !#[trigger] b.can_play_spec(c),
    ensures
        heights_sum(b.occupied_bits(), n) == 6 * n,
    decreases n,
{
    if n > 0 {
        lemma_full_heights(b, (n - 1) as nat);
        let c = (n - 1) as u64;
        assert(!b.can_play_spec(c));
        assert(is_stack(col_bits(b.occupied_bits(), c)));
    }
}

// ---------------------------------------------------------------------------
// Piece count and canonical form.

/// Number of set rows among the first `n` rows of a column pattern.
pub open spec fn rows_set(p: u64, n: int) -> int
    decreases n,
{
    if n <= 0 {
        0
    } else {
        rows_set(p, n - 1) + if has_row(p, (n - 1) as u64) { 1int } else { 0int }
    }
}

/// Number of occupied squares in the first `n` columns.
pub open spec fn occupied_count(b: Board, n: int) -> int
    decreases n,
{
    if n <= 0 {
        0
    } else {
        occupied_count(b, n - 1) + rows_set(col_bits(b.occupied_bits(), (n - 1) as u64), 6)
    }
}

proof fn lemma_rows_of_stack(p: u64, n: int)
    requires
        is_stack(p),
        0 <= n <= 6,
    ensures
        rows_set(p, n) == if n < stack_height(p) { n } else { stack_height(p) as int },
    decreases n,
{
    if n > 0 {
        lemma_rows_of_stack(p, n - 1);
        let r = (n - 1) as u64;
        assert(has_row(p, r) == (r < stack_height(p))) by (bit_vector)
            requires
                p == 0 || p == 1 || p == 3 || p == 7 || p == 15 || p == 31 || p == 63,
                r < 6,
        ;
    }
}

proof fn lemma_occupied_count(b: Board, n: int)
    requires
        b.wf(),
        0 <= n <= 7,
    ensures
        occupied_count(b, n) == heights_sum(b.occupied_bits(), n as nat),
    decreases n,
{
    if n > 0 {
        lemma_occupied_count(b, n - 1);
        let p = col_bits(b.occupied_bits(), (n - 1) as u64);
        assert(is_stack(p));
        lemma_rows_of_stack(p, 6);
    }
}

/// Lexicographic antisymmetry of the row-major order.
proof fn lemma_row_major_flip(a: Board, b: Board, k: nat)
    ensures
        row_major_from(a, b, k) == core::cmp::Ordering::Less <==> row_major_from(b, a, k)
            == core::cmp::Ordering::Greater,
        row_major_from(a, b, k) == core::cmp::Ordering::Equal <==> row_major_from(b, a, k)
            == core::cmp::Ordering::Equal,
    decreases 42 - k,
{
    if k < 42 {
        lemma_row_major_flip(a, b, k + 1);
    }
}

/// Boards that compare equal have the same squares.
proof fn lemma_row_major_equal(a: Board, b: Board, k: nat, c: int, r: int)
    requires
        row_major_from(a, b, k) == core::cmp::Ordering::Equal,
        0 <= c < 7,
        0 <= r < 6,
        k <= 7 * r + c,
    ensures
        a.square_at(c as u64, r as u64) == b.square_at(c as u64, r as u64),
    decreases 42 - k,
{
    if k < 7 * r + c {
        lemma_row_major_flip(a, b, k);
        lemma_row_major_equal(a, b, k + 1, c, r);
    } else {
        lemma_fundamental_div_mod_converse(k as int, 7, r, c);
        let sa = a.square_at(c as u64, r as u64);
        let sb = b.square_at(c as u64, r as u64);
        assert(square_rank(sa) == square_rank(sb));
    }
}

impl Board {
    /// In every well-formed position (every position reached from the empty
    /// board by legal moves), the piece count is the number of occupied
    /// squares and the side to move owns only occupied squares.
    pub proof fn lemma_filled_counts_pieces(self)
        requires
            self.wf(),
        ensures
            self.filled_spec() == occupied_count(self, 7),
            self.mover_bits() & !self.occupied_bits() == 0,
    {
        lemma_occupied_count(self, 7);
    }

    /// A board holds at most 42 pieces.
    pub proof fn lemma_filled_bound(self)
        requires
            self.wf(),
        ensures
            self.filled_spec() <= 42,
    {
        lemma_heights_sum_bound(self.occupied_bits(), 7);
    }

    /// Mirroring twice gives the board back.
    pub proof fn lemma_mirror_twice(self)
        requires
            self.wf(),
        ensures
            self.mirror_spec().mirror_spec() == self,
    {
        let m = self.occupied_bits();
        let cur = self.mover_bits();
        self.lemma_no_sentinel();
        assert(mirror_bits(mirror_bits(m)) == m && mirror_bits(mirror_bits(cur)) == cur) by (bit_vector)
            requires
                m & !0xfdfbf7efdfbfu64 == 0,
                m >> 49u64 == 0,
                cur & !m == 0,
        ;
    }

    /// Canonical form is idempotent: the canonical form of a canonical board
    /// is itself, reached without mirroring.
    pub proof fn lemma_canonical_idempotent(self)
        requires
            self.wf(),
        ensures
            ({
                let c = canonical_spec(self, self.mirror_spec()).0;
                canonical_spec(c, c.mirror_spec()) == (c, false)
            }),
    {
        let m = self.mirror_spec();
        self.lemma_mirror_twice();
        lemma_row_major_flip(m, self, 0);
    }

    /// A board and its mirror image, when they differ, have the same canonical
    /// form, reached by mirroring from exactly one of them.
    pub proof fn lemma_canonical_of_mirror(self)
        requires
            self.wf(),
            exists|c: int, r: int|
                0 <= c < 7 && 0 <= r < 6 && #[trigger] self.square_at(c as u64, r as u64) != self.square_at(
                    (6 - c) as u64,
                    r as u64,
                ),
        ensures
            ({
                let m = self.mirror_spec();
                &&& canonical_spec(self, m).0 == canonical_spec(m, m.mirror_spec()).0
                &&& canonical_spec(self, m).1 == !canonical_spec(m, m.mirror_spec()).1
            }),
    {
        let m = self.mirror_spec();
        self.lemma_mirror_twice();
        lemma_row_major_flip(m, self, 0);
        let (c, r) = choose|c: int, r: int|
            0 <= c < 7 && 0 <= r < 6 && #[trigger] self.square_at(c as u64, r as u64) != self.square_at(
                (6 - c) as u64,
                r as u64,
            );
        if row_major_from(m, self, 0) == core::cmp::Ordering::Equal {
            self.lemma_mirror_facts();
            lemma_row_major_equal(m, self, 0, c, r);
            assert(m.square_at(c as u64, r as u64) == self.square_at((6 - c) as u64, r as u64));
        }
    }

    /// The mirror of a well-formed board is its mirror image, square by square.
    proof fn lemma_mirror_facts(self)
        requires
            self.wf(),
        ensures
            is_mirror(self, self.mirror_spec()),
    {
        let r = self.mirror_spec();
        let m = self.mask;
        let cur = self.current_player;
        lemma_mirror_bits_cols(m);
        lemma_mirror_bits_cols(cur);
        assert forall|c: u64| c < 7 implies #[trigger] col_bits(r.mask, c) == col_bits(m, (6 - c) as u64) by {
            let e = (6 - c) as u64;
            assert(is_stack(col_bits(m, e)));
            lemma_subset_col(cur, m, e);
            lemma_stack_low(col_bits(m, e), col_bits(cur, e));
        }
        assert forall|c: u64| c < 7 implies #[trigger] col_bits(r.current_player, c) == col_bits(cur, (6 - c) as u64) by {
            let e = (6 - c) as u64;
            assert(is_stack(col_bits(m, e)));
            lemma_subset_col(cur, m, e);
            lemma_stack_low(col_bits(m, e), col_bits(cur, e));
        }
        assert forall|c: u64| c < 7 implies #[trigger] col_bits(r.current_player, c) & !col_bits(r.mask, c) == 0 by {
            let e = (6 - c) as u64;
            assert(col_bits(r.mask, c) == col_bits(m, e));
            assert(col_bits(r.current_player, c) == col_bits(cur, e));
            lemma_subset_col(cur, m, e);
        }
        assert forall|c: u64| c < 7 implies #[trigger] is_stack(col_bits(r.mask, c)) by {
            assert(col_bits(r.mask, c) == col_bits(m, (6 - c) as u64));
            assert(is_stack(col_bits(m, (6 - c) as u64)));
        }
        lemma_mirror_subset(r.current_player, r.mask);
        reveal_with_fuel(heights_sum, 8);
        assert(col_bits(r.mask, 0) == col_bits(m, 6));
        assert(col_bits(r.mask, 1) == col_bits(m, 5));
        assert(col_bits(r.mask, 2) == col_bits(m, 4));
        assert(col_bits(r.mask, 3) == col_bits(m, 3));
        assert(col_bits(r.mask, 4) == col_bits(m, 2));
        assert(col_bits(r.mask, 5) == col_bits(m, 1));
        assert(col_bits(r.mask, 6) == col_bits(m, 0));
    }
}

/// Two column patterns without a sentinel bit that agree on all six rows
/// are equal.
proof fn lemma_pattern_eq(p: u64, q: u64)
    requires
        p & 0x3f == p,
        q & 0x3f == q,
        forall|r: u64| r < 6 ==> #[trigger] has_row(p, r) == has_row(q, r),
    ensures
        p == q,
{
    assert(has_row(p, 0) == has_row(q, 0));
    assert(has_row(p, 1) == has_row(q, 1));
    assert(has_row(p, 2) == has_row(q, 2));
    assert(has_row(p, 3) == has_row(q, 3));
    assert(has_row(p, 4) == has_row(q, 4));
    assert(has_row(p, 5) == has_row(q, 5));
    assert(p == q) by (bit_vector)
        requires
            p & 0x3f == p,
            q & 0x3f == q,
            ((p >> 0u64) & 1 == 1) == ((q >> 0u64) & 1 == 1),
            ((p >> 1u64) & 1 == 1) == ((q >> 1u64) & 1 == 1),
            ((p >> 2u64) & 1 == 1) == ((q >> 2u64) & 1 == 1),
            ((p >> 3u64) & 1 == 1) == ((q >> 3u64) & 1 == 1),
            ((p >> 4u64) & 1 == 1) == ((q >> 4u64) & 1 == 1),
            ((p >> 5u64) & 1 == 1) == ((q >> 5u64) & 1 == 1),
    ;
}

impl Board {
    /// A board that equals its mirror image square by square is its own
    /// mirror.
    pub proof fn lemma_symmetric_is_own_mirror(self)
        requires
            self.wf(),
            forall|c: int, r: int|
                0 <= c < 7 && 0 <= r < 6 ==> #[trigger] self.square_at(c as u64, r as u64) == self.square_at(
                    (6 - c) as u64,
                    r as u64,
                ),
        ensures
            self.mirror_spec() == self,
    {
        let m = self.mask;
        let cur = self.current_player;
        self.lemma_mirror_twice();
        lemma_mirror_bits_cols(m);
        lemma_mirror_bits_cols(cur);
        lemma_mirror_bits_cols(mirror_bits(cur));
        assert forall|c: u64| c < 7 implies #[trigger] col_bits(m, c) == col_bits(m, (6 - c) as u64)
            && col_bits(cur, c) == col_bits(cur, (6 - c) as u64) by {
            let e = (6 - c) as u64;
            assert(is_stack(col_bits(m, c)));
            assert(is_stack(col_bits(m, e)));
            lemma_subset_col(cur, m, c);
            lemma_subset_col(cur, m, e);
            lemma_stack_low(col_bits(m, c), col_bits(cur, c));
            lemma_stack_low(col_bits(m, e), col_bits(cur, e));
            assert forall|r: u64| r < 6 implies #[trigger] has_row(col_bits(m, c), r) == has_row(col_bits(m, e), r) by {
                assert(self.square_at(c as int as u64, r as int as u64) == self.square_at(
                    (6 - c as int) as u64,
                    r as int as u64,
                ));
            }
            lemma_pattern_eq(col_bits(m, c), col_bits(m, e));
            assert forall|r: u64| r < 6 implies #[trigger] has_row(col_bits(cur, c), r) == has_row(col_bits(cur, e), r) by {
                assert(self.square_at(c as int as u64, r as int as u64) == self.square_at(
                    (6 - c as int) as u64,
                    r as int as u64,
                ));
                lemma_subset_row(col_bits(cur, c), col_bits(m, c), r);
                lemma_subset_row(col_bits(cur, e), col_bits(m, e), r);
            }
            lemma_pattern_eq(col_bits(cur, c), col_bits(cur, e));
        }
        assert forall|c: u64| c < 7 implies #[trigger] col_bits(mirror_bits(m), c) == col_bits(m, c) by {
            let e = (6 - c) as u64;
            assert(col_bits(m, e) == col_bits(m, c));
            assert(is_stack(col_bits(m, c)));
            lemma_subset_col(cur, m, c);
            lemma_stack_low(col_bits(m, c), col_bits(cur, c));
        }
        lemma_cols_eq(mirror_bits(m), m);
        assert forall|c: u64| c < 7 implies #[trigger] col_bits(mirror_bits(cur), c) == col_bits(cur, c) by {
            let e = (6 - c) as u64;
            assert(col_bits(m, c) == col_bits(m, e));
            assert(col_bits(cur, e) == col_bits(cur, c));
            assert(is_stack(col_bits(m, c)));
            lemma_subset_col(cur, m, c);
            lemma_stack_low(col_bits(m, c), col_bits(cur, c));
        }
        assert(cur >> 49 == 0) by {
            assert(mirror_bits(mirror_bits(cur)) == cur);
        }
        lemma_cols_eq(mirror_bits(cur), cur);
    }

    /// A board and its mirror image have the same canonical form; exactly
    /// one of them is mirrored to reach it unless the board is its own
    /// mirror, when neither is.
    pub proof fn lemma_canonical_shared(self)
        requires
            self.wf(),
        ensures
            ({
                let m = self.mirror_spec();
                &&& canonical_spec(self, m).0 == canonical_spec(m, m.mirror_spec()).0
                &&& m == self ==> !canonical_spec(self, m).1 && !canonical_spec(m, m.mirror_spec()).1
                &&& m != self ==> canonical_spec(self, m).1 == !canonical_spec(m, m.mirror_spec()).1
            }),
    {
        let m = self.mirror_spec();
        self.lemma_mirror_twice();
        if exists|c: int, r: int|
            0 <= c < 7 && 0 <= r < 6 && #[trigger] self.square_at(c as u64, r as u64) != self.square_at(
                (6 - c) as u64,
                r as u64,
            ) {
            self.lemma_canonical_of_mirror();
            if m == self {
                let (c, r) = choose|c: int, r: int|
                    0 <= c < 7 && 0 <= r < 6 && #[trigger] self.square_at(c as u64, r as u64) != self.square_at(
                        (6 - c) as u64,
                        r as u64,
                    );
                self.lemma_mirror_facts();
                assert(m.square_at(c as u64, r as u64) == self.square_at((6 - c) as u64, r as u64));
            }
        } else {
            self.lemma_symmetric_is_own_mirror();
            lemma_row_major_flip(self, self, 0);
            lemma_row_major_self(self, 0);
        }
    }
}

proof fn lemma_row_major_self(a: Board, k: nat)
    ensures
        row_major_from(a, a, k) == core::cmp::Ordering::Equal,
    decreases 42 - k,
{
    if k < 42 {
        lemma_row_major_self(a, k + 1);
    }
}

/// A square of a subset of a stack is set only where the stack is.
proof fn lemma_subset_row(q: u64, p: u64, r: u64)
    requires
        q & !p == 0,
    ensures
        has_row(q, r) ==> has_row(p, r),
{
    lemma_xor_row(p, q, r);
}

// ---------------------------------------------------------------------------
// A board is determined by its squares, and by its key.

/// Adding the two bitboards column by column: no column's sum reaches the
/// next column.
proof fn lemma_key_column(cur: u64, m: u64, c: u64)
    requires
        c < 7,
        m & !BOARD_MASK == 0,
        cur & !m == 0,
    ensures
        col_bits((cur + m) as u64, c) == col_bits(cur, c) + col_bits(m, c),
{
    assert(((((cur + m) as u64) >> ((7 * c) as u64)) & 0x7f) == ((cur >> ((7 * c) as u64)) & 0x7f) + ((m >> ((7
        * c) as u64)) & 0x7f)) by (bit_vector)
        requires
            c < 7,
            m & !0xfdfbf7efdfbfu64 == 0,
            cur & !m == 0,
    ;
}

/// A stack and a subset of it are recovered from their sum.
proof fn lemma_column_decode(p: u64, q: u64, p2: u64, q2: u64)
    requires
        is_stack(p),
        is_stack(p2),
        q & !p == 0,
        q2 & !p2 == 0,
        q + p == q2 + p2,
    ensures
        p == p2,
        q == q2,
{
    assert(p == p2 && q == q2) by (bit_vector)
        requires
            p == 0 || p == 1 || p == 3 || p == 7 || p == 15 || p == 31 || p == 63,
            p2 == 0 || p2 == 1 || p2 == 3 || p2 == 7 || p2 == 15 || p2 == 31 || p2 == 63,
            q & !p == 0,
            q2 & !p2 == 0,
            q + p == q2 + p2,
    ;
}

impl Board {
    /// Well-formed boards with the same squares are the same board.
    pub proof fn lemma_squares_determine(self, other: Board)
        requires
            self.wf(),
            other.wf(),
            forall|c: int, r: int|
                0 <= c < 7 && 0 <= r < 6 ==> #[trigger] self.square_at(c as u64, r as u64) == other.square_at(
                    c as u64,
                    r as u64,
                ),
        ensures
            self == other,
    {
        let m = self.mask;
        let cur = self.current_player;
        let m2 = other.mask;
        let cur2 = other.current_player;
        assert forall|c: u64| c < 7 implies #[trigger] col_bits(m, c) == col_bits(m2, c) by {
            assert(is_stack(col_bits(m, c)));
            assert(is_stack(col_bits(m2, c)));
            lemma_subset_col(cur, m, c);
            lemma_subset_col(cur2, m2, c);
            lemma_stack_low(col_bits(m, c), col_bits(cur, c));
            lemma_stack_low(col_bits(m2, c), col_bits(cur2, c));
            assert forall|r: u64| r < 6 implies #[trigger] has_row(col_bits(m, c), r) == has_row(col_bits(m2, c), r) by {
                assert(self.square_at(c as int as u64, r as int as u64) == other.square_at(c as int as u64, r as int as u64));
            }
            lemma_pattern_eq(col_bits(m, c), col_bits(m2, c));
        }
        self.lemma_no_sentinel();
        other.lemma_no_sentinel();
        lemma_cols_eq(m, m2);
        assert(self.filled == other.filled);
        assert forall|c: u64| c < 7 implies #[trigger] col_bits(cur, c) == col_bits(cur2, c) by {
            assert(is_stack(col_bits(m, c)));
            lemma_subset_col(cur, m, c);
            lemma_subset_col(cur2, m2, c);
            lemma_stack_low(col_bits(m, c), col_bits(cur, c));
            lemma_stack_low(col_bits(m2, c), col_bits(cur2, c));
            assert forall|r: u64| r < 6 implies #[trigger] has_row(col_bits(cur, c), r) == has_row(col_bits(cur2, c), r) by {
                assert(self.square_at(c as int as u64, r as int as u64) == other.square_at(c as int as u64, r as int as u64));
                lemma_subset_row(col_bits(cur, c), col_bits(m, c), r);
                lemma_subset_row(col_bits(cur2, c), col_bits(m2, c), r);
            }
            lemma_pattern_eq(col_bits(cur, c), col_bits(cur2, c));
        }
        self.lemma_mirror_twice();
        other.lemma_mirror_twice();
        lemma_mirror_bits_cols(mirror_bits(cur));
        lemma_mirror_bits_cols(mirror_bits(cur2));
        assert(cur >> 49 == 0 && cur2 >> 49 == 0);
        lemma_cols_eq(cur, cur2);
    }

    /// Well-formed boards with the same key are the same board.
    pub proof fn lemma_key_unique(self, other: Board)
        requires
            self.wf(),
            other.wf(),
            self.key_spec() == other.key_spec(),
        ensures
            self == other,
    {
        let m = self.mask;
        let cur = self.current_player;
        let m2 = other.mask;
        let cur2 = other.current_player;
        self.lemma_no_sentinel();
        other.lemma_no_sentinel();
        assert(cur <= m && m < 0x2000000000000 && cur2 <= m2 && m2 < 0x2000000000000) by (bit_vector)
            requires
                cur & !m == 0,
                cur2 & !m2 == 0,
                m >> 49 == 0,
                m2 >> 49 == 0,
        ;
        let k = (cur + m) as u64;
        assert(k == (cur2 + m2) as u64);
        assert forall|c: u64| c < 7 implies #[trigger] col_bits(m, c) == col_bits(m2, c) && col_bits(cur, c)
            == col_bits(cur2, c) by {
            lemma_key_column(cur, m, c);
            lemma_key_column(cur2, m2, c);
            assert(is_stack(col_bits(m, c)));
            assert(is_stack(col_bits(m2, c)));
            lemma_subset_col(cur, m, c);
            lemma_subset_col(cur2, m2, c);
            lemma_column_decode(col_bits(m, c), col_bits(cur, c), col_bits(m2, c), col_bits(cur2, c));
        }
        lemma_cols_eq(m, m2);
        self.lemma_mirror_twice();
        other.lemma_mirror_twice();
        lemma_mirror_bits_cols(mirror_bits(cur));
        lemma_mirror_bits_cols(mirror_bits(cur2));
        assert(cur >> 49 == 0 && cur2 >> 49 == 0);
        assert forall|c: u64| c < 7 implies #[trigger] col_bits(cur, c) == col_bits(cur2, c) by {}
        lemma_cols_eq(cur, cur2);
    }

    /// Two well-formed boards compare equal in the row-major order exactly
    /// when they are the same board.
    pub proof fn lemma_row_major_equal_iff_same(self, other: Board)
        requires
            self.wf(),
            other.wf(),
        ensures
            (row_major_from(self, other, 0) == core::cmp::Ordering::Equal) == (self == other),
    {
        if self == other {
            lemma_row_major_self(self, 0);
        }
        if row_major_from(self, other, 0) == core::cmp::Ordering::Equal {
            assert forall|c: int, r: int| 0 <= c < 7 && 0 <= r < 6 implies #[trigger] self.square_at(c as u64, r as u64)
                == other.square_at(c as u64, r as u64) by {
                lemma_row_major_equal(self, other, 0, c, r);
            }
            self.lemma_squares_determine(other);
        }
    }
}

// ---------------------------------------------------------------------------
// Four in a row, square by square.

/// `x` has a piece on column `c`, row `r` of the board.
pub open spec fn owns(x: u64, c: int, r: int) -> bool {
    0 <= c < 7 && 0 <= r < 6 && has_row(col_bits(x, c as u64), r as u64)
}

/// Four pieces of `x` from `(c, r)` in steps of `(dc, dr)`.
pub open spec fn four_from(x: u64, c: int, r: int, dc: int, dr: int) -> bool {
    owns(x, c, r) && owns(x, c + dc, r + dr) && owns(x, c + 2 * dc, r + 2 * dr) && owns(x, c + 3 * dc, r + 3 * dr)
}

/// Four pieces of `x` aligned in a row, a column or a diagonal, found by
/// looking at every square and direction.
pub open spec fn four_by_scan(x: u64) -> bool {
    exists|c: int, r: int|
        #![trigger owns(x, c, r)]
        four_from(x, c, r, 1, 0) || four_from(x, c, r, 0, 1) || four_from(x, c, r, 1, 1) || four_from(x, c, r, 1, -1)
}

/// Bit `i` of a bitboard (zero from bit 64 on).
pub open spec fn bit(x: u64, i: u64) -> bool {
    (x >> i) & 1 == 1
}

proof fn lemma_owns_bit(x: u64, c: int, r: int)
    requires
        0 <= c < 7,
        0 <= r < 6,
    ensures
        owns(x, c, r) == bit(x, (7 * c + r) as u64),
{
    let cc = c as u64;
    let rr = r as u64;
    assert(has_row(col_bits(x, cc), rr) == bit(x, (7 * cc + rr) as u64)) by (bit_vector)
        requires
            cc < 7,
            rr < 6,
    ;
}

proof fn lemma_run4_bit(x: u64, s: u64, i: u64)
    requires
        1 <= s <= 8,
        i < 64,
    ensures
        bit(run4(x, s), i) == (bit(x, i) && bit(x, (i + s) as u64) && bit(x, (i + 2 * s) as u64) && bit(
            x,
            (i + 3 * s) as u64,
        )),
{
    assert(bit(run4(x, s), i) == (bit(x, i) && bit(x, (i + s) as u64) && bit(x, (i + 2 * s) as u64) && bit(
        x,
        (i + 3 * s) as u64,
    ))) by (bit_vector)
        requires
            1 <= s <= 8,
            i < 64,
    ;
}

/// No piece lies on a sentinel bit or above the board.
proof fn lemma_off_board(x: u64, i: u64)
    requires
        x & !BOARD_MASK == 0,
        i < 88,
        i >= 49 || i % 7 == 6,
    ensures
        !bit(x, i),
{
    assert(!bit(x, i)) by (bit_vector)
        requires
            x & !0xfdfbf7efdfbfu64 == 0,
            i < 88,
            i >= 49 || i % 7 == 6,
    ;
}

proof fn lemma_some_bit(v: u64) -> (i: u64)
    requires
        v != 0,
    ensures
        i < 64,
        bit(v, i),
    decreases v,
{
    if v & 1 == 1 {
        assert(bit(v, 0)) by (bit_vector)
            requires
                v & 1 == 1,
        ;
        0
    } else {
        let w = v >> 1u64;
        assert(w != 0 && w < v) by (bit_vector)
            requires
                v != 0,
                v & 1 != 1,
                w == v >> 1u64,
        ;
        let j = lemma_some_bit(w);
        assert(j < 63 && bit(v, (j + 1) as u64)) by (bit_vector)
            requires
                j < 64,
                bit(w, j),
                w == v >> 1u64,
        ;
        (j + 1) as u64
    }
}

proof fn lemma_bit_nonzero(v: u64, i: u64)
    requires
        bit(v, i),
    ensures
        v != 0,
{
    assert(v != 0) by (bit_vector)
        requires
            bit(v, i),
    ;
}

/// Four bits of stride `s` from bit `i` are four aligned squares.
proof fn lemma_run_is_line(x: u64, s: u64, i: u64)
    requires
        x & !BOARD_MASK == 0,
        s == 7 || s == 1 || s == 8 || s == 6,
        i < 64,
        bit(x, i),
        bit(x, (i + s) as u64),
        bit(x, (i + 2 * s) as u64),
        bit(x, (i + 3 * s) as u64),
    ensures
        four_by_scan(x),
{
    let c = (i / 7) as int;
    let r = (i % 7) as int;
    assert(i == 7 * c + r);
    if i + 3 * s >= 49 {
        lemma_off_board(x, (i + 3 * s) as u64);
    }
    assert(r < 6) by {
        if r == 6 {
            lemma_off_board(x, i);
        }
    }
    if s == 1 || s == 8 {
        // The run would cross the sentinel at row 6 unless it ends by row 5.
        if r >= 3 {
            let k = 6 - r;
            let j = (i + k * s) as u64;
            assert(j % 7 == 6);
            lemma_off_board(x, j);
            assert(k == 1 || k == 2 || k == 3);
        }
    }
    if s == 6 {
        // A falling run from a low row reaches a sentinel.
        if r < 3 {
            let k = r + 1;
            let j = (i + k * s) as u64;
            assert(j == 7 * (c + r) + 6);
            assert(j % 7 == 6);
            lemma_off_board(x, j);
            assert(k == 1 || k == 2 || k == 3);
        }
    }
    let (dc, dr): (int, int) = if s == 7 {
        (1, 0)
    } else if s == 1 {
        (0, 1)
    } else if s == 8 {
        (1, 1)
    } else {
        (1, -1)
    };
    assert(0 <= c + 3 * dc < 7);
    assert(0 <= r + 3 * dr < 6);
    lemma_owns_bit(x, c, r);
    lemma_owns_bit(x, c + dc, r + dr);
    lemma_owns_bit(x, c + 2 * dc, r + 2 * dr);
    lemma_owns_bit(x, c + 3 * dc, r + 3 * dr);
    assert(four_from(x, c, r, dc, dr));
    assert(owns(x, c, r));
}

/// The shift-and-mask test for four in a row agrees with a scan of every
/// square and direction, for any set of pieces on the board.
pub proof fn lemma_four_bits_match_scan(x: u64)
    requires
        x & !BOARD_MASK == 0,
    ensures
        has_four_bits(x) == four_by_scan(x),
{
    if has_four_bits(x) {
        let s: u64 = if run4(x, 7) != 0 {
            7
        } else if run4(x, 6) != 0 {
            6
        } else if run4(x, 8) != 0 {
            8
        } else {
            1
        };
        let i = lemma_some_bit(run4(x, s));
        lemma_run4_bit(x, s, i);
        lemma_run_is_line(x, s, i);
    }
    if four_by_scan(x) {
        let (c, r) = choose|c: int, r: int|
            #![trigger owns(x, c, r)]
            four_from(x, c, r, 1, 0) || four_from(x, c, r, 0, 1) || four_from(x, c, r, 1, 1) || four_from(
                x,
                c,
                r,
                1,
                -1,
            );
        let (dc, dr, s): (int, int, u64) = if four_from(x, c, r, 1, 0) {
            (1, 0, 7)
        } else if four_from(x, c, r, 0, 1) {
            (0, 1, 1)
        } else if four_from(x, c, r, 1, 1) {
            (1, 1, 8)
        } else {
            (1, -1, 6)
        };
        let i = (7 * c + r) as u64;
        lemma_owns_bit(x, c, r);
        lemma_owns_bit(x, c + dc, r + dr);
        lemma_owns_bit(x, c + 2 * dc, r + 2 * dr);
        lemma_owns_bit(x, c + 3 * dc, r + 3 * dr);
        lemma_run4_bit(x, s, i);
        lemma_bit_nonzero(run4(x, s), i);
    }
}

impl Board {
    /// The side that moved last has four in a row exactly when a scan of
    /// the board finds four of its pieces aligned.
    pub proof fn lemma_winning_is_scan(self)
        requires
            self.wf(),
        ensures
            self.is_winning_spec() == four_by_scan(self.mover_bits() ^ self.occupied_bits()),
    {
        let m = self.occupied_bits();
        let cur = self.mover_bits();
        self.lemma_no_sentinel();
        assert((cur ^ m) & !BOARD_MASK == 0) by (bit_vector)
            requires
                cur & !m == 0,
                m & !0xfdfbf7efdfbfu64 == 0,
        ;
        lemma_four_bits_match_scan(cur ^ m);
    }
}

// ---------------------------------------------------------------------------
// Winning squares, square by square.

proof fn lemma_or_bit(x: u64, q: u64, t: u64)
    requires
        q < 64,
        t < 64,
    ensures
        bit(x | (1u64 << q), t) == (bit(x, t) || t == q),
{
    assert(bit(x | (1u64 << q), t) == (bit(x, t) || t == q)) by (bit_vector)
        requires
            q < 64,
            t < 64,
    ;
}

proof fn lemma_threats_along_bit(p: u64, s: u64, i: u64)
    requires
        1 <= s <= 8,
        i < 64,
    ensures
        bit(threats_along(p, s), i) == ((bit(p, (i + s) as u64) && bit(p, (i + 2 * s) as u64) && bit(
            p,
            (i + 3 * s) as u64,
        )) || (i >= s && bit(p, (i - s) as u64) && bit(p, (i + s) as u64) && bit(p, (i + 2 * s) as u64)) || (
        i >= 2 * s && bit(p, (i - 2 * s) as u64) && bit(p, (i - s) as u64) && bit(p, (i + s) as u64)) || (i
            >= 3 * s && bit(p, (i - 3 * s) as u64) && bit(p, (i - 2 * s) as u64) && bit(p, (i - s) as u64))),
{
    assert(bit(threats_along(p, s), i) == ((bit(p, (i + s) as u64) && bit(p, (i + 2 * s) as u64) && bit(
        p,
        (i + 3 * s) as u64,
    )) || (i >= s && bit(p, (i - s) as u64) && bit(p, (i + s) as u64) && bit(p, (i + 2 * s) as u64)) || (
    i >= 2 * s && bit(p, (i - 2 * s) as u64) && bit(p, (i - s) as u64) && bit(p, (i + s) as u64)) || (i >= 3
        * s && bit(p, (i - 3 * s) as u64) && bit(p, (i - 2 * s) as u64) && bit(p, (i - s) as u64)))) by (bit_vector)
        requires
            1 <= s <= 8,
            i < 64,
    ;
}

proof fn lemma_threat_bit(p: u64, i: u64)
    requires
        i < 64,
    ensures
        bit(threat_bits(p), i) == ((i >= 3 && bit(p, (i - 1) as u64) && bit(p, (i - 2) as u64) && bit(
            p,
            (i - 3) as u64,
        )) || bit(threats_along(p, 7), i) || bit(threats_along(p, 6), i) || bit(threats_along(p, 8), i)),
{
    let v = threats_along(p, 7);
    let w = threats_along(p, 6);
    let z = threats_along(p, 8);
    assert(bit(((p << 1u64) & (p << 2u64) & (p << 3u64)) | v | w | z, i) == ((i >= 3 && bit(p, (i - 1) as u64)
        && bit(p, (i - 2) as u64) && bit(p, (i - 3) as u64)) || bit(v, i) || bit(w, i) || bit(z, i))) by (bit_vector)
        requires
            i < 64,
    ;
}

/// A square of the board, as a bitboard.
pub open spec fn square_bit(c: int, r: int) -> u64 {
    1u64 << ((7 * c + r) as u64)
}

/// Adding a square of the board keeps a bitboard on the board.
proof fn lemma_add_square(x: u64, c: int, r: int)
    requires
        x & !BOARD_MASK == 0,
        0 <= c < 7,
        0 <= r < 6,
    ensures
        (x | square_bit(c, r)) & !BOARD_MASK == 0,
{
    let cc = c as u64;
    let rr = r as u64;
    assert((x | (1u64 << (7 * cc + rr))) & !0xfdfbf7efdfbfu64 == 0) by (bit_vector)
        requires
            x & !0xfdfbf7efdfbfu64 == 0,
            cc < 7,
            rr < 6,
    ;
}

/// A threat square completes four in a row.
proof fn lemma_threat_gives_four(x: u64, c: int, r: int)
    requires
        x & !BOARD_MASK == 0,
        0 <= c < 7,
        0 <= r < 6,
        !owns(x, c, r),
        bit(threat_bits(x), (7 * c + r) as u64),
    ensures
        four_by_scan(x | square_bit(c, r)),
{
    let q = (7 * c + r) as u64;
    let y = x | square_bit(c, r);
    lemma_add_square(x, c, r);
    lemma_owns_bit(x, c, r);
    lemma_threat_bit(x, q);
    {
        // The square completes a run of four bits of `y`.
        let (s, j): (u64, u64) = if q >= 3 && bit(x, (q - 1) as u64) && bit(x, (q - 2) as u64) && bit(x, (q - 3) as u64) {
            (1, (q - 3) as u64)
        } else {
            let s: u64 = if bit(threats_along(x, 7), q) {
                7
            } else if bit(threats_along(x, 6), q) {
                6
            } else {
                8
            };
            lemma_threats_along_bit(x, s, q);
            if bit(x, (q + s) as u64) && bit(x, (q + 2 * s) as u64) && bit(x, (q + 3 * s) as u64) {
                (s, q)
            } else if q >= s && bit(x, (q - s) as u64) && bit(x, (q + s) as u64) && bit(x, (q + 2 * s) as u64) {
                (s, (q - s) as u64)
            } else if q >= 2 * s && bit(x, (q - 2 * s) as u64) && bit(x, (q - s) as u64) && bit(x, (q + s) as u64) {
                (s, (q - 2 * s) as u64)
            } else {
                (s, (q - 3 * s) as u64)
            }
        };
        if j + 3 * s < 64 {
            lemma_or_bit(x, q, j);
            lemma_or_bit(x, q, (j + s) as u64);
            lemma_or_bit(x, q, (j + 2 * s) as u64);
            lemma_or_bit(x, q, (j + 3 * s) as u64);
            lemma_run_is_line(y, s, j);
        } else {
            lemma_off_board(x, (j + 3 * s) as u64);
            assert(false);
        }
    }
}

/// A square that completes four in a row, for a side without four and with
/// nothing above the square in its column, is a threat square.
#[verifier::rlimit(40)]
proof fn lemma_four_gives_threat(x: u64, c: int, r: int)
    requires
        x & !BOARD_MASK == 0,
        0 <= c < 7,
        0 <= r < 6,
        !owns(x, c, r),
        !four_by_scan(x),
        forall|above: int| r < above < 6 ==> !#[trigger] owns(x, c, above),
        four_by_scan(x | square_bit(c, r)),
    ensures
        bit(threat_bits(x), (7 * c + r) as u64),
{
    let q = (7 * c + r) as u64;
    let y = x | square_bit(c, r);
    lemma_add_square(x, c, r);
    lemma_owns_bit(x, c, r);
    lemma_threat_bit(x, q);
    {
        let (c0, r0) = choose|c0: int, r0: int|
            #![trigger owns(y, c0, r0)]
            four_from(y, c0, r0, 1, 0) || four_from(y, c0, r0, 0, 1) || four_from(y, c0, r0, 1, 1) || four_from(
                y,
                c0,
                r0,
                1,
                -1,
            );
        let (dc, dr): (int, int) = if four_from(y, c0, r0, 1, 0) {
            (1, 0)
        } else if four_from(y, c0, r0, 0, 1) {
            (0, 1)
        } else if four_from(y, c0, r0, 1, 1) {
            (1, 1)
        } else {
            (1, -1)
        };
        let s = (7 * dc + dr) as u64;
        let j = (7 * c0 + r0) as u64;
        lemma_owns_bit(y, c0, r0);
        lemma_owns_bit(y, c0 + dc, r0 + dr);
        lemma_owns_bit(y, c0 + 2 * dc, r0 + 2 * dr);
        lemma_owns_bit(y, c0 + 3 * dc, r0 + 3 * dr);
        lemma_owns_bit(x, c0, r0);
        lemma_owns_bit(x, c0 + dc, r0 + dr);
        lemma_owns_bit(x, c0 + 2 * dc, r0 + 2 * dr);
        lemma_owns_bit(x, c0 + 3 * dc, r0 + 3 * dr);
        lemma_or_bit(x, q, j);
        lemma_or_bit(x, q, (j + s) as u64);
        lemma_or_bit(x, q, (j + 2 * s) as u64);
        lemma_or_bit(x, q, (j + 3 * s) as u64);
        if q != j && q != j + s && q != j + 2 * s && q != j + 3 * s {
            assert(four_from(x, c0, r0, dc, dr));
            assert(owns(x, c0, r0));
            assert(false);
        }
        if s == 1 && q != j + 3 {
            // A vertical line through the square reaches above it.
            assert(c0 == c);
            assert(owns(x, c, r0 + 3));
            assert(false);
        }
        if s != 1 {
            lemma_threats_along_bit(x, s, q);
        }
    }
}

/// For a side without four in a row, the threat squares are exactly the
/// empty squares that would give it four in a row, among the squares with
/// nothing of it above them in their column.
pub proof fn lemma_threats_match_scan(x: u64, c: int, r: int)
    requires
        x & !BOARD_MASK == 0,
        !four_by_scan(x),
        0 <= c < 7,
        0 <= r < 6,
        !owns(x, c, r),
        forall|above: int| r < above < 6 ==> !#[trigger] owns(x, c, above),
    ensures
        bit(threat_bits(x), (7 * c + r) as u64) == four_by_scan(x | square_bit(c, r)),
{
    if bit(threat_bits(x), (7 * c + r) as u64) {
        lemma_threat_gives_four(x, c, r);
    }
    if four_by_scan(x | square_bit(c, r)) {
        lemma_four_gives_threat(x, c, r);
    }
}

impl Board {
    /// For a side without four in a row, a piece dropped in column `c` wins
    /// at once exactly when the board with that piece added shows four in a
    /// row on a scan.
    pub proof fn lemma_wins_in_is_scan(self, player: Player, c: u64)
        requires
            self.wf(),
            self.can_play_spec(c),
            !four_by_scan(self.bits_of(player)),
        ensures
            self.wins_in(player, c) == four_by_scan(self.bits_of(player) | square_bit(c as int, self.height(c) as int)),
    {
        let m = self.occupied_bits();
        let cur = self.mover_bits();
        let x = self.bits_of(player);
        let h = self.height(c);
        self.lemma_no_sentinel();
        assert(is_stack(col_bits(m, c)));
        assert(cur & !m == 0 && (cur ^ m) & !m == 0 && cur & !0xfdfbf7efdfbfu64 == 0 && (cur ^ m)
            & !0xfdfbf7efdfbfu64 == 0) by (bit_vector)
            requires
                cur & !m == 0,
                m & !0xfdfbf7efdfbfu64 == 0,
        ;
        assert(x & !m == 0 && x & !BOARD_MASK == 0);
        let t = threat_bits(x);
        // The only free square of column `c` that can be dropped on is the one
        // on top of its stack.
        assert(((t & ((((m + 0x40810204081u64) as u64) & 0xfdfbf7efdfbfu64)) & (0x3fu64 << (7 * c))) != 0)
            == bit(t, (7 * c + h) as u64)) by (bit_vector)
            requires
                c < 7,
                m & !0xfdfbf7efdfbfu64 == 0,
                m >> 49 == 0,
                ((m >> ((7 * c) as u64)) & 0x7f) == 0 || ((m >> ((7 * c) as u64)) & 0x7f) == 1
                    || ((m >> ((7 * c) as u64)) & 0x7f) == 3 || ((m >> ((7 * c) as u64)) & 0x7f) == 7
                    || ((m >> ((7 * c) as u64)) & 0x7f) == 15 || ((m >> ((7 * c) as u64)) & 0x7f) == 31,
                h == stack_height((m >> ((7 * c) as u64)) & 0x7f),
        ;
        assert forall|above: int| h <= above < 6 implies !#[trigger] owns(x, c as int, above) by {
            let a = above as u64;
            lemma_subset_col(x, m, c);
            let pm = col_bits(m, c);
            let px = col_bits(x, c);
            assert(!has_row(px, a)) by (bit_vector)
                requires
                    pm == 0 || pm == 1 || pm == 3 || pm == 7 || pm == 15 || pm == 31,
                    h == stack_height(pm),
                    px & !pm == 0,
                    h <= a,
                    a < 6,
            ;
        }
        lemma_threats_match_scan(x, c as int, h as int);
    }
}

// ---------------------------------------------------------------------------
// Bit-level facts about the layout.
proof fn lemma_col_bits_zero(c: u64, r: u64)
    ensures
        col_bits(0, c) == 0,
        !has_row(0, r),
        0u64 >> 49u64 == 0,
        0u64 & !0u64 == 0,
{
    assert(((0u64 >> ((7 * c) as u64)) & 0x7f) == 0 && !has_row(0, r) && 0u64 >> 49u64 == 0 && 0u64 & !0u64
        == 0) by (bit_vector);
}

proof fn lemma_heights_sum_zero(n: nat)
    ensures
        heights_sum(0, n) == 0,
    decreases n,
{
    if n > 0 {
        lemma_heights_sum_zero((n - 1) as nat);
        lemma_col_bits_zero((n - 1) as u64, 0);
    }
}

proof fn lemma_heights_sum_bound(m: u64, n: nat)
    ensures
        heights_sum(m, n) <= 6 * n,
    decreases n,
{
    if n > 0 {
        lemma_heights_sum_bound(m, (n - 1) as nat);
    }
}

/// The top square of column `c` is free exactly when the column is not full.
proof fn lemma_top_bit(m: u64, c: u64)
    requires
        c < 7,
        is_stack(col_bits(m, c)),
    ensures
        (m & ((1u64 << 5u64) << ((7 * c) as u64)) == 0) == (col_bits(m, c) != 63),
{
    assert((m & ((1u64 << 5u64) << ((7 * c) as u64)) == 0) == (((m >> ((7 * c) as u64)) & 0x7f) != 63)) by (bit_vector)
        requires
            c < 7,
            ((m >> ((7 * c) as u64)) & 0x7f) == 0 || ((m >> ((7 * c) as u64)) & 0x7f) == 1
                || ((m >> ((7 * c) as u64)) & 0x7f) == 3 || ((m >> ((7 * c) as u64)) & 0x7f) == 7
                || ((m >> ((7 * c) as u64)) & 0x7f) == 15 || ((m >> ((7 * c) as u64)) & 0x7f) == 31
                || ((m >> ((7 * c) as u64)) & 0x7f) == 63,
    ;
}

/// Dropping a piece into column `c` grows that column's stack by one and
/// leaves every other column as it was.
proof fn lemma_push_column(m: u64, c: u64, d: u64)
    requires
        c < 7,
        d < 7,
        m >> 49 == 0,
        is_stack(col_bits(m, c)),
        col_bits(m, c) != 63,
    ensures
        d == c ==> col_bits(push_mask(m, c), d) == ((col_bits(m, c) << 1u64) | 1),
        d != c ==> col_bits(push_mask(m, c), d) == col_bits(m, d),
        push_mask(m, c) >> 49 == 0,
{
    let p = col_bits(m, c);
    assert(p == 0 || p == 1 || p == 3 || p == 7 || p == 15 || p == 31);
    assert(d == c ==> (((push_mask(m, c) >> ((7 * d) as u64)) & 0x7f) == ((((m >> ((7 * c) as u64)) & 0x7f) << 1u64) | 1))) by (bit_vector)
        requires
            c < 7,
            d < 7,
            m >> 49 == 0,
            ((m >> ((7 * c) as u64)) & 0x7f) == 0 || ((m >> ((7 * c) as u64)) & 0x7f) == 1
                || ((m >> ((7 * c) as u64)) & 0x7f) == 3 || ((m >> ((7 * c) as u64)) & 0x7f) == 7
                || ((m >> ((7 * c) as u64)) & 0x7f) == 15 || ((m >> ((7 * c) as u64)) & 0x7f) == 31,
    ;
    assert((d != c ==> (((push_mask(m, c) >> ((7 * d) as u64)) & 0x7f) == ((m >> ((7 * d) as u64)) & 0x7f)))
        && push_mask(m, c) >> 49 == 0) by (bit_vector)
        requires
            c < 7,
            d < 7,
            m >> 49 == 0,
            ((m >> ((7 * c) as u64)) & 0x7f) == 0 || ((m >> ((7 * c) as u64)) & 0x7f) == 1
                || ((m >> ((7 * c) as u64)) & 0x7f) == 3 || ((m >> ((7 * c) as u64)) & 0x7f) == 7
                || ((m >> ((7 * c) as u64)) & 0x7f) == 15 || ((m >> ((7 * c) as u64)) & 0x7f) == 31,
    ;
}


proof fn lemma_xor_col(a: u64, b: u64, c: u64)
    requires
        c < 7,
    ensures
        col_bits(a ^ b, c) == col_bits(a, c) ^ col_bits(b, c),
{
    assert(((a ^ b) >> ((7 * c) as u64)) & 0x7f == ((a >> ((7 * c) as u64)) & 0x7f) ^ ((b >> ((7 * c) as u64)) & 0x7f)) by (bit_vector);
}

proof fn lemma_subset_col(a: u64, b: u64, c: u64)
    requires
        c < 7,
        a & !b == 0,
    ensures
        col_bits(a, c) & !col_bits(b, c) == 0,
{
    assert(((a >> ((7 * c) as u64)) & 0x7f) & !((b >> ((7 * c) as u64)) & 0x7f) == 0) by (bit_vector)
        requires
            a & !b == 0,
    ;
}

/// Square ownership in the pushed column after the move.
proof fn lemma_push_row(p: u64, q: u64, r: u64)
    requires
        is_stack(p),
        p != 63,
        q & !p == 0,
        r < 6,
    ensures
        has_row((p << 1u64) | 1, r) == (r == stack_height(p) || has_row(p, r)),
        has_row(q ^ p, r) == (has_row(p, r) && !has_row(q, r)),
        r == stack_height(p) ==> !has_row(p, r),
{
    lemma_stack_push(p);
    lemma_xor_row(p, q, r);
    assert(has_row((p << 1u64) | 1, r) == (r == stack_height(p) || has_row(p, r)) && (r == stack_height(p)
        ==> !has_row(p, r))) by (bit_vector)
        requires
            p == 0 || p == 1 || p == 3 || p == 7 || p == 15 || p == 31,
            r < 6,
    ;
}

/// A stack with room grows by one square.
proof fn lemma_stack_push(p: u64)
    requires
        is_stack(p),
        p != 63,
    ensures
        stack_height((p << 1u64) | 1) == stack_height(p) + 1,
        is_stack((p << 1u64) | 1),
{
    assert((p == 0 ==> (p << 1u64) | 1 == 1) && (p == 1 ==> (p << 1u64) | 1 == 3) && (p == 3 ==> (p << 1u64) | 1
        == 7) && (p == 7 ==> (p << 1u64) | 1 == 15) && (p == 15 ==> (p << 1u64) | 1 == 31) && (p == 31 ==> (p
        << 1u64) | 1 == 63)) by (bit_vector);
}

/// A single square of a bitboard, read in place or through its column.
proof fn lemma_square_bit(x: u64, c: u64, w: u64)
    requires
        c < 7,
        w < 6,
    ensures
        (x & (1u64 << ((7 * c + w) as u64)) != 0) == has_row(col_bits(x, c), w),
{
    assert((x & (1u64 << (7 * c + w)) != 0) == ((((x >> (7 * c)) & 0x7f) >> w) & 1 == 1)) by (bit_vector)
        requires
            c < 7,
            w < 6,
    ;
}

proof fn lemma_mirror_step(result: u64, values: u64, c: u64, d: u64)
    requires
        c < 7,
        d < 7,
    ensures
        col_bits(result | (((values >> ((7 * c) as u64)) & 0x3f) << ((7 * (6 - c)) as u64)), d)
            == col_bits(result, d) | if d == 6 - c { col_bits(values, c) & 0x3f } else { 0 },
{
    assert(((result | (((values >> (7 * c)) & 0x3f) << ((7 * (6 - c)) as u64))) >> (7 * d)) & 0x7f
        == (((result >> (7 * d)) & 0x7f) | if d == 6 - c { ((values >> (7 * c)) & 0x7f) & 0x3f } else { 0 })) by (bit_vector)
        requires
            c < 7,
            d < 7,
    ;
}

proof fn lemma_mirror_high(result: u64, values: u64, c: u64)
    requires
        c < 7,
        result >> 49 == 0,
    ensures
        (result | (((values >> ((7 * c) as u64)) & 0x3f) << ((7 * (6 - c)) as u64))) >> 49 == 0,
{
    assert((result | (((values >> (7 * c)) & 0x3f) << ((7 * (6 - c)) as u64))) >> 49 == 0) by (bit_vector)
        requires
            c < 7,
            result >> 49 == 0,
    ;
}

proof fn lemma_mirror_bits_cols(x: u64)
    ensures
        mirror_bits(x) >> 49 == 0,
        forall|c: u64| c < 7 ==> #[trigger] col_bits(mirror_bits(x), c) == col_bits(x, (6 - c) as u64) & 0x3f,
{
    assert(mirror_bits(x) >> 49 == 0) by (bit_vector);
    assert forall|c: u64| c < 7 implies #[trigger] col_bits(mirror_bits(x), c) == col_bits(x, (6 - c) as u64) & 0x3f by {
        assert(((mirror_bits(x) >> ((7 * c) as u64)) & 0x7f) == ((x >> ((7 * (6 - c)) as u64)) & 0x7f) & 0x3f) by (bit_vector)
            requires
                c < 7,
        ;
    }
}

/// Two bitboards without high bits that agree on every column are equal.
proof fn lemma_cols_eq(a: u64, b: u64)
    requires
        a >> 49 == 0,
        b >> 49 == 0,
        forall|c: u64| c < 7 ==> #[trigger] col_bits(a, c) == col_bits(b, c),
    ensures
        a == b,
{
    assert(col_bits(a, 0) == col_bits(b, 0));
    assert(col_bits(a, 1) == col_bits(b, 1));
    assert(col_bits(a, 2) == col_bits(b, 2));
    assert(col_bits(a, 3) == col_bits(b, 3));
    assert(col_bits(a, 4) == col_bits(b, 4));
    assert(col_bits(a, 5) == col_bits(b, 5));
    assert(col_bits(a, 6) == col_bits(b, 6));
    assert(a == b) by (bit_vector)
        requires
            a >> 49 == 0,
            b >> 49 == 0,
            (a >> 0u64) & 0x7f == (b >> 0u64) & 0x7f,
            (a >> 7u64) & 0x7f == (b >> 7u64) & 0x7f,
            (a >> 14u64) & 0x7f == (b >> 14u64) & 0x7f,
            (a >> 21u64) & 0x7f == (b >> 21u64) & 0x7f,
            (a >> 28u64) & 0x7f == (b >> 28u64) & 0x7f,
            (a >> 35u64) & 0x7f == (b >> 35u64) & 0x7f,
            (a >> 42u64) & 0x7f == (b >> 42u64) & 0x7f,
    ;
}

/// A stack and any of its subsets have no sentinel bit.
proof fn lemma_stack_low(p: u64, q: u64)
    requires
        is_stack(p),
        q & !p == 0,
    ensures
        p & 0x3f == p,
        q & 0x3f == q,
{
    assert(p & 0x3f == p && q & 0x3f == q) by (bit_vector)
        requires
            p == 0 || p == 1 || p == 3 || p == 7 || p == 15 || p == 31 || p == 63,
            q & !p == 0,
    ;
}

/// Column-wise inclusion of two masks without high bits is inclusion.
proof fn lemma_mirror_subset(a: u64, b: u64)
    requires
        a >> 49 == 0,
        forall|c: u64| c < 7 ==> #[trigger] col_bits(a, c) & !col_bits(b, c) == 0,
    ensures
        a & !b == 0,
{
    assert(col_bits(a, 0) & !col_bits(b, 0) == 0);
    assert(col_bits(a, 1) & !col_bits(b, 1) == 0);
    assert(col_bits(a, 2) & !col_bits(b, 2) == 0);
    assert(col_bits(a, 3) & !col_bits(b, 3) == 0);
    assert(col_bits(a, 4) & !col_bits(b, 4) == 0);
    assert(col_bits(a, 5) & !col_bits(b, 5) == 0);
    assert(col_bits(a, 6) & !col_bits(b, 6) == 0);
    assert(a & !b == 0) by (bit_vector)
        requires
            a >> 49 == 0,
            ((a >> 0u64) & 0x7f) & !((b >> 0u64) & 0x7f) == 0,
            ((a >> 7u64) & 0x7f) & !((b >> 7u64) & 0x7f) == 0,
            ((a >> 14u64) & 0x7f) & !((b >> 14u64) & 0x7f) == 0,
            ((a >> 21u64) & 0x7f) & !((b >> 21u64) & 0x7f) == 0,
            ((a >> 28u64) & 0x7f) & !((b >> 28u64) & 0x7f) == 0,
            ((a >> 35u64) & 0x7f) & !((b >> 35u64) & 0x7f) == 0,
            ((a >> 42u64) & 0x7f) & !((b >> 42u64) & 0x7f) == 0,
    ;
}

proof fn lemma_xor_row(p: u64, q: u64, r: u64)
    requires
        q & !p == 0,
    ensures
        has_row(q ^ p, r) == (has_row(p, r) && !has_row(q, r)),
        has_row(q, r) ==> has_row(p, r),
{
    assert(has_row(q ^ p, r) == (has_row(p, r) && !has_row(q, r)) && (has_row(q, r) ==> has_row(p, r))) by (bit_vector)
        requires
            q & !p == 0,
    ;
}

proof fn lemma_heights_sum_push(m: u64, nm: u64, c: u64, n: nat)
    requires
        c < 7,
        n <= 7,
        forall|d: u64| d < 7 && d != c ==> #[trigger] col_bits(nm, d) == col_bits(m, d),
        stack_height(col_bits(nm, c)) == stack_height(col_bits(m, c)) + 1,
    ensures
        heights_sum(nm, n) == heights_sum(m, n) + if (c as nat) < n { 1nat } else { 0nat },
    decreases n,
{
    if n > 0 {
        lemma_heights_sum_push(m, nm, c, (n - 1) as nat);
        let d = (n - 1) as u64;
        if d != c {
            assert(col_bits(nm, d) == col_bits(m, d));
        }
    }
}

} // verus!
