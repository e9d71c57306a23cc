use vstd::prelude::*;
use crate::board::{Board, Player, Square, WIDTH, square_rank};
use crate::ai::random_below;

verus! {

/// Length of one opening-book record: six rows of two bytes, and two bytes
/// that name the side the record is for.
pub const RECORD_LEN: usize = 14;

/// Rank of the square at column `c`, row `r`.
pub open spec fn rank_at(b: Board, c: u64, r: u64) -> int {
    square_rank(b.square_at(c, r))
}

/// The fourteen-byte image of a board: for each row, columns 0 to 3 packed
/// two bits each into one byte, then columns 4 to 6 and two set bits into the
/// next; the last two bytes are zero.
pub open spec fn collapsed(b: Board) -> Seq<u8> {
    Seq::new(
        14,
        |i: int|
            if i >= 12 {
                0u8
            } else if i % 2 == 0 {
                (64 * rank_at(b, 0, (i / 2) as u64) + 16 * rank_at(b, 1, (i / 2) as u64) + 4 * rank_at(
                    b,
                    2,
                    (i / 2) as u64,
                ) + rank_at(b, 3, (i / 2) as u64)) as u8
            } else {
                (64 * rank_at(b, 4, (i / 2) as u64) + 16 * rank_at(b, 5, (i / 2) as u64) + 4 * rank_at(
                    b,
                    6,
                    (i / 2) as u64,
                ) + 3) as u8
            },
    )
}

/// The key looked up for `player`: the image with its last two bytes naming
/// the side (`01 00` for White, `ff ff` for Black).
pub open spec fn book_key(image: Seq<u8>, player: Player) -> Seq<u8> {
    match player {
        Player::White => image.update(12, 1u8).update(13, 0u8),
        Player::Black => image.update(12, 0xffu8).update(13, 0xffu8),
    }
}

pub open spec fn record(book: Seq<u8>, m: int) -> Seq<u8> {
    book.subrange(14 * m, 14 * m + 14)
}

pub open spec fn record_count(book: Seq<u8>) -> int {
    book.len() as int / 14
}

/// Lexicographic comparison of two byte strings from position `k` on.
pub open spec fn lex_from(a: Seq<u8>, b: Seq<u8>, k: int) -> core::cmp::Ordering
    decreases a.len() - k,
{
    if k < 0 || k >= a.len() || k >= b.len() {
        core::cmp::Ordering::Equal
    } else if a[k] < b[k] {
        core::cmp::Ordering::Less
    } else if a[k] > b[k] {
        core::cmp::Ordering::Greater
    } else {
        lex_from(a, b, k + 1)
    }
}

/// The book's records are in increasing byte order.
pub open spec fn book_sorted(book: Seq<u8>) -> bool {
    forall|i: int, j: int|
        0 <= i < j < record_count(book) ==> lex_from(record(book, i), record(book, j), 0)
            != core::cmp::Ordering::Greater
}

pub open spec fn in_book(book: Seq<u8>, key: Seq<u8>) -> bool {
    exists|m: int| 0 <= m < record_count(book) && #[trigger] record(book, m) == key
}

proof fn lemma_lex_flip(a: Seq<u8>, b: Seq<u8>, k: int)
    requires
        a.len() == b.len(),
        0 <= k,
    ensures
        lex_from(a, b, k) == core::cmp::Ordering::Less ==> lex_from(b, a, k) == core::cmp::Ordering::Greater,
        lex_from(a, b, k) == core::cmp::Ordering::Greater ==> lex_from(b, a, k) == core::cmp::Ordering::Less,
    decreases a.len() - k,
{
    if k < a.len() && a[k] == b[k] {
        lemma_lex_flip(a, b, k + 1);
    }
}

proof fn lemma_lex_equal(a: Seq<u8>, k: int)
    requires
        0 <= k,
    ensures
        lex_from(a, a, k) == core::cmp::Ordering::Equal,
    decreases a.len() - k,
{
    if k < a.len() {
        lemma_lex_equal(a, k + 1);
    }
}

fn encode_square(board: Board, column: usize, row: usize) -> (r: u8)
    requires
        board.wf(),
        column < 7,
        row < 6,
    ensures
        r == rank_at(board, column as u64, row as u64),
{
    match board.get_square(column, row) {
        Some(Square::Taken(Player::White)) => 1,
        Some(Square::Taken(Player::Black)) => 2,
        _ => 0,
    }
}

proof fn lemma_pack(a: u8, b: u8, c: u8, d: u8)
    requires
        a <= 3,
        b <= 3,
        c <= 3,
        d <= 3,
    ensures
        (a << 6u8) | (b << 4u8) | (c << 2u8) | d == 64 * a + 16 * b + 4 * c + d,
{
    assert((a << 6u8) | (b << 4u8) | (c << 2u8) | d == ((64 * a + 16 * b + 4 * c + d) as u8)) by (bit_vector)
        requires
            a <= 3,
            b <= 3,
            c <= 3,
            d <= 3,
    ;
}

pub fn collapse_position(board: Board) -> (r: [u8; 14])
    requires
        board.wf(),
    ensures
        r@ == collapsed(board),
{
    let mut output: [u8; 14] = [0; 14];
    let mut row: usize = 0;
    while row < 6
        invariant
            row <= 6,
            board.wf(),
            forall|i: int| 0 <= i < 2 * row ==> #[trigger] output@[i] == collapsed(board)[i],
            forall|i: int| 2 * row <= i < 14 ==> #[trigger] output@[i] == 0,
        decreases 6 - row,
    {
        let a = encode_square(board, 0, row);
        let b = encode_square(board, 1, row);
        let c = encode_square(board, 2, row);
        let d = encode_square(board, 3, row);
        let e = encode_square(board, 4, row);
        let f = encode_square(board, 5, row);
        let g = encode_square(board, 6, row);
        proof {
            lemma_pack(a, b, c, d);
            lemma_pack(e, f, g, 3);
        }
        output[row * 2] = a << 6u8 | b << 4u8 | c << 2u8 | d;
        output[row * 2 + 1] = e << 6u8 | f << 4u8 | g << 2u8 | 3u8;
        row = row + 1;
    }
    assert(output@ =~= collapsed(board));
    output
}

/// Compares record `middle` of the book with `key`, byte by byte.
fn compare_record(book: &[u8], middle: usize, key: &[u8; 14]) -> (r: core::cmp::Ordering)
    requires
        14 * middle + 14 <= book@.len(),
    ensures
        r == lex_from(record(book@, middle as int), key@, 0),
{
    let n = book.len();
    assert(14 * middle + 14 <= n);
    let start = middle * RECORD_LEN;
    let mut k: usize = 0;
    while k < RECORD_LEN
        invariant
            k <= 14,
            start == 14 * middle,
            n == book@.len(),
            start + 14 <= n,
            lex_from(record(book@, middle as int), key@, 0) == lex_from(
                record(book@, middle as int),
                key@,
                k as int,
            ),
        decreases 14 - k,
    {
        let a = book[start + k];
        let b = key[k];
        if a < b {
            return core::cmp::Ordering::Less;
        } else if a > b {
            return core::cmp::Ordering::Greater;
        }
        k = k + 1;
    }
    core::cmp::Ordering::Equal
}

/// Looks the image of a position up in the book, for `player`, by bisection.
/// A record reported found is in the book; in a sorted book every record is
/// found.
pub fn check_book(collapsed_image: [u8; 14], player: Player, book: &[u8]) -> (r: bool)
    ensures
        r ==> in_book(book@, book_key(collapsed_image@, player)),
        book_sorted(book@) && in_book(book@, book_key(collapsed_image@, player)) ==> r,
{
    let mut key = collapsed_image;
    match player {
        Player::White => {
            key[12] = 0x01;
            key[13] = 0x00;
        },
        Player::Black => {
            key[12] = 0xff;
            key[13] = 0xff;
        },
    }
    assert(key@ =~= book_key(collapsed_image@, player));
    let book_size = book.len() / RECORD_LEN;
    let mut left: usize = 0;
    let mut right: usize = book_size;
    while left != right
        invariant
            left <= right <= book_size,
            book_size == record_count(book@),
            key@ == book_key(collapsed_image@, player),
            key@.len() == 14,
            book_sorted(book@) ==> forall|m: int|
                (0 <= m < left || right <= m < book_size) ==> #[trigger] record(book@, m) != key@,
        decreases right - left,
    {
        let middle = left + (right - left) / 2;
        proof {
            lemma_record_len(book@, middle as int);
        }
        match compare_record(book, middle, &key) {
            core::cmp::Ordering::Less => {
                proof {
                    if book_sorted(book@) {
                        assert forall|m: int| 0 <= m <= middle implies #[trigger] record(book@, m) != key@ by {
                            if record(book@, m) == key@ {
                                lemma_record_len(book@, m);
                                lemma_record_len(book@, middle as int);
                                lemma_lex_flip(record(book@, middle as int), key@, 0);
                                lemma_lex_equal(key@, 0);
                                if m < middle {
                                    assert(lex_from(record(book@, m), record(book@, middle as int), 0)
                                        != core::cmp::Ordering::Greater);
                                }
                            }
                        }
                    }
                }
                left = middle + 1;
            },
            core::cmp::Ordering::Equal => {
                proof {
                    lemma_lex_equal_means_same(record(book@, middle as int), key@, 0);
                }
                return true;
            },
            core::cmp::Ordering::Greater => {
                proof {
                    if book_sorted(book@) {
                        assert forall|m: int| middle <= m < book_size implies #[trigger] record(book@, m) != key@ by {
                            if record(book@, m) == key@ {
                                lemma_record_len(book@, m);
                                lemma_record_len(book@, middle as int);
                                lemma_lex_flip(record(book@, middle as int), key@, 0);
                                lemma_lex_equal(key@, 0);
                                if m > middle {
                                    assert(lex_from(record(book@, middle as int), record(book@, m), 0)
                                        != core::cmp::Ordering::Greater);
                                }
                            }
                        }
                    }
                }
                right = middle;
            },
        }
    }
    false
}

proof fn lemma_record_len(book: Seq<u8>, m: int)
    requires
        0 <= m < record_count(book),
    ensures
        14 * m + 14 <= book.len(),
        record(book, m).len() == 14,
{
    assert(14 * m + 14 <= book.len()) by (nonlinear_arith)
        requires
            0 <= m < book.len() as int / 14,
    ;
}

proof fn lemma_lex_equal_means_same(a: Seq<u8>, b: Seq<u8>, k: int)
    requires
        a.len() == b.len(),
        0 <= k <= a.len(),
        lex_from(a, b, k) == core::cmp::Ordering::Equal,
        forall|j: int| 0 <= j < k ==> a[j] == b[j],
    ensures
        a == b,
    decreases a.len() - k,
{
    if k < a.len() {
        lemma_lex_equal_means_same(a, b, k + 1);
    } else {
        assert(a =~= b);
    }
}

/// The book key for the position after `column` is played, taken on the
/// smaller of the resulting board and its mirror.
pub open spec fn book_key_after(board: Board, column: u64) -> Seq<u8> {
    let next = board.play_spec(column);
    let m = next.mirror_spec();
    let least = if crate::board::row_major_from(next, m, 0) == core::cmp::Ordering::Greater {
        m
    } else {
        next
    };
    book_key(collapsed(least), board.player_spec())
}

/// The columns whose resulting position the book holds for the side to move.
pub fn book_moves(board: Board, book: &[u8]) -> (r: Vec<usize>)
    requires
        board.wf(),
    ensures
        forall|k: int| 0 <= k < r.len() ==> {
            let c = #[trigger] r@[k];
            &&& c < 7
            &&& board.can_play_spec(c as u64)
            &&& in_book(book@, book_key_after(board, c as u64))
        },
        book_sorted(book@) ==> forall|c: usize|
            c < 7 && board.can_play_spec(c as u64) && in_book(book@, #[trigger] book_key_after(board, c as u64))
                ==> r@.contains(c),
{
    let mut possible: Vec<usize> = Vec::new();
    let player = board.player_to_play();
    let mut column: usize = 0;
    while column < WIDTH
        invariant
            column <= 7,
            board.wf(),
            player == board.player_spec(),
            forall|k: int| 0 <= k < possible.len() ==> {
                let c = #[trigger] possible@[k];
                &&& c < 7
                &&& board.can_play_spec(c as u64)
                &&& in_book(book@, book_key_after(board, c as u64))
            },
            book_sorted(book@) ==> forall|c: usize|
                c < column && board.can_play_spec(c as u64) && in_book(book@, #[trigger] book_key_after(board, c as u64))
                    ==> possible@.contains(c),
        decreases 7 - column,
    {
        match board.make_move(column) {
            Ok(new_board) => {
                let symmetric = new_board.symmetric_board();
                let least = match new_board.row_major_comparison(symmetric) {
                    core::cmp::Ordering::Greater => symmetric,
                    _ => new_board,
                };
                let image = collapse_position(least);
                let ghost before = possible@;
                if check_book(image, player, book) {
                    possible.push(column);
                }
                proof {
                    assert forall|c: usize|
                        c < column + 1 && board.can_play_spec(c as u64) && in_book(book@, #[trigger] book_key_after(board, c as u64))
                            && book_sorted(book@) implies possible@.contains(c) by {
                        if c == column {
                            assert(possible@[possible.len() - 1] == c);
                        } else {
                            assert(before.contains(c));
                            let k = choose|k: int| 0 <= k < before.len() && before[k] == c;
                            assert(possible@[k] == c);
                        }
                    }
                }
            },
            Err(_) => {},
        }
        column = column + 1;
    }
    possible
}

/// A column whose resulting position the book holds, picked at random among
/// all such columns; `None` when there is none.
pub fn use_opening_book(board: Board, book: &[u8]) -> (r: Option<usize>)
    requires
        board.wf(),
    ensures
        r is Some ==> {
            let c = r->Some_0;
            &&& c < 7
            &&& board.can_play_spec(c as u64)
            &&& in_book(book@, book_key_after(board, c as u64))
        },
        r is None && book_sorted(book@) ==> forall|c: usize|
            c < 7 && board.can_play_spec(c as u64) ==> !in_book(book@, #[trigger] book_key_after(board, c as u64)),
{
    let possible = book_moves(board, book);
    if possible.len() == 0 {
        None
    } else {
        Some(possible[random_below(possible.len())])
    }
}

} // verus!
