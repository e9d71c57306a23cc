use velena::board::{Board, Player, Square};

fn play(moves: &str) -> Board {
    let mut board = Board::new();
    for ch in moves.chars() {
        let column = ch.to_digit(10).unwrap() as usize;
        board = board.make_move(column).unwrap();
    }
    board
}

const DRAWN_GAME: &str = "532315310141250566206042303423260411544566";

#[test]
fn empty_board_has_no_pieces() {
    let board = Board::new();
    assert_eq!(board.filled_squares(), 0);
    assert!(board.player_to_play() == Player::White);
    for column in 0..7 {
        assert!(board.can_play(column));
        for row in 0..6 {
            assert!(board.get_square(column, row) == Some(Square::Empty));
        }
    }
    assert!(!board.is_full());
    assert!(!board.is_endgame());
}

#[test]
fn move_fills_lowest_square_and_passes_turn() {
    let board = play("3");
    assert_eq!(board.filled_squares(), 1);
    assert!(board.player_to_play() == Player::Black);
    assert!(board.get_square(3, 0) == Some(Square::Taken(Player::White)));
    assert!(board.get_square(3, 1) == Some(Square::Empty));
    let board = board.make_move(3).unwrap();
    assert!(board.get_square(3, 1) == Some(Square::Taken(Player::Black)));
    assert!(board.player_to_play() == Player::White);
}

#[test]
fn make_move_leaves_receiver_unchanged_and_repeats() {
    let board = play("3324");
    let copy = board;
    let first = board.make_move(5).unwrap();
    let second = board.make_move(5).unwrap();
    assert_eq!(first, second);
    assert_eq!(board, copy);
    assert_eq!(first.filled_squares(), board.filled_squares() + 1);
}

#[test]
fn full_column_and_out_of_range_are_refused() {
    let board = play("000000");
    assert!(!board.can_play(0));
    assert!(board.make_move(0).is_err());
    assert!(!board.can_play(7));
    assert!(board.make_move(7).is_err());
    assert!(board.make_move(1).is_ok());
}

#[test]
fn get_square_outside_the_board_is_none() {
    let board = Board::new();
    assert!(board.get_square(7, 0).is_none());
    assert!(board.get_square(0, 6).is_none());
}

#[test]
fn horizontal_four_ends_the_game() {
    let board = play("0011223");
    assert!(board.is_endgame());
    assert!(!board.is_full());
}

#[test]
fn vertical_four_ends_the_game() {
    let board = play("0101010");
    assert!(board.is_endgame());
}

#[test]
fn diagonal_fours_end_the_game() {
    // rising: White on (0,0), (1,1), (2,2), (3,3)
    let rising = play("01122323363");
    assert!(rising.is_endgame());
    // falling: White on (6,0), (5,1), (4,2), (3,3)
    let falling = play("65544343303");
    assert!(falling.is_endgame());
}

#[test]
fn three_in_a_row_is_not_a_win() {
    let board = play("001122");
    assert!(!board.is_endgame());
}

#[test]
fn drawn_game_fills_the_board_without_a_win() {
    let mut board = Board::new();
    for ch in DRAWN_GAME.chars() {
        assert!(!board.is_endgame());
        board = board.make_move(ch.to_digit(10).unwrap() as usize).unwrap();
    }
    assert_eq!(board.filled_squares(), 42);
    assert!(board.is_full());
    assert!(board.is_endgame());
    for column in 0..7 {
        assert!(!board.can_play(column));
    }
}

#[test]
fn winning_move_found_for_side_to_move() {
    let board = play("001122");
    assert_eq!(board.get_winning_move(), Some(3));
    assert!(board.is_move_winning(3, Player::White));
    assert!(!board.is_move_winning(3, Player::Black));
    assert!(!board.is_move_winning(4, Player::White));
}

#[test]
fn every_immediate_win_is_reported() {
    // White holds (1,0), (2,0), (3,0): both ends of the row win.
    let board = play("112233");
    assert!(board.player_to_play() == Player::White);
    let winning: Vec<usize> = (0..7).filter(|&c| board.is_move_winning(c, Player::White)).collect();
    assert_eq!(winning, vec![0, 4]);
    assert_eq!(board.get_winning_move(), Some(0));
}

#[test]
fn threat_above_the_drop_square_is_not_immediate() {
    // Black holds (1,1), (2,1), (3,1); (0,1) and (4,1) are not yet playable.
    let board = play("112233");
    for column in 0..7 {
        assert!(!board.is_move_winning(column, Player::Black));
    }
}

#[test]
fn no_winning_move_on_quiet_board() {
    assert_eq!(Board::new().get_winning_move(), None);
    assert_eq!(play("33").get_winning_move(), None);
}

#[test]
fn mirror_reflects_columns() {
    let board = play("0126");
    let mirror = board.symmetric_board();
    assert_eq!(mirror.filled_squares(), board.filled_squares());
    for column in 0..7 {
        for row in 0..6 {
            assert!(mirror.get_square(column, row) == board.get_square(6 - column, row));
        }
    }
    assert_eq!(mirror.symmetric_board(), board);
}

#[test]
fn mirror_of_played_board_is_played_mirror() {
    let board = play("0126");
    assert_eq!(board.symmetric_board(), play("6540"));
}

#[test]
fn row_major_order_compares_bottom_row_first() {
    let left = play("0");
    let right = play("6");
    assert!(left.row_major_comparison(right) == std::cmp::Ordering::Greater);
    assert!(right.row_major_comparison(left) == std::cmp::Ordering::Less);
    assert!(left.row_major_comparison(left) == std::cmp::Ordering::Equal);
    // White (rank 1) sorts before Black (rank 2) on the same square.
    let white_first = play("01");
    let black_first = play("10");
    assert!(white_first.row_major_comparison(black_first) == std::cmp::Ordering::Less);
}

#[test]
fn canonical_form_is_shared_by_mirror_images() {
    let board = play("0126");
    let mirror = board.symmetric_board();
    let (a, a_mirrored) = board.canonical();
    let (b, b_mirrored) = mirror.canonical();
    assert_eq!(a, b);
    assert!(a_mirrored != b_mirrored);
    let (again, again_mirrored) = a.canonical();
    assert_eq!(again, a);
    assert!(!again_mirrored);
}

#[test]
fn canonical_form_of_symmetric_board_is_itself() {
    let board = play("33");
    assert_eq!(board.canonical(), (board, false));
}

#[test]
fn key_adds_the_two_bitboards() {
    assert_eq!(Board::new().key(), 0);
    // White at column 0, row 0: mask bit 0, side to move (Black) has none.
    assert_eq!(play("0").key(), 1);
    // Then Black at column 1, row 0: White to move owns bit 0, mask bits 0 and 7.
    assert_eq!(play("01").key(), 1 + 1 + 128);
    assert!(play("01").key() != play("10").key());
}

#[test]
fn masks_select_squares() {
    assert_eq!(Board::column_mask(0), 0x3f);
    assert_eq!(Board::column_mask(2), 0x3f << 14);
    assert_eq!(Board::row_mask(0), 0x40810204081);
    assert_eq!(Board::square_mask(1, 2), 1 << 9);
}

#[test]
fn opponent_swaps_sides() {
    assert!(Player::White.opponent() == Player::Black);
    assert!(Player::Black.opponent() == Player::White);
}

#[test]
fn bottom_row_bits() {
    assert_eq!(Board::bottom(0), 0);
    assert_eq!(Board::bottom(1), 1);
    assert_eq!(Board::bottom(7), 0x40810204081);
}

#[test]
fn piece_count_matches_occupied_squares() {
    let mut board = Board::new();
    for ch in DRAWN_GAME.chars() {
        board = board.make_move(ch.to_digit(10).unwrap() as usize).unwrap();
        let mut occupied = 0;
        for column in 0..7 {
            for row in 0..6 {
                if board.get_square(column, row) != Some(Square::Empty) {
                    occupied += 1;
                }
            }
        }
        assert_eq!(board.filled_squares(), occupied);
    }
}

fn naive_four(board: &Board, player: Player) -> bool {
    let owned = |c: i32, r: i32| {
        (0..7).contains(&c)
            && (0..6).contains(&r)
            && board.get_square(c as usize, r as usize) == Some(Square::Taken(player))
    };
    for c in 0..7 {
        for r in 0..6 {
            for (dc, dr) in [(1, 0), (0, 1), (1, 1), (1, -1)] {
                if (0..4).all(|k| owned(c + k * dc, r + k * dr)) {
                    return true;
                }
            }
        }
    }
    false
}

#[test]
fn endgame_agrees_with_naive_scan_on_random_games() {
    let mut seed: u64 = 0x2545f4914f6cdd1d;
    for _ in 0..300 {
        let mut board = Board::new();
        loop {
            let mover = board.player_to_play();
            let legal: Vec<usize> = (0..7).filter(|&c| board.can_play(c)).collect();
            if legal.is_empty() {
                break;
            }
            seed = seed.wrapping_mul(6364136223846793005).wrapping_add(1442695040888963407);
            let column = legal[(seed >> 33) as usize % legal.len()];
            let winning = board.is_move_winning(column, mover);
            board = board.make_move(column).unwrap();
            let four = naive_four(&board, mover);
            assert_eq!(winning, four);
            assert_eq!(board.is_endgame(), four || board.is_full());
            if board.is_endgame() {
                break;
            }
        }
    }
}

#[test]
fn symmetric_board_is_its_own_mirror() {
    let board = play("3333");
    assert_eq!(board.symmetric_board(), board);
    assert_eq!(board.canonical(), (board, false));
    let lopsided = play("3332");
    let (a, a_mirrored) = lopsided.canonical();
    let (b, b_mirrored) = lopsided.symmetric_board().canonical();
    assert_eq!(a, b);
    assert!(a_mirrored != b_mirrored);
}
