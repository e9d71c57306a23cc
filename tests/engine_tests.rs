use velena::ai::{black_opening_move, compute_ai_move};
use velena::board::{Board, Player};
use velena::book::{check_book, collapse_position, use_opening_book};
use velena::groups::{generate_groups, GROUP_COUNT};
use std::collections::HashMap;
use velena::heuristic::{
    develop, heuristic_best_play, heuristic_proof_number_search, set_proof_and_disproof_numbers, update_ancestors,
    Graph, Node, NodeState, NodeType, NodeValue, INFINITY,
};
use velena::play_game::{parse_input_string, play_game, CLIError};

fn play(moves: &str) -> Board {
    let mut board = Board::new();
    for ch in moves.chars() {
        board = board.make_move(ch.to_digit(10).unwrap() as usize).unwrap();
    }
    board
}

const DRAWN_GAME: &str = "532315310141250566206042303423260411544566";

#[test]
fn search_proves_completing_column() {
    let board = play("001122");
    assert_eq!(heuristic_best_play(board, false), Some(3));
    assert_eq!(heuristic_best_play(board, true), Some(3));
}

#[test]
fn search_maps_mirrored_answer_back() {
    // White holds (0,0), (1,0), (2,0): the canonical form is the mirror,
    // where the winning column is found as 3 and reported as 6 - 3.
    let board = play("001122");
    assert!(board.canonical().1);
    assert_eq!(heuristic_best_play(board, false), Some(3));
    // Its mirror image is already canonical.
    let board = play("665544");
    assert!(!board.canonical().1);
    assert_eq!(heuristic_best_play(board, false), Some(3));
}

#[test]
fn search_stops_at_once_on_immediate_win() {
    let board = play("112233");
    let (best, value, graph) = heuristic_proof_number_search(board, false);
    assert_eq!((best, value), (Some(0), NodeValue::Proved));
    assert_eq!(graph.nodes.len(), 1);
    assert_eq!(graph.nodes[0].state, NodeState::Evaluated);
}

#[test]
fn full_board_outcome_follows_draw_rule() {
    let board = play(DRAWN_GAME);
    assert!(board.is_full());
    let cases = [
        (NodeType::Or, false, NodeValue::Disproved),
        (NodeType::And, false, NodeValue::Proved),
        (NodeType::Or, true, NodeValue::Proved),
        (NodeType::And, true, NodeValue::Disproved),
    ];
    for (root_type, fight, expected) in cases {
        let mut node = Node::new(board, NodeType::Or);
        assert_eq!(node.evaluate(root_type, fight), None);
        assert_eq!(node.state, NodeState::Evaluated);
        assert_eq!(node.value, expected);
    }
}

#[test]
fn full_board_search_gives_no_move() {
    let board = play(DRAWN_GAME);
    let (best, value, _) = heuristic_proof_number_search(board, false);
    assert_eq!((best, value), (None, NodeValue::Disproved));
    let (best, value, _) = heuristic_proof_number_search(board, true);
    assert_eq!((best, value), (None, NodeValue::Proved));
    assert_eq!(heuristic_best_play(board, false), None);
    assert_eq!(heuristic_best_play(board, true), None);
}

#[test]
fn evaluation_decides_immediate_win_by_role() {
    let board = play("112233");
    let mut or_node = Node::new(board, NodeType::Or);
    assert_eq!(or_node.evaluate(NodeType::Or, false), Some(0));
    assert_eq!(or_node.value, NodeValue::Proved);
    let mut and_node = Node::new(board, NodeType::And);
    assert_eq!(and_node.evaluate(NodeType::Or, false), Some(0));
    assert_eq!(and_node.value, NodeValue::Disproved);
}

#[test]
fn evaluation_leaves_quiet_position_unknown() {
    let mut node = Node::new(play("33"), NodeType::Or);
    assert_eq!(node.evaluate(NodeType::Or, false), None);
    assert_eq!(node.value, NodeValue::Unknown);
}

#[test]
fn search_result_is_legal_when_given() {
    for moves in ["", "3", "33", "3332", "0123456"] {
        let board = play(moves);
        if let Some(column) = heuristic_best_play(board, false) {
            assert!(board.can_play(column));
        }
    }
}

#[test]
fn empty_board_opens_in_the_centre() {
    assert_eq!(compute_ai_move(Board::new(), 3, &[]), 3);
    assert_eq!(compute_ai_move(Board::new(), 1, &[]), 3);
}

#[test]
fn replies_to_first_move() {
    assert_eq!(compute_ai_move(play("1"), 1, &[]), 2);
    assert_eq!(compute_ai_move(play("5"), 1, &[]), 4);
    assert_eq!(compute_ai_move(play("3"), 1, &[]), 3);
    assert_eq!(compute_ai_move(play("0"), 1, &[]), 3);
}

#[test]
fn takes_an_immediate_win() {
    let board = play("001122");
    assert_eq!(compute_ai_move(board, 1, &[]), 3);
}

#[test]
fn takes_one_of_several_wins() {
    let board = play("112233");
    for _ in 0..20 {
        let column = compute_ai_move(board, 1, &[]);
        assert!(column == 0 || column == 4);
    }
}

#[test]
fn blocks_an_immediate_loss() {
    let board = play("606152");
    assert_eq!(compute_ai_move(board, 1, &[]), 3);
}

#[test]
fn plays_last_free_column() {
    let board = play(&DRAWN_GAME[..41]);
    let last = DRAWN_GAME[41..].chars().next().unwrap().to_digit(10).unwrap() as usize;
    assert_eq!(compute_ai_move(board, 1, &[]), last);
}

#[test]
fn black_opening_line() {
    assert_eq!(black_opening_move(play("3"), 0), Some(3));
    assert_eq!(black_opening_move(play("333"), 0), Some(3));
    assert_eq!(black_opening_move(play("33333"), 0), Some(1));
    assert_eq!(black_opening_move(play("33333"), 1), Some(5));
    assert_eq!(black_opening_move(play("0"), 0), None);
    assert_eq!(black_opening_move(play("333331"), 0), Some(1));
    assert_eq!(black_opening_move(play("333335"), 0), Some(5));
}

#[test]
fn black_at_level_three_follows_opening_line() {
    let board = play("333");
    assert!(board.player_to_play() == Player::Black);
    assert_eq!(compute_ai_move(board, 3, &[]), 3);
}

fn record_for(board: Board, player_byte_12: u8, player_byte_13: u8) -> Vec<u8> {
    let mut record = collapse_position(board).to_vec();
    record[12] = player_byte_12;
    record[13] = player_byte_13;
    record
}

#[test]
fn collapse_packs_rows() {
    let image = collapse_position(play("3"));
    assert_eq!(image, [1, 3, 0, 3, 0, 3, 0, 3, 0, 3, 0, 3, 0, 0]);
    let image = collapse_position(play("06"));
    assert_eq!(image, [0x40, 0x0b, 0, 3, 0, 3, 0, 3, 0, 3, 0, 3, 0, 0]);
}

#[test]
fn book_lookup_finds_records() {
    let mut book = Vec::new();
    // Records in increasing byte order.
    book.extend(record_for(play("3"), 0x01, 0x00));
    book.extend(record_for(play("3"), 0xff, 0xff));
    book.extend(record_for(play("0"), 0x01, 0x00));
    let image = collapse_position(play("3"));
    assert!(check_book(image, Player::White, &book));
    assert!(check_book(image, Player::Black, &book));
    assert!(check_book(collapse_position(play("0")), Player::White, &book));
    assert!(!check_book(collapse_position(play("0")), Player::Black, &book));
    assert!(!check_book(collapse_position(play("1")), Player::White, &book));
    assert!(!check_book(image, Player::White, &[]));
}

#[test]
fn opening_book_move_is_a_listed_position() {
    let book = record_for(play("3"), 0x01, 0x00);
    assert_eq!(use_opening_book(Board::new(), &book), Some(3));
    assert_eq!(use_opening_book(Board::new(), &[]), None);
    // The mirror image of column 4 is column 2; the smaller one is looked up.
    let book = record_for(play("4"), 0x01, 0x00);
    let found = use_opening_book(Board::new(), &book);
    assert!(found == Some(2) || found == Some(4));
}

#[test]
fn groups_cover_every_alignment() {
    let groups = generate_groups();
    assert_eq!(groups.len(), GROUP_COUNT);
    assert_eq!(groups[0], [(0, 0), (1, 0), (2, 0), (3, 0)]);
    assert_eq!(groups[23], [(3, 5), (4, 5), (5, 5), (6, 5)]);
    assert_eq!(groups[24], [(0, 0), (0, 1), (0, 2), (0, 3)]);
    assert_eq!(groups[44], [(6, 2), (6, 3), (6, 4), (6, 5)]);
    assert_eq!(groups[45], [(0, 0), (1, 1), (2, 2), (3, 3)]);
    assert_eq!(groups[57], [(0, 3), (1, 2), (2, 1), (3, 0)]);
    assert_eq!(groups[68], [(3, 5), (4, 4), (5, 3), (6, 2)]);
}

#[test]
fn parse_reads_level_and_moves() {
    let (board, level) = parse_input_string("c4560\n").unwrap_or_else(|_| panic!("refused"));
    assert_eq!(level, 3);
    assert_eq!(board, play("345"));
    let (board, level) = parse_input_string("a0").unwrap_or_else(|_| panic!("refused"));
    assert_eq!(level, 1);
    assert_eq!(board, Board::new());
}

#[test]
fn parse_errors() {
    assert!(matches!(parse_input_string("x0"), Err(CLIError::SyntaxError)));
    assert!(matches!(parse_input_string(""), Err(CLIError::SyntaxError)));
    assert!(matches!(parse_input_string("c8"), Err(CLIError::SyntaxError)));
    assert!(matches!(parse_input_string("c12"), Err(CLIError::SyntaxError)));
    assert!(matches!(parse_input_string("c11111110"), Err(CLIError::PositionalError)));
    assert!(matches!(parse_input_string("c12121210"), Err(CLIError::PositionalError)));
}

#[test]
fn play_game_answers_in_one_based_columns() {
    assert_eq!(play_game("c0", &[]), Ok(4));
    assert_eq!(play_game("a20\n", &[]), Ok(3));
    assert_eq!(play_game("b112230", &[]), Ok(4));
    assert_eq!(play_game("q", &[]), Err(CLIError::SyntaxError));
    assert_eq!(play_game("c11111110", &[]), Err(CLIError::PositionalError));
}

#[test]
fn expanded_root_takes_least_child_proof() {
    // A symmetric position: columns c and 6 - c lead to mirror images,
    // which share one node.
    let board = play("33");
    let mut root = Node::new(board, NodeType::Or);
    root.evaluate(NodeType::Or, false);
    let mut g = Graph { nodes: vec![root], parents: vec![vec![]], index: HashMap::new() };
    g.index.insert(board.key(), 0);
    set_proof_and_disproof_numbers(&mut g, 0);
    assert_eq!((g.nodes[0].proof, g.nodes[0].disproof), (1, 7));
    let mut created = 0;
    develop(&mut g, 0, NodeType::Or, false, &mut created);
    assert_eq!(created, 4);
    assert_eq!(g.nodes.len(), 5);
    update_ancestors(&mut g, 0);
    let root = g.nodes[0];
    assert_eq!(root.state, NodeState::Expanded);
    let kids: Vec<usize> = root.children.iter().map(|c| c.unwrap()).collect();
    assert_eq!(kids[2], kids[4]);
    assert_eq!(g.parents[kids[2]], vec![0]);
    let least = kids.iter().map(|&k| g.nodes[k].proof).min().unwrap().min(INFINITY);
    assert_eq!(root.proof, least);
    let sum: u64 = kids.iter().map(|&k| g.nodes[k].disproof).sum();
    assert_eq!(root.disproof, sum);
}

#[test]
fn search_graph_keeps_min_rule_and_range() {
    let (_, value, graph) = heuristic_proof_number_search(play("3323"), false);
    if value == NodeValue::Unknown {
        assert!(graph.nodes.len() > 2801);
    }
    for node in graph.nodes.iter() {
        assert!(node.proof <= INFINITY && node.disproof <= INFINITY);
        assert_eq!(node.proof == INFINITY, node.disproof == 0);
        if node.state == NodeState::Expanded {
            let kids: Vec<&Node> = node.children.iter().flatten().map(|&k| &graph.nodes[k]).collect();
            match node.node_type {
                NodeType::Or => {
                    let least = kids.iter().map(|k| k.proof).min().unwrap_or(INFINITY).min(INFINITY);
                    assert_eq!(node.proof, least);
                }
                NodeType::And => {
                    let least = kids.iter().map(|k| k.disproof).min().unwrap_or(INFINITY).min(INFINITY);
                    assert_eq!(node.disproof, least);
                }
            }
        }
    }
}

#[test]
fn play_game_takes_the_immediate_win() {
    // White holds three in column 1 and wins there.
    assert_eq!(play_game("a121210", &[]), Ok(1));
    assert_eq!(play_game("a0", &[]), Ok(4));
    assert_eq!(play_game("d0", &[]), Err(CLIError::SyntaxError));
    assert_eq!(play_game("a1", &[]), Err(CLIError::SyntaxError));
}

#[test]
fn root_proved_by_its_expansion_reports_its_move() {
    // One square left and no win: the full board counts for the attacker
    // when fighting, so the root is proved by its only child.
    let board = play(&DRAWN_GAME[..41]);
    let last = DRAWN_GAME[41..].chars().next().unwrap().to_digit(10).unwrap() as usize;
    let (best, value, graph) = heuristic_proof_number_search(board, true);
    assert_eq!(value, NodeValue::Proved);
    assert_eq!(best, Some(last));
    assert_eq!(graph.nodes.len(), 2);
    assert_eq!(heuristic_best_play(board, true), Some(last));
    let (best, value, _) = heuristic_proof_number_search(board, false);
    assert_eq!((best, value), (None, NodeValue::Disproved));
}
