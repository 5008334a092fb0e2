use reversi::board::{
    board_state, execute_cmd, execute_lower_cmd, execute_pos, flip_diagonal_pos, init_board,
    is_legal_pos, legal, legal_poss, msb, pass, rotate180_pos, Board, BLACK, WHITE,
};
use reversi::coord::{cmd_to_pos, lower_cmd_to_pos, pos_to_cmd};
use reversi::eval::{check_end_score, evaluate_board, MAX_SCORE};
use reversi::patterns::{
    pattern0_indexes, pattern1_indexes, pattern2_indexes, pattern3_indexes, pattern4_indexes,
    pattern5_indexes,
};

fn empty_board() -> Board {
    Board { black_board: 0, white_board: 0, turn: BLACK, no_legal_command: 0, value: 0, before_pos: 0 }
}

fn start() -> Board {
    let mut board = empty_board();
    init_board(&mut board);
    board
}

fn cell(cmd: &str) -> u64 {
    cmd_to_pos(cmd.to_string())
}

#[test]
fn start_position_has_four_moves_for_black() {
    let board = start();
    let mut names: Vec<String> = legal_poss(&board).iter().map(pos_to_cmd).collect();
    names.sort();
    assert_eq!(names, vec!["C4", "D3", "E6", "F5"]);
    assert_eq!(legal(board), cell("C4") | cell("D3") | cell("E6") | cell("F5"));
}

#[test]
fn legal_moves_are_listed_lowest_first() {
    assert_eq!(legal_poss(&start()), vec![1u64 << 19, 1 << 26, 1 << 37, 1 << 44]);
}

#[test]
fn legal_moves_are_empty_and_capture() {
    let board = start();
    let moves = legal(board);
    assert_eq!(moves & (board.black_board | board.white_board), 0);
    for pos in legal_poss(&board) {
        let mut copy = board;
        let after = execute_pos(&mut copy, pos);
        assert!(after.white_board.count_ones() < board.white_board.count_ones());
    }
}

#[test]
fn playing_d3_flips_one_stone() {
    let mut board = start();
    let after = execute_cmd(&mut board, "D3".to_string());
    assert_eq!(after.black_board.count_ones(), 4);
    assert_eq!(after.white_board.count_ones(), 1);
    assert_eq!(after.black_board, (1 << 19) | (1 << 27) | (1 << 28) | (1 << 35));
    assert_eq!(after.white_board, 1 << 36);
    assert_eq!(after.turn, WHITE);
    assert_eq!(after.no_legal_command, 0);
    assert_eq!(board.black_board, start().black_board | (1 << 19));
}

#[test]
fn lower_case_record_move_plays() {
    let mut board = start();
    let after = execute_lower_cmd(&mut board, "d3".to_string());
    assert_eq!(after.black_board.count_ones(), 4);
}

#[test]
fn illegal_move_leaves_position() {
    let mut board = start();
    board.value = 7;
    let before = board;
    let after = execute_pos(&mut board, cell("A1"));
    assert!(after == before);
    assert_eq!(after.black_board, before.black_board);
    assert_eq!(after.white_board, before.white_board);
    assert_eq!(after.turn, before.turn);
    assert_eq!(board.black_board, before.black_board);
    let none = execute_pos(&mut board, 0);
    assert_eq!(none.black_board, before.black_board);
    assert_eq!(none.turn, before.turn);
}

#[test]
fn equality_ignores_scratch_fields() {
    let a = start();
    let mut b = start();
    b.value = 99;
    b.before_pos = 4;
    assert!(a == b);
    b.turn = WHITE;
    assert!(a != b);
}

#[test]
fn full_board_winner_and_draw() {
    let mut board = empty_board();
    board.black_board = !0xffu64;
    board.white_board = 0xff;
    assert_eq!(board_state(&board), 1);
    assert_eq!(check_end_score(&board), Some((1, MAX_SCORE)));
    board.turn = WHITE;
    assert_eq!(check_end_score(&board), Some((1, -MAX_SCORE)));
    board.black_board = 0xffff_ffff_0000_0000;
    board.white_board = 0x0000_0000_ffff_ffff;
    assert_eq!(board_state(&board), 3);
    assert_eq!(check_end_score(&board), Some((1, 0)));
    board.black_board = 0xff;
    board.white_board = !0xffu64;
    assert_eq!(board_state(&board), 2);
}

#[test]
fn passes_end_the_game_after_two() {
    // Black on B1, White on A1: Black cannot move, White can play C1.
    let mut board = empty_board();
    board.black_board = cell("B1");
    board.white_board = cell("A1");
    assert_eq!(legal(board), 0);
    let once = pass(&board);
    assert_eq!(once.turn, WHITE);
    assert_eq!(once.no_legal_command, 1);
    assert_eq!(legal(once), cell("C1"));
    assert_eq!(board_state(&once), 0);
    assert_eq!(check_end_score(&once), None);
    let twice = pass(&once);
    assert_ne!(board_state(&twice), 0);
    assert_eq!(board_state(&twice), 3);
}

#[test]
fn ongoing_start() {
    assert_eq!(board_state(&start()), 0);
    assert_eq!(check_end_score(&start()), None);
}

#[test]
fn is_legal_pos_on_start() {
    let board = start();
    assert!(is_legal_pos(&board, &cell("D3")));
    assert!(!is_legal_pos(&board, &cell("E3")));
    assert!(!is_legal_pos(&board, &0));
}

#[test]
fn evaluation_of_start() {
    let board = start();
    assert_eq!(evaluate_board(&board), 20);
    let mut white = board;
    white.turn = WHITE;
    assert_eq!(evaluate_board(&white), 20);
}

#[test]
fn evaluation_negates_when_nobody_can_move() {
    let mut board = empty_board();
    board.black_board = cell("A1") | cell("H1");
    board.white_board = cell("H8");
    assert_eq!(legal(board), 0);
    let mut other = board;
    other.turn = WHITE;
    assert_eq!(legal(other), 0);
    assert_eq!(evaluate_board(&board), 40 - 20);
    assert_eq!(evaluate_board(&board), -evaluate_board(&other));
}

#[test]
fn evaluation_weights_after_move_48() {
    // 49 stones: corners weigh 10 and each legal move 10.
    let mut board = empty_board();
    board.black_board = (1u64 << 49) - 1;
    board.white_board = 0;
    let e = evaluate_board(&board);
    let corners = 10 * 2;
    let walls = 5 * [1, 3, 4, 5, 16, 23, 24, 31, 32, 39, 40, 47, 48].len() as i32;
    assert_eq!(e, corners + walls);
}

#[test]
fn command_round_trip_for_every_cell() {
    for k in 0..64 {
        let m = 1u64 << k;
        assert_eq!(cmd_to_pos(pos_to_cmd(&m)), m);
    }
    assert_eq!(pos_to_cmd(&0), "A9");
    assert_eq!(cmd_to_pos(pos_to_cmd(&0)), 0);
    for file in "ABCDEFGH".chars() {
        for rank in "12345678".chars() {
            let name = format!("{}{}", file, rank);
            assert_eq!(pos_to_cmd(&cmd_to_pos(name.clone())), name);
        }
    }
}

#[test]
fn commands_name_cells() {
    assert_eq!(cell("A1"), 1);
    assert_eq!(cell("D3"), 1 << 19);
    assert_eq!(cell("H8"), 1 << 63);
    assert_eq!(cell("H8\n"), 1 << 63);
    assert_eq!(pos_to_cmd(&(1 << 19)), "D3");
    assert_eq!(lower_cmd_to_pos("d3".to_string()), 1 << 19);
}

#[test]
fn malformed_commands_give_zero() {
    assert_eq!(cell(""), 0);
    assert_eq!(cell("A"), 0);
    assert_eq!(cell("I1"), 0);
    assert_eq!(cell("A9"), 0);
    assert_eq!(cell("A0"), 0);
    assert_eq!(cell("d3"), 0);
    assert_eq!(lower_cmd_to_pos("D3".to_string()), 0);
}

#[test]
fn highest_cell() {
    assert_eq!(msb(0b1011), 0b1000);
    assert_eq!(msb(0), 0);
    assert_eq!(msb(u64::MAX), 1 << 63);
}

#[test]
fn board_symmetries() {
    assert_eq!(rotate180_pos(1), 1 << 63);
    assert_eq!(rotate180_pos(cell("D3")), cell("E6"));
    assert_eq!(flip_diagonal_pos(cell("B1")), cell("A2"));
    assert_eq!(flip_diagonal_pos(cell("D3")), cell("C4"));
    assert_eq!(flip_diagonal_pos(cell("H8")), cell("H8"));
}

#[test]
fn legal_moves_follow_symmetries() {
    let mut board = start();
    let after = execute_cmd(&mut board, "D3".to_string());
    let after = {
        let mut b = after;
        execute_cmd(&mut b, "C3".to_string())
    };
    let moves = legal(after);
    let mut turned = after;
    turned.black_board = rotate180_pos(after.black_board);
    turned.white_board = rotate180_pos(after.white_board);
    assert_eq!(legal(turned), rotate180_pos(moves));
    let mut reflected = after;
    reflected.black_board = flip_diagonal_pos(after.black_board);
    reflected.white_board = flip_diagonal_pos(after.white_board);
    assert_eq!(legal(reflected), flip_diagonal_pos(moves));
    let mut both = reflected;
    both.black_board = rotate180_pos(reflected.black_board);
    both.white_board = rotate180_pos(reflected.white_board);
    assert_eq!(legal(both), rotate180_pos(flip_diagonal_pos(moves)));
}

#[test]
fn no_wrap_around_edges() {
    // White on H1, Black on A2: the run H1 -> A2 is no line.
    let mut board = empty_board();
    board.black_board = cell("A2");
    board.white_board = cell("H1");
    assert_eq!(legal(board), 0);
    board.black_board = cell("F1");
    board.white_board = cell("G1");
    assert_eq!(legal(board), cell("H1"));
}

#[test]
fn pattern_indexes_of_start() {
    let board = start();
    assert_eq!(pattern1_indexes(&board), (108, 216));
    assert_eq!(pattern4_indexes(&board), (108, 216));
    assert_eq!(pattern3_indexes(&board), (0, 0, 0, 0));
    assert_eq!(pattern0_indexes(&board), (0, 0, 0, 0));
    assert_eq!(pattern2_indexes(&board), (0, 0, 0, 0));
    assert_eq!(pattern5_indexes(&board), (0, 0, 0, 0));
}

#[test]
fn pattern_index_digits() {
    let mut board = empty_board();
    board.black_board = cell("A1");
    board.white_board = cell("B1");
    // Row A1..H1 then B2, G2: digits 2, 1, 0, ...
    assert_eq!(pattern0_indexes(&board).0, 2 * 3usize.pow(9) + 3usize.pow(8));
    assert_eq!(pattern3_indexes(&board).0, 2 * 3usize.pow(7) + 3usize.pow(6));
    assert_eq!(pattern5_indexes(&board).0, 2 * 3usize.pow(7) + 3usize.pow(6));
}
