use reversi::board::{execute_cmd, init_board, legal, legal_poss, Board, BLACK};
use reversi::book::add_book_record;
use reversi::coord::cmd_to_pos;
use reversi::search::{
    ai_pos, alpha_beta_pos, nega_alpha_transpose_pos, nega_scout_transpose_pos, random_pos,
    thinking_millis, Strategy,
};
use reversi::table::BoardMap;
use std::time::{Duration, Instant};

fn empty_board() -> Board {
    Board { black_board: 0, white_board: 0, turn: BLACK, no_legal_command: 0, value: 0, before_pos: 0 }
}

fn start() -> Board {
    let mut board = empty_board();
    init_board(&mut board);
    board
}

fn cell(cmd: &str) -> u64 {
    cmd_to_pos(cmd.to_string())
}

/// Black on A1, White on B1: Black's only move is C1.
fn single_move() -> Board {
    let mut board = empty_board();
    board.black_board = cell("A1");
    board.white_board = cell("B1");
    board
}

fn no_move() -> Board {
    let mut board = empty_board();
    board.black_board = cell("B1");
    board.white_board = cell("A1");
    board
}

#[test]
fn random_move_is_legal() {
    let board = start();
    for _ in 0..20 {
        let pos = random_pos(&board);
        assert!(legal_poss(&board).contains(&pos));
    }
    assert_eq!(random_pos(&no_move()), 0);
}

#[test]
fn alpha_beta_move_is_legal() {
    let board = start();
    let pos = alpha_beta_pos(&board, 3);
    assert_ne!(legal(board) & pos, 0);
    assert_eq!(pos.count_ones(), 1);
    assert_eq!(alpha_beta_pos(&single_move(), 4), cell("C1"));
    assert_eq!(alpha_beta_pos(&no_move(), 4), 0);
}

#[test]
fn nega_alpha_move_is_legal() {
    let board = start();
    let pos = nega_alpha_transpose_pos(&board, 3);
    assert!(legal_poss(&board).contains(&pos));
    assert_eq!(nega_alpha_transpose_pos(&no_move(), 3), 0);
    assert_eq!(nega_alpha_transpose_pos(&single_move(), 3), cell("C1"));
}

#[test]
fn nega_scout_single_move_within_budget() {
    let budget = Duration::from_secs(2);
    let started = Instant::now();
    let pos = nega_scout_transpose_pos(&single_move(), 4, budget);
    let took = started.elapsed();
    assert_eq!(pos, cell("C1"));
    assert!(took <= budget + Duration::from_millis(100));
}

#[test]
fn nega_scout_move_is_legal() {
    let board = start();
    let pos = nega_scout_transpose_pos(&board, 4, Duration::from_secs(5));
    assert!(legal_poss(&board).contains(&pos));
    assert_eq!(nega_scout_transpose_pos(&no_move(), 4, Duration::from_secs(1)), 0);
}

#[test]
fn nega_scout_with_no_time_still_moves() {
    let board = start();
    let pos = nega_scout_transpose_pos(&board, 6, Duration::from_millis(0));
    assert!(legal_poss(&board).contains(&pos));
}

#[test]
fn strategy_names() {
    assert!(Strategy::from_name("rn") == Strategy::Random);
    assert!(Strategy::from_name("ab") == Strategy::AlphaBeta);
    assert!(Strategy::from_name("na") == Strategy::NegaAlpha);
    assert!(Strategy::from_name("ns") == Strategy::NegaScout);
    assert!(Strategy::from_name("") == Strategy::NegaScout);
}

#[test]
fn ai_moves_are_legal() {
    let book: BoardMap<u64> = BoardMap::new();
    for strategy in [Strategy::Random, Strategy::NegaAlpha, Strategy::NegaScout] {
        let mut board = start();
        let (pos, _) = ai_pos(&mut board, 3, strategy, &book, 60_000);
        assert!(legal_poss(&board).contains(&pos));
        assert!(board == start());
    }
}

#[test]
fn ai_plays_from_the_book() {
    let mut book: BoardMap<u64> = BoardMap::new();
    add_book_record(&mut book, "F5D6");
    let mut board = start();
    let mut after = execute_cmd(&mut board, "F5".to_string());
    let (pos, _) = ai_pos(&mut after, 3, Strategy::NegaScout, &book, 60_000);
    assert_eq!(pos, cell("D6"));
    // The same opening turned half a circle: C4 answered by E3.
    let mut board = start();
    let mut turned = execute_cmd(&mut board, "C4".to_string());
    let (pos, _) = ai_pos(&mut turned, 3, Strategy::NegaScout, &book, 60_000);
    assert_eq!(pos, cell("E3"));
    // Reflected in the diagonal: E6 answered by F4.
    let mut board = start();
    let mut reflected = execute_cmd(&mut board, "E6".to_string());
    let (pos, _) = ai_pos(&mut reflected, 3, Strategy::NegaScout, &book, 60_000);
    assert_eq!(pos, cell("F4"));
}

#[test]
fn book_entries_ignore_other_strategies_and_short_records() {
    let mut book: BoardMap<u64> = BoardMap::new();
    add_book_record(&mut book, "F");
    assert!(book.get(&start()).is_none());
    // The opening position looks the same in all four orientations, so the last
    // one written stays: F5 reflected and turned is D3.
    add_book_record(&mut book, "F5");
    assert_eq!(book.get(&start()), Some(cell("D3")));
}

#[test]
fn board_map_keys_by_position() {
    let mut table: BoardMap<i32> = BoardMap::new();
    let board = start();
    table.insert(board, 5);
    let mut same = board;
    same.value = 3;
    same.no_legal_command = 1;
    assert_eq!(table.get(&same), Some(5));
    let mut other = board;
    other.turn = !board.turn;
    assert_eq!(table.get(&other), None);
    let copy = table.snapshot();
    table.clear();
    assert_eq!(table.get(&board), None);
    assert_eq!(copy.get(&board), Some(5));
}

#[test]
fn thinking_time_shares() {
    // Opening: an eighth of an even share over the 60 empty cells.
    assert_eq!(thinking_millis(60_000, 4), 125);
    // Midgame: an even share over half of the 24 moves left, plus one.
    assert_eq!(thinking_millis(60_000, 40), 60_000 / 13);
    // A full board, or one whose colours overlap, gets the whole clock.
    assert_eq!(thinking_millis(60_000, 64), 60_000);
    assert_eq!(thinking_millis(60_000, 70), 60_000);
}

#[test]
fn searches_agree_on_a_forced_win() {
    // Black on A1 and H8, White on B1 only: C1 takes White's last stone.
    let mut board = empty_board();
    board.black_board = cell("A1") | cell("H8");
    board.white_board = cell("B1");
    assert_eq!(legal(board), cell("C1"));
    assert_eq!(nega_alpha_transpose_pos(&board, 4), cell("C1"));
    assert_eq!(nega_scout_transpose_pos(&board, 4, Duration::from_secs(2)), cell("C1"));
    assert_eq!(alpha_beta_pos(&board, 4), cell("C1"));
}
