use vstd::prelude::*;
use crate::bits::{bit, board_cells, cells, count_ones, lemma_bit_and, lemma_cells_finite};
use crate::board::{board_state, legal, state_of, Board, CORNER_BIT, WALL_BIT};
use crate::geometry::Position;

verus! {

/// The score of a won game, from the winner's side.
pub const MAX_SCORE: i32 = 10000;

/// The weight of a corner: higher while at most 48 cells are taken.
pub open spec fn corner_weight(count: int) -> int {
    if count <= 48 {
        20
    } else {
        10
    }
}

/// The weight of each legal move: lower while at most 48 cells are taken.
pub open spec fn mobility_weight(count: int) -> int {
    if count <= 48 {
        5
    } else {
        10
    }
}

/// The positional score of one side's stones: corners, and edge cells at weight 5.
pub open spec fn side_score(stones: Set<int>, count: int) -> int {
    stones.intersect(cells(CORNER_BIT)).len() * corner_weight(count) + stones.intersect(
        cells(WALL_BIT),
    ).len() * 5
}

/// The static evaluation of a position, from the side to move: its positional score
/// less the other side's, plus its number of legal moves at the mobility weight.
pub open spec fn evaluation(position: Position) -> int {
    let count = (position.black.len() + position.white.len()) as int;
    side_score(position.own(), count) - side_score(position.opp(), count)
        + position.legal_moves().len() * mobility_weight(count)
}

proof fn lemma_masked_count(x: u64, mask: u64)
    ensures
        cells(x & mask) == cells(x).intersect(cells(mask)),
        cells(x & mask).len() <= 64,
{
    assert forall|i: int| #[trigger] bit(x & mask, i) == (bit(x, i) && bit(mask, i)) by {
        lemma_bit_and(x, mask, i);
    }
    assert(cells(x & mask) =~= cells(x).intersect(cells(mask)));
    lemma_cells_finite(x & mask);
}

pub fn evaluate_board(board: &Board) -> (r: i32)
    ensures
        r == evaluation(board@),
        -MAX_SCORE < r < MAX_SCORE,
{
    let mut black_score: u32 = 0;
    let mut white_score: u32 = 0;

    let black_count = count_ones(board.black_board);
    let white_count = count_ones(board.white_board);
    proof {
        lemma_cells_finite(board.black_board);
        lemma_cells_finite(board.white_board);
    }
    let count = black_count + white_count;

    let corner_score: u32 = if count <= 48 {
        20
    } else {
        10
    };
    let black_corners = count_ones(board.black_board & CORNER_BIT);
    let white_corners = count_ones(board.white_board & CORNER_BIT);
    let black_walls = count_ones(board.black_board & WALL_BIT);
    let white_walls = count_ones(board.white_board & WALL_BIT);
    proof {
        lemma_masked_count(board.black_board, CORNER_BIT);
        lemma_masked_count(board.white_board, CORNER_BIT);
        lemma_masked_count(board.black_board, WALL_BIT);
        lemma_masked_count(board.white_board, WALL_BIT);
    }
    black_score = black_score + black_corners * corner_score;
    white_score = white_score + white_corners * corner_score;

    let wall_score: u32 = 5;
    black_score = black_score + black_walls * wall_score;
    white_score = white_score + white_walls * wall_score;

    let legal_score: u32 = if count <= 48 {
        5
    } else {
        10
    };
    let moves = legal(*board);
    let mobility = count_ones(moves);
    proof {
        lemma_cells_finite(moves);
    }
    if board.turn {
        black_score as i32 - white_score as i32 + (mobility * legal_score) as i32
    } else {
        white_score as i32 - black_score as i32 + (mobility * legal_score) as i32
    }
}

/// Every static evaluation is within the winning score.
pub proof fn lemma_evaluation_range(position: Position)
    requires
        position.on_board(),
    ensures
        -MAX_SCORE < evaluation(position) < MAX_SCORE,
{
    let count = (position.black.len() + position.white.len()) as int;
    let own = position.own();
    let opp = position.opp();
    lemma_small(own);
    lemma_small(opp);
    lemma_small(own.intersect(cells(CORNER_BIT)));
    lemma_small(opp.intersect(cells(CORNER_BIT)));
    lemma_small(own.intersect(cells(WALL_BIT)));
    lemma_small(opp.intersect(cells(WALL_BIT)));
    lemma_small(position.legal_moves());
    let (a, b, c, d, m) = (
        own.intersect(cells(CORNER_BIT)).len() as int,
        own.intersect(cells(WALL_BIT)).len() as int,
        opp.intersect(cells(CORNER_BIT)).len() as int,
        opp.intersect(cells(WALL_BIT)).len() as int,
        position.legal_moves().len() as int,
    );
    let cw = corner_weight(count);
    let mw = mobility_weight(count);
    assert(-MAX_SCORE < a * cw + b * 5 - (c * cw + d * 5) + m * mw < MAX_SCORE) by (nonlinear_arith)
        requires
            0 <= a <= 64,
            0 <= b <= 64,
            0 <= c <= 64,
            0 <= d <= 64,
            0 <= m <= 64,
            10 <= cw <= 20,
            5 <= mw <= 10,
            MAX_SCORE == 10000,
    ;
}

proof fn lemma_small(s: Set<int>)
    requires
        s.subset_of(board_cells()),
    ensures
        s.finite(),
        s.len() <= 64,
{
    vstd::set_lib::lemma_int_range(0, 64);
    vstd::set_lib::lemma_len_subset(s, board_cells());
}

/// The two evaluations of one arrangement of stones, one for each side to move,
/// differ from opposites only by the two sides' mobility. So when neither side has a
/// legal move, they are exact opposites.
pub proof fn lemma_evaluation_turn(position: Position)
    ensures
        ({
            let other = Position { turn: !position.turn, ..position };
            let count = (position.black.len() + position.white.len()) as int;
            &&& evaluation(position) + evaluation(other) == (position.legal_moves().len()
                + other.legal_moves().len()) * mobility_weight(count)
            &&& position.legal_moves().len() == 0 && other.legal_moves().len() == 0
                ==> evaluation(position) == -evaluation(other)
        }),
{
    let other = Position { turn: !position.turn, ..position };
    let count = (position.black.len() + position.white.len()) as int;
    assert(other.own() == position.opp() && other.opp() == position.own());
    assert((position.legal_moves().len() + other.legal_moves().len()) * mobility_weight(count)
        == position.legal_moves().len() * mobility_weight(count) + other.legal_moves().len()
        * mobility_weight(count)) by (nonlinear_arith);
}

/// The result of a finished game from the side to move, as (nodes, score); none
/// while the game goes on.
pub open spec fn end_score(position: Position) -> Option<(i32, i32)> {
    let state = state_of(position);
    if state == 1 {
        Some((1, if position.turn { MAX_SCORE } else { (-MAX_SCORE) as i32 }))
    } else if state == 2 {
        Some((1, if position.turn { (-MAX_SCORE) as i32 } else { MAX_SCORE }))
    } else if state == 3 {
        Some((1, 0))
    } else {
        None
    }
}

pub fn check_end_score(board: &Board) -> (r: Option<(i32, i32)>)
    ensures
        r == end_score(board@),
{
    let state = board_state(board);
    if state == 1 {
        if board.turn {
            Some((1, MAX_SCORE))
        } else {
            Some((1, -MAX_SCORE))
        }
    } else if state == 2 {
        if board.turn {
            Some((1, -MAX_SCORE))
        } else {
            Some((1, MAX_SCORE))
        }
    } else if state == 3 {
        Some((1, 0))
    } else {
        None
    }
}

} // verus!
