use vstd::prelude::*;
use crate::bits::{bit, cells, count_ones, lemma_cells_finite, reverse_bits, lemma_bit_and, lemma_bit_not, lemma_bit_or, lemma_bit_shl, lemma_bit_shr, lemma_nonzero};
use crate::coord::{cmd_to_pos, lower_cmd_to_pos, pos_of_command};
use crate::geometry::{between, captures, enclosed, legal_at, lemma_step, run, step, Position};

verus! {

pub const BLACK: bool = true;

pub const WHITE: bool = false;

/// Cells per row and per column.
pub const CELL: u32 = 8;

/// The four corners.
pub const CORNER_BIT: u64 = 1 | 1 << 7 | 1 << 56 | 1 << 63;

/// The edge cells that count for the static evaluation: neither the corners nor
/// the cells next to them along an edge.
pub const WALL_BIT: u64 = 1 << 1 | 1 << 3 | 1 << 4 | 1 << 5 | 1 << 16 | 1 << 23 | 1 << 24 | 1
    << 31 | 1 << 32 | 1 << 39 | 1 << 40 | 1 << 47 | 1 << 48 | 1 << 55 | 1 << 58 | 1 << 59 | 1
    << 60 | 1 << 61;

/// A game position on two bitboards, one per colour.
///
/// `value` and `before_pos` are scratch fields for move ordering: the score of the
/// position and the move that led to it. Equality ignores them, and the pass counter.
#[derive(Clone, Copy)]
pub struct Board {
    pub black_board: u64,
    pub white_board: u64,
    /// Black is to move.
    pub turn: bool,
    /// How many times in a row a side has passed.
    pub no_legal_command: i32,
    pub value: i32,
    pub before_pos: u64,
}

impl View for Board {
    type V = Position;

    open spec fn view(&self) -> Position {
        Position {
            black: cells(self.black_board),
            white: cells(self.white_board),
            turn: self.turn,
            passes: self.no_legal_command as int,
        }
    }
}

/// The stones of any board stand on the board.
pub proof fn lemma_board_on_board(board: Board)
    ensures
        board@.on_board(),
{
    lemma_cells_finite(board.black_board);
    lemma_cells_finite(board.white_board);
}

impl Board {
    /// The bitboard of the side to move.
    pub open spec fn own_bits(self) -> u64 {
        if self.turn {
            self.black_board
        } else {
            self.white_board
        }
    }

    /// The bitboard of the side not to move.
    pub open spec fn opp_bits(self) -> u64 {
        if self.turn {
            self.white_board
        } else {
            self.black_board
        }
    }

    /// Two boards are equal when stones and side to move agree.
    pub open spec fn same_position(self, other: Board) -> bool {
        self.black_board == other.black_board && self.white_board == other.white_board
            && self.turn == other.turn
    }
}

impl PartialEq for Board {
    fn eq(&self, other: &Self) -> (r: bool)
        ensures
            r == self.same_position(*other),
    {
        self.black_board == other.black_board && self.white_board == other.white_board
            && self.turn == other.turn
    }
}

impl vstd::std_specs::cmp::PartialEqSpecImpl for Board {
    open spec fn obeys_eq_spec() -> bool {
        true
    }

    open spec fn eq_spec(&self, other: &Board) -> bool {
        self.same_position(*other)
    }
}

impl Eq for Board {

}

/// One of the four lines through a cell.
pub enum LineDirection {
    Vertical,
    Horizontal,
    Diagonal1,
    Diagonal2,
}

/// A shift that moves a cell one step along a line.
pub open spec fn is_shift(n: u32) -> bool {
    n == 1 || n == 7 || n == 8 || n == 9
}

/// The row step of the direction walked toward lower cells (`left`) or higher ones,
/// along the line of shift `n`.
pub open spec fn walk_dr(n: u32, left: bool) -> int {
    if n == 1 {
        0
    } else if left {
        -1
    } else {
        1
    }
}

/// The column step of that direction.
pub open spec fn walk_dc(n: u32, left: bool) -> int {
    if n == 8 {
        0
    } else if (n == 7) == left {
        1
    } else {
        -1
    }
}

/// Cell `p` has a neighbour on both sides along the line of shift `n`.
pub open spec fn interior(n: u32, p: int) -> bool {
    &&& 0 <= p < 64
    &&& (n != 8 ==> 1 <= p % 8 <= 6)
    &&& (n != 1 ==> 1 <= p / 8 <= 6)
}

/// The cells with a neighbour on both sides along the line of shift `n`.
pub open spec fn interior_mask(n: u32) -> u64 {
    if n == 1 {
        0x7e7e7e7e7e7e7e7e
    } else if n == 8 {
        0x00ffffffffffff00
    } else {
        0x007e7e7e7e7e7e00
    }
}

impl LineDirection {
    pub open spec fn shift(self) -> u32 {
        match self {
            LineDirection::Vertical => 8,
            LineDirection::Horizontal => 1,
            LineDirection::Diagonal1 => 9,
            LineDirection::Diagonal2 => 7,
        }
    }

    /// The mask of cells that may lie inside a run along this line, and the shift
    /// that moves one step along it.
    fn consts(self) -> (r: (u64, u32))
        ensures
            r.1 == self.shift(),
            r.0 == interior_mask(r.1),
    {
        match self {
            Self::Vertical => (0x00ffffffffffff00, 8),
            Self::Horizontal => (0x7e7e7e7e7e7e7e7e, 1),
            Self::Diagonal1 => (0x007e7e7e7e7e7e00, 9),
            Self::Diagonal2 => (0x007e7e7e7e7e7e00, 7),
        }
    }
}

proof fn lemma_mask_rows_raw(p: u64)
    by (bit_vector)
    requires
        p < 64,
    ensures
        (0x00ffffffffffff00u64 >> p) & 1u64 == 1u64 <==> (8 <= p && p < 56),
{
}

proof fn lemma_mask_cols_raw(p: u64)
    by (bit_vector)
    requires
        p < 64,
    ensures
        (0x7e7e7e7e7e7e7e7eu64 >> p) & 1u64 == 1u64 <==> (1 <= p % 8 && p % 8 <= 6),
{
}

proof fn lemma_mask_inner_raw(p: u64)
    by (bit_vector)
    requires
        p < 64,
    ensures
        (0x007e7e7e7e7e7e00u64 >> p) & 1u64 == 1u64 <==> (8 <= p && p < 56 && 1 <= p % 8 && p
            % 8 <= 6),
{
}

/// The mask of a line holds exactly its interior cells.
proof fn lemma_interior_mask(n: u32, p: int)
    requires
        is_shift(n),
    ensures
        bit(interior_mask(n), p) == interior(n, p),
{
    if 0 <= p < 64 {
        if n == 1 {
            lemma_mask_cols_raw(p as u64);
        } else if n == 8 {
            lemma_mask_rows_raw(p as u64);
        } else {
            lemma_mask_inner_raw(p as u64);
        }
    }
}

/// A step from an interior cell moves by the shift.
proof fn lemma_interior_step(n: u32, left: bool, p: int)
    requires
        is_shift(n),
        interior(n, p),
    ensures
        step(p, walk_dr(n, left), walk_dc(n, left)) == if left {
            p - n
        } else {
            p + n
        },
        walk_dr(n, !left) == -walk_dr(n, left),
        walk_dc(n, !left) == -walk_dc(n, left),
{
}

/// A cell with neighbours on both sides along a line is interior to it.
proof fn lemma_both_neighbours(n: u32, left: bool, p: int)
    requires
        is_shift(n),
        0 <= p < 64,
        step(p, walk_dr(n, left), walk_dc(n, left)) != -1,
        step(p, -walk_dr(n, left), -walk_dc(n, left)) != -1,
    ensures
        interior(n, p),
{
}

proof fn lemma_run_longer(src: Set<int>, data: Set<int>, p: int, dr: int, dc: int, t: nat)
    ensures
        run(src, data, p, dr, dc, t) ==> run(src, data, p, dr, dc, t + 1),
    decreases t,
{
    if t > 0 {
        lemma_run_longer(src, data, step(p, dr, dc), dr, dc, (t - 1) as nat);
    }
}

/// A run over fewer cells is a run over more.
proof fn lemma_run_data(
    src: Set<int>,
    small: Set<int>,
    large: Set<int>,
    p: int,
    dr: int,
    dc: int,
    t: nat,
)
    requires
        small.subset_of(large),
    ensures
        run(src, small, p, dr, dc, t) ==> run(src, large, p, dr, dc, t),
    decreases t,
{
    if t > 0 {
        lemma_run_data(src, small, large, step(p, dr, dc), dr, dc, (t - 1) as nat);
    }
}

/// A run that a cell of the board precedes lies inside the line, so masking the
/// edges off the run's cells does not change it.
proof fn lemma_run_masked(
    src: Set<int>,
    opp: Set<int>,
    data: Set<int>,
    n: u32,
    left: bool,
    p: int,
    t: nat,
)
    requires
        is_shift(n),
        forall|x: int| src.contains(x) ==> 0 <= x < 64,
        forall|x: int| opp.contains(x) ==> 0 <= x < 64,
        forall|x: int| data.contains(x) <==> opp.contains(x) && interior(n, x),
        run(src, opp, p, walk_dr(n, left), walk_dc(n, left), t),
        step(p, -walk_dr(n, left), -walk_dc(n, left)) != -1,
    ensures
        run(src, data, p, walk_dr(n, left), walk_dc(n, left), t),
    decreases t,
{
    let dr = walk_dr(n, left);
    let dc = walk_dc(n, left);
    let q = step(p, dr, dc);
    assert(t > 0 && opp.contains(p));
    if !src.contains(q) {
        assert(run(src, opp, q, dr, dc, (t - 1) as nat));
        assert(opp.contains(q));
    }
    lemma_step(p, dr, dc);
    lemma_both_neighbours(n, left, p);
    if !src.contains(q) {
        lemma_step(q, dr, dc);
        lemma_run_masked(src, opp, data, n, left, q, (t - 1) as nat);
    }
}

/// One bit of the shifted fill: the run of `data` from `p` toward lower or higher cells.
fn line(start: u64, data: u64, n: u32, left: bool) -> (r: u64)
    requires
        is_shift(n),
        forall|p: int| bit(data, p) ==> interior(n, p),
    ensures
        forall|p: int|
            #[trigger] bit(r, p) == run(
                cells(start),
                cells(data),
                p,
                walk_dr(n, left),
                walk_dc(n, left),
                6,
            ),
{
    let ghost src = cells(start);
    let ghost d = cells(data);
    let ghost dr = walk_dr(n, left);
    let ghost dc = walk_dc(n, left);
    let first = if left {
        shl(start, n)
    } else {
        shr(start, n)
    };
    let mut result = data & first;
    assert forall|p: int| #[trigger] bit(result, p) == run(src, d, p, dr, dc, 1) by {
        lemma_bit_and(data, first, p);
        lemma_bit_shl(start, n as u64, p);
        lemma_bit_shr(start, n as u64, p);
        if bit(data, p) {
            lemma_interior_step(n, left, p);
            assert(!run(src, d, step(p, dr, dc), dr, dc, 0));
        }
    }
    let mut t: u32 = 1;
    while t < 6
        invariant
            1 <= t <= 6,
            is_shift(n),
            forall|p: int| bit(data, p) ==> interior(n, p),
            src == cells(start),
            d == cells(data),
            dr == walk_dr(n, left),
            dc == walk_dc(n, left),
            forall|p: int| #[trigger] bit(result, p) == run(src, d, p, dr, dc, t as nat),
        decreases 6 - t,
    {
        let shifted = if left {
            shl(result, n)
        } else {
            shr(result, n)
        };
        let next = result | (data & shifted);
        assert forall|p: int| #[trigger] bit(next, p) == run(src, d, p, dr, dc, (t + 1) as nat) by {
            lemma_bit_or(result, data & shifted, p);
            lemma_bit_and(data, shifted, p);
            lemma_bit_shl(result, n as u64, p);
            lemma_bit_shr(result, n as u64, p);
            if bit(data, p) {
                lemma_interior_step(n, left, p);
                let q = step(p, dr, dc);
                lemma_run_longer(src, d, q, dr, dc, (t - 1) as nat);
                assert(bit(result, q) == run(src, d, q, dr, dc, t as nat));
            }
        }
        result = next;
        t = t + 1;
    }
    result
}

/// A run ends on the board and its next cell is on the board.
proof fn lemma_run_bounds(src: Set<int>, data: Set<int>, p: int, dr: int, dc: int, t: nat)
    requires
        forall|x: int| src.contains(x) ==> 0 <= x < 64,
        forall|x: int| data.contains(x) ==> 0 <= x < 64,
        run(src, data, p, dr, dc, t),
    ensures
        0 <= p < 64,
        step(p, dr, dc) != -1,
{
    let q = step(p, dr, dc);
    if !src.contains(q) {
        assert(run(src, data, q, dr, dc, (t - 1) as nat));
        assert(data.contains(q));
    }
}

/// The fill of a line, read one step further on, finds the captures in one direction.
proof fn lemma_line_captures(own: Set<int>, opp: Set<int>, data: Set<int>, n: u32, left: bool, i: int)
    requires
        is_shift(n),
        0 <= i < 64,
        forall|x: int| own.contains(x) ==> 0 <= x < 64,
        forall|x: int| opp.contains(x) ==> 0 <= x < 64,
        forall|x: int| data.contains(x) <==> opp.contains(x) && interior(n, x),
    ensures
        run(own, data, if left { i - n } else { i + n }, walk_dr(n, left), walk_dc(n, left), 6)
            == captures(own, opp, i, walk_dr(n, left), walk_dc(n, left)),
{
    let dr = walk_dr(n, left);
    let dc = walk_dc(n, left);
    let q = if left {
        i - n
    } else {
        i + n
    };
    lemma_step(i, dr, dc);
    if run(own, data, q, dr, dc, 6) {
        assert(data.contains(q));
        lemma_interior_step(n, !left, q);
        lemma_step(q, -dr, -dc);
        lemma_run_data(own, data, opp, q, dr, dc, 6);
    }
    if captures(own, opp, i, dr, dc) {
        let s = step(i, dr, dc);
        assert(opp.contains(s));
        lemma_run_masked(own, opp, data, n, left, q, 6);
    }
}

/// Where a run of the masked line meets a run the other way, masking changes nothing.
proof fn lemma_line_between(
    own: Set<int>,
    opp: Set<int>,
    from: Set<int>,
    data: Set<int>,
    n: u32,
    left: bool,
    p: int,
)
    requires
        is_shift(n),
        forall|x: int| own.contains(x) ==> 0 <= x < 64,
        forall|x: int| opp.contains(x) ==> 0 <= x < 64,
        forall|x: int| from.contains(x) ==> 0 <= x < 64,
        forall|x: int| data.contains(x) <==> opp.contains(x) && interior(n, x),
    ensures
        (run(from, data, p, walk_dr(n, left), walk_dc(n, left), 6) && run(
            own,
            data,
            p,
            walk_dr(n, !left),
            walk_dc(n, !left),
            6,
        )) == between(own, opp, from, p, walk_dr(n, !left), walk_dc(n, !left)),
{
    let dr = walk_dr(n, left);
    let dc = walk_dc(n, left);
    assert(walk_dr(n, !left) == -dr && walk_dc(n, !left) == -dc);
    assert(data.subset_of(opp));
    lemma_run_data(from, data, opp, p, dr, dc, 6);
    lemma_run_data(own, data, opp, p, -dr, -dc, 6);
    if between(own, opp, from, p, -dr, -dc) {
        lemma_run_bounds(from, opp, p, dr, dc, 6);
        lemma_run_bounds(own, opp, p, -dr, -dc, 6);
        lemma_run_masked(from, opp, data, n, left, p, 6);
        lemma_run_masked(own, opp, data, n, !left, p, 6);
    }
}

/// The cells from which the side with stones `own` encloses stones of `opp` along
/// one line, in either direction.
fn legal_line(own: u64, opp: u64, direction: LineDirection) -> (r: u64)
    ensures
        forall|i: int|
            0 <= i < 64 ==> (#[trigger] bit(r, i) == (captures(
                cells(own),
                cells(opp),
                i,
                walk_dr(direction.shift(), true),
                walk_dc(direction.shift(), true),
            ) || captures(
                cells(own),
                cells(opp),
                i,
                walk_dr(direction.shift(), false),
                walk_dc(direction.shift(), false),
            ))),
{
    let consts = direction.consts();
    let n = consts.1;
    let mask = opp & consts.0;
    proof {
        assert forall|p: int| bit(mask, p) <==> bit(opp, p) && interior(n, p) by {
            lemma_bit_and(opp, consts.0, p);
            lemma_interior_mask(n, p);
        }
    }
    let lower = line(own, mask, n, true);
    let higher = line(own, mask, n, false);
    let r = shl(lower, n) | shr(higher, n);
    proof {
        assert forall|i: int| 0 <= i < 64 implies (#[trigger] bit(r, i) == (captures(
            cells(own),
            cells(opp),
            i,
            walk_dr(n, true),
            walk_dc(n, true),
        ) || captures(cells(own), cells(opp), i, walk_dr(n, false), walk_dc(n, false)))) by {
            lemma_bit_or(lower << (n as u64), higher >> (n as u64), i);
            lemma_bit_shl(lower, n as u64, i);
            lemma_bit_shr(higher, n as u64, i);
            lemma_line_captures(cells(own), cells(opp), cells(mask), n, true, i);
            lemma_line_captures(cells(own), cells(opp), cells(mask), n, false, i);
        }
    }
    r
}

/// The set of legal moves of the side to move, one bit per cell.
pub fn legal(board: Board) -> (r: u64)
    ensures
        cells(r) == board@.legal_moves(),
{
    let own = if board.turn {
        board.black_board
    } else {
        board.white_board
    };
    let opp = if board.turn {
        board.white_board
    } else {
        board.black_board
    };
    let mut result: u64 = 0;
    let v = legal_line(own, opp, LineDirection::Vertical);
    let h = legal_line(own, opp, LineDirection::Horizontal);
    let d1 = legal_line(own, opp, LineDirection::Diagonal1);
    let d2 = legal_line(own, opp, LineDirection::Diagonal2);
    result = result | v;
    result = result | h;
    result = result | d1;
    result = result | d2;
    let occupied = board.black_board | board.white_board;
    let r = result & !occupied;
    proof {
        assert forall|i: int| #[trigger] bit(r, i) == legal_at(cells(own), cells(opp), i) by {
            lemma_bit_and(result, !occupied, i);
            lemma_bit_not(occupied, i);
            lemma_bit_or(board.black_board, board.white_board, i);
            lemma_bit_or(0u64 | v | h | d1, d2, i);
            lemma_bit_or(0u64 | v | h, d1, i);
            lemma_bit_or(0u64 | v, h, i);
            lemma_bit_or(0u64, v, i);
            crate::bits::lemma_bit_zero(i);
        }
        assert(cells(r) =~= board@.legal_moves());
    }
    r
}

/// The stones of `opp` enclosed along one line between a cell of `pos` and a stone of `own`.
fn reverse_line(own: u64, opp: u64, pos: u64, direction: LineDirection) -> (r: u64)
    ensures
        forall|p: int|
            #[trigger] bit(r, p) == (between(
                cells(own),
                cells(opp),
                cells(pos),
                p,
                walk_dr(direction.shift(), true),
                walk_dc(direction.shift(), true),
            ) || between(
                cells(own),
                cells(opp),
                cells(pos),
                p,
                walk_dr(direction.shift(), false),
                walk_dc(direction.shift(), false),
            )),
{
    let consts = direction.consts();
    let n = consts.1;
    let mask = opp & consts.0;
    proof {
        assert forall|p: int| bit(mask, p) <==> bit(opp, p) && interior(n, p) by {
            lemma_bit_and(opp, consts.0, p);
            lemma_interior_mask(n, p);
        }
    }
    let from_lower = line(pos, mask, n, true);
    let own_higher = line(own, mask, n, false);
    let from_higher = line(pos, mask, n, false);
    let own_lower = line(own, mask, n, true);
    let r = (from_lower & own_higher) | (from_higher & own_lower);
    proof {
        assert forall|p: int|
            #[trigger] bit(r, p) == (between(
                cells(own),
                cells(opp),
                cells(pos),
                p,
                walk_dr(n, true),
                walk_dc(n, true),
            ) || between(
                cells(own),
                cells(opp),
                cells(pos),
                p,
                walk_dr(n, false),
                walk_dc(n, false),
            )) by {
            lemma_bit_or(from_lower & own_higher, from_higher & own_lower, p);
            lemma_bit_and(from_lower, own_higher, p);
            lemma_bit_and(from_higher, own_lower, p);
            lemma_line_between(cells(own), cells(opp), cells(pos), cells(mask), n, true, p);
            lemma_line_between(cells(own), cells(opp), cells(pos), cells(mask), n, false, p);
        }
    }
    r
}

/// The stones of the side not to move that are enclosed between a cell of `pos`
/// and a stone of the side to move.
fn reverse(board: Board, pos: u64) -> (r: u64)
    ensures
        cells(r) == Set::new(
            |p: int| enclosed(cells(board.own_bits()), cells(board.opp_bits()), cells(pos), p),
        ),
{
    let own = if board.turn {
        board.black_board
    } else {
        board.white_board
    };
    let opp = if board.turn {
        board.white_board
    } else {
        board.black_board
    };
    let mut result: u64 = 0;
    let v = reverse_line(own, opp, pos, LineDirection::Vertical);
    let h = reverse_line(own, opp, pos, LineDirection::Horizontal);
    let d1 = reverse_line(own, opp, pos, LineDirection::Diagonal1);
    let d2 = reverse_line(own, opp, pos, LineDirection::Diagonal2);
    result = result | v;
    result = result | h;
    result = result | d1;
    result = result | d2;
    proof {
        assert forall|p: int| #[trigger]
            bit(result, p) == enclosed(cells(own), cells(opp), cells(pos), p) by {
            lemma_bit_or(0u64 | v | h | d1, d2, p);
            lemma_bit_or(0u64 | v | h, d1, p);
            lemma_bit_or(0u64 | v, h, p);
            lemma_bit_or(0u64, v, p);
            crate::bits::lemma_bit_zero(p);
        }
        assert(cells(result) =~= Set::new(
            |p: int| enclosed(cells(board.own_bits()), cells(board.opp_bits()), cells(pos), p),
        ));
    }
    result
}

/// Turns over the stones that a stone of the side to move on `pos` encloses.
fn flip(board: &Board, pos: &u64) -> (r: Board)
    ensures
        ({
            let f = Set::new(
                |p: int| enclosed(cells(board.own_bits()), cells(board.opp_bits()), cells(*pos), p),
            );
            &&& cells(r.own_bits()) == cells(board.own_bits()).union(f)
            &&& cells(r.opp_bits()) == cells(board.opp_bits()).difference(f)
        }),
        r.turn == board.turn,
        r.no_legal_command == board.no_legal_command,
        r.value == board.value,
        r.before_pos == board.before_pos,
{
    let reversed_pos = reverse(*board, *pos);
    let mut new_board = *board;
    if new_board.turn {
        new_board.black_board = new_board.black_board | reversed_pos;
        new_board.white_board = new_board.white_board & !reversed_pos;
    } else {
        new_board.white_board = new_board.white_board | reversed_pos;
        new_board.black_board = new_board.black_board & !reversed_pos;
    }
    proof {
        let own = board.own_bits();
        let opp = board.opp_bits();
        assert forall|p: int|
            #[trigger] bit(own | reversed_pos, p) == (bit(own, p) || bit(reversed_pos, p)) by {
            lemma_bit_or(own, reversed_pos, p);
        }
        assert forall|p: int|
            #[trigger] bit(opp & !reversed_pos, p) == (bit(opp, p) && !bit(reversed_pos, p)) by {
            lemma_bit_and(opp, !reversed_pos, p);
            lemma_bit_not(reversed_pos, p);
        }
        assert(cells(new_board.own_bits()) =~= cells(own).union(cells(reversed_pos)));
        assert(cells(new_board.opp_bits()) =~= cells(opp).difference(cells(reversed_pos)));
    }
    new_board
}

/// Whether `pos` holds a legal move of the side to move.
pub open spec fn accepts(position: Position, pos: u64) -> bool {
    exists|i: int| bit(pos, i) && position.legal_moves().contains(i)
}

/// Whether some cell of `pos` is a legal move for the side to move.
pub fn is_legal_pos(board: &Board, pos: &u64) -> (r: bool)
    ensures
        r == accepts(board@, *pos),
{
    let legal_pos = legal(*board);
    proof {
        lemma_nonzero(legal_pos & *pos);
        if accepts(board@, *pos) {
            let i = choose|i: int| bit(*pos, i) && board@.legal_moves().contains(i);
            lemma_bit_and(legal_pos, *pos, i);
        }
        if legal_pos & *pos != 0 {
            let i = choose|i: int| bit(legal_pos & *pos, i);
            lemma_bit_and(legal_pos, *pos, i);
        }
    }
    if (legal_pos & *pos) == 0 {
        false
    } else {
        true
    }
}

/// What playing `pos` on `before` gives: the returned board `r`, and `after`, the
/// board that was played on.
///
/// On a legal move the stone is placed, the enclosed stones turn over, the pass
/// counter restarts and the turn passes; `after` is left with the stone placed and
/// the counter reset. An illegal move, or none, leaves both as they were.
pub open spec fn executed(before: Board, pos: u64, r: Board, after: Board) -> bool {
    if accepts(before@, pos) {
        &&& r@ == before@.play(cells(pos))
        &&& r.value == before.value
        &&& r.before_pos == before.before_pos
        &&& after.own_bits() == before.own_bits() | pos
        &&& after.opp_bits() == before.opp_bits()
        &&& after.turn == before.turn
        &&& after.no_legal_command == 0
        &&& after.value == before.value
        &&& after.before_pos == before.before_pos
    } else {
        r == before && after == before
    }
}

/// Plays `pos` for the side to move, when it is a legal move.
///
/// On a legal move the stone is placed, the enclosed stones turn over, the pass
/// counter restarts and the turn passes; `board` is left with the stone placed and
/// the counter reset. An illegal move, or none, leaves both unchanged.
pub fn execute_pos(board: &mut Board, pos: u64) -> (r: Board)
    ensures
        executed(*old(board), pos, r, *final(board)),
{
    if pos == 0 || !is_legal_pos(board, &pos) {
        proof {
            if pos == 0 {
                crate::bits::lemma_nonzero(pos);
            }
        }
        return *board;
    }
    let ghost before = *board;
    if board.turn {
        board.black_board = board.black_board | pos;
    } else {
        board.white_board = board.white_board | pos;
    }
    board.no_legal_command = 0;
    let mut new_board = flip(board, &pos);
    new_board.turn = !new_board.turn;
    proof {
        let own = before.own_bits();
        assert forall|p: int| #[trigger] bit(own | pos, p) == (bit(own, p) || bit(pos, p)) by {
            lemma_bit_or(own, pos, p);
        }
        assert(cells(board.own_bits()) =~= before@.own().union(cells(pos)));
        assert(cells(board.opp_bits()) == before@.opp());
        let f = before@.flips(cells(pos));
        assert(f =~= Set::new(
            |p: int| enclosed(cells(board.own_bits()), cells(board.opp_bits()), cells(pos), p),
        ));
        let expected = before@.play(cells(pos));
        assert(new_board@.black =~= expected.black);
        assert(new_board@.white =~= expected.white);
    }
    new_board
}

/// The position after the side to move passes: the turn changes hands and the
/// pass counter goes up by one.
pub fn pass(board: &Board) -> (r: Board)
    requires
        board.no_legal_command < i32::MAX,
    ensures
        r@ == board@.pass(),
        r.value == board.value,
        r.before_pos == board.before_pos,
{
    let mut passed = *board;
    passed.turn = !passed.turn;
    passed.no_legal_command = passed.no_legal_command + 1;
    passed
}

/// Plays a move written as a command such as "D3".
pub fn execute_cmd(board: &mut Board, cmd: String) -> (r: Board)
    ensures
        executed(*old(board), pos_of_command(cmd@, 'A'), r, *final(board)),
{
    execute_pos(board, cmd_to_pos(cmd))
}

/// Plays a move written as in game records, such as "d3".
pub fn execute_lower_cmd(board: &mut Board, cmd: String) -> (r: Board)
    ensures
        executed(*old(board), pos_of_command(cmd@, 'a'), r, *final(board)),
{
    execute_pos(board, lower_cmd_to_pos(cmd))
}

/// Sets up the opening position: two stones of each colour in the centre, Black to move.
pub fn init_board(board: &mut Board)
    ensures
        final(board).black_board == (1u64 << 28u64 | 1u64 << 35u64),
        final(board).white_board == (1u64 << 27u64 | 1u64 << 36u64),
        final(board).turn == BLACK,
        final(board).no_legal_command == 0,
        final(board).value == 0,
        final(board).before_pos == 0,
{
    board.black_board = 1 << 28 | 1 << 35;
    board.white_board = 1 << 27 | 1 << 36;
    board.turn = BLACK;
    board.no_legal_command = 0;
    board.value = 0;
    board.before_pos = 0;
}

/// The state of the game: 0 while it goes on, then 1 when Black has more stones,
/// 2 when White has, 3 on a draw. It ends when the board is full or after two
/// passes in a row.
pub open spec fn state_of(position: Position) -> i32 {
    let b = position.black.len();
    let w = position.white.len();
    if b + w < 64 && position.passes < 2 {
        0
    } else if b > w {
        1
    } else if b < w {
        2
    } else {
        3
    }
}

pub fn board_state(board: &Board) -> (r: i32)
    ensures
        r == state_of(board@),
{
    let black_num = count_ones(board.black_board);
    let white_num = count_ones(board.white_board);
    proof {
        lemma_cells_finite(board.black_board);
        lemma_cells_finite(board.white_board);
    }
    if black_num + white_num < CELL * CELL && board.no_legal_command < 2 {
        0
    } else if black_num > white_num {
        1
    } else if black_num < white_num {
        2
    } else {
        3
    }
}

/// The single-cell bitboards of the cells below `k` that are legal moves, lowest first.
pub open spec fn moves_below(position: Position, k: int) -> Seq<u64>
    decreases k,
{
    if k <= 0 {
        Seq::empty()
    } else if position.legal_moves().contains(k - 1) {
        moves_below(position, k - 1).push(1u64 << ((k - 1) as u64))
    } else {
        moves_below(position, k - 1)
    }
}

/// The legal moves of the side to move, one single-cell bitboard each, lowest cell first.
pub open spec fn moves(position: Position) -> Seq<u64> {
    moves_below(position, 64)
}

pub fn legal_poss(board: &Board) -> (r: Vec<u64>)
    ensures
        r@ == moves(board@),
{
    let mut legal_poss_vec: Vec<u64> = Vec::new();
    let mut i: u64 = 0;
    while i < 64
        invariant
            i <= 64,
            legal_poss_vec@ == moves_below(board@, i as int),
        decreases 64 - i,
    {
        let pos: u64 = 1 << i;
        let ok = is_legal_pos(board, &pos);
        proof {
            assert forall|j: int| #[trigger] bit(pos, j) == (j == i) by {
                crate::bits::lemma_bit_single(i, j);
            }
            if board@.legal_moves().contains(i as int) {
                assert(bit(pos, i as int));
            }
            assert(ok == board@.legal_moves().contains(i as int));
        }
        if ok {
            legal_poss_vec.push(pos);
        }
        i = i + 1;
    }
    legal_poss_vec
}

proof fn lemma_msb_raw(pos: u64, i: u64)
    by (bit_vector)
    requires
        i < 64,
    ensures
        ({
            let mut c1 = pos | pos >> 1u64;
            let c2 = c1 | c1 >> 2u64;
            let c3 = c2 | c2 >> 4u64;
            let c4 = c3 | c3 >> 8u64;
            let c5 = c4 | c4 >> 16u64;
            let c6 = c5 | c5 >> 32u64;
            let r = c6 & !(c6 >> 1u64);
            &&& pos != 0 ==> r != 0 && (pos & !r) < pos
            &&& pos == 0 ==> r == 0
            &&& (r >> i) & 1u64 == 1u64 <==> ((pos >> i) & 1u64 == 1u64 && (i == 63 || pos >> (i
                + 1) as u64 == 0u64))
        }),
{
}

proof fn lemma_above_raw(pos: u64, k: u64, j: u64)
    by (bit_vector)
    requires
        k < j < 64,
        pos >> (k + 1) as u64 == 0u64,
    ensures
        (pos >> j) & 1u64 == 0u64,
{
}

/// The highest cell of `pos` alone, or 0 when `pos` is empty.
pub fn msb(pos: u64) -> (r: u64)
    ensures
        pos == 0 ==> r == 0,
        pos != 0 ==> (pos & !r) < pos,
        pos != 0 ==> exists|k: int|
            #![trigger bit(pos, k)]
            cells(r) == set![k] && bit(pos, k) && forall|j: int| k < j ==> !#[trigger] bit(pos, j),
{
    let mut current_pos = pos;
    current_pos = current_pos | current_pos >> 1;
    current_pos = current_pos | current_pos >> 2;
    current_pos = current_pos | current_pos >> 4;
    current_pos = current_pos | current_pos >> 8;
    current_pos = current_pos | current_pos >> 16;
    current_pos = current_pos | current_pos >> 32;
    current_pos = current_pos & !(current_pos >> 1);
    proof {
        lemma_msb_raw(pos, 0);
        lemma_nonzero(current_pos);
        if pos != 0 {
            let k = vstd::std_specs::bits::u64_trailing_zeros(current_pos) as int;
            lemma_msb_raw(pos, k as u64);
            assert forall|i: int| #[trigger] bit(current_pos, i) == (i == k) by {
                if 0 <= i < 64 {
                    lemma_msb_raw(pos, i as u64);
                    if bit(current_pos, i) && i > k {
                        lemma_above_raw(pos, k as u64, i as u64);
                    }
                }
            }
            assert forall|j: int| k < j implies !#[trigger] bit(pos, j) by {
                if j < 64 {
                    lemma_above_raw(pos, k as u64, j as u64);
                }
            }
            assert(cells(current_pos) =~= set![k]);
            assert(bit(pos, k));
            assert(cells(current_pos) == set![k] && bit(pos, k) && forall|j: int|
                k < j ==> !#[trigger] bit(pos, j));
        }
    }
    current_pos
}

/// The cells of `s` turned half a circle about the centre of the board.
pub open spec fn rotated(s: Set<int>) -> Set<int> {
    Set::new(|i: int| 0 <= i < 64 && s.contains(63 - i))
}

/// The cells of `s` reflected in the diagonal through cells 0 and 63.
pub open spec fn mirrored(s: Set<int>) -> Set<int> {
    Set::new(|i: int| 0 <= i < 64 && s.contains(8 * (i % 8) + i / 8))
}

/// Turns a bitboard half a circle.
pub fn rotate180_pos(pos: u64) -> (r: u64)
    ensures
        cells(r) == rotated(cells(pos)),
{
    let r = reverse_bits(pos);
    proof {
        assert(cells(r) =~= rotated(cells(pos)));
    }
    r
}

proof fn lemma_diagonal_raw(pos: u64, i: u64)
    by (bit_vector)
    requires
        i < 64,
    ensures
        ({
            let m1 = 0x0f0f0f0f00000000u64 & (pos ^ (pos << 28u64));
            let r1 = pos ^ (m1 ^ (m1 >> 28u64));
            let m2 = 0x3333000033330000u64 & (r1 ^ (r1 << 14u64));
            let r2 = r1 ^ (m2 ^ (m2 >> 14u64));
            let m3 = 0x5500550055005500u64 & (r2 ^ (r2 << 7u64));
            let r3 = r2 ^ (m3 ^ (m3 >> 7u64));
            (r3 >> i) & 1u64 == 1u64 <==> (pos >> (8 * (i % 8) + i / 8) as u64) & 1u64 == 1u64
        }),
{
}

/// Reflects a bitboard in the diagonal through cells 0 (A1) and 63 (H8).
pub fn flip_diagonal_pos(pos: u64) -> (r: u64)
    ensures
        cells(r) == mirrored(cells(pos)),
{
    let mut result = pos;
    let mask = 0x0f0f0f0f00000000 & (result ^ (result << 28));
    result = result ^ (mask ^ (mask >> 28));
    let mask = 0x3333000033330000 & (result ^ (result << 14));
    result = result ^ (mask ^ (mask >> 14));
    let mask = 0x5500550055005500 & (result ^ (result << 7));
    result = result ^ (mask ^ (mask >> 7));
    proof {
        assert forall|i: int| #[trigger] bit(result, i) == mirrored(cells(pos)).contains(i) by {
            if 0 <= i < 64 {
                lemma_diagonal_raw(pos, i as u64);
            }
        }
        assert(cells(result) =~= mirrored(cells(pos)));
    }
    result
}

fn shl(a: u64, b: u32) -> (r: u64)
    requires
        b < 64,
    ensures
        r == a << (b as u64),
{
    a << b
}

fn shr(a: u64, b: u32) -> (r: u64)
    requires
        b < 64,
    ensures
        r == a >> (b as u64),
{
    a >> b
}

} // verus!
