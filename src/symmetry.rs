use vstd::prelude::*;
use crate::bits::board_cells;
use crate::board::{mirrored, rotated};
use crate::geometry::{captures, legal_at, run, step, Position};

verus! {

/// A position turned half a circle.
pub open spec fn turned(position: Position) -> Position {
    Position { black: rotated(position.black), white: rotated(position.white), ..position }
}

/// A position reflected in the diagonal through A1 and H8.
pub open spec fn reflected(position: Position) -> Position {
    Position { black: mirrored(position.black), white: mirrored(position.white), ..position }
}

/// The cell that the reflection sends `p` to.
pub open spec fn transposed(p: int) -> int {
    8 * (p % 8) + p / 8
}

proof fn lemma_step_rotated(p: int, dr: int, dc: int)
    requires
        0 <= p < 64,
        -1 <= dr <= 1,
        -1 <= dc <= 1,
    ensures
        step(p, dr, dc) == -1 <==> step(63 - p, -dr, -dc) == -1,
        step(p, dr, dc) != -1 ==> step(63 - p, -dr, -dc) == 63 - step(p, dr, dc),
{
}

proof fn lemma_transposed(p: int)
    requires
        0 <= p < 64,
    ensures
        0 <= transposed(p) < 64,
        transposed(p) / 8 == p % 8,
        transposed(p) % 8 == p / 8,
        transposed(transposed(p)) == p,
{
}

proof fn lemma_step_transposed(p: int, dr: int, dc: int)
    requires
        0 <= p < 64,
        -1 <= dr <= 1,
        -1 <= dc <= 1,
    ensures
        step(p, dr, dc) == -1 <==> step(transposed(p), dc, dr) == -1,
        step(p, dr, dc) != -1 ==> step(transposed(p), dc, dr) == transposed(step(p, dr, dc)),
{
    lemma_transposed(p);
    let q = step(p, dr, dc);
    if q != -1 {
        lemma_transposed(q);
    }
}

proof fn lemma_run_rotated(src: Set<int>, data: Set<int>, p: int, dr: int, dc: int, t: nat)
    requires
        src.subset_of(board_cells()),
        data.subset_of(board_cells()),
        0 <= p < 64,
        -1 <= dr <= 1,
        -1 <= dc <= 1,
    ensures
        run(rotated(src), rotated(data), 63 - p, -dr, -dc, t) == run(src, data, p, dr, dc, t),
    decreases t,
{
    lemma_step_rotated(p, dr, dc);
    let q = step(p, dr, dc);
    if t > 0 && q != -1 {
        lemma_run_rotated(src, data, q, dr, dc, (t - 1) as nat);
    }
    if t > 0 && q == -1 {
        assert(!rotated(data).contains(-1));
        assert(!run(rotated(src), rotated(data), -1, -dr, -dc, (t - 1) as nat));
        assert(!run(src, data, -1, dr, dc, (t - 1) as nat));
    }
}

proof fn lemma_run_reflected(src: Set<int>, data: Set<int>, p: int, dr: int, dc: int, t: nat)
    requires
        src.subset_of(board_cells()),
        data.subset_of(board_cells()),
        0 <= p < 64,
        -1 <= dr <= 1,
        -1 <= dc <= 1,
    ensures
        run(mirrored(src), mirrored(data), transposed(p), dc, dr, t) == run(src, data, p, dr, dc, t),
    decreases t,
{
    lemma_step_transposed(p, dr, dc);
    lemma_transposed(p);
    let q = step(p, dr, dc);
    if t > 0 && q != -1 {
        lemma_transposed(q);
        lemma_run_reflected(src, data, q, dr, dc, (t - 1) as nat);
    }
    if t > 0 && q == -1 {
        assert(!mirrored(data).contains(-1));
        assert(!run(mirrored(src), mirrored(data), -1, dc, dr, (t - 1) as nat));
        assert(!run(src, data, -1, dr, dc, (t - 1) as nat));
    }
}

proof fn lemma_captures_rotated(own: Set<int>, opp: Set<int>, i: int, dr: int, dc: int)
    requires
        own.subset_of(board_cells()),
        opp.subset_of(board_cells()),
        0 <= i < 64,
        -1 <= dr <= 1,
        -1 <= dc <= 1,
    ensures
        captures(rotated(own), rotated(opp), 63 - i, -dr, -dc) == captures(own, opp, i, dr, dc),
{
    lemma_step_rotated(i, dr, dc);
    let q = step(i, dr, dc);
    if q != -1 {
        lemma_run_rotated(own, opp, q, dr, dc, 6);
    } else {
        assert(!rotated(opp).contains(-1));
    }
}

proof fn lemma_captures_reflected(own: Set<int>, opp: Set<int>, i: int, dr: int, dc: int)
    requires
        own.subset_of(board_cells()),
        opp.subset_of(board_cells()),
        0 <= i < 64,
        -1 <= dr <= 1,
        -1 <= dc <= 1,
    ensures
        captures(mirrored(own), mirrored(opp), transposed(i), dc, dr) == captures(own, opp, i, dr, dc),
{
    lemma_step_transposed(i, dr, dc);
    let q = step(i, dr, dc);
    if q != -1 {
        lemma_run_reflected(own, opp, q, dr, dc, 6);
    } else {
        assert(!mirrored(opp).contains(-1));
    }
}

proof fn lemma_legal_rotated(position: Position)
    requires
        position.on_board(),
    ensures
        turned(position).legal_moves() == rotated(position.legal_moves()),
{
    let own = position.own();
    let opp = position.opp();
    assert(turned(position).own() == rotated(own) && turned(position).opp() == rotated(opp));
    assert forall|j: int| #[trigger] turned(position).legal_moves().contains(j) == rotated(
        position.legal_moves(),
    ).contains(j) by {
        if 0 <= j < 64 {
            let i = 63 - j;
            assert(j == 63 - i);
            lemma_captures_rotated(own, opp, i, 1, 1);
            lemma_captures_rotated(own, opp, i, 1, 0);
            lemma_captures_rotated(own, opp, i, 1, -1);
            lemma_captures_rotated(own, opp, i, 0, 1);
            lemma_captures_rotated(own, opp, i, 0, -1);
            lemma_captures_rotated(own, opp, i, -1, 1);
            lemma_captures_rotated(own, opp, i, -1, 0);
            lemma_captures_rotated(own, opp, i, -1, -1);
            assert(legal_at(rotated(own), rotated(opp), j) == legal_at(own, opp, i));
        }
    }
    assert(turned(position).legal_moves() =~= rotated(position.legal_moves()));
}

proof fn lemma_legal_reflected(position: Position)
    requires
        position.on_board(),
    ensures
        reflected(position).legal_moves() == mirrored(position.legal_moves()),
{
    let own = position.own();
    let opp = position.opp();
    assert(reflected(position).own() == mirrored(own) && reflected(position).opp() == mirrored(
        opp,
    ));
    assert forall|j: int| #[trigger] reflected(position).legal_moves().contains(j) == mirrored(
        position.legal_moves(),
    ).contains(j) by {
        if 0 <= j < 64 {
            let i = transposed(j);
            lemma_transposed(j);
            assert(transposed(i) == j);
            lemma_captures_reflected(own, opp, i, 1, 1);
            lemma_captures_reflected(own, opp, i, 1, 0);
            lemma_captures_reflected(own, opp, i, 1, -1);
            lemma_captures_reflected(own, opp, i, 0, 1);
            lemma_captures_reflected(own, opp, i, 0, -1);
            lemma_captures_reflected(own, opp, i, -1, 1);
            lemma_captures_reflected(own, opp, i, -1, 0);
            lemma_captures_reflected(own, opp, i, -1, -1);
            lemma_transposed(i);
            assert(mirrored(own).contains(j) == own.contains(i));
            assert(mirrored(opp).contains(j) == opp.contains(i));
            assert(legal_at(mirrored(own), mirrored(opp), j) == legal_at(own, opp, i));
        }
    }
    assert(reflected(position).legal_moves() =~= mirrored(position.legal_moves()));
}

/// The legal moves follow the board's symmetries: turning a position half a circle
/// turns its legal moves, reflecting it in the A1-H8 diagonal reflects them, and
/// doing both does both.
pub proof fn lemma_legal_moves_symmetry(position: Position)
    requires
        position.on_board(),
    ensures
        turned(position).legal_moves() == rotated(position.legal_moves()),
        reflected(position).legal_moves() == mirrored(position.legal_moves()),
        turned(reflected(position)).legal_moves() == rotated(mirrored(position.legal_moves())),
{
    lemma_legal_rotated(position);
    lemma_legal_reflected(position);
    assert(reflected(position).on_board());
    lemma_legal_rotated(reflected(position));
}

} // verus!
