use vstd::prelude::*;
use crate::bits::board_cells;

verus! {

// Cells are numbered 0..64, row by row: cell `p` stands in row `p / 8` and column `p % 8`.

/// The cell one step from `p` in direction (`dr`, `dc`), or -1 where that step leaves the board.
pub open spec fn step(p: int, dr: int, dc: int) -> int {
    let r = p / 8 + dr;
    let c = p % 8 + dc;
    if 0 <= p < 64 && 0 <= r < 8 && 0 <= c < 8 {
        8 * r + c
    } else {
        -1
    }
}

/// A run of at most `fuel` cells of `data`, starting at `p` and heading in direction
/// (`dr`, `dc`), that is followed directly by a cell of `src`.
pub open spec fn run(src: Set<int>, data: Set<int>, p: int, dr: int, dc: int, fuel: nat) -> bool
    decreases fuel,
{
    if fuel == 0 {
        false
    } else {
        data.contains(p) && (src.contains(step(p, dr, dc)) || run(
            src,
            data,
            step(p, dr, dc),
            dr,
            dc,
            (fuel - 1) as nat,
        ))
    }
}

/// Placing a stone of `own` on `i` would enclose a run of `opp` stones in direction
/// (`dr`, `dc`). Between two cells of one line there are at most six others.
pub open spec fn captures(own: Set<int>, opp: Set<int>, i: int, dr: int, dc: int) -> bool {
    run(own, opp, step(i, dr, dc), dr, dc, 6)
}

/// Placing a stone of `own` on `i` would enclose opposing stones in some direction.
pub open spec fn captures_any(own: Set<int>, opp: Set<int>, i: int) -> bool {
    captures(own, opp, i, -1, -1) || captures(own, opp, i, -1, 0) || captures(own, opp, i, -1, 1)
        || captures(own, opp, i, 0, -1) || captures(own, opp, i, 0, 1) || captures(
        own,
        opp,
        i,
        1,
        -1,
    ) || captures(own, opp, i, 1, 0) || captures(own, opp, i, 1, 1)
}

/// Cell `i` is a legal move for the side whose stones are `own`: it is empty and
/// encloses at least one opposing stone.
pub open spec fn legal_at(own: Set<int>, opp: Set<int>, i: int) -> bool {
    0 <= i < 64 && !own.contains(i) && !opp.contains(i) && captures_any(own, opp, i)
}

/// Cell `p` lies on an unbroken run of `opp` stones that has a cell of `from` behind it
/// and a cell of `own` ahead of it, in direction (`dr`, `dc`).
pub open spec fn between(
    own: Set<int>,
    opp: Set<int>,
    from: Set<int>,
    p: int,
    dr: int,
    dc: int,
) -> bool {
    run(from, opp, p, -dr, -dc, 6) && run(own, opp, p, dr, dc, 6)
}

/// Cell `p` is enclosed between a cell of `from` and a cell of `own` along some line.
pub open spec fn enclosed(own: Set<int>, opp: Set<int>, from: Set<int>, p: int) -> bool {
    between(own, opp, from, p, -1, -1) || between(own, opp, from, p, -1, 0) || between(
        own,
        opp,
        from,
        p,
        -1,
        1,
    ) || between(own, opp, from, p, 0, -1) || between(own, opp, from, p, 0, 1) || between(
        own,
        opp,
        from,
        p,
        1,
        -1,
    ) || between(own, opp, from, p, 1, 0) || between(own, opp, from, p, 1, 1)
}

/// A position as sets of cells.
pub struct Position {
    pub black: Set<int>,
    pub white: Set<int>,
    /// Black is to move.
    pub turn: bool,
    /// How many times in a row a side has passed.
    pub passes: int,
}

impl Position {
    /// The stones of the side to move.
    pub open spec fn own(self) -> Set<int> {
        if self.turn {
            self.black
        } else {
            self.white
        }
    }

    /// The stones of the side not to move.
    pub open spec fn opp(self) -> Set<int> {
        if self.turn {
            self.white
        } else {
            self.black
        }
    }

    /// The cells on which the side to move may play.
    pub open spec fn legal_moves(self) -> Set<int> {
        Set::new(|i: int| legal_at(self.own(), self.opp(), i))
    }

    /// The opposing stones turned over when the side to move places stones on `placed`.
    pub open spec fn flips(self, placed: Set<int>) -> Set<int> {
        Set::new(|p: int| enclosed(self.own().union(placed), self.opp(), placed, p))
    }

    /// Builds the position from the stones of the side to move and of the other side.
    pub open spec fn with_sides(self, own: Set<int>, opp: Set<int>, turn: bool, passes: int) -> Position {
        if self.turn {
            Position { black: own, white: opp, turn, passes }
        } else {
            Position { black: opp, white: own, turn, passes }
        }
    }

    /// The position after the side to move places stones on `placed`.
    pub open spec fn play(self, placed: Set<int>) -> Position {
        let f = self.flips(placed);
        self.with_sides(self.own().union(placed).union(f), self.opp().difference(f), !self.turn, 0)
    }

    /// All stones stand on the board.
    pub open spec fn on_board(self) -> bool {
        self.black.subset_of(board_cells()) && self.white.subset_of(board_cells())
    }

    /// The position after the side to move passes.
    pub open spec fn pass(self) -> Position {
        Position { turn: !self.turn, passes: self.passes + 1, ..self }
    }
}

/// Moves keep the stones on the board.
pub proof fn lemma_play_on_board(position: Position, placed: Set<int>)
    requires
        position.on_board(),
        placed.subset_of(board_cells()),
    ensures
        position.play(placed).on_board(),
        position.pass().on_board(),
{
    assert(position.flips(placed).subset_of(position.opp()));
}

/// A run that ends next to a cell of `src` also ends next to a cell of any larger set.
pub proof fn lemma_run_src(
    small: Set<int>,
    large: Set<int>,
    data: Set<int>,
    p: int,
    dr: int,
    dc: int,
    t: nat,
)
    requires
        small.subset_of(large),
    ensures
        run(small, data, p, dr, dc, t) ==> run(large, data, p, dr, dc, t),
    decreases t,
{
    if t > 0 {
        lemma_run_src(small, large, data, step(p, dr, dc), dr, dc, (t - 1) as nat);
    }
}

proof fn lemma_capture_flips(position: Position, i: int, dr: int, dc: int)
    requires
        position.on_board(),
        0 <= i < 64,
        -1 <= dr <= 1,
        -1 <= dc <= 1,
        captures(position.own(), position.opp(), i, dr, dc),
    ensures
        between(position.own().union(set![i]), position.opp(), set![i], step(i, dr, dc), dr, dc),
        position.opp().contains(step(i, dr, dc)),
{
    let p = step(i, dr, dc);
    let own = position.own().union(set![i]);
    assert(position.opp().contains(p));
    lemma_step(i, dr, dc);
    assert(step(p, -dr, -dc) == i);
    assert(run(set![i], position.opp(), p, -dr, -dc, 6));
    lemma_run_src(position.own(), own, position.opp(), p, dr, dc, 6);
}

/// A legal move turns over at least one opposing stone: the next cell in a
/// direction in which it encloses a run.
pub proof fn lemma_legal_move_flips(position: Position, i: int)
    requires
        position.on_board(),
        position.legal_moves().contains(i),
    ensures
        exists|p: int| position.flips(set![i]).contains(p) && position.opp().contains(p),
{
    let own = position.own();
    let opp = position.opp();
    if captures(own, opp, i, -1, -1) {
        lemma_capture_flips(position, i, -1, -1);
        assert(position.flips(set![i]).contains(step(i, -1, -1)));
    } else if captures(own, opp, i, -1, 0) {
        lemma_capture_flips(position, i, -1, 0);
        assert(position.flips(set![i]).contains(step(i, -1, 0)));
    } else if captures(own, opp, i, -1, 1) {
        lemma_capture_flips(position, i, -1, 1);
        assert(position.flips(set![i]).contains(step(i, -1, 1)));
    } else if captures(own, opp, i, 0, -1) {
        lemma_capture_flips(position, i, 0, -1);
        assert(position.flips(set![i]).contains(step(i, 0, -1)));
    } else if captures(own, opp, i, 0, 1) {
        lemma_capture_flips(position, i, 0, 1);
        assert(position.flips(set![i]).contains(step(i, 0, 1)));
    } else if captures(own, opp, i, 1, -1) {
        lemma_capture_flips(position, i, 1, -1);
        assert(position.flips(set![i]).contains(step(i, 1, -1)));
    } else if captures(own, opp, i, 1, 0) {
        lemma_capture_flips(position, i, 1, 0);
        assert(position.flips(set![i]).contains(step(i, 1, 0)));
    } else {
        lemma_capture_flips(position, i, 1, 1);
        assert(position.flips(set![i]).contains(step(i, 1, 1)));
    }
}

/// A step and the step back return to the start.
pub proof fn lemma_step(p: int, dr: int, dc: int)
    requires
        0 <= p < 64,
        -1 <= dr <= 1,
        -1 <= dc <= 1,
    ensures
        step(p, dr, dc) != -1 ==> step(p, dr, dc) == p + 8 * dr + dc && 0 <= step(p, dr, dc) < 64
            && step(step(p, dr, dc), -dr, -dc) == p,
{
}

} // verus!
