use vstd::prelude::*;
use vstd::string::StrSliceExecFns;
use crate::bits::cells;
use crate::board::{
    execute_pos, flip_diagonal_pos, init_board, mirrored, rotate180_pos, rotated, Board, BLACK,
};
use crate::coord::{cmd_to_pos, pos_of_command};
use crate::geometry::Position;
use crate::table::BoardMap;

verus! {

/// The cells `s` seen in one of the four orientations of the board: as they are (0),
/// turned half a circle (1), reflected in the A1-H8 diagonal (2), or reflected and
/// then turned (3).
pub open spec fn oriented_cells(s: Set<int>, orientation: int) -> Set<int> {
    if orientation == 0 {
        s
    } else if orientation == 1 {
        rotated(s)
    } else if orientation == 2 {
        mirrored(s)
    } else {
        rotated(mirrored(s))
    }
}

/// The opening position.
pub open spec fn opening() -> Position {
    Position {
        black: cells(1u64 << 28u64 | 1u64 << 35u64),
        white: cells(1u64 << 27u64 | 1u64 << 36u64),
        turn: true,
        passes: 0,
    }
}

/// The `k`-th move of a record, as the cell it names.
pub open spec fn record_move(record: Seq<char>, k: int) -> u64 {
    pos_of_command(record.subrange(2 * k, 2 * k + 2), 'A')
}

/// The position after the first `n` moves of a record, each seen in `orientation`,
/// are played from the opening; a move that is not legal is skipped.
pub open spec fn replay(record: Seq<char>, orientation: int, n: int) -> Position
    decreases n,
{
    if n <= 0 {
        opening()
    } else {
        let before = replay(record, orientation, n - 1);
        let placed = oriented_cells(cells(record_move(record, n - 1)), orientation);
        if exists|i: int| placed.contains(i) && before.legal_moves().contains(i) {
            before.play(placed)
        } else {
            before
        }
    }
}

/// The board holds the stones and side to move of the position.
pub open spec fn shows(board: Board, position: Position) -> bool {
    board@.black == position.black && board@.white == position.white && board.turn
        == position.turn
}

/// Two boards that show one position are the same position.
proof fn lemma_same_shown(a: Board, b: Board)
    requires
        a@.black == b@.black,
        a@.white == b@.white,
        a.turn == b.turn,
    ensures
        a.same_position(b),
{
    crate::bits::lemma_cells_injective(a.black_board, b.black_board);
    crate::bits::lemma_cells_injective(a.white_board, b.white_board);
}

/// Two positions with the same stones and side to move.
pub open spec fn same_stones(p: Position, q: Position) -> bool {
    p.black == q.black && p.white == q.white && p.turn == q.turn
}

/// No orientation after `o` replays the record to the position that `o` reaches.
pub open spec fn last_to_reach(record: Seq<char>, o: int, n: int) -> bool {
    forall|o2: int| o < o2 < 4 ==> !same_stones(#[trigger] replay(record, o2, n), replay(record, o, n))
}

/// A move seen in one of the four orientations of the board.
fn oriented(pos: u64, orientation: u32) -> (r: u64)
    ensures
        cells(r) == oriented_cells(cells(pos), orientation as int),
{
    if orientation == 0 {
        pos
    } else if orientation == 1 {
        rotate180_pos(pos)
    } else if orientation == 2 {
        flip_diagonal_pos(pos)
    } else {
        rotate180_pos(flip_diagonal_pos(pos))
    }
}

/// The move that the two characters of `record` from `at` name.
fn move_at(record: &str, len: usize, at: usize) -> (r: u64)
    requires
        len == record@.len(),
        at + 2 <= len,
    ensures
        r == pos_of_command(record@.subrange(at as int, at + 2), 'A'),
{
    let cmd = record.substring_char(at, at + 2);
    cmd_to_pos(cmd.to_owned())
}

/// Adds one game record of the opening book: moves written as "F5D6...", with no
/// separators. The position before the last move is mapped to that move, in each
/// of the four orientations of the board, so that a position is found however the
/// board is turned; where two orientations reach one position, the later one stays.
/// A record shorter than one move adds nothing.
pub fn add_book_record(book: &mut BoardMap<u64>, record: &str)
    ensures
        record@.len() < 2 ==> forall|b: Board| #[trigger] final(book).lookup(b) == old(book).lookup(b),
        record@.len() >= 2 ==> {
            let n = record@.len() / 2 - 1;
            let last = cells(
                pos_of_command(record@.subrange(record@.len() - 2, record@.len() as int), 'A'),
            );
            &&& forall|o: int, b: Board|
                0 <= o < 4 && #[trigger] shows(b, replay(record@, o, n)) ==> final(book).lookup(
                    b,
                ) is Some
            &&& forall|o: int, b: Board|
                0 <= o < 4 && #[trigger] shows(b, replay(record@, o, n)) && last_to_reach(
                    record@,
                    o,
                    n,
                ) ==> final(book).lookup(b) is Some && cells(final(book).lookup(b)->0)
                    == oriented_cells(last, o)
            &&& forall|b: Board|
                #[trigger] final(book).lookup(b) != old(book).lookup(b) ==> exists|o: int|
                    0 <= o < 4 && shows(b, replay(record@, o, n))
        },
{
    let len = record.unicode_len();
    if len < 2 {
        return;
    }
    let played = len / 2 - 1;
    let ghost n = played as int;
    let ghost mut written: Seq<Board> = seq![];
    let mut orientation: u32 = 0;
    while orientation < 4
        invariant
            len == record@.len(),
            len >= 2,
            played == len / 2 - 1,
            n == played,
            written.len() == orientation,
            orientation <= 4,
            forall|o: int|
                0 <= o < orientation ==> shows(#[trigger] written[o], replay(record@, o, n))
                    && book.lookup(written[o]) is Some,
            forall|o: int|
                0 <= o < orientation && (forall|o2: int|
                    o < o2 < orientation ==> !(#[trigger] written[o2]).same_position(written[o]))
                    ==> book.lookup(written[o]) is Some && cells(book.lookup(written[o])->0)
                    == oriented_cells(
                    cells(pos_of_command(record@.subrange(len - 2, len as int), 'A')),
                    o,
                ),
            forall|b: Board|
                #[trigger] book.lookup(b) != old(book).lookup(b) ==> exists|o: int|
                    0 <= o < orientation && b.same_position(written[o]),
        decreases 4 - orientation,
    {
        let mut board = Board {
            black_board: 0,
            white_board: 0,
            turn: BLACK,
            no_legal_command: 0,
            value: 0,
            before_pos: 0,
        };
        init_board(&mut board);
        let mut i: usize = 0;
        proof {
            assert(board@ == opening());
        }
        while i < played
            invariant
                len == record@.len(),
                played == len / 2 - 1,
                i <= played,
                orientation < 4,
                board@ == replay(record@, orientation as int, i as int),
            decreases played - i,
        {
            let pos = oriented(move_at(record, len, 2 * i), orientation);
            let ghost before = board;
            board = execute_pos(&mut board, pos);
            proof {
                let placed = oriented_cells(cells(record_move(record@, i as int)), orientation as int);
                assert(cells(pos) == placed);
                if crate::board::accepts(before@, pos) {
                    let k = choose|k: int|
                        crate::bits::bit(pos, k) && before@.legal_moves().contains(k);
                    assert(placed.contains(k));
                }
                if exists|k: int| placed.contains(k) && before@.legal_moves().contains(k) {
                    let k = choose|k: int| placed.contains(k) && before@.legal_moves().contains(k);
                    assert(crate::bits::bit(pos, k));
                }
            }
            i = i + 1;
        }
        let last = oriented(move_at(record, len, len - 2), orientation);
        let ghost before = *book;
        book.insert(board, last);
        proof {
            let written_before = written;
            written = written.push(board);
            assert forall|o: int|
                0 <= o < orientation + 1 implies shows(#[trigger] written[o], replay(record@, o, n))
                && book.lookup(written[o]) is Some by {
                if o < orientation {
                    assert(written[o] == written_before[o]);
                }
            }
            assert forall|o: int|
                0 <= o < orientation + 1 && (forall|o2: int|
                    o < o2 < orientation + 1 ==> !(#[trigger] written[o2]).same_position(written[o]))
                    implies book.lookup(written[o]) is Some && cells(book.lookup(written[o])->0)
                    == oriented_cells(
                    cells(pos_of_command(record@.subrange(len - 2, len as int), 'A')),
                    o,
                ) by {
                if o < orientation {
                    assert(written[o] == written_before[o]);
                    assert(!written[orientation as int].same_position(written[o]));
                    assert(!written[o].same_position(board));
                    assert forall|o2: int| o < o2 < orientation implies !(
                    #[trigger] written_before[o2]).same_position(written_before[o]) by {
                        assert(written[o2] == written_before[o2]);
                    }
                }
            }
            assert forall|b: Board|
                #[trigger] book.lookup(b) != old(book).lookup(b) implies exists|o: int|
                    0 <= o < orientation + 1 && b.same_position(written[o]) by {
                if b.same_position(board) {
                    assert(written[orientation as int] == board);
                } else {
                    assert(before.lookup(b) != old(book).lookup(b));
                    let o = choose|o: int| 0 <= o < orientation && b.same_position(written_before[o]);
                    assert(written[o] == written_before[o]);
                }
            }
        }
        orientation = orientation + 1;
    }
    proof {
        let m = record@.len() / 2 - 1;
        assert(m == n);
        assert forall|o: int, b: Board|
            0 <= o < 4 && #[trigger] shows(b, replay(record@, o, m)) implies book.lookup(b) is Some by {
            assert(shows(written[o], replay(record@, o, n)));
            lemma_same_shown(b, written[o]);
            book.lemma_lookup_position(b, written[o]);
        }
        let last = cells(pos_of_command(record@.subrange(record@.len() - 2, record@.len() as int), 'A'));
        assert forall|o: int, b: Board|
            0 <= o < 4 && #[trigger] shows(b, replay(record@, o, m)) && last_to_reach(record@, o, m)
            implies book.lookup(b) is Some && cells(book.lookup(b)->0) == oriented_cells(last, o) by {
            assert(shows(written[o], replay(record@, o, n)));
            assert forall|o2: int| o < o2 < 4 implies !(#[trigger] written[o2]).same_position(written[o]) by {
                assert(shows(written[o2], replay(record@, o2, n)));
                assert(!same_stones(replay(record@, o2, m), replay(record@, o, m)));
            }
            lemma_same_shown(b, written[o]);
            book.lemma_lookup_position(b, written[o]);
        }
        assert forall|b: Board| #[trigger] book.lookup(b) != old(book).lookup(b) implies exists|o: int|
            0 <= o < 4 && shows(b, replay(record@, o, m)) by {
            let o = choose|o: int| 0 <= o < 4 && b.same_position(written[o]);
            assert(shows(written[o], replay(record@, o, n)));
            assert(shows(b, replay(record@, o, m)));
        }
    }
}

} // verus!
