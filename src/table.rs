use vstd::prelude::*;
use std::collections::HashMap;
use crate::board::Board;

verus! {

broadcast use vstd::std_specs::hash::group_hash_axioms;

/// One more than the largest bitboard.
pub const KEY_SCALE: u128 = 0x1_0000_0000_0000_0000;

/// The stones of a board packed in one number, Black's above White's.
pub open spec fn board_key(board: Board) -> u128 {
    (board.black_board as int * KEY_SCALE + board.white_board as int) as u128
}

fn key_of(board: &Board) -> (r: u128)
    ensures
        r == board_key(*board),
{
    let b = board.black_board as u128;
    let w = board.white_board as u128;
    proof {
        assert(b * KEY_SCALE + w <= u128::MAX) by (nonlinear_arith)
            requires
                b < KEY_SCALE,
                w < KEY_SCALE,
                KEY_SCALE * KEY_SCALE - 1 == u128::MAX,
        ;
    }
    b * KEY_SCALE + w
}

/// Boards with the same key and side to move are the same position.
proof fn lemma_key_injective(a: Board, b: Board)
    requires
        board_key(a) == board_key(b),
    ensures
        a.black_board == b.black_board && a.white_board == b.white_board,
{
    let (ab, aw, bb, bw) = (
        a.black_board as int,
        a.white_board as int,
        b.black_board as int,
        b.white_board as int,
    );
    assert(ab * KEY_SCALE + aw <= u128::MAX && bb * KEY_SCALE + bw <= u128::MAX) by (
    nonlinear_arith)
        requires
            0 <= ab < KEY_SCALE,
            0 <= aw < KEY_SCALE,
            0 <= bb < KEY_SCALE,
            0 <= bw < KEY_SCALE,
            KEY_SCALE * KEY_SCALE - 1 == u128::MAX,
    ;
    assert(ab == bb && aw == bw) by (nonlinear_arith)
        requires
            0 <= aw < KEY_SCALE,
            0 <= bw < KEY_SCALE,
            ab * KEY_SCALE + aw == bb * KEY_SCALE + bw,
            0 <= ab,
            0 <= bb,
    ;
}

/// A map from positions to values. Boards that differ only in the scratch fields or
/// the pass counter are one position.
pub struct BoardMap<V> {
    black_to_move: HashMap<u128, V>,
    white_to_move: HashMap<u128, V>,
}

impl<V: Copy> BoardMap<V> {
    /// The value stored for the position of `board`, if any.
    pub closed spec fn lookup(&self, board: Board) -> Option<V> {
        let m = if board.turn {
            self.black_to_move@
        } else {
            self.white_to_move@
        };
        if m.contains_key(board_key(board)) {
            Some(m[board_key(board)])
        } else {
            None
        }
    }

    /// Boards of one position find the same entry.
    pub proof fn lemma_lookup_position(&self, a: Board, b: Board)
        requires
            a.same_position(b),
        ensures
            self.lookup(a) == self.lookup(b),
    {
    }

    pub fn new() -> (r: Self)
        ensures
            forall|b: Board| #[trigger] r.lookup(b) is None,
    {
        BoardMap { black_to_move: HashMap::new(), white_to_move: HashMap::new() }
    }

    pub fn get(&self, board: &Board) -> (r: Option<V>)
        ensures
            r == self.lookup(*board),
    {
        let key = key_of(board);
        let found = if board.turn {
            self.black_to_move.get(&key)
        } else {
            self.white_to_move.get(&key)
        };
        match found {
            Some(v) => Some(*v),
            None => None,
        }
    }

    pub fn insert(&mut self, board: Board, value: V)
        ensures
            forall|b: Board|
                #[trigger] final(self).lookup(b) == if b.same_position(board) {
                    Some(value)
                } else {
                    old(self).lookup(b)
                },
    {
        let key = key_of(&board);
        if board.turn {
            self.black_to_move.insert(key, value);
        } else {
            self.white_to_move.insert(key, value);
        }
        proof {
            assert forall|b: Board|
                #[trigger] final(self).lookup(b) == if b.same_position(board) {
                    Some(value)
                } else {
                    old(self).lookup(b)
                } by {
                if board_key(b) == board_key(board) {
                    lemma_key_injective(b, board);
                }
            }
        }
    }

    /// Empties the map.
    pub fn clear(&mut self)
        ensures
            forall|b: Board| #[trigger] final(self).lookup(b) is None,
    {
        self.black_to_move.clear();
        self.white_to_move.clear();
    }

    /// A separate map with the same entries.
    pub fn snapshot(&self) -> (r: Self)
        ensures
            forall|b: Board| #[trigger] r.lookup(b) == self.lookup(b),
    {
        BoardMap { black_to_move: self.black_to_move.clone(), white_to_move: self.white_to_move.clone() }
    }
}

} // verus!
