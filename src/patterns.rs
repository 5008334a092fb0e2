use vstd::prelude::*;
use crate::bits::bit;
use crate::board::Board;

verus! {

/// The state of cell `i` as a base-3 digit: 2 for Black, 1 for White, 0 when empty.
pub open spec fn cell_digit(board: Board, i: int) -> int {
    (if bit(board.black_board, i) { 2int } else { 0int }) + (if bit(board.white_board, i) {
        1int
    } else {
        0int
    })
}

/// The number whose base-3 digits, most significant first, are the states of `cells`.
pub open spec fn pattern_index(board: Board, cells: Seq<i32>) -> int
    decreases cells.len(),
{
    if cells.len() == 0 {
        0
    } else {
        pattern_index(board, cells.drop_last()) * 3 + cell_digit(board, cells.last() as int)
    }
}

/// Four to the `n`: a bound on an index of `n` cells.
pub open spec fn digit_bound(n: nat) -> nat
    decreases n,
{
    if n == 0 {
        1
    } else {
        4 * digit_bound((n - 1) as nat)
    }
}

proof fn lemma_bit_value_raw(x: u64, i: u64)
    by (bit_vector)
    requires
        i < 64,
    ensures
        (x >> i) & 1u64 <= 1u64,
        ((x >> i) & 1u64) << 1u64 == 2 * ((x >> i) & 1u64),
{
}

/// Appends the state of cell `i` to `index` as one more base-3 digit.
fn calculate_index(board: &Board, index: &usize, i: i32) -> (r: usize)
    requires
        0 <= i < 64,
        *index <= 1_000_000,
    ensures
        r == *index * 3 + cell_digit(*board, i as int),
{
    let black_bit = (board.black_board >> i) & 1;
    let white_bit = (board.white_board >> i) & 1;
    proof {
        lemma_bit_value_raw(board.black_board, i as u64);
        lemma_bit_value_raw(board.white_board, i as u64);
    }
    let mut new_index = *index;
    new_index = new_index * 3;
    new_index = new_index + ((black_bit << 1) + white_bit) as usize;
    new_index
}

/// The index of the pattern made of `cells`, in order.
fn index_of(board: &Board, cells: &[i32]) -> (r: usize)
    requires
        cells@.len() <= 10,
        forall|k: int| 0 <= k < cells@.len() ==> 0 <= #[trigger] cells@[k] < 64,
    ensures
        r == pattern_index(*board, cells@),
{
    let mut index: usize = 0;
    let mut k: usize = 0;
    proof {
        reveal_with_fuel(digit_bound, 11);
    }
    while k < cells.len()
        invariant
            k <= cells@.len() <= 10,
            forall|k: int| 0 <= k < cells@.len() ==> 0 <= #[trigger] cells@[k] < 64,
            index == pattern_index(*board, cells@.subrange(0, k as int)),
            index < digit_bound(k as nat),
            digit_bound(k as nat) <= 1_048_576,
        decreases cells@.len() - k,
    {
        proof {
            assert(cells@.subrange(0, k + 1).drop_last() =~= cells@.subrange(0, k as int));
            if k < 10 {
                assert(digit_bound((k + 1) as nat) <= 1_048_576) by {
                    reveal_with_fuel(digit_bound, 11);
                }
            }
        }
        index = calculate_index(board, &index, cells[k]);
        k = k + 1;
    }
    assert(cells@.subrange(0, cells@.len() as int) =~= cells@);
    index
}

/// The edge patterns: each edge from one corner, with the two cells diagonal to its corners.
pub fn pattern0_indexes(board: &Board) -> (r: (usize, usize, usize, usize))
    ensures
        r.0 == pattern_index(*board, seq![0i32, 1, 2, 3, 4, 5, 6, 7, 9, 14]),
        r.1 == pattern_index(*board, seq![56i32, 48, 40, 32, 24, 16, 8, 0, 49, 9]),
        r.2 == pattern_index(*board, seq![63i32, 62, 61, 60, 59, 58, 57, 56, 54, 49]),
        r.3 == pattern_index(*board, seq![7i32, 15, 23, 31, 39, 47, 55, 63, 14, 54]),
{
    let cells0: [i32; 10] = [0, 1, 2, 3, 4, 5, 6, 7, 9, 14];
    let index0 = index_of(board, &cells0);
    let cells1: [i32; 10] = [56, 48, 40, 32, 24, 16, 8, 0, 49, 9];
    let index1 = index_of(board, &cells1);
    let cells2: [i32; 10] = [63, 62, 61, 60, 59, 58, 57, 56, 54, 49];
    let index2 = index_of(board, &cells2);
    let cells3: [i32; 10] = [7, 15, 23, 31, 39, 47, 55, 63, 14, 54];
    let index3 = index_of(board, &cells3);
    proof {
        assert(cells0@ =~= seq![0i32, 1, 2, 3, 4, 5, 6, 7, 9, 14]);
        assert(cells1@ =~= seq![56i32, 48, 40, 32, 24, 16, 8, 0, 49, 9]);
        assert(cells2@ =~= seq![63i32, 62, 61, 60, 59, 58, 57, 56, 54, 49]);
        assert(cells3@ =~= seq![7i32, 15, 23, 31, 39, 47, 55, 63, 14, 54]);
    }
    (index0, index1, index2, index3)
}
/// The two main diagonals.
pub fn pattern1_indexes(board: &Board) -> (r: (usize, usize))
    ensures
        r.0 == pattern_index(*board, seq![0i32, 9, 18, 27, 36, 45, 54, 63]),
        r.1 == pattern_index(*board, seq![7i32, 14, 21, 28, 35, 42, 49, 56]),
{
    let cells0: [i32; 8] = [0, 9, 18, 27, 36, 45, 54, 63];
    let index0 = index_of(board, &cells0);
    let cells1: [i32; 8] = [7, 14, 21, 28, 35, 42, 49, 56];
    let index1 = index_of(board, &cells1);
    proof {
        assert(cells0@ =~= seq![0i32, 9, 18, 27, 36, 45, 54, 63]);
        assert(cells1@ =~= seq![7i32, 14, 21, 28, 35, 42, 49, 56]);
    }
    (index0, index1)
}
/// The corner triangles of ten cells.
pub fn pattern2_indexes(board: &Board) -> (r: (usize, usize, usize, usize))
    ensures
        r.0 == pattern_index(*board, seq![0i32, 1, 2, 3, 8, 9, 10, 11, 16, 24]),
        r.1 == pattern_index(*board, seq![56i32, 48, 40, 32, 57, 49, 41, 58, 50, 59]),
        r.2 == pattern_index(*board, seq![63i32, 62, 61, 60, 55, 54, 53, 47, 46, 39]),
        r.3 == pattern_index(*board, seq![7i32, 15, 23, 31, 6, 14, 22, 5, 13, 4]),
{
    let cells0: [i32; 10] = [0, 1, 2, 3, 8, 9, 10, 11, 16, 24];
    let index0 = index_of(board, &cells0);
    let cells1: [i32; 10] = [56, 48, 40, 32, 57, 49, 41, 58, 50, 59];
    let index1 = index_of(board, &cells1);
    let cells2: [i32; 10] = [63, 62, 61, 60, 55, 54, 53, 47, 46, 39];
    let index2 = index_of(board, &cells2);
    let cells3: [i32; 10] = [7, 15, 23, 31, 6, 14, 22, 5, 13, 4];
    let index3 = index_of(board, &cells3);
    proof {
        assert(cells0@ =~= seq![0i32, 1, 2, 3, 8, 9, 10, 11, 16, 24]);
        assert(cells1@ =~= seq![56i32, 48, 40, 32, 57, 49, 41, 58, 50, 59]);
        assert(cells2@ =~= seq![63i32, 62, 61, 60, 55, 54, 53, 47, 46, 39]);
        assert(cells3@ =~= seq![7i32, 15, 23, 31, 6, 14, 22, 5, 13, 4]);
    }
    (index0, index1, index2, index3)
}
/// The four edges, each from one corner.
pub fn pattern3_indexes(board: &Board) -> (r: (usize, usize, usize, usize))
    ensures
        r.0 == pattern_index(*board, seq![0i32, 1, 2, 3, 4, 5, 6, 7]),
        r.1 == pattern_index(*board, seq![56i32, 48, 40, 32, 24, 16, 8, 0]),
        r.2 == pattern_index(*board, seq![63i32, 62, 61, 60, 59, 58, 57, 56]),
        r.3 == pattern_index(*board, seq![7i32, 15, 23, 31, 39, 47, 55, 63]),
{
    let cells0: [i32; 8] = [0, 1, 2, 3, 4, 5, 6, 7];
    let index0 = index_of(board, &cells0);
    let cells1: [i32; 8] = [56, 48, 40, 32, 24, 16, 8, 0];
    let index1 = index_of(board, &cells1);
    let cells2: [i32; 8] = [63, 62, 61, 60, 59, 58, 57, 56];
    let index2 = index_of(board, &cells2);
    let cells3: [i32; 8] = [7, 15, 23, 31, 39, 47, 55, 63];
    let index3 = index_of(board, &cells3);
    proof {
        assert(cells0@ =~= seq![0i32, 1, 2, 3, 4, 5, 6, 7]);
        assert(cells1@ =~= seq![56i32, 48, 40, 32, 24, 16, 8, 0]);
        assert(cells2@ =~= seq![63i32, 62, 61, 60, 59, 58, 57, 56]);
        assert(cells3@ =~= seq![7i32, 15, 23, 31, 39, 47, 55, 63]);
    }
    (index0, index1, index2, index3)
}
/// The two main diagonals, for the small model.
pub fn pattern4_indexes(board: &Board) -> (r: (usize, usize))
    ensures
        r.0 == pattern_index(*board, seq![0i32, 9, 18, 27, 36, 45, 54, 63]),
        r.1 == pattern_index(*board, seq![7i32, 14, 21, 28, 35, 42, 49, 56]),
{
    let cells0: [i32; 8] = [0, 9, 18, 27, 36, 45, 54, 63];
    let index0 = index_of(board, &cells0);
    let cells1: [i32; 8] = [7, 14, 21, 28, 35, 42, 49, 56];
    let index1 = index_of(board, &cells1);
    proof {
        assert(cells0@ =~= seq![0i32, 9, 18, 27, 36, 45, 54, 63]);
        assert(cells1@ =~= seq![7i32, 14, 21, 28, 35, 42, 49, 56]);
    }
    (index0, index1)
}
/// The corner blocks of eight cells.
pub fn pattern5_indexes(board: &Board) -> (r: (usize, usize, usize, usize))
    ensures
        r.0 == pattern_index(*board, seq![0i32, 1, 2, 8, 9, 10, 11, 16]),
        r.1 == pattern_index(*board, seq![56i32, 48, 40, 57, 49, 41, 58, 50]),
        r.2 == pattern_index(*board, seq![63i32, 62, 61, 55, 54, 53, 47, 46]),
        r.3 == pattern_index(*board, seq![7i32, 15, 23, 6, 14, 22, 5, 13]),
{
    let cells0: [i32; 8] = [0, 1, 2, 8, 9, 10, 11, 16];
    let index0 = index_of(board, &cells0);
    let cells1: [i32; 8] = [56, 48, 40, 57, 49, 41, 58, 50];
    let index1 = index_of(board, &cells1);
    let cells2: [i32; 8] = [63, 62, 61, 55, 54, 53, 47, 46];
    let index2 = index_of(board, &cells2);
    let cells3: [i32; 8] = [7, 15, 23, 6, 14, 22, 5, 13];
    let index3 = index_of(board, &cells3);
    proof {
        assert(cells0@ =~= seq![0i32, 1, 2, 8, 9, 10, 11, 16]);
        assert(cells1@ =~= seq![56i32, 48, 40, 57, 49, 41, 58, 50]);
        assert(cells2@ =~= seq![63i32, 62, 61, 55, 54, 53, 47, 46]);
        assert(cells3@ =~= seq![7i32, 15, 23, 6, 14, 22, 5, 13]);
    }
    (index0, index1, index2, index3)
}

} // verus!
