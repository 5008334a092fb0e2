use vstd::prelude::*;
use vstd::set_lib::set_int_range;

verus! {

/// Whether cell `i` (an index in 0..64) is set in the bitboard `x`.
pub open spec fn bit(x: u64, i: int) -> bool {
    0 <= i < 64 && (x >> (i as u64)) & 1u64 == 1u64
}

/// The set of cells that a bitboard holds.
pub open spec fn cells(x: u64) -> Set<int> {
    Set::new(|i: int| bit(x, i))
}

/// Every cell of the 8x8 board.
pub open spec fn board_cells() -> Set<int> {
    set_int_range(0, 64)
}

proof fn lemma_and_raw(x: u64, y: u64, i: u64)
    by (bit_vector)
    requires
        i < 64,
    ensures
        ((x & y) >> i) & 1u64 == 1u64 <==> ((x >> i) & 1u64 == 1u64 && (y >> i) & 1u64 == 1u64),
{
}

proof fn lemma_or_raw(x: u64, y: u64, i: u64)
    by (bit_vector)
    requires
        i < 64,
    ensures
        ((x | y) >> i) & 1u64 == 1u64 <==> ((x >> i) & 1u64 == 1u64 || (y >> i) & 1u64 == 1u64),
{
}

proof fn lemma_not_raw(x: u64, i: u64)
    by (bit_vector)
    requires
        i < 64,
    ensures
        ((!x) >> i) & 1u64 == 1u64 <==> !((x >> i) & 1u64 == 1u64),
{
}

proof fn lemma_shl_raw(x: u64, n: u64, i: u64)
    by (bit_vector)
    requires
        i < 64,
        n < 64,
    ensures
        ((x << n) >> i) & 1u64 == 1u64 <==> (i >= n && (x >> (i - n) as u64) & 1u64 == 1u64),
{
}

proof fn lemma_shr_raw(x: u64, n: u64, i: u64)
    by (bit_vector)
    requires
        i < 64,
        n < 64,
    ensures
        ((x >> n) >> i) & 1u64 == 1u64 <==> (i + n < 64 && (x >> (i + n) as u64) & 1u64
            == 1u64),
{
}

proof fn lemma_single_raw(k: u64, i: u64)
    by (bit_vector)
    requires
        i < 64,
        k < 64,
    ensures
        ((1u64 << k) >> i) & 1u64 == 1u64 <==> i == k,
{
}

proof fn lemma_zero_raw(i: u64)
    by (bit_vector)
    requires
        i < 64,
    ensures
        !((0u64 >> i) & 1u64 == 1u64),
{
}

pub proof fn lemma_bit_and(x: u64, y: u64, i: int)
    ensures
        #[trigger] bit(x & y, i) == (bit(x, i) && bit(y, i)),
{
    if 0 <= i < 64 {
        lemma_and_raw(x, y, i as u64);
    }
}

pub proof fn lemma_bit_or(x: u64, y: u64, i: int)
    ensures
        #[trigger] bit(x | y, i) == (bit(x, i) || bit(y, i)),
{
    if 0 <= i < 64 {
        lemma_or_raw(x, y, i as u64);
    }
}

pub proof fn lemma_bit_not(x: u64, i: int)
    ensures
        #[trigger] bit(!x, i) == (0 <= i < 64 && !bit(x, i)),
{
    if 0 <= i < 64 {
        lemma_not_raw(x, i as u64);
    }
}

pub proof fn lemma_bit_shl(x: u64, n: u64, i: int)
    requires
        n < 64,
    ensures
        #[trigger] bit(x << n, i) == (i < 64 && bit(x, i - n)),
{
    if 0 <= i < 64 {
        lemma_shl_raw(x, n, i as u64);
    }
}

pub proof fn lemma_bit_shr(x: u64, n: u64, i: int)
    requires
        n < 64,
    ensures
        #[trigger] bit(x >> n, i) == (0 <= i && bit(x, i + n)),
{
    if 0 <= i < 64 {
        lemma_shr_raw(x, n, i as u64);
    }
}

pub proof fn lemma_bit_single(k: u64, i: int)
    requires
        k < 64,
    ensures
        #[trigger] bit(1u64 << k, i) == (i == k),
{
    if 0 <= i < 64 {
        lemma_single_raw(k, i as u64);
    }
}

pub proof fn lemma_bit_zero(i: int)
    ensures
        !bit(0u64, i),
{
    if 0 <= i < 64 {
        lemma_zero_raw(i as u64);
    }
}

/// A bitboard is nonzero exactly when it holds a cell; its lowest cell is its
/// number of trailing zeros.
pub proof fn lemma_nonzero(x: u64)
    ensures
        x != 0 <==> exists|i: int| bit(x, i),
        x != 0 ==> bit(x, vstd::std_specs::bits::u64_trailing_zeros(x) as int),
        x != 0 ==> forall|j: int|
            0 <= j < vstd::std_specs::bits::u64_trailing_zeros(x) ==> !#[trigger] bit(x, j),
{
    vstd::std_specs::bits::axiom_u64_trailing_zeros(x);
    if x == 0 {
        assert forall|i: int| !bit(x, i) by {
            lemma_bit_zero(i);
        }
    } else {
        let t = vstd::std_specs::bits::u64_trailing_zeros(x);
        assert(bit(x, t as int));
        assert forall|j: int| 0 <= j < t implies !#[trigger] bit(x, j) by {
            assert((x >> (j as u64)) & 1u64 == 0u64);
        }
    }
}

proof fn lemma_xor_raw(x: u64, y: u64, i: u64)
    by (bit_vector)
    requires
        i < 64,
    ensures
        ((x ^ y) >> i) & 1u64 == 1u64 <==> (((x >> i) & 1u64 == 1u64) != ((y >> i) & 1u64
            == 1u64)),
        x ^ y == 0u64 ==> x == y,
{
}

/// A bitboard is determined by its cells.
pub proof fn lemma_cells_injective(x: u64, y: u64)
    requires
        cells(x) == cells(y),
    ensures
        x == y,
{
    lemma_nonzero(x ^ y);
    if x ^ y != 0 {
        let i = choose|i: int| bit(x ^ y, i);
        lemma_xor_raw(x, y, i as u64);
        assert(bit(x, i) != bit(y, i));
        assert(cells(x).contains(i) == bit(x, i));
        assert(cells(y).contains(i) == bit(y, i));
    }
    lemma_xor_raw(x, y, 0);
}

/// The cells of a bitboard lie on the board, so there are at most 64 of them.
pub proof fn lemma_cells_finite(x: u64)
    ensures
        cells(x).subset_of(board_cells()),
        cells(x).finite(),
        cells(x).len() <= 64,
{
    vstd::set_lib::lemma_int_range(0, 64);
    vstd::set_lib::lemma_len_subset(cells(x), board_cells());
}

/// Relies on `u64::count_ones`: the number of one bits of `x`.
#[verifier::external_body]
pub fn count_ones(x: u64) -> (r: u32)
    ensures
        r as int == cells(x).len(),
{
    x.count_ones()
}

/// Relies on `u64::reverse_bits`: the lowest bit becomes the highest, the second
/// lowest the second highest, and so on.
#[verifier::external_body]
pub fn reverse_bits(x: u64) -> (r: u64)
    ensures
        forall|i: int| 0 <= i < 64 ==> #[trigger] bit(r, i) == bit(x, 63 - i),
{
    x.reverse_bits()
}

} // verus!
