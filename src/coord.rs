use vstd::prelude::*;
use vstd::string::StrSliceExecFns;
use vstd::std_specs::bits::u64_trailing_zeros;
use crate::bits::{bit, lemma_bit_single, lemma_nonzero};

verus! {

/// The character `k` places after `c`.
pub open spec fn char_after(c: char, k: int) -> char {
    (c as int + k) as char
}

/// The cell that a two-character command names, file letter from `a` (A-H or a-h)
/// then rank digit 1-8, as a single-cell bitboard; 0 for anything else. Characters
/// after the first two are ignored.
pub open spec fn pos_of_command(s: Seq<char>, a: char) -> u64 {
    if s.len() >= 2 && a as int <= s[0] as int <= a as int + 7 && '1' as int <= s[1] as int
        <= '8' as int {
        1u64 << ((s[0] as int - a as int) + 8 * (s[1] as int - '1' as int)) as u64
    } else {
        0
    }
}

/// The command that names the lowest cell of `pos`: file letter A-H, rank digit 1-8.
/// For 0 the rank is the digit after 8.
pub open spec fn command_of(pos: u64) -> Seq<char> {
    let t = u64_trailing_zeros(pos) as int;
    seq![char_after('A', t % 8), char_after('1', t / 8)]
}

proof fn lemma_shift_raw(x: u64, y: u64)
    by (bit_vector)
    requires
        x < 8,
        y < 8,
    ensures
        (1u64 << x) << (y * 8) == 1u64 << (x + 8 * y),
{
}

fn parse_cell(cmd: &str, a: char) -> (r: u64)
    requires
        'a' as int == a as int || 'A' as int == a as int,
    ensures
        r == pos_of_command(cmd@, a),
{
    let mut pos: u64 = 1;
    let len = cmd.unicode_len();
    if len < 1 {
        return 0;
    }
    let first = cmd.get_char(0);
    if (first as u32) < (a as u32) || (a as u32) + 7 < (first as u32) {
        return 0;
    }
    let x = (first as u32 - a as u32) as u64;
    pos = pos << x;
    if len < 2 {
        return 0;
    }
    let second = cmd.get_char(1);
    if (second as u32) < ('1' as u32) || ('8' as u32) < (second as u32) {
        return 0;
    }
    let y = (second as u32 - '1' as u32) as u64;
    proof {
        lemma_shift_raw(x, y);
    }
    pos = pos << (y * 8);
    pos
}

/// Reads a command such as "D3" (upper-case file letter) as a single-cell bitboard;
/// 0 when it is malformed.
pub fn cmd_to_pos(cmd: String) -> (r: u64)
    ensures
        r == pos_of_command(cmd@, 'A'),
{
    parse_cell(cmd.as_str(), 'A')
}

/// Reads a command such as "d3" (lower-case file letter), as game records write them.
pub fn lower_cmd_to_pos(cmd: String) -> (r: u64)
    ensures
        r == pos_of_command(cmd@, 'a'),
{
    parse_cell(cmd.as_str(), 'a')
}

/// Relies on `format!` with two `char` arguments: the string of the two characters.
#[verifier::external_body]
fn two_chars(first: char, second: char) -> (r: String)
    ensures
        r@ == seq![first, second],
{
    format!("{}{}", first, second)
}

/// Names the lowest cell of `pos` as a command such as "D3".
pub fn pos_to_cmd(pos: &u64) -> (r: String)
    ensures
        r@ == command_of(*pos),
{
    let pos_index = pos.trailing_zeros();
    proof {
        vstd::std_specs::bits::axiom_u64_trailing_zeros(*pos);
    }
    let first = ((pos_index % 8) as u8 + 'A' as u8) as char;
    let second = ((pos_index / 8) as u8 + '1' as u8) as char;
    two_chars(first, second)
}

/// Naming a move and reading the name back gives the move, for each of the 64
/// single-cell moves and for the empty move.
pub proof fn lemma_command_round_trip(m: u64, k: u64)
    requires
        k < 64,
        m == 0 || m == 1u64 << k,
    ensures
        pos_of_command(command_of(m), 'A') == m,
{
    vstd::std_specs::bits::axiom_u64_trailing_zeros(m);
    let t = u64_trailing_zeros(m) as int;
    if m != 0 {
        lemma_nonzero(m);
        lemma_bit_single(k, t);
        assert(t == k);
        lemma_shift_raw((k % 8) as u64, (k / 8) as u64);
        assert(command_of(m)[0] as int == 'A' as int + k % 8);
        assert(command_of(m)[1] as int == '1' as int + k / 8);
    } else {
        assert(command_of(m)[1] as int == '1' as int + 8);
    }
}

/// Reading a well-formed command and naming the cell gives the command back.
pub proof fn lemma_pos_round_trip(s: Seq<char>)
    requires
        s.len() == 2,
        'A' as int <= s[0] as int <= 'H' as int,
        '1' as int <= s[1] as int <= '8' as int,
    ensures
        command_of(pos_of_command(s, 'A')) == s,
{
    let x = s[0] as int - 'A' as int;
    let y = s[1] as int - '1' as int;
    let k = x + 8 * y;
    let m = pos_of_command(s, 'A');
    lemma_shift_raw(x as u64, y as u64);
    assert(m == 1u64 << (k as u64));
    lemma_command_round_trip(m, k as u64);
    vstd::std_specs::bits::axiom_u64_trailing_zeros(m);
    lemma_bit_single(k as u64, u64_trailing_zeros(m) as int);
    lemma_bit_single(k as u64, k);
    lemma_nonzero(m);
    assert(bit(m, k));
    assert(u64_trailing_zeros(m) == k);
    assert(command_of(m) =~= s);
}

} // verus!
