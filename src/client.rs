use vstd::prelude::*;
use vstd::string::StrSliceExecFns;

verus! {

/// A message of the game server.
pub enum Command {
    Open(String),
    Start(String, String, String),
    Move(String),
    Ack(u64),
    End(String, u32, u32, String),
    Bye(String),
}

/// Where a client stands in its exchange with the server.
pub enum ClientState {
    CardWaiting,
    MyTurn,
    OpponentTurn,
    AckWaiting,
    Ended,
}

/// Whether `c` is white space in the Unicode sense, as `char::is_whitespace` decides.
pub uninterp spec fn whitespace(c: char) -> bool;

/// Relies on `char::is_whitespace`: whether the character has the Unicode
/// White_Space property.
#[verifier::external_body]
fn is_whitespace(c: char) -> (r: bool)
    ensures
        r == whitespace(c),
{
    c.is_whitespace()
}

/// The words of `s` that follow a word `current` still open, after the words `done`.
pub open spec fn words_from(s: Seq<char>, current: Seq<char>, done: Seq<Seq<char>>) -> Seq<Seq<char>>
    decreases s.len(),
{
    let closed = if current.len() > 0 {
        done.push(current)
    } else {
        done
    };
    if s.len() == 0 {
        closed
    } else if whitespace(s[0]) {
        words_from(s.drop_first(), seq![], closed)
    } else {
        words_from(s.drop_first(), current.push(s[0]), done)
    }
}

/// The words of `s`: its longest runs of characters that are not white space, in order.
pub open spec fn words(s: Seq<char>) -> Seq<Seq<char>> {
    words_from(s, seq![], seq![])
}

/// The words of `s`, split at white space.
fn split_words(s: &str) -> (r: Vec<String>)
    ensures
        r@.len() == words(s@).len(),
        forall|k: int| 0 <= k < r@.len() ==> (#[trigger] r@[k])@ == words(s@)[k],
{
    let len = s.unicode_len();
    let mut result: Vec<String> = Vec::new();
    let mut start: usize = 0;
    let mut i: usize = 0;
    proof {
        assert(s@.subrange(0, len as int) =~= s@);
        assert(s@.subrange(0, 0) =~= Seq::<char>::empty());
        assert(result@.map_values(|w: String| w@) =~= Seq::<Seq<char>>::empty());
    }
    while i < len
        invariant
            len == s@.len(),
            start <= i <= len,
            words_from(s@.subrange(i as int, len as int), s@.subrange(start as int, i as int), result@.map_values(|w: String| w@)) == words(s@),
        decreases len - i,
    {
        let c = s.get_char(i);
        let ghost rest = s@.subrange(i as int, len as int);
        proof {
            assert(rest[0] == c);
            assert(rest.drop_first() =~= s@.subrange(i + 1, len as int));
        }
        if is_whitespace(c) {
            if start < i {
                let word = s.substring_char(start, i).to_owned();
                let ghost before = result@;
                result.push(word);
                proof {
                    assert(result@.map_values(|w: String| w@) =~= before.map_values(|w: String| w@).push(s@.subrange(start as int, i as int)));
                }
            }
            start = i + 1;
            proof {
                assert(s@.subrange(start as int, (i + 1) as int) =~= seq![]);
            }
        } else {
            proof {
                assert(s@.subrange(start as int, i as int).push(c) =~= s@.subrange(start as int, (i + 1) as int));
            }
        }
        i = i + 1;
    }
    if start < len {
        let word = s.substring_char(start, len).to_owned();
        let ghost before = result@;
        result.push(word);
        proof {
            assert(result@.map_values(|w: String| w@) =~= before.map_values(|w: String| w@).push(s@.subrange(start as int, len as int)));
        }
    }
    proof {
        assert(s@.subrange(len as int, len as int) =~= seq![]);
        assert(result@.map_values(|w: String| w@) =~= words(s@));
    }
    result
}

/// The value of a run of decimal digits.
pub open spec fn digits_value(s: Seq<char>) -> int
    decreases s.len(),
{
    if s.len() == 0 {
        0
    } else {
        digits_value(s.drop_last()) * 10 + (s.last() as int - '0' as int)
    }
}

pub open spec fn all_digits(s: Seq<char>) -> bool {
    forall|i: int| 0 <= i < s.len() ==> '0' <= #[trigger] s[i] <= '9'
}

/// The number that `s` writes in decimal, with an optional leading '+', when it is
/// at most `max`, as `str::parse` reads unsigned integers.
pub open spec fn decimal(s: Seq<char>, max: int) -> Option<int> {
    let d = if s.len() > 0 && s[0] == '+' {
        s.drop_first()
    } else {
        s
    };
    if d.len() > 0 && all_digits(d) && digits_value(d) <= max {
        Some(digits_value(d))
    } else {
        None
    }
}

proof fn lemma_digits_grow(s: Seq<char>, k: int)
    requires
        all_digits(s),
        0 <= k <= s.len(),
    ensures
        0 <= digits_value(s.subrange(0, k)) <= digits_value(s),
    decreases s.len(),
{
    if k == s.len() {
        assert(s.subrange(0, k) =~= s);
        if s.len() > 0 {
            lemma_digits_grow(s.drop_last(), 0);
        }
    } else {
        assert(all_digits(s.drop_last()));
        lemma_digits_grow(s.drop_last(), k);
        assert(s.drop_last().subrange(0, k) =~= s.subrange(0, k));
    }
}

/// Reads a decimal number of at most `max`.
fn parse_decimal(s: &str, max: u64) -> (r: Option<u64>)
    ensures
        r matches Some(v) ==> decimal(s@, max as int) == Some(v as int),
        r is None ==> decimal(s@, max as int) is None,
{
    let len = s.unicode_len();
    let mut i: usize = 0;
    if len > 0 && s.get_char(0) == '+' {
        i = 1;
    }
    let ghost d = if s@.len() > 0 && s@[0] == '+' {
        s@.drop_first()
    } else {
        s@
    };
    proof {
        assert(d =~= s@.subrange(i as int, len as int));
    }
    if i >= len {
        return None;
    }
    let first = i;
    let mut value: u64 = 0;
    while i < len
        invariant
            len == s@.len(),
            first < len,
            first <= i <= len,
            d =~= s@.subrange(first as int, len as int),
            d == (if s@.len() > 0 && s@[0] == '+' {
                s@.drop_first()
            } else {
                s@
            }),
            all_digits(d.subrange(0, i - first)),
            value as int == digits_value(d.subrange(0, i - first)),
            value <= max,
        decreases len - i,
    {
        let c = s.get_char(i);
        proof {
            assert(d[i - first] == c);
            assert(d.subrange(0, i - first + 1).drop_last() =~= d.subrange(0, i - first));
        }
        if (c as u32) < ('0' as u32) || ('9' as u32) < (c as u32) {
            proof {
                assert(!('0' <= d[i - first] <= '9'));
                assert(!all_digits(d));
            }
            return None;
        }
        let digit = (c as u32 - '0' as u32) as u64;
        if digit > max || value > (max - digit) / 10 {
            proof {
                assert(value * 10 + digit > max) by (nonlinear_arith)
                    requires
                        digit > max || value > (max - digit) / 10,
                        value >= 0,
                ;
                let longer = d.subrange(0, i - first + 1);
                assert(longer.last() == c);
                assert(digits_value(longer) == digits_value(longer.drop_last()) * 10 + digit);
                assert(digits_value(longer) > max);
                if all_digits(d) {
                    lemma_digits_grow(d, i - first + 1);
                }
            }
            return None;
        }
        proof {
            assert(value * 10 + digit <= max) by (nonlinear_arith)
                requires
                    value <= (max - digit) / 10,
                    digit <= max,
            ;
        }
        value = value * 10 + digit;
        i = i + 1;
    }
    proof {
        assert(d.subrange(0, len - first) =~= d);
    }
    Some(value)
}

/// Whether the characters of two strings agree.
fn same_chars(a: &str, b: &str) -> (r: bool)
    ensures
        r == (a@ == b@),
{
    let len = a.unicode_len();
    if len != b.unicode_len() {
        return false;
    }
    let mut i: usize = 0;
    while i < len
        invariant
            len == a@.len() == b@.len(),
            i <= len,
            forall|k: int| 0 <= k < i ==> a@[k] == b@[k],
        decreases len - i,
    {
        if a.get_char(i) != b.get_char(i) {
            return false;
        }
        i = i + 1;
    }
    proof {
        assert(a@ =~= b@);
    }
    true
}

pub open spec fn word_open() -> Seq<char> {
    seq!['O', 'P', 'E', 'N']
}

pub open spec fn word_ack() -> Seq<char> {
    seq!['A', 'C', 'K']
}

pub open spec fn word_end() -> Seq<char> {
    seq!['E', 'N', 'D']
}

pub open spec fn word_start() -> Seq<char> {
    seq!['S', 'T', 'A', 'R', 'T']
}

pub open spec fn word_move() -> Seq<char> {
    seq!['M', 'O', 'V', 'E']
}

pub open spec fn word_bye() -> Seq<char> {
    seq!['B', 'Y', 'E']
}

/// The words of a message, without its final line break.
pub open spec fn message_words(mes: Seq<char>) -> Seq<Seq<char>> {
    words(mes.drop_last())
}

/// A message that the server may send: a line of at least two words, whose first
/// word names the message and fixes how many words follow, with numbers where the
/// message has them.
pub open spec fn well_formed(mes: Seq<char>) -> bool {
    let w = message_words(mes);
    &&& mes.len() > 0 && mes.last() == '\n'
    &&& w.len() > 1
    &&& (w[0] == word_open() || w[0] == word_move()) ==> w.len() == 2
    &&& w[0] == word_ack() ==> w.len() == 2 && decimal(w[1], u64::MAX as int) is Some
    &&& w[0] == word_end() ==> w.len() == 5 && decimal(w[2], u32::MAX as int) is Some && decimal(
        w[3],
        u32::MAX as int,
    ) is Some
    &&& w[0] == word_start() ==> w.len() == 4
    &&& w[0] == word_bye() ==> mes.len() - 1 > 4
    &&& w[0] == word_open() || w[0] == word_move() || w[0] == word_ack() || w[0] == word_end()
        || w[0] == word_start() || w[0] == word_bye()
}

/// The command that a well-formed message reads as. An OPEN line is read as a move.
pub open spec fn reads_as(mes: Seq<char>, r: Command) -> bool {
    let w = message_words(mes);
    if w[0] == word_open() || w[0] == word_move() {
        r matches Command::Move(m) && m@ == w[1]
    } else if w[0] == word_ack() {
        r matches Command::Ack(t) && decimal(w[1], u64::MAX as int) == Some(t as int)
    } else if w[0] == word_end() {
        r matches Command::End(a, n, m, b) && a@ == w[1] && decimal(w[2], u32::MAX as int) == Some(
            n as int,
        ) && decimal(w[3], u32::MAX as int) == Some(m as int) && b@ == w[4]
    } else if w[0] == word_start() {
        r matches Command::Start(a, b, c) && a@ == w[1] && b@ == w[2] && c@ == w[3]
    } else {
        r matches Command::Bye(t) && t@ == mes.subrange(4, mes.len() - 1)
    }
}

/// Whether `mes` is a message that `mes_to_command` reads.
pub fn is_well_formed(mes: &String) -> (r: bool)
    ensures
        r == well_formed(mes@),
{
    let s = mes.as_str();
    let len = s.unicode_len();
    if len == 0 || s.get_char(len - 1) != '\n' {
        return false;
    }
    let body = s.substring_char(0, len - 1);
    proof {
        assert(body@ =~= mes@.drop_last());
    }
    let w = split_words(body);
    if w.len() <= 1 {
        return false;
    }
    let head = w[0].as_str();
    proof {
        reveal_strlit("OPEN");
        reveal_strlit("MOVE");
        reveal_strlit("ACK");
        reveal_strlit("END");
        reveal_strlit("START");
        reveal_strlit("BYE");
        assert("OPEN"@ =~= word_open());
        assert("MOVE"@ =~= word_move());
        assert("ACK"@ =~= word_ack());
        assert("END"@ =~= word_end());
        assert("START"@ =~= word_start());
        assert("BYE"@ =~= word_bye());
    }
    if same_chars(head, "OPEN") || same_chars(head, "MOVE") {
        w.len() == 2
    } else if same_chars(head, "ACK") {
        w.len() == 2 && parse_decimal(w[1].as_str(), u64::MAX).is_some()
    } else if same_chars(head, "END") {
        w.len() == 5 && parse_decimal(w[2].as_str(), u32::MAX as u64).is_some() && parse_decimal(
            w[3].as_str(),
            u32::MAX as u64,
        ).is_some()
    } else if same_chars(head, "START") {
        w.len() == 4
    } else if same_chars(head, "BYE") {
        len - 1 > 4
    } else {
        false
    }
}

/// Reads a line of the server, line break included, as a command.
pub fn mes_to_command(mes: &String) -> (r: Command)
    requires
        well_formed(mes@),
    ensures
        reads_as(mes@, r),
{
    let s = mes.as_str();
    let len = s.unicode_len();
    let body = s.substring_char(0, len - 1);
    proof {
        assert(body@ =~= mes@.drop_last());
        reveal_strlit("OPEN");
        reveal_strlit("MOVE");
        reveal_strlit("ACK");
        reveal_strlit("END");
        reveal_strlit("START");
        assert("OPEN"@ =~= word_open());
        assert("MOVE"@ =~= word_move());
        assert("ACK"@ =~= word_ack());
        assert("END"@ =~= word_end());
        assert("START"@ =~= word_start());
    }
    let parsed_mes = split_words(body);
    let head = parsed_mes[0].as_str();
    if same_chars(head, "OPEN") {
        Command::Move(parsed_mes[1].clone())
    } else if same_chars(head, "ACK") {
        let time = parse_decimal(parsed_mes[1].as_str(), u64::MAX).unwrap();
        Command::Ack(time)
    } else if same_chars(head, "END") {
        let n = parse_decimal(parsed_mes[2].as_str(), u32::MAX as u64).unwrap();
        let m = parse_decimal(parsed_mes[3].as_str(), u32::MAX as u64).unwrap();
        Command::End(parsed_mes[1].clone(), n as u32, m as u32, parsed_mes[4].clone())
    } else if same_chars(head, "START") {
        Command::Start(parsed_mes[1].clone(), parsed_mes[2].clone(), parsed_mes[3].clone())
    } else if same_chars(head, "MOVE") {
        Command::Move(parsed_mes[1].clone())
    } else {
        Command::Bye(s.substring_char(4, len - 1).to_owned())
    }
}

/// Reads a line of the server as a command, or none when it is malformed.
pub fn read_message(mes: &String) -> (r: Option<Command>)
    ensures
        r is None <==> !well_formed(mes@),
        r matches Some(c) ==> reads_as(mes@, c),
{
    if is_well_formed(mes) {
        Some(mes_to_command(mes))
    } else {
        None
    }
}

} // verus!
