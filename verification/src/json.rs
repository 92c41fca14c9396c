//! The pieces of JSON text that the wire formats are made of: fixed
//! punctuation, quoted strings, decimal numbers and arrays of bytes.
//!
//! Each piece has a spec function that says how a value is written, a spec
//! function that says how it is read at a position of the input, and a lemma
//! that reading what was written gives the value back. The executable
//! readers compute exactly what the reading spec functions say.

use crate::hex::{hex_digit, hex_digit_of, hex_value, hex_value_of};
use crate::text::{decimal_digits, digit_byte, is_digit, push_decimal};
use vstd::prelude::*;
use vstd::utf8::encode_utf8;

verus! {

/// The byte `"`.
pub const QUOTE: u8 = 0x22;

/// The byte `\`.
pub const BACKSLASH: u8 = 0x5c;

/// The byte `,`.
pub const COMMA: u8 = 0x2c;

/// The byte `[`.
pub const OPEN_BRACKET: u8 = 0x5b;

/// The byte `]`.
pub const CLOSE_BRACKET: u8 = 0x5d;

/// Whether `input` holds `piece` from position `pos` on.
pub open spec fn holds_at(input: Seq<u8>, pos: int, piece: Seq<u8>) -> bool {
    &&& 0 <= pos
    &&& pos + piece.len() <= input.len()
    &&& input.subrange(pos, pos + piece.len()) == piece
}

/// Where `input` from `pos` on is `piece` followed by `rest`, it holds
/// `piece` at `pos`, byte for byte, and `rest` follows it.
pub proof fn lemma_split(input: Seq<u8>, pos: int, piece: Seq<u8>, rest: Seq<u8>)
    requires
        0 <= pos <= input.len(),
        input.skip(pos) == piece + rest,
    ensures
        holds_at(input, pos, piece),
        pos + piece.len() + rest.len() == input.len(),
        input.skip(pos + piece.len()) == rest,
        forall|i: int| 0 <= i < piece.len() ==> input[pos + i] == #[trigger] piece[i],
        rest.len() > 0 ==> input[pos + piece.len()] == rest[0],
{
    let tail = input.skip(pos);
    assert(tail.len() == input.len() - pos);
    assert(tail.len() == piece.len() + rest.len());
    assert forall|i: int| 0 <= i < piece.len() implies input[pos + i] == #[trigger] piece[i] by {
        assert(tail[i] == input[pos + i]);
        assert((piece + rest)[i] == piece[i]);
    }
    assert(input.subrange(pos, pos + piece.len()) =~= piece);
    assert forall|i: int| 0 <= i < rest.len() implies input.skip(pos + piece.len())[i]
        == rest[i] by {
        assert(tail[piece.len() + i] == input[pos + piece.len() + i]);
        assert((piece + rest)[piece.len() + i] == rest[i]);
    }
    assert(input.skip(pos + piece.len()) =~= rest);
    if rest.len() > 0 {
        assert(input.skip(pos + piece.len())[0] == rest[0]);
    }
}

/// Appending is associative.
pub proof fn lemma_regroup(a: Seq<u8>, b: Seq<u8>, c: Seq<u8>)
    ensures
        (a + b) + c == a + (b + c),
{
    assert((a + b) + c =~= a + (b + c));
}

/// Three pieces appended one after the other to `o`.
pub proof fn lemma_join3(o: Seq<u8>, a: Seq<u8>, b: Seq<u8>, c: Seq<u8>)
    ensures
        ((o + a) + b) + c == o + (a + (b + c)),
{
    lemma_regroup(o + a, b, c);
    lemma_regroup(o, a, b + c);
}

/// Five pieces appended one after the other to `o`.
pub proof fn lemma_join5(o: Seq<u8>, a: Seq<u8>, b: Seq<u8>, c: Seq<u8>, d: Seq<u8>, e: Seq<u8>)
    ensures
        ((((o + a) + b) + c) + d) + e == o + (a + (b + (c + (d + e)))),
{
    lemma_join3((o + a) + b, c, d, e);
    lemma_join3(o, a, b, c + (d + e));
}

/// Seven pieces appended one after the other to `o`.
pub proof fn lemma_join7(
    o: Seq<u8>,
    a: Seq<u8>,
    b: Seq<u8>,
    c: Seq<u8>,
    d: Seq<u8>,
    e: Seq<u8>,
    f: Seq<u8>,
    g: Seq<u8>,
)
    ensures
        ((((((o + a) + b) + c) + d) + e) + f) + g == o + (a + (b + (c + (d + (e + (f + g)))))),
{
    lemma_join3((((o + a) + b) + c) + d, e, f, g);
    lemma_join5(o, a, b, c, d, e + (f + g));
}

/// A tail appended to three nested pieces goes into the innermost.
pub proof fn lemma_nest3(a: Seq<u8>, b: Seq<u8>, c: Seq<u8>, t: Seq<u8>)
    ensures
        (a + (b + c)) + t == a + (b + (c + t)),
{
    lemma_regroup(a, b + c, t);
    lemma_regroup(b, c, t);
}

/// A tail appended to five nested pieces goes into the innermost.
pub proof fn lemma_nest5(a: Seq<u8>, b: Seq<u8>, c: Seq<u8>, d: Seq<u8>, e: Seq<u8>, t: Seq<u8>)
    ensures
        (a + (b + (c + (d + e)))) + t == a + (b + (c + (d + (e + t)))),
{
    lemma_nest3(a, b, c + (d + e), t);
    lemma_nest3(c, d, e, t);
}

/// A tail appended to seven nested pieces goes into the innermost.
pub proof fn lemma_nest7(
    a: Seq<u8>,
    b: Seq<u8>,
    c: Seq<u8>,
    d: Seq<u8>,
    e: Seq<u8>,
    f: Seq<u8>,
    g: Seq<u8>,
    t: Seq<u8>,
)
    ensures
        (a + (b + (c + (d + (e + (f + g)))))) + t == a + (b + (c + (d + (e + (f + (g + t)))))),
{
    lemma_nest5(a, b, c, d, e + (f + g), t);
    lemma_nest3(e, f, g, t);
}

/// Appending one byte is appending the piece made of that byte.
pub proof fn lemma_push_is_append(o: Seq<u8>, b: u8)
    ensures
        o.push(b) == o + seq![b],
{
    assert(o.push(b) =~= o + seq![b]);
}

/// The position after `piece` if `input` holds it at `pos`.
pub open spec fn scan_literal(input: Seq<u8>, pos: int, piece: Seq<u8>) -> Option<int> {
    if holds_at(input, pos, piece) {
        Some(pos + piece.len())
    } else {
        None
    }
}

/// Reads the fixed text `piece` at `pos`.
pub fn read_literal(input: &[u8], pos: usize, piece: &[u8]) -> (end: Option<usize>)
    ensures
        match end {
            Some(e) => scan_literal(input@, pos as int, piece@) == Some(e as int) && pos <= e
                <= input@.len(),
            None => scan_literal(input@, pos as int, piece@) is None,
        },
{
    if pos > input.len() || piece.len() > input.len() - pos {
        return None;
    }
    let mut i: usize = 0;
    while i < piece.len()
        invariant
            pos + piece@.len() <= input@.len() <= usize::MAX,
            i <= piece@.len(),
            forall|j: int| 0 <= j < i ==> input@[pos + j] == piece@[j],
        decreases piece@.len() - i,
    {
        if input[pos + i] != piece[i] {
            proof {
                let k = i as int;
                if holds_at(input@, pos as int, piece@) {
                    assert(input@.subrange(pos as int, pos + piece@.len())[k] == piece@[k]);
                }
            }
            return None;
        }
        i += 1;
    }
    assert(input@.subrange(pos as int, pos + piece@.len()) =~= piece@);
    Some(pos + piece.len())
}

/// Whether two byte strings are the same.
pub fn same_bytes(a: &[u8], b: &[u8]) -> (same: bool)
    ensures
        same == (a@ == b@),
{
    if a.len() != b.len() {
        return false;
    }
    let mut i: usize = 0;
    while i < a.len()
        invariant
            a@.len() == b@.len(),
            i <= a@.len(),
            forall|j: int| 0 <= j < i ==> a@[j] == b@[j],
        decreases a@.len() - i,
    {
        if a[i] != b[i] {
            return false;
        }
        i += 1;
    }
    assert(a@ =~= b@);
    true
}

/// Appends the bytes of `piece` to `out`.
pub fn push_bytes(out: &mut Vec<u8>, piece: &[u8])
    ensures
        final(out)@ == old(out)@ + piece@,
{
    let mut i: usize = 0;
    while i < piece.len()
        invariant
            i <= piece@.len(),
            out@ == old(out)@ + piece@.take(i as int),
        decreases piece@.len() - i,
    {
        out.push(piece[i]);
        proof {
            assert(piece@.take(i as int + 1) =~= piece@.take(i as int).push(piece@[i as int]));
        }
        i += 1;
    }
    assert(piece@.take(piece@.len() as int) =~= piece@);
}

/// Appends the UTF-8 bytes of the text `piece` to `out`.
pub fn push_text(out: &mut Vec<u8>, piece: &str)
    ensures
        final(out)@ == old(out)@ + encode_utf8(piece@),
{
    push_bytes(out, piece.as_bytes());
}

// ---------------------------------------------------------------------
// Quoted strings
// ---------------------------------------------------------------------
/// How one byte of a string is written between the quotes: the quote, the
/// backslash and the control characters are escaped, all else stands as it
/// is.
pub open spec fn escape_byte(b: u8) -> Seq<u8> {
    if b == 0x22 {
        seq![0x5cu8, 0x22u8]
    } else if b == 0x5c {
        seq![0x5cu8, 0x5cu8]
    } else if b == 0x08 {
        seq![0x5cu8, 0x62u8]
    } else if b == 0x0c {
        seq![0x5cu8, 0x66u8]
    } else if b == 0x0a {
        seq![0x5cu8, 0x6eu8]
    } else if b == 0x0d {
        seq![0x5cu8, 0x72u8]
    } else if b == 0x09 {
        seq![0x5cu8, 0x74u8]
    } else if b < 0x20 {
        seq![0x5cu8, 0x75u8, 0x30u8, 0x30u8, hex_digit((b / 16) as nat), hex_digit((b % 16) as nat)]
    } else {
        seq![b]
    }
}

/// How the bytes of a string are written between the quotes.
pub open spec fn escape_bytes(s: Seq<u8>) -> Seq<u8>
    decreases s.len(),
{
    if s.len() == 0 {
        Seq::<u8>::empty()
    } else {
        escape_byte(s[0]) + escape_bytes(s.drop_first())
    }
}

/// The string with bytes `s`, written with its quotes.
pub open spec fn quoted(s: Seq<u8>) -> Seq<u8> {
    seq![QUOTE] + escape_bytes(s) + seq![QUOTE]
}

/// The text `text`, written as a quoted string in UTF-8.
pub open spec fn quoted_text(text: Seq<char>) -> Seq<u8> {
    quoted(encode_utf8(text))
}

/// Escaping goes byte by byte, so it distributes over appending one byte.
pub proof fn lemma_escape_push(s: Seq<u8>, b: u8)
    ensures
        escape_bytes(s.push(b)) == escape_bytes(s) + escape_byte(b),
    decreases s.len(),
{
    if s.len() == 0 {
        assert(s.push(b)[0] == b);
        assert(s.push(b).drop_first() =~= Seq::<u8>::empty());
        assert(escape_bytes(Seq::<u8>::empty()) =~= Seq::<u8>::empty());
        assert(escape_bytes(s.push(b)) =~= escape_byte(b) + Seq::<u8>::empty());
        assert(escape_bytes(s.push(b)) =~= escape_bytes(s) + escape_byte(b));
    } else {
        assert(s.push(b).drop_first() =~= s.drop_first().push(b));
        lemma_escape_push(s.drop_first(), b);
        assert(escape_bytes(s.push(b)) =~= escape_bytes(s) + escape_byte(b));
    }
}

/// A byte is written as six bytes at most.
pub proof fn lemma_escape_len(s: Seq<u8>)
    ensures
        s.len() <= escape_bytes(s).len() <= 6 * s.len(),
    decreases s.len(),
{
    if s.len() > 0 {
        lemma_escape_len(s.drop_first());
    }
}

/// The byte that stands, plain or escaped, at `pos`, and the position after
/// it. There is none at the end of the input, at a closing quote, and at a
/// backslash that starts no escape of the kinds written by [`escape_byte`].
pub open spec fn scan_string_byte(input: Seq<u8>, pos: int) -> Option<(u8, int)> {
    if pos < 0 || pos >= input.len() {
        None
    } else if input[pos] == 0x22 {
        None
    } else if input[pos] != 0x5c {
        Some((input[pos], pos + 1))
    } else if pos + 1 >= input.len() {
        None
    } else if input[pos + 1] == 0x22 {
        Some((0x22u8, pos + 2))
    } else if input[pos + 1] == 0x5c {
        Some((0x5cu8, pos + 2))
    } else if input[pos + 1] == 0x62 {
        Some((0x08u8, pos + 2))
    } else if input[pos + 1] == 0x66 {
        Some((0x0cu8, pos + 2))
    } else if input[pos + 1] == 0x6e {
        Some((0x0au8, pos + 2))
    } else if input[pos + 1] == 0x72 {
        Some((0x0du8, pos + 2))
    } else if input[pos + 1] == 0x74 {
        Some((0x09u8, pos + 2))
    } else if input[pos + 1] == 0x75 && pos + 5 < input.len() && input[pos + 2] == 0x30 && input[pos
        + 3] == 0x30 {
        match (hex_value(input[pos + 4]), hex_value(input[pos + 5])) {
            (Some(high), Some(low)) => Some(((high * 16 + low) as u8, pos + 6)),
            _ => None,
        }
    } else {
        None
    }
}

/// The bytes of the string whose first byte after the opening quote stands
/// at `pos`, and the position after its closing quote.
pub open spec fn scan_string_body(input: Seq<u8>, pos: int) -> Option<(Seq<u8>, int)>
    decreases input.len() - pos,
{
    if pos < 0 || pos >= input.len() {
        None
    } else if input[pos] == 0x22 {
        Some((Seq::<u8>::empty(), pos + 1))
    } else {
        match scan_string_byte(input, pos) {
            None => None,
            Some((b, next)) => if next <= pos {
                None
            } else {
                match scan_string_body(input, next) {
                    None => None,
                    Some((rest, end)) => Some((seq![b] + rest, end)),
                }
            },
        }
    }
}

/// The bytes of the quoted string that starts at `pos`, and the position
/// after it.
pub open spec fn scan_string(input: Seq<u8>, pos: int) -> Option<(Seq<u8>, int)> {
    if 0 <= pos < input.len() && input[pos] == 0x22 {
        scan_string_body(input, pos + 1)
    } else {
        None
    }
}

/// Reading one escaped byte gives the byte back.
pub proof fn lemma_scan_escaped_byte(input: Seq<u8>, pos: int, b: u8, rest: Seq<u8>)
    requires
        0 <= pos <= input.len(),
        input.skip(pos) == escape_byte(b) + rest,
    ensures
        input[pos] != 0x22,
        scan_string_byte(input, pos) == Some((b, pos + escape_byte(b).len())),
{
    lemma_split(input, pos, escape_byte(b), rest);
    let e = escape_byte(b);
    assert(input[pos + 0] == e[0]);
    if e.len() >= 2 {
        assert(input[pos + 1] == e[1]);
    }
    if e.len() == 6 {
        assert(input[pos + 2] == e[2]);
        assert(input[pos + 3] == e[3]);
        assert(input[pos + 4] == e[4]);
        assert(input[pos + 5] == e[5]);
        let high = (b / 16) as nat;
        let low = (b % 16) as nat;
        assert(hex_value(hex_digit(high)) == Some(high));
        assert(hex_value(hex_digit(low)) == Some(low));
        assert((high * 16 + low) as u8 == b);
    }
}

/// Reading the body of a written string gives its bytes back.
#[verifier::rlimit(40)]
pub proof fn lemma_scan_string_body(input: Seq<u8>, pos: int, s: Seq<u8>, rest: Seq<u8>)
    requires
        0 <= pos <= input.len(),
        input.skip(pos) == escape_bytes(s) + seq![QUOTE] + rest,
    ensures
        scan_string_body(input, pos) == Some((s, pos + escape_bytes(s).len() + 1)),
    decreases s.len(),
{
    if s.len() == 0 {
        assert(escape_bytes(s) + seq![QUOTE] + rest =~= seq![QUOTE] + rest);
        lemma_split(input, pos, seq![QUOTE], rest);
        assert(input[pos + 0] == seq![QUOTE][0]);
    } else {
        let head = escape_byte(s[0]);
        let tail = escape_bytes(s.drop_first());
        let after = tail + seq![QUOTE] + rest;
        assert(escape_bytes(s) + seq![QUOTE] + rest =~= head + after);
        lemma_scan_escaped_byte(input, pos, s[0], after);
        lemma_split(input, pos, head, after);
        lemma_scan_string_body(input, pos + head.len(), s.drop_first(), rest);
        assert(seq![s[0]] + s.drop_first() =~= s);
        assert(escape_bytes(s).len() == head.len() + tail.len());
    }
}

/// Reading a written string gives its bytes back, whatever follows it.
pub proof fn lemma_scan_quoted(input: Seq<u8>, pos: int, s: Seq<u8>, rest: Seq<u8>)
    requires
        0 <= pos <= input.len(),
        input.skip(pos) == quoted(s) + rest,
    ensures
        scan_string(input, pos) == Some((s, pos + quoted(s).len())),
        input.skip(pos + quoted(s).len()) == rest,
{
    let body = escape_bytes(s) + seq![QUOTE] + rest;
    assert(quoted(s) + rest =~= seq![QUOTE] + body);
    lemma_split(input, pos, seq![QUOTE], body);
    assert(input[pos + 0] == seq![QUOTE][0]);
    lemma_scan_string_body(input, pos + 1, s, rest);
    lemma_split(input, pos, quoted(s), rest);
}

/// Appends the string with bytes `s`, written with its quotes.
pub fn push_quoted(out: &mut Vec<u8>, s: &[u8])
    ensures
        final(out)@ == old(out)@ + quoted(s@),
{
    out.push(QUOTE);
    let mut i: usize = 0;
    assert(escape_bytes(s@.take(0)) =~= Seq::<u8>::empty());
    while i < s.len()
        invariant
            i <= s@.len(),
            out@ == old(out)@ + seq![QUOTE] + escape_bytes(s@.take(i as int)),
        decreases s@.len() - i,
    {
        let b = s[i];
        let ghost before = out@;
        if b == 0x22 {
            out.push(BACKSLASH);
            out.push(0x22);
        } else if b == 0x5c {
            out.push(BACKSLASH);
            out.push(0x5c);
        } else if b == 0x08 {
            out.push(BACKSLASH);
            out.push(0x62);
        } else if b == 0x0c {
            out.push(BACKSLASH);
            out.push(0x66);
        } else if b == 0x0a {
            out.push(BACKSLASH);
            out.push(0x6e);
        } else if b == 0x0d {
            out.push(BACKSLASH);
            out.push(0x72);
        } else if b == 0x09 {
            out.push(BACKSLASH);
            out.push(0x74);
        } else if b < 0x20 {
            out.push(BACKSLASH);
            out.push(0x75);
            out.push(0x30);
            out.push(0x30);
            out.push(hex_digit_of(b / 16));
            out.push(hex_digit_of(b % 16));
        } else {
            out.push(b);
        }
        proof {
            assert(out@ =~= before + escape_byte(b));
            assert(s@.take(i as int + 1) =~= s@.take(i as int).push(b));
            lemma_escape_push(s@.take(i as int), b);
            assert(out@ =~= old(out)@ + seq![QUOTE] + escape_bytes(s@.take(i as int + 1)));
        }
        i += 1;
    }
    assert(s@.take(s@.len() as int) =~= s@);
    out.push(QUOTE);
    assert(out@ =~= old(out)@ + quoted(s@));
}

/// Reads the byte that stands, plain or escaped, at `pos`.
fn read_string_byte(input: &[u8], pos: usize) -> (found: Option<(u8, usize)>)
    ensures
        match found {
            Some((b, next)) => scan_string_byte(input@, pos as int) == Some((b, next as int))
                && pos < next <= input@.len(),
            None => scan_string_byte(input@, pos as int) is None,
        },
{
    if pos >= input.len() {
        return None;
    }
    let first = input[pos];
    if first == 0x22 {
        return None;
    }
    if first != 0x5c {
        return Some((first, pos + 1));
    }
    if input.len() - pos < 2 {
        return None;
    }
    let second = input[pos + 1];
    if second == 0x22 {
        Some((0x22, pos + 2))
    } else if second == 0x5c {
        Some((0x5c, pos + 2))
    } else if second == 0x62 {
        Some((0x08, pos + 2))
    } else if second == 0x66 {
        Some((0x0c, pos + 2))
    } else if second == 0x6e {
        Some((0x0a, pos + 2))
    } else if second == 0x72 {
        Some((0x0d, pos + 2))
    } else if second == 0x74 {
        Some((0x09, pos + 2))
    } else if second == 0x75 && input.len() - pos >= 6 && input[pos + 2] == 0x30 && input[pos + 3]
        == 0x30 {
        match (hex_value_of(input[pos + 4]), hex_value_of(input[pos + 5])) {
            (Some(high), Some(low)) => Some((high * 16 + low, pos + 6)),
            _ => None,
        }
    } else {
        None
    }
}

/// Reads the quoted string that starts at `pos`.
pub fn read_string(input: &[u8], pos: usize) -> (found: Option<(Vec<u8>, usize)>)
    ensures
        match found {
            Some((s, end)) => scan_string(input@, pos as int) == Some((s@, end as int)) && pos
                < end <= input@.len(),
            None => scan_string(input@, pos as int) is None,
        },
{
    if pos >= input.len() || input[pos] != QUOTE {
        return None;
    }
    let mut out: Vec<u8> = Vec::new();
    let mut at: usize = pos + 1;
    loop
        invariant
            pos < at <= input@.len(),
            scan_string(input@, pos as int) == match scan_string_body(input@, at as int) {
                Some((rest, end)) => Some((out@ + rest, end)),
                None => None,
            },
        decreases input@.len() - at,
    {
        if at >= input.len() {
            return None;
        }
        if input[at] == QUOTE {
            assert(out@ + Seq::<u8>::empty() =~= out@);
            return Some((out, at + 1));
        }
        match read_string_byte(input, at) {
            None => {
                return None;
            },
            Some((b, next)) => {
                proof {
                    let ghost before = out@;
                    match scan_string_body(input@, next as int) {
                        Some((rest, end)) => {
                            assert(before + (seq![b] + rest) =~= before.push(b) + rest);
                        },
                        None => {},
                    }
                }
                out.push(b);
                at = next;
            },
        }
    }
}

// ---------------------------------------------------------------------
// Decimal numbers
// ---------------------------------------------------------------------
/// The number read so far is `acc`; the digits from `pos` on are read into
/// it, up to the first byte that is no digit.
pub open spec fn scan_digits(input: Seq<u8>, pos: int, acc: nat) -> (nat, int)
    decreases input.len() - pos,
{
    if 0 <= pos < input.len() && is_digit(input[pos]) {
        scan_digits(input, pos + 1, acc * 10 + (input[pos] - 48) as nat)
    } else {
        (acc, pos)
    }
}

/// The number whose digits start at `pos`, and the position after them.
pub open spec fn scan_decimal(input: Seq<u8>, pos: int) -> Option<(nat, int)> {
    if 0 <= pos < input.len() && is_digit(input[pos]) {
        Some(scan_digits(input, pos, 0))
    } else {
        None
    }
}

/// The number that the digits `digits` add to the number `acc` read before
/// them.
pub open spec fn digits_onto(acc: nat, digits: Seq<u8>) -> nat
    decreases digits.len(),
{
    if digits.len() == 0 {
        acc
    } else {
        digits_onto(acc * 10 + (digits[0] - 48) as nat, digits.drop_first())
    }
}

proof fn lemma_digits_onto_push(acc: nat, digits: Seq<u8>, d: u8)
    ensures
        digits_onto(acc, digits.push(d)) == digits_onto(acc, digits) * 10 + (d - 48) as nat,
    decreases digits.len(),
{
    if digits.len() == 0 {
        assert(digits.push(d).drop_first() =~= Seq::<u8>::empty());
        assert(digits_onto(acc * 10 + (d - 48) as nat, Seq::<u8>::empty()) == acc * 10 + (d
            - 48) as nat);
    } else {
        assert(digits.push(d).drop_first() =~= digits.drop_first().push(d));
        lemma_digits_onto_push(acc * 10 + (digits[0] - 48) as nat, digits.drop_first(), d);
    }
}

/// The decimal digits of a number read back give the number.
pub proof fn lemma_digits_onto_decimal(n: nat)
    ensures
        digits_onto(0, decimal_digits(n)) == n,
    decreases n,
{
    if n < 10 {
        assert(decimal_digits(n).drop_first() =~= Seq::<u8>::empty());
        assert(digits_onto(n, Seq::<u8>::empty()) == n);
    } else {
        lemma_digits_onto_decimal(n / 10);
        lemma_digits_onto_push(0, decimal_digits(n / 10), digit_byte(n % 10));
    }
}

/// The number only grows while digits are read.
pub proof fn lemma_scan_digits_grows(input: Seq<u8>, pos: int, acc: nat)
    ensures
        scan_digits(input, pos, acc).0 >= acc,
        scan_digits(input, pos, acc).1 >= pos,
        scan_digits(input, pos, acc).1 <= input.len() || pos > input.len(),
    decreases input.len() - pos,
{
    if 0 <= pos < input.len() && is_digit(input[pos]) {
        lemma_scan_digits_grows(input, pos + 1, acc * 10 + (input[pos] - 48) as nat);
    }
}

proof fn lemma_scan_digits_run(input: Seq<u8>, pos: int, acc: nat, digits: Seq<u8>, rest: Seq<u8>)
    requires
        0 <= pos <= input.len(),
        input.skip(pos) == digits + rest,
        forall|i: int| 0 <= i < digits.len() ==> is_digit(#[trigger] digits[i]),
        rest.len() == 0 || !is_digit(rest[0]),
    ensures
        scan_digits(input, pos, acc) == (digits_onto(acc, digits), pos + digits.len()),
    decreases digits.len(),
{
    lemma_split(input, pos, digits, rest);
    if digits.len() == 0 {
        if rest.len() > 0 {
            assert(input[pos] == rest[0]);
        }
    } else {
        assert(input[pos + 0] == digits[0]);
        assert(digits + rest =~= seq![digits[0]] + (digits.drop_first() + rest));
        lemma_split(input, pos, seq![digits[0]], digits.drop_first() + rest);
        assert forall|i: int| 0 <= i < digits.drop_first().len() implies is_digit(
            #[trigger] digits.drop_first()[i],
        ) by {
            assert(digits.drop_first()[i] == digits[i + 1]);
        }
        lemma_scan_digits_run(
            input,
            pos + 1,
            acc * 10 + (digits[0] - 48) as nat,
            digits.drop_first(),
            rest,
        );
    }
}

/// Reading a written number gives the number back, where no digit follows
/// it.
pub proof fn lemma_scan_decimal(input: Seq<u8>, pos: int, n: nat, rest: Seq<u8>)
    requires
        0 <= pos <= input.len(),
        input.skip(pos) == decimal_digits(n) + rest,
        rest.len() == 0 || !is_digit(rest[0]),
    ensures
        scan_decimal(input, pos) == Some((n, pos + decimal_digits(n).len())),
        input.skip(pos + decimal_digits(n).len()) == rest,
{
    crate::text::lemma_decimal_digits_are_digits(n);
    lemma_split(input, pos, decimal_digits(n), rest);
    assert(input[pos + 0] == decimal_digits(n)[0]);
    lemma_scan_digits_run(input, pos, 0, decimal_digits(n), rest);
    lemma_digits_onto_decimal(n);
}

/// Reads the number whose digits start at `pos`, if it is at most `max`.
pub fn read_decimal(input: &[u8], pos: usize, max: u64) -> (found: Option<(u64, usize)>)
    ensures
        match found {
            Some((n, end)) => scan_decimal(input@, pos as int) == Some((n as nat, end as int))
                && n <= max && pos < end <= input@.len(),
            None => match scan_decimal(input@, pos as int) {
                Some((n, end)) => n > max,
                None => true,
            },
        },
{
    if pos >= input.len() || !(48 <= input[pos] && input[pos] <= 57) {
        return None;
    }
    let mut acc: u64 = 0;
    let mut at: usize = pos;
    while at < input.len() && 48 <= input[at] && input[at] <= 57
        invariant
            pos <= at <= input@.len(),
            acc <= max,
            at == pos ==> acc == 0,
            scan_digits(input@, pos as int, 0) == scan_digits(input@, at as int, acc as nat),
        decreases input@.len() - at,
    {
        let digit = (input[at] - 48) as u64;
        if digit > max {
            proof {
                lemma_scan_digits_grows(input@, at as int + 1, (acc * 10 + digit) as nat);
            }
            return None;
        }
        if acc > (max - digit) / 10 {
            proof {
                assert(acc * 10 + digit > max) by (nonlinear_arith)
                    requires
                        acc > (max - digit) / 10,
                        digit <= max,
                        digit < 10,
                ;
                lemma_scan_digits_grows(input@, at as int + 1, (acc * 10 + digit) as nat);
            }
            return None;
        }
        assert(acc * 10 + digit <= max) by (nonlinear_arith)
            requires
                acc <= (max - digit) / 10,
                digit <= max,
        ;
        acc = acc * 10 + digit;
        at += 1;
    }
    Some((acc, at))
}

// ---------------------------------------------------------------------
// Arrays of bytes
// ---------------------------------------------------------------------
/// The numbers of `data` in decimal, with a comma between neighbours.
pub open spec fn byte_items(data: Seq<u8>) -> Seq<u8>
    decreases data.len(),
{
    if data.len() == 0 {
        Seq::<u8>::empty()
    } else if data.len() == 1 {
        decimal_digits(data[0] as nat)
    } else {
        decimal_digits(data[0] as nat) + seq![COMMA] + byte_items(data.drop_first())
    }
}

/// The array of the numbers of `data`, written with its brackets.
pub open spec fn byte_array(data: Seq<u8>) -> Seq<u8> {
    seq![OPEN_BRACKET] + byte_items(data) + seq![CLOSE_BRACKET]
}

/// The numbers of the array whose first number starts at `pos`, and the
/// position after its closing bracket.
pub open spec fn scan_byte_items(input: Seq<u8>, pos: int) -> Option<(Seq<u8>, int)>
    decreases input.len() - pos,
{
    match scan_decimal(input, pos) {
        None => None,
        Some((n, end)) => if n > 255 || end <= pos || end >= input.len() {
            None
        } else if input[end] == COMMA {
            match scan_byte_items(input, end + 1) {
                None => None,
                Some((rest, last)) => Some((seq![n as u8] + rest, last)),
            }
        } else if input[end] == CLOSE_BRACKET {
            Some((seq![n as u8], end + 1))
        } else {
            None
        },
    }
}

/// The numbers of the array that starts at `pos`, and the position after it.
pub open spec fn scan_byte_array(input: Seq<u8>, pos: int) -> Option<(Seq<u8>, int)> {
    if 0 <= pos && pos + 1 < input.len() && input[pos] == OPEN_BRACKET {
        if input[pos + 1] == CLOSE_BRACKET {
            Some((Seq::<u8>::empty(), pos + 2))
        } else {
            scan_byte_items(input, pos + 1)
        }
    } else {
        None
    }
}

#[verifier::rlimit(40)]
proof fn lemma_scan_byte_items(input: Seq<u8>, pos: int, data: Seq<u8>, rest: Seq<u8>)
    requires
        0 <= pos <= input.len(),
        data.len() > 0,
        input.skip(pos) == byte_items(data) + seq![CLOSE_BRACKET] + rest,
    ensures
        scan_byte_items(input, pos) == Some((data, pos + byte_items(data).len() + 1)),
    decreases data.len(),
{
    let first = decimal_digits(data[0] as nat);
    crate::text::lemma_decimal_digits_are_digits(data[0] as nat);
    if data.len() == 1 {
        let after = seq![CLOSE_BRACKET] + rest;
        assert(byte_items(data) + seq![CLOSE_BRACKET] + rest =~= first + after);
        lemma_scan_decimal(input, pos, data[0] as nat, after);
        lemma_split(input, pos, first, after);
        assert(seq![data[0]] =~= data);
    } else {
        let tail = byte_items(data.drop_first());
        let after = seq![COMMA] + (tail + seq![CLOSE_BRACKET] + rest);
        assert(byte_items(data) + seq![CLOSE_BRACKET] + rest =~= first + after);
        lemma_scan_decimal(input, pos, data[0] as nat, after);
        lemma_split(input, pos, first, after);
        lemma_split(input, pos + first.len(), seq![COMMA], tail + seq![CLOSE_BRACKET] + rest);
        lemma_scan_byte_items(input, pos + first.len() + 1, data.drop_first(), rest);
        assert(seq![data[0]] + data.drop_first() =~= data);
        assert(byte_items(data).len() == first.len() + 1 + tail.len());
    }
}

/// Reading a written array gives its numbers back, whatever follows it.
#[verifier::rlimit(40)]
pub proof fn lemma_scan_byte_array(input: Seq<u8>, pos: int, data: Seq<u8>, rest: Seq<u8>)
    requires
        0 <= pos <= input.len(),
        input.skip(pos) == byte_array(data) + rest,
    ensures
        scan_byte_array(input, pos) == Some((data, pos + byte_array(data).len())),
        input.skip(pos + byte_array(data).len()) == rest,
{
    let body = byte_items(data) + seq![CLOSE_BRACKET] + rest;
    assert(byte_array(data) + rest =~= seq![OPEN_BRACKET] + body);
    lemma_split(input, pos, seq![OPEN_BRACKET], body);
    assert(input[pos + 0] == seq![OPEN_BRACKET][0]);
    lemma_split(input, pos, byte_array(data), rest);
    if data.len() == 0 {
        assert(body =~= seq![CLOSE_BRACKET] + rest);
        assert(input[pos + 1] == body[0]);
    } else {
        crate::text::lemma_decimal_digits_are_digits(data[0] as nat);
        assert(byte_items(data)[0] == decimal_digits(data[0] as nat)[0]);
        assert(input[pos + 1] == body[0]);
        lemma_scan_byte_items(input, pos + 1, data, rest);
    }
}

/// Appends the array of the numbers of `data`, written with its brackets.
pub fn push_byte_array(out: &mut Vec<u8>, data: &[u8])
    ensures
        final(out)@ == old(out)@ + byte_array(data@),
{
    out.push(OPEN_BRACKET);
    let mut items: Vec<u8> = Vec::new();
    let mut k: usize = 0;
    assert(data@.take(0) =~= Seq::<u8>::empty());
    while k < data.len()
        invariant
            k <= data@.len(),
            items@ == byte_items_forward(data@.take(k as int)),
        decreases data@.len() - k,
    {
        if k > 0 {
            items.push(COMMA);
        }
        push_decimal(&mut items, data[k] as u64);
        proof {
            assert(data@.take(k as int + 1) =~= data@.take(k as int).push(data@[k as int]));
            assert(data@.take(k as int + 1).drop_last() =~= data@.take(k as int));
        }
        k += 1;
    }
    proof {
        assert(data@.take(data@.len() as int) =~= data@);
        lemma_byte_items_forward(data@);
    }
    push_bytes(out, items.as_slice());
    out.push(CLOSE_BRACKET);
    assert(out@ =~= old(out)@ + byte_array(data@));
}

/// The items of an array, as a writer that goes from the front produces
/// them: each number after the first is preceded by a comma.
pub open spec fn byte_items_forward(data: Seq<u8>) -> Seq<u8>
    decreases data.len(),
{
    if data.len() == 0 {
        Seq::<u8>::empty()
    } else if data.len() == 1 {
        decimal_digits(data[0] as nat)
    } else {
        byte_items_forward(data.drop_last()) + seq![COMMA] + decimal_digits(data.last() as nat)
    }
}

#[verifier::rlimit(40)]
proof fn lemma_byte_items_forward(data: Seq<u8>)
    ensures
        byte_items_forward(data) == byte_items(data),
    decreases data.len(),
{
    if data.len() <= 1 {
    } else if data.len() == 2 {
        assert(data.drop_first() =~= seq![data[1]]);
        assert(data.drop_last() =~= seq![data[0]]);
        assert(byte_items(data.drop_first()) == decimal_digits(data[1] as nat));
        assert(byte_items_forward(data.drop_last()) == decimal_digits(data[0] as nat));
    } else {
        let mid = data.drop_first().drop_last();
        lemma_byte_items_forward(data.drop_last());
        lemma_byte_items_forward(data.drop_first());
        lemma_byte_items_forward(mid);
        assert(data.drop_last().drop_first() =~= mid);
        assert(data.drop_last()[0] == data[0]);
        assert(data.drop_first().last() == data.last());
        assert(byte_items(data.drop_last()) == decimal_digits(data[0] as nat) + seq![COMMA]
            + byte_items(mid));
        assert(byte_items_forward(data.drop_first()) == byte_items_forward(mid) + seq![COMMA]
            + decimal_digits(data.last() as nat));
        assert(byte_items_forward(data) =~= byte_items(data));
    }
}

/// Reads the array of bytes that starts at `pos`.
pub fn read_byte_array(input: &[u8], pos: usize) -> (found: Option<(Vec<u8>, usize)>)
    ensures
        match found {
            Some((data, end)) => scan_byte_array(input@, pos as int) == Some((data@, end as int))
                && pos < end <= input@.len(),
            None => scan_byte_array(input@, pos as int) is None,
        },
{
    if input.len() < 2 || pos >= input.len() - 1 || input[pos] != OPEN_BRACKET {
        return None;
    }
    if input[pos + 1] == CLOSE_BRACKET {
        return Some((Vec::new(), pos + 2));
    }
    let mut out: Vec<u8> = Vec::new();
    let mut at: usize = pos + 1;
    loop
        invariant
            pos < at <= input@.len(),
            scan_byte_array(input@, pos as int) == match scan_byte_items(input@, at as int) {
                Some((rest, end)) => Some((out@ + rest, end)),
                None => None,
            },
        decreases input@.len() - at,
    {
        match read_decimal(input, at, 255) {
            None => {
                return None;
            },
            Some((n, end)) => {
                if end >= input.len() {
                    return None;
                }
                let ghost before = out@;
                if input[end] == COMMA {
                    proof {
                        match scan_byte_items(input@, end as int + 1) {
                            Some((rest, last)) => {
                                assert(before + (seq![n as u8] + rest) =~= before.push(n as u8)
                                    + rest);
                            },
                            None => {},
                        }
                    }
                    out.push(n as u8);
                    at = end + 1;
                } else if input[end] == CLOSE_BRACKET {
                    out.push(n as u8);
                    assert(before + seq![n as u8] =~= out@);
                    return Some((out, end + 1));
                } else {
                    return None;
                }
            },
        }
    }
}

} // verus!
