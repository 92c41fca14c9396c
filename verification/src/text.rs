//! Building blocks for text: decimal numbers and the few operations on
//! `String` that the library needs from std.

use vstd::prelude::*;
use vstd::utf8::*;

verus! {

/// The ASCII digit for `d`, where `d` is below ten.
pub open spec fn digit_byte(d: nat) -> u8 {
    (48 + d) as u8
}

/// The decimal digits of `n` as ASCII bytes, most significant first, without
/// leading zeros.
pub open spec fn decimal_digits(n: nat) -> Seq<u8>
    decreases n,
{
    if n < 10 {
        seq![digit_byte(n)]
    } else {
        decimal_digits(n / 10).push(digit_byte(n % 10))
    }
}

/// The bytes of `bytes` read as characters, one character per byte.
pub open spec fn ascii_text(bytes: Seq<u8>) -> Seq<char> {
    Seq::new(bytes.len(), |i: int| bytes[i] as char)
}

/// The decimal digits of `n` as text.
pub open spec fn decimal_text(n: nat) -> Seq<char> {
    ascii_text(decimal_digits(n))
}

/// Whether `b` is an ASCII decimal digit.
pub open spec fn is_digit(b: u8) -> bool {
    48 <= b <= 57
}

/// The digits of `n` when `n` is not zero, and nothing when it is.
pub open spec fn leading_digits(n: nat) -> Seq<u8> {
    if n == 0 {
        Seq::<u8>::empty()
    } else {
        decimal_digits(n)
    }
}

/// A number is its leading part followed by its last digit.
pub proof fn lemma_decimal_digits_step(n: nat)
    ensures
        decimal_digits(n) == leading_digits(n / 10).push(digit_byte(n % 10)),
{
    if n < 10 {
        assert(n / 10 == 0);
        assert(n % 10 == n);
        assert(decimal_digits(n) =~= Seq::<u8>::empty().push(digit_byte(n)));
    } else {
        assert(n / 10 != 0);
    }
}

/// Every byte of a decimal rendering is a digit, and there is at least one.
pub proof fn lemma_decimal_digits_are_digits(n: nat)
    ensures
        decimal_digits(n).len() >= 1,
        forall|i: int| 0 <= i < decimal_digits(n).len() ==> is_digit(#[trigger] decimal_digits(n)[i]),
    decreases n,
{
    if n >= 10 {
        lemma_decimal_digits_are_digits(n / 10);
    }
}

/// Appends the decimal digits of `value` to `out`.
pub fn push_decimal(out: &mut Vec<u8>, value: u64)
    ensures
        final(out)@ == old(out)@ + decimal_digits(value as nat),
{
    let mut reversed: Vec<u8> = Vec::new();
    let mut rest: u64 = value;
    reversed.push(48u8 + (rest % 10) as u8);
    rest = rest / 10;
    proof {
        lemma_decimal_digits_step(value as nat);
        assert(decimal_digits(value as nat) =~= leading_digits(rest as nat) + reversed@.reverse());
    }
    while rest > 0
        invariant
            decimal_digits(value as nat) == leading_digits(rest as nat) + reversed@.reverse(),
        decreases rest,
    {
        let ghost before = reversed@;
        let ghost prior = rest;
        reversed.push(48u8 + (rest % 10) as u8);
        rest = rest / 10;
        proof {
            lemma_decimal_digits_step(prior as nat);
            assert(reversed@.reverse() =~= seq![digit_byte((prior % 10) as nat)]
                + before.reverse());
            assert(leading_digits(prior as nat) + before.reverse() =~= leading_digits(rest as nat)
                + reversed@.reverse());
        }
    }
    let mut i: usize = reversed.len();
    let ghost start = out@;
    while i > 0
        invariant
            i <= reversed@.len(),
            out@ == start + reversed@.reverse().take(reversed@.len() - i),
        decreases i,
    {
        i -= 1;
        out.push(reversed[i]);
        proof {
            let r = reversed@.reverse();
            let k = reversed@.len() - i;
            assert(r.take(k) =~= r.take(k - 1).push(r[k - 1]));
            assert(r[k - 1] == reversed@[i as int]);
            assert(out@ =~= start + r.take(k));
        }
    }
    proof {
        let r = reversed@.reverse();
        assert(r.take(r.len() as int) =~= r);
        assert(leading_digits(0) + r =~= r);
    }
}

/// `String::push`: the string grows by the one character.
#[verifier::external_body]
pub(crate) fn push_char(text: &mut String, c: char)
    ensures
        final(text)@ == old(text)@.push(c),
{
    text.push(c);
}

/// `String::from_utf8`: the text that `bytes` encode in UTF-8, or nothing
/// where they are not UTF-8.
#[verifier::external_body]
pub(crate) fn string_from_utf8(bytes: Vec<u8>) -> (text: Option<String>)
    ensures
        match text {
            Some(t) => valid_utf8(bytes@) && t@ == decode_utf8(bytes@),
            None => !valid_utf8(bytes@),
        },
{
    String::from_utf8(bytes).ok()
}

/// Appends one character for each byte of `bytes`: the character with the
/// number of the byte.
pub fn push_ascii(text: &mut String, bytes: &Vec<u8>)
    ensures
        final(text)@ == old(text)@ + ascii_text(bytes@),
{
    let mut i: usize = 0;
    while i < bytes.len()
        invariant
            i <= bytes@.len(),
            text@ == old(text)@ + ascii_text(bytes@.take(i as int)),
        decreases bytes@.len() - i,
    {
        push_char(text, bytes[i] as char);
        proof {
            assert(bytes@.take(i as int + 1) =~= bytes@.take(i as int).push(bytes@[i as int]));
            assert(ascii_text(bytes@.take(i as int + 1)) =~= ascii_text(bytes@.take(i as int)).push(
                bytes@[i as int] as char,
            ));
        }
        i += 1;
    }
    assert(bytes@.take(bytes@.len() as int) =~= bytes@);
}

/// Appends the decimal digits of `value` to `text`.
pub fn push_decimal_text(text: &mut String, value: u64)
    ensures
        final(text)@ == old(text)@ + decimal_text(value as nat),
{
    let mut digits: Vec<u8> = Vec::new();
    push_decimal(&mut digits, value);
    assert(digits@ =~= decimal_digits(value as nat));
    push_ascii(text, &digits);
}

} // verus!
