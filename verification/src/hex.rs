//! Bytes as lower-case hexadecimal digits, two digits for each byte.

use crate::json::lemma_split;
use vstd::prelude::*;

verus! {

/// The lower-case hexadecimal digit for `n`, where `n` is below sixteen.
pub open spec fn hex_digit(n: nat) -> u8 {
    if n < 10 {
        (48 + n) as u8
    } else {
        (87 + n) as u8
    }
}

/// The number that the lower-case hexadecimal digit `b` stands for.
pub open spec fn hex_value(b: u8) -> Option<nat> {
    if 48 <= b <= 57 {
        Some((b - 48) as nat)
    } else if 97 <= b <= 102 {
        Some((b - 87) as nat)
    } else {
        None
    }
}

/// The lower-case hexadecimal digit for `n`.
pub(crate) fn hex_digit_of(n: u8) -> (b: u8)
    requires
        n < 16,
    ensures
        b == hex_digit(n as nat),
        hex_value(b) == Some(n as nat),
{
    if n < 10 {
        48 + n
    } else {
        87 + n
    }
}

/// The number that the lower-case hexadecimal digit `b` stands for.
pub fn hex_value_of(b: u8) -> (n: Option<u8>)
    ensures
        match n {
            Some(v) => hex_value(b) == Some(v as nat) && v < 16,
            None => hex_value(b) is None,
        },
{
    if 48 <= b && b <= 57 {
        Some(b - 48)
    } else if 97 <= b && b <= 102 {
        Some(b - 87)
    } else {
        None
    }
}

/// The two hexadecimal digits of `b`.
pub open spec fn hex_pair(b: u8) -> Seq<u8> {
    seq![hex_digit((b / 16) as nat), hex_digit((b % 16) as nat)]
}

/// The hexadecimal digits of `data`, two for each byte.
pub open spec fn hex_bytes(data: Seq<u8>) -> Seq<u8>
    decreases data.len(),
{
    if data.len() == 0 {
        Seq::<u8>::empty()
    } else {
        hex_pair(data[0]) + hex_bytes(data.drop_first())
    }
}

/// The byte whose two hexadecimal digits stand at `pos`.
pub open spec fn scan_hex_pair(input: Seq<u8>, pos: int) -> Option<u8> {
    if 0 <= pos && pos + 1 < input.len() {
        match (hex_value(input[pos]), hex_value(input[pos + 1])) {
            (Some(high), Some(low)) => Some((high * 16 + low) as u8),
            _ => None,
        }
    } else {
        None
    }
}

/// The `count` bytes whose hexadecimal digits stand at `pos`.
pub open spec fn scan_hex_bytes(input: Seq<u8>, pos: int, count: nat) -> Option<Seq<u8>>
    decreases count,
{
    if count == 0 {
        Some(Seq::<u8>::empty())
    } else {
        match scan_hex_pair(input, pos) {
            None => None,
            Some(b) => match scan_hex_bytes(input, pos + 2, (count - 1) as nat) {
                None => None,
                Some(rest) => Some(seq![b] + rest),
            },
        }
    }
}

proof fn lemma_hex_bytes_push(data: Seq<u8>, b: u8)
    ensures
        hex_bytes(data.push(b)) == hex_bytes(data) + hex_pair(b),
    decreases data.len(),
{
    if data.len() == 0 {
        assert(data.push(b)[0] == b);
        assert(data.push(b).drop_first() =~= Seq::<u8>::empty());
        assert(hex_bytes(Seq::<u8>::empty()) =~= Seq::<u8>::empty());
        assert(hex_bytes(data.push(b)) =~= hex_pair(b) + Seq::<u8>::empty());
        assert(hex_bytes(data.push(b)) =~= hex_bytes(data) + hex_pair(b));
    } else {
        assert(data.push(b).drop_first() =~= data.drop_first().push(b));
        lemma_hex_bytes_push(data.drop_first(), b);
        assert(hex_bytes(data.push(b)) =~= hex_bytes(data) + hex_pair(b));
    }
}

/// Reading written hexadecimal bytes gives the bytes back, whatever follows.
pub proof fn lemma_scan_hex_bytes(input: Seq<u8>, pos: int, data: Seq<u8>, rest: Seq<u8>)
    requires
        0 <= pos <= input.len(),
        input.skip(pos) == hex_bytes(data) + rest,
    ensures
        scan_hex_bytes(input, pos, data.len()) == Some(data),
        hex_bytes(data).len() == 2 * data.len(),
        input.skip(pos + 2 * data.len()) == rest,
    decreases data.len(),
{
    if data.len() == 0 {
        assert(hex_bytes(data) + rest =~= rest);
        assert(input.skip(pos + 0) =~= input.skip(pos));
    } else {
        let head = hex_pair(data[0]);
        let after = hex_bytes(data.drop_first()) + rest;
        assert(hex_bytes(data) + rest =~= head + after);
        lemma_split(input, pos, head, after);
        assert(input[pos + 0] == head[0]);
        assert(input[pos + 1] == head[1]);
        let high = (data[0] / 16) as nat;
        let low = (data[0] % 16) as nat;
        assert(hex_value(hex_digit(high)) == Some(high));
        assert(hex_value(hex_digit(low)) == Some(low));
        assert((high * 16 + low) as u8 == data[0]);
        lemma_scan_hex_bytes(input, pos + 2, data.drop_first(), rest);
        assert(seq![data[0]] + data.drop_first() =~= data);
        assert(input.skip(pos + 2 + 2 * data.drop_first().len()) =~= input.skip(
            pos + 2 * data.len(),
        ));
    }
}

/// Appends the hexadecimal digits of `data`.
pub fn push_hex(out: &mut Vec<u8>, data: &[u8])
    ensures
        final(out)@ == old(out)@ + hex_bytes(data@),
{
    let mut i: usize = 0;
    assert(data@.take(0) =~= Seq::<u8>::empty());
    while i < data.len()
        invariant
            i <= data@.len(),
            out@ == old(out)@ + hex_bytes(data@.take(i as int)),
        decreases data@.len() - i,
    {
        let b = data[i];
        let ghost before = out@;
        out.push(hex_digit_of(b / 16));
        out.push(hex_digit_of(b % 16));
        proof {
            assert(out@ =~= before + hex_pair(b));
            assert(data@.take(i as int + 1) =~= data@.take(i as int).push(b));
            lemma_hex_bytes_push(data@.take(i as int), b);
        }
        i += 1;
    }
    assert(data@.take(data@.len() as int) =~= data@);
}

/// Reads the `count` bytes whose hexadecimal digits stand at `pos`.
pub fn read_hex(input: &[u8], pos: usize, count: usize) -> (found: Option<Vec<u8>>)
    ensures
        match found {
            Some(data) => scan_hex_bytes(input@, pos as int, count as nat) == Some(data@)
                && data@.len() == count && (count > 0 ==> pos + 2 * count <= input@.len()),
            None => scan_hex_bytes(input@, pos as int, count as nat) is None,
        },
{
    let mut out: Vec<u8> = Vec::new();
    let mut at: usize = pos;
    let mut left: usize = count;
    while left > 0
        invariant
            left < count ==> at <= input@.len(),
            at == pos + 2 * (count - left),
            out@.len() == count - left,
            left <= count,
            scan_hex_bytes(input@, pos as int, count as nat) == match scan_hex_bytes(
                input@,
                at as int,
                left as nat,
            ) {
                Some(rest) => Some(out@ + rest),
                None => None,
            },
        decreases left,
    {
        if at > input.len() || input.len() - at < 2 {
            return None;
        }
        let b = match (hex_value_of(input[at]), hex_value_of(input[at + 1])) {
            (Some(high), Some(low)) => high * 16 + low,
            _ => {
                return None;
            },
        };
        proof {
            let ghost before = out@;
            match scan_hex_bytes(input@, at as int + 2, (left - 1) as nat) {
                Some(rest) => {
                    assert(before + (seq![b] + rest) =~= before.push(b) + rest);
                },
                None => {},
            }
        }
        out.push(b);
        at += 2;
        left -= 1;
    }
    assert(out@ + Seq::<u8>::empty() =~= out@);
    Some(out)
}

/// Two hexadecimal digits stand for every byte.
pub proof fn lemma_hex_bytes_len(data: Seq<u8>)
    ensures
        hex_bytes(data).len() == 2 * data.len(),
    decreases data.len(),
{
    if data.len() > 0 {
        lemma_hex_bytes_len(data.drop_first());
    }
}

} // verus!
