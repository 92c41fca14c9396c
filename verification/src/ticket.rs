//! Connection tickets: what one device hands to another, out of band, so
//! that the other can connect to it.
//!
//! A ticket names a peer and, optionally, socket addresses at which to reach
//! it. As text it is the base64 form of one JSON object without white space:
//!
//! ```text
//! {"node_id":"<64 hexadecimal digits>","addresses":["192.168.1.7:4433","[fe80:...:0001]:4433"]}
//! ```
//!
//! An IPv4 address is written in dotted decimal. An IPv6 address is written
//! in full, as eight groups of four lower-case hexadecimal digits between
//! square brackets. Reading accepts exactly what writing produces.

use crate::hex::{hex_bytes, lemma_hex_bytes_len, lemma_scan_hex_bytes, push_hex, read_hex, scan_hex_bytes};
use crate::json::{
    escape_bytes, lemma_escape_len, lemma_join3, lemma_join5, lemma_push_is_append,
    lemma_regroup, lemma_scan_decimal, lemma_scan_quoted, lemma_split, push_quoted, push_text,
    quoted, read_decimal, read_literal, read_string, same_bytes, scan_literal, scan_string,
};
use crate::peer::PeerId;
use crate::text::{decimal_digits, lemma_decimal_digits_are_digits, push_decimal};
use crate::wire::{fixed, scan_number, EncodingError};
use base64::Engine;
use vstd::prelude::*;

verus! {

/// A socket address: an IPv4 or IPv6 address, as its octets in network
/// order, and a port.
#[derive(Clone, Copy, Debug, PartialEq, Eq)]
#[allow(inconsistent_fields)]
pub enum SocketAddress {
    V4 { octets: [u8; 4], port: u16 },
    V6 { octets: [u8; 16], port: u16 },
}

/// Mathematical value of a [`SocketAddress`].
#[allow(inconsistent_fields)]
pub enum AddressView {
    V4 { octets: Seq<u8>, port: u16 },
    V6 { octets: Seq<u8>, port: u16 },
}

impl AddressView {
    /// An IPv4 address has four octets, an IPv6 address sixteen.
    pub open spec fn wf(self) -> bool {
        match self {
            AddressView::V4 { octets, port } => octets.len() == 4,
            AddressView::V6 { octets, port } => octets.len() == 16,
        }
    }
}

impl View for SocketAddress {
    type V = AddressView;

    open spec fn view(&self) -> AddressView {
        match self {
            SocketAddress::V4 { octets, port } => AddressView::V4 { octets: octets@, port: *port },
            SocketAddress::V6 { octets, port } => AddressView::V6 { octets: octets@, port: *port },
        }
    }
}

/// What a device needs to connect to a peer: its identity and, where known,
/// addresses at which it listens. Without addresses the peer is found by
/// discovery.
#[derive(Debug, PartialEq, Eq)]
pub struct ConnectionTicket {
    pub node_id: PeerId,
    pub addresses: Vec<SocketAddress>,
}

/// Mathematical value of a [`ConnectionTicket`].
pub struct TicketView {
    pub node_id: Seq<u8>,
    pub addresses: Seq<AddressView>,
}

impl TicketView {
    /// The identity has 32 bytes and every address is well formed.
    pub open spec fn wf(self) -> bool {
        &&& self.node_id.len() == 32
        &&& forall|i: int| 0 <= i < self.addresses.len() ==> (#[trigger] self.addresses[i]).wf()
    }
}

/// The views of `addresses`, in order.
pub open spec fn address_views(addresses: Seq<SocketAddress>) -> Seq<AddressView> {
    Seq::new(addresses.len(), |i: int| addresses[i]@)
}

impl View for ConnectionTicket {
    type V = TicketView;

    open spec fn view(&self) -> TicketView {
        TicketView { node_id: self.node_id@, addresses: address_views(self.addresses@) }
    }
}

impl Clone for ConnectionTicket {
    fn clone(&self) -> (copy: ConnectionTicket)
        ensures
            copy@ == self@,
    {
        let mut addresses: Vec<SocketAddress> = Vec::new();
        let mut i: usize = 0;
        while i < self.addresses.len()
            invariant
                i <= self.addresses@.len(),
                addresses@ == self.addresses@.take(i as int),
            decreases self.addresses@.len() - i,
        {
            addresses.push(self.addresses[i]);
            proof {
                assert(self.addresses@.take(i as int + 1) =~= self.addresses@.take(i as int).push(
                    self.addresses@[i as int],
                ));
            }
            i += 1;
        }
        assert(self.addresses@.take(self.addresses@.len() as int) =~= self.addresses@);
        ConnectionTicket { node_id: self.node_id, addresses }
    }
}

/// Why a text is no ticket.
#[derive(Clone, Copy, Debug, PartialEq, Eq, Structural)]
pub enum InvalidTicket {
    /// The text is not base64.
    NotBase64,
    /// The text is base64, but not of the JSON form of a ticket.
    NotATicket,
}

// ---------------------------------------------------------------------
// Addresses
// ---------------------------------------------------------------------
/// The byte `.`.
pub const DOT: u8 = 0x2e;

/// The byte `:`.
pub const COLON: u8 = 0x3a;

/// The groups of an IPv6 address: four hexadecimal digits for every two
/// octets, with a colon between neighbours.
pub open spec fn hex_groups(octets: Seq<u8>) -> Seq<u8>
    decreases octets.len(),
{
    if octets.len() <= 2 {
        hex_bytes(octets)
    } else {
        hex_bytes(octets.take(2)) + (seq![COLON] + hex_groups(octets.skip(2)))
    }
}

/// The octets of an IPv4 address in decimal, with a dot between neighbours.
pub open spec fn dotted(octets: Seq<u8>) -> Seq<u8>
    decreases octets.len(),
{
    if octets.len() == 0 {
        Seq::<u8>::empty()
    } else if octets.len() == 1 {
        decimal_digits(octets[0] as nat)
    } else {
        decimal_digits(octets[0] as nat) + (seq![DOT] + dotted(octets.drop_first()))
    }
}

/// An address as text: `a.b.c.d:port` or `[g:g:g:g:g:g:g:g]:port`.
pub open spec fn address_text(address: AddressView) -> Seq<u8> {
    match address {
        AddressView::V4 { octets, port } => dotted(octets) + (seq![COLON] + decimal_digits(
            port as nat,
        )),
        AddressView::V6 { octets, port } => seq![0x5bu8] + (hex_groups(octets) + (seq![0x5du8] + (
        seq![COLON] + decimal_digits(port as nat)))),
    }
}

/// The octets of the `count` groups that stand at `pos`, and the position
/// after them.
pub open spec fn scan_hex_groups(input: Seq<u8>, pos: int, count: nat) -> Option<(Seq<u8>, int)>
    decreases count,
{
    match scan_hex_bytes(input, pos, 2) {
        None => None,
        Some(pair) => if count <= 1 {
            Some((pair, pos + 4))
        } else if pos + 4 < input.len() && input[pos + 4] == COLON {
            match scan_hex_groups(input, pos + 5, (count - 1) as nat) {
                None => None,
                Some((rest, end)) => Some((pair + rest, end)),
            }
        } else {
            None
        },
    }
}

/// The `count` octets that stand in dotted decimal at `pos`, and the
/// position after them.
pub open spec fn scan_dotted(input: Seq<u8>, pos: int, count: nat) -> Option<(Seq<u8>, int)>
    decreases count,
{
    match scan_number(input, pos, 255) {
        None => None,
        Some((n, end)) => if count <= 1 {
            Some((seq![n as u8], end))
        } else if 0 <= end < input.len() && input[end] == DOT {
            match scan_dotted(input, end + 1, (count - 1) as nat) {
                None => None,
                Some((rest, last)) => Some((seq![n as u8] + rest, last)),
            }
        } else {
            None
        },
    }
}

/// The port that stands after a colon at `pos`, where it is all that is
/// left of the input.
pub open spec fn scan_port(input: Seq<u8>, pos: int) -> Option<u16> {
    if 0 <= pos < input.len() && input[pos] == COLON {
        match scan_number(input, pos + 1, 65535) {
            None => None,
            Some((port, end)) => if end == input.len() {
                Some(port as u16)
            } else {
                None
            },
        }
    } else {
        None
    }
}

/// The IPv4 address with port that `text` is.
pub open spec fn parse_v4(text: Seq<u8>) -> Option<AddressView> {
    match scan_dotted(text, 0, 4) {
        None => None,
        Some((octets, end)) => match scan_port(text, end) {
            None => None,
            Some(port) => Some(AddressView::V4 { octets, port }),
        },
    }
}

/// The IPv6 address with port that `text` is.
pub open spec fn parse_v6(text: Seq<u8>) -> Option<AddressView> {
    if text.len() > 0 && text[0] == 0x5b {
        match scan_hex_groups(text, 1, 8) {
            None => None,
            Some((octets, p1)) => if 0 <= p1 < text.len() && text[p1] == 0x5d {
                match scan_port(text, p1 + 1) {
                    None => None,
                    Some(port) => Some(AddressView::V6 { octets, port }),
                }
            } else {
                None
            },
        }
    } else {
        None
    }
}

/// The address that `text` is.
pub open spec fn parse_address(text: Seq<u8>) -> Option<AddressView> {
    if text.len() > 0 && text[0] == 0x5b {
        parse_v6(text)
    } else {
        parse_v4(text)
    }
}

proof fn lemma_scan_port(input: Seq<u8>, pos: int, port: u16)
    requires
        0 <= pos <= input.len(),
        input.skip(pos) == seq![COLON] + decimal_digits(port as nat),
    ensures
        scan_port(input, pos) == Some(port),
{
    let digits = decimal_digits(port as nat);
    lemma_split(input, pos, seq![COLON], digits);
    assert(input[pos + 0] == seq![COLON][0]);
    assert(digits + Seq::<u8>::empty() =~= digits);
    lemma_scan_decimal(input, pos + 1, port as nat, Seq::<u8>::empty());
    lemma_split(input, pos + 1, digits, Seq::<u8>::empty());
}

#[verifier::rlimit(40)]
proof fn lemma_scan_dotted(input: Seq<u8>, pos: int, octets: Seq<u8>, rest: Seq<u8>)
    requires
        0 <= pos <= input.len(),
        octets.len() >= 1,
        input.skip(pos) == dotted(octets) + rest,
        rest.len() > 0 && rest[0] == COLON,
    ensures
        scan_dotted(input, pos, octets.len()) matches Some((found, end)) && found == octets && 0
            <= end <= input.len() && input.skip(end) == rest,
    decreases octets.len(),
{
    let first = decimal_digits(octets[0] as nat);
    if octets.len() == 1 {
        lemma_scan_decimal(input, pos, octets[0] as nat, rest);
        lemma_split(input, pos, first, rest);
        assert(seq![octets[0]] =~= octets);
    } else {
        let tail = octets.drop_first();
        let after = seq![DOT] + (dotted(tail) + rest);
        lemma_regroup(seq![DOT], dotted(tail), rest);
        lemma_regroup(first, seq![DOT] + dotted(tail), rest);
        assert(after[0] == DOT);
        lemma_scan_decimal(input, pos, octets[0] as nat, after);
        lemma_split(input, pos, first, after);
        lemma_split(input, pos + first.len(), seq![DOT], dotted(tail) + rest);
        lemma_scan_dotted(input, pos + first.len() + 1, tail, rest);
        assert(seq![octets[0]] + tail =~= octets);
    }
}

#[verifier::rlimit(40)]
proof fn lemma_parse_v4(octets: Seq<u8>, port: u16)
    requires
        octets.len() == 4,
    ensures
        parse_v4(address_text(AddressView::V4 { octets, port })) == Some(
            AddressView::V4 { octets, port },
        ),
        address_text(AddressView::V4 { octets, port }).len() > 0,
        address_text(AddressView::V4 { octets, port })[0] != 0x5b,
{
    let text = address_text(AddressView::V4 { octets, port });
    let rest = seq![COLON] + decimal_digits(port as nat);
    assert(text.skip(0) =~= text);
    assert(rest[0] == COLON);
    lemma_scan_dotted(text, 0, octets, rest);
    let end = scan_dotted(text, 0, 4).unwrap().1;
    lemma_scan_port(text, end, port);
    lemma_decimal_digits_are_digits(octets[0] as nat);
    assert(dotted(octets)[0] == decimal_digits(octets[0] as nat)[0]);
    assert(text[0] == dotted(octets)[0]);
}

#[verifier::rlimit(40)]
proof fn lemma_scan_hex_groups(input: Seq<u8>, pos: int, octets: Seq<u8>, rest: Seq<u8>)
    requires
        0 <= pos <= input.len(),
        octets.len() >= 2,
        octets.len() % 2 == 0,
        input.skip(pos) == hex_groups(octets) + rest,
    ensures
        scan_hex_groups(input, pos, octets.len() / 2) matches Some((found, end)) && found == octets
            && 0 <= end <= input.len() && input.skip(end) == rest,
    decreases octets.len(),
{
    if octets.len() == 2 {
        lemma_scan_hex_bytes(input, pos, octets, rest);
        assert(input.skip(pos + 4) =~= input.skip(pos + 2 * octets.len()));
        lemma_split(input, pos, hex_bytes(octets), rest);
    } else {
        let head = octets.take(2);
        let tail = octets.skip(2);
        let after = seq![COLON] + (hex_groups(tail) + rest);
        assert(hex_groups(octets) + rest =~= hex_bytes(head) + after);
        lemma_scan_hex_bytes(input, pos, head, after);
        lemma_split(input, pos, hex_bytes(head), after);
        assert(input.skip(pos + 4) =~= input.skip(pos + 2 * head.len()));
        lemma_split(input, pos + 4, seq![COLON], hex_groups(tail) + rest);
        lemma_scan_hex_groups(input, pos + 5, tail, rest);
        assert(head + tail =~= octets);
        assert((octets.len() / 2 - 1) as nat == tail.len() / 2);
    }
}

#[verifier::rlimit(40)]
proof fn lemma_parse_v6(octets: Seq<u8>, port: u16)
    requires
        octets.len() == 16,
    ensures
        parse_v6(address_text(AddressView::V6 { octets, port })) == Some(
            AddressView::V6 { octets, port },
        ),
        address_text(AddressView::V6 { octets, port }).len() > 0,
        address_text(AddressView::V6 { octets, port })[0] == 0x5b,
{
    let text = address_text(AddressView::V6 { octets, port });
    let r2 = seq![COLON] + decimal_digits(port as nat);
    let r1 = seq![0x5du8] + r2;
    assert(text.skip(0) =~= text);
    lemma_split(text, 0, seq![0x5bu8], hex_groups(octets) + r1);
    assert(text[0int + 0] == seq![0x5bu8][0]);
    lemma_scan_hex_groups(text, 1, octets, r1);
    let end = scan_hex_groups(text, 1, 8).unwrap().1;
    lemma_split(text, end, seq![0x5du8], r2);
    assert(text[end + 0] == seq![0x5du8][0]);
    lemma_scan_port(text, end + 1, port);
}

/// Reading a written address gives the address back.
pub proof fn lemma_parse_address(address: AddressView)
    requires
        address.wf(),
    ensures
        parse_address(address_text(address)) == Some(address),
{
    match address {
        AddressView::V4 { octets, port } => {
            lemma_parse_v4(octets, port);
        },
        AddressView::V6 { octets, port } => {
            lemma_parse_v6(octets, port);
        },
    }
}

/// Appends the groups of the octets of an IPv6 address from `from` on.
fn push_hex_groups(out: &mut Vec<u8>, octets: &[u8; 16], from: usize)
    requires
        from <= 14,
        from % 2 == 0,
    ensures
        final(out)@ == old(out)@ + hex_groups(octets@.skip(from as int)),
    decreases 16 - from,
{
    let pair: [u8; 2] = [octets[from], octets[from + 1]];
    push_hex(out, pair.as_slice());
    proof {
        assert(pair@ =~= octets@.skip(from as int).take(2));
    }
    if from < 14 {
        push_byte(out, COLON);
        push_hex_groups(out, octets, from + 2);
        proof {
            let rest = octets@.skip(from as int);
            assert(rest.skip(2) =~= octets@.skip(from as int + 2));
            lemma_regroup(old(out)@ + hex_bytes(rest.take(2)), seq![COLON], hex_groups(rest.skip(2)));
            lemma_regroup(old(out)@, hex_bytes(rest.take(2)), seq![COLON] + hex_groups(rest.skip(2)));
        }
    } else {
        proof {
            assert(octets@.skip(from as int).take(2) =~= octets@.skip(from as int));
        }
    }
}

/// Appends the octets of an IPv4 address from `from` on, in dotted decimal.
fn push_dotted(out: &mut Vec<u8>, octets: &[u8; 4], from: usize)
    requires
        from <= 3,
    ensures
        final(out)@ == old(out)@ + dotted(octets@.skip(from as int)),
    decreases 4 - from,
{
    let ghost rest = octets@.skip(from as int);
    push_decimal(out, octets[from] as u64);
    assert(rest[0] == octets@[from as int]);
    if from < 3 {
        push_byte(out, DOT);
        push_dotted(out, octets, from + 1);
        proof {
            assert(rest.drop_first() =~= octets@.skip(from as int + 1));
            let first = decimal_digits(rest[0] as nat);
            lemma_join3(old(out)@, first, seq![DOT], dotted(rest.drop_first()));
        }
    } else {
        assert(rest.len() == 1);
    }
}

/// Appends the one byte `b`.
fn push_byte(out: &mut Vec<u8>, b: u8)
    ensures
        final(out)@ == old(out)@ + seq![b],
{
    out.push(b);
    proof {
        lemma_push_is_append(old(out)@, b);
    }
}

/// Appends `address` as text.
pub fn push_address(out: &mut Vec<u8>, address: &SocketAddress)
    ensures
        final(out)@ == old(out)@ + address_text(address@),
{
    match address {
        SocketAddress::V4 { octets, port } => {
            push_dotted(out, octets, 0);
            push_byte(out, COLON);
            push_decimal(out, *port as u64);
            proof {
                assert(octets@.skip(0) =~= octets@);
                lemma_join3(
                    old(out)@,
                    dotted(octets@),
                    seq![COLON],
                    decimal_digits(*port as nat),
                );
            }
        },
        SocketAddress::V6 { octets, port } => {
            push_byte(out, 0x5b);
            push_hex_groups(out, octets, 0);
            push_byte(out, 0x5d);
            push_byte(out, COLON);
            push_decimal(out, *port as u64);
            proof {
                assert(octets@.skip(0) =~= octets@);
                lemma_join5(
                    old(out)@,
                    seq![0x5bu8],
                    hex_groups(octets@),
                    seq![0x5du8],
                    seq![COLON],
                    decimal_digits(*port as nat),
                );
            }
        },
    }
}

/// Reads the `count` octets in dotted decimal at `pos`.
fn read_dotted(input: &[u8], pos: usize, count: usize) -> (found: Option<(Vec<u8>, usize)>)
    requires
        count >= 1,
    ensures
        match found {
            Some((octets, end)) => scan_dotted(input@, pos as int, count as nat) == Some(
                (octets@, end as int),
            ) && end <= input@.len() && octets@.len() == count,
            None => scan_dotted(input@, pos as int, count as nat) is None,
        },
    decreases count,
{
    let (n, end) = match read_decimal(input, pos, 255) {
        Some(found) => found,
        None => {
            return None;
        },
    };
    let mut octets: Vec<u8> = Vec::new();
    octets.push(n as u8);
    assert(octets@ =~= seq![n as u8]);
    if count <= 1 {
        return Some((octets, end));
    }
    if end >= input.len() || input[end] != DOT {
        return None;
    }
    match read_dotted(input, end + 1, count - 1) {
        None => None,
        Some((mut rest, last)) => {
            let ghost tail = rest@;
            octets.append(&mut rest);
            assert(octets@ =~= seq![n as u8] + tail);
            Some((octets, last))
        },
    }
}

/// Reads the port after a colon at `pos`, up to the end of the input.
fn read_port(input: &[u8], pos: usize) -> (found: Option<u16>)
    ensures
        match found {
            Some(port) => scan_port(input@, pos as int) == Some(port),
            None => scan_port(input@, pos as int) is None,
        },
{
    if pos >= input.len() || input[pos] != COLON {
        return None;
    }
    match read_decimal(input, pos + 1, 65535) {
        None => None,
        Some((port, end)) => if end == input.len() {
            Some(port as u16)
        } else {
            None
        },
    }
}

/// Reads the IPv4 address with port that `text` is.
fn read_v4(text: &[u8]) -> (found: Option<SocketAddress>)
    ensures
        match found {
            Some(address) => parse_v4(text@) == Some(address@),
            None => parse_v4(text@) is None,
        },
{
    let (found, end) = match read_dotted(text, 0, 4) {
        Some(found) => found,
        None => {
            return None;
        },
    };
    let port = match read_port(text, end) {
        Some(port) => port,
        None => {
            return None;
        },
    };
    let octets: [u8; 4] = [found[0], found[1], found[2], found[3]];
    assert(octets@ =~= found@);
    Some(SocketAddress::V4 { octets, port })
}

/// Reads the octets of the `count` groups at `pos`.
fn read_hex_groups(input: &[u8], pos: usize, count: usize) -> (found: Option<(Vec<u8>, usize)>)
    requires
        count >= 1,
    ensures
        match found {
            Some((octets, end)) => scan_hex_groups(input@, pos as int, count as nat) == Some(
                (octets@, end as int),
            ) && end <= input@.len() && octets@.len() == 2 * count,
            None => scan_hex_groups(input@, pos as int, count as nat) is None,
        },
    decreases count,
{
    let mut pair = match read_hex(input, pos, 2) {
        Some(pair) => pair,
        None => {
            return None;
        },
    };
    let total = input.len();
    assert(pos + 4 <= total);
    if count <= 1 {
        return Some((pair, pos + 4));
    }
    if input.len() - pos < 5 || input[pos + 4] != COLON {
        return None;
    }
    match read_hex_groups(input, pos + 5, count - 1) {
        None => None,
        Some((mut rest, end)) => {
            let ghost head = pair@;
            let ghost tail = rest@;
            pair.append(&mut rest);
            assert(pair@ =~= head + tail);
            Some((pair, end))
        },
    }
}

/// Reads the IPv6 address with port that `text` is.
fn read_v6(text: &[u8]) -> (found: Option<SocketAddress>)
    ensures
        match found {
            Some(address) => parse_v6(text@) == Some(address@),
            None => parse_v6(text@) is None,
        },
{
    if text.len() == 0 || text[0] != 0x5b {
        return None;
    }
    let (found, p1) = match read_hex_groups(text, 1, 8) {
        Some(found) => found,
        None => {
            return None;
        },
    };
    if p1 >= text.len() || text[p1] != 0x5d {
        return None;
    }
    let port = match read_port(text, p1 + 1) {
        Some(port) => port,
        None => {
            return None;
        },
    };
    let mut octets: [u8; 16] = [0u8; 16];
    let mut i: usize = 0;
    while i < 16
        invariant
            i <= 16,
            found@.len() == 16,
            forall|j: int| 0 <= j < i ==> octets@[j] == found@[j],
        decreases 16 - i,
    {
        octets[i] = found[i];
        i += 1;
    }
    assert(octets@ =~= found@);
    Some(SocketAddress::V6 { octets, port })
}

/// Reads the address that `text` is.
pub fn read_address(text: &[u8]) -> (found: Option<SocketAddress>)
    ensures
        match found {
            Some(address) => parse_address(text@) == Some(address@),
            None => parse_address(text@) is None,
        },
{
    if text.len() > 0 && text[0] == 0x5b {
        read_v6(text)
    } else {
        read_v4(text)
    }
}

// ---------------------------------------------------------------------
// The JSON form of a ticket
// ---------------------------------------------------------------------
/// The addresses as quoted strings, with a comma between neighbours.
pub open spec fn address_items(addresses: Seq<AddressView>) -> Seq<u8>
    decreases addresses.len(),
{
    if addresses.len() == 0 {
        Seq::<u8>::empty()
    } else if addresses.len() == 1 {
        quoted(address_text(addresses[0]))
    } else {
        quoted(address_text(addresses[0])) + (seq![0x2cu8] + address_items(addresses.drop_first()))
    }
}

/// The JSON form of a ticket.
pub open spec fn ticket_bytes(ticket: TicketView) -> Seq<u8> {
    fixed("{\"node_id\":") + (quoted(hex_bytes(ticket.node_id)) + (fixed(",\"addresses\":[") + (
    address_items(ticket.addresses) + (seq![0x5du8] + fixed("}")))))
}

/// The addresses whose first stands, as a quoted string, at `pos`, up to
/// the closing bracket, and the position after that bracket.
pub open spec fn scan_address_items(input: Seq<u8>, pos: int) -> Option<(Seq<AddressView>, int)>
    decreases input.len() - pos,
{
    match scan_string(input, pos) {
        None => None,
        Some((text, end)) => match parse_address(text) {
            None => None,
            Some(address) => if end <= pos || end >= input.len() {
                None
            } else if input[end] == 0x2c {
                match scan_address_items(input, end + 1) {
                    None => None,
                    Some((rest, last)) => Some((seq![address] + rest, last)),
                }
            } else if input[end] == 0x5d {
                Some((seq![address], end + 1))
            } else {
                None
            },
        },
    }
}

/// The addresses of the array whose opening bracket has just been read.
pub open spec fn scan_address_list(input: Seq<u8>, pos: int) -> Option<(Seq<AddressView>, int)> {
    if 0 <= pos < input.len() && input[pos] == 0x5d {
        Some((Seq::<AddressView>::empty(), pos + 1))
    } else {
        scan_address_items(input, pos)
    }
}

/// The identity that the 64 hexadecimal digits `text` stand for.
pub open spec fn parse_node_id(text: Seq<u8>) -> Option<Seq<u8>> {
    if text.len() == 64 {
        scan_hex_bytes(text, 0, 32)
    } else {
        None
    }
}

/// The ticket that a reader going through `input` from the front finds.
pub open spec fn scan_ticket(input: Seq<u8>) -> Option<TicketView> {
    match scan_literal(input, 0, fixed("{\"node_id\":")) {
        None => None,
        Some(p1) => match scan_string(input, p1) {
            None => None,
            Some((id_text, p2)) => match parse_node_id(id_text) {
                None => None,
                Some(node_id) => match scan_literal(input, p2, fixed(",\"addresses\":[")) {
                    None => None,
                    Some(p3) => match scan_address_list(input, p3) {
                        None => None,
                        Some((addresses, p4)) => match scan_literal(input, p4, fixed("}")) {
                            None => None,
                            Some(p5) => if p5 == input.len() {
                                Some(TicketView { node_id, addresses })
                            } else {
                                None
                            },
                        },
                    },
                },
            },
        },
    }
}

#[verifier::rlimit(40)]
proof fn lemma_scan_address_items(
    input: Seq<u8>,
    pos: int,
    addresses: Seq<AddressView>,
    rest: Seq<u8>,
)
    requires
        0 <= pos <= input.len(),
        addresses.len() > 0,
        forall|i: int| 0 <= i < addresses.len() ==> (#[trigger] addresses[i]).wf(),
        input.skip(pos) == address_items(addresses) + (seq![0x5du8] + rest),
    ensures
        scan_address_items(input, pos) matches Some((found, end)) && found == addresses && 0 <= end
            <= input.len() && input.skip(end) == rest,
    decreases addresses.len(),
{
    let first = quoted(address_text(addresses[0]));
    assert(addresses[0].wf());
    lemma_parse_address(addresses[0]);
    if addresses.len() == 1 {
        let after = seq![0x5du8] + rest;
        lemma_scan_quoted(input, pos, address_text(addresses[0]), after);
        lemma_split(input, pos, first, after);
        lemma_split(input, pos + first.len(), seq![0x5du8], rest);
        assert(seq![addresses[0]] =~= addresses);
    } else {
        let tail = addresses.drop_first();
        let after = seq![0x2cu8] + (address_items(tail) + (seq![0x5du8] + rest));
        assert(address_items(addresses) + (seq![0x5du8] + rest) =~= first + after);
        lemma_scan_quoted(input, pos, address_text(addresses[0]), after);
        lemma_split(input, pos, first, after);
        lemma_split(input, pos + first.len(), seq![0x2cu8], address_items(tail) + (seq![0x5du8]
            + rest));
        assert forall|i: int| 0 <= i < tail.len() implies (#[trigger] tail[i]).wf() by {
            assert(tail[i] == addresses[i + 1]);
        }
        lemma_scan_address_items(input, pos + first.len() + 1, tail, rest);
        assert(seq![addresses[0]] + tail =~= addresses);
    }
}

#[verifier::rlimit(40)]
proof fn lemma_scan_address_list(
    input: Seq<u8>,
    pos: int,
    addresses: Seq<AddressView>,
    rest: Seq<u8>,
)
    requires
        0 <= pos <= input.len(),
        forall|i: int| 0 <= i < addresses.len() ==> (#[trigger] addresses[i]).wf(),
        input.skip(pos) == address_items(addresses) + (seq![0x5du8] + rest),
    ensures
        scan_address_list(input, pos) matches Some((found, end)) && found == addresses && 0 <= end
            <= input.len() && input.skip(end) == rest,
{
    let close = seq![0x5du8] + rest;
    if addresses.len() == 0 {
        assert(address_items(addresses) =~= Seq::<u8>::empty());
        assert(Seq::<u8>::empty() + close =~= close);
        lemma_split(input, pos, seq![0x5du8], rest);
        assert(input[pos + 0] == seq![0x5du8][0]);
        assert(addresses =~= Seq::<AddressView>::empty());
    } else {
        lemma_scan_address_items(input, pos, addresses, rest);
        lemma_split(input, pos, address_items(addresses), close);
        let first = quoted(address_text(addresses[0]));
        assert(first[0] == 0x22);
        assert(address_items(addresses)[0] == first[0]);
        assert(input[pos + 0] == address_items(addresses)[0]);
    }
}

proof fn lemma_scan_node_id(input: Seq<u8>, pos: int, node_id: Seq<u8>, rest: Seq<u8>)
    requires
        0 <= pos <= input.len(),
        node_id.len() == 32,
        input.skip(pos) == quoted(hex_bytes(node_id)) + rest,
    ensures
        scan_string(input, pos) matches Some((text, end)) && parse_node_id(text) == Some(node_id)
            && 0 <= end <= input.len() && input.skip(end) == rest,
{
    let id_text = hex_bytes(node_id);
    lemma_scan_quoted(input, pos, id_text, rest);
    lemma_split(input, pos, quoted(id_text), rest);
    assert(id_text + Seq::<u8>::empty() =~= id_text);
    assert(id_text.skip(0) =~= id_text);
    lemma_scan_hex_bytes(id_text, 0, node_id, Seq::<u8>::empty());
}

/// Reading the JSON form of a ticket gives the ticket back.
#[verifier::rlimit(40)]
pub proof fn lemma_scan_ticket(ticket: TicketView)
    requires
        ticket.wf(),
    ensures
        scan_ticket(ticket_bytes(ticket)) == Some(ticket),
{
    let input = ticket_bytes(ticket);
    let r3 = address_items(ticket.addresses) + (seq![0x5du8] + fixed("}"));
    let r2 = fixed(",\"addresses\":[") + r3;
    let r1 = quoted(hex_bytes(ticket.node_id)) + r2;
    assert(input.skip(0) =~= input);
    lemma_split(input, 0, fixed("{\"node_id\":"), r1);
    let p1 = fixed("{\"node_id\":").len() as int;
    lemma_scan_node_id(input, p1, ticket.node_id, r2);
    let p2 = scan_string(input, p1).unwrap().1;
    lemma_split(input, p2, fixed(",\"addresses\":["), r3);
    let p3 = p2 + fixed(",\"addresses\":[").len();
    lemma_scan_address_list(input, p3, ticket.addresses, fixed("}"));
    let p4 = scan_address_list(input, p3).unwrap().1;
    assert(fixed("}") + Seq::<u8>::empty() =~= fixed("}"));
    lemma_split(input, p4, fixed("}"), Seq::<u8>::empty());
}

/// Two tickets with the same JSON form are the same ticket.
pub proof fn lemma_ticket_bytes_injective(a: TicketView, b: TicketView)
    requires
        a.wf(),
        b.wf(),
        ticket_bytes(a) == ticket_bytes(b),
    ensures
        a == b,
{
    lemma_scan_ticket(a);
    lemma_scan_ticket(b);
}

/// The ticket whose JSON form `bytes` is, if it is the JSON form of one.
pub open spec fn ticket_of_bytes(bytes: Seq<u8>) -> Option<TicketView> {
    if exists|t: TicketView| t.wf() && ticket_bytes(t) == bytes {
        Some(choose|t: TicketView| t.wf() && ticket_bytes(t) == bytes)
    } else {
        None
    }
}

/// Reading the JSON form of a ticket gives the ticket back.
pub proof fn lemma_ticket_bytes_round_trip(ticket: TicketView)
    requires
        ticket.wf(),
    ensures
        ticket_of_bytes(ticket_bytes(ticket)) == Some(ticket),
{
    let found = choose|t: TicketView| t.wf() && ticket_bytes(t) == ticket_bytes(ticket);
    lemma_ticket_bytes_injective(found, ticket);
}

/// Reads the addresses of the array whose opening bracket has just been
/// read.
fn read_address_list(input: &[u8], pos: usize) -> (found: Option<(Vec<SocketAddress>, usize)>)
    ensures
        match found {
            Some((addresses, end)) => scan_address_list(input@, pos as int) == Some(
                (address_views(addresses@), end as int),
            ) && end <= input@.len(),
            None => scan_address_list(input@, pos as int) is None,
        },
{
    if pos >= input.len() {
        return None;
    }
    if input[pos] == 0x5d {
        assert(address_views(Seq::<SocketAddress>::empty()) =~= Seq::<AddressView>::empty());
        return Some((Vec::new(), pos + 1));
    }
    let mut out: Vec<SocketAddress> = Vec::new();
    let mut at: usize = pos;
    assert(address_views(out@) =~= Seq::<AddressView>::empty());
    loop
        invariant
            pos <= at <= input@.len(),
            scan_address_list(input@, pos as int) == match scan_address_items(input@, at as int) {
                Some((rest, end)) => Some((address_views(out@) + rest, end)),
                None => None,
            },
        decreases input@.len() - at,
    {
        let (text, end) = match read_string(input, at) {
            Some(found) => found,
            None => {
                return None;
            },
        };
        let address = match read_address(text.as_slice()) {
            Some(address) => address,
            None => {
                return None;
            },
        };
        if end >= input.len() {
            return None;
        }
        let ghost before = address_views(out@);
        if input[end] == 0x2c {
            proof {
                match scan_address_items(input@, end as int + 1) {
                    Some((rest, last)) => {
                        assert(before + (seq![address@] + rest) =~= before.push(address@) + rest);
                    },
                    None => {},
                }
            }
            out.push(address);
            assert(address_views(out@) =~= before.push(address@));
            at = end + 1;
        } else if input[end] == 0x5d {
            out.push(address);
            assert(address_views(out@) =~= before + seq![address@]);
            return Some((out, end + 1));
        } else {
            return None;
        }
    }
}

/// Reads a ticket from the front of `input` to its end.
fn read_ticket(input: &[u8]) -> (found: Option<ConnectionTicket>)
    ensures
        match found {
            Some(ticket) => scan_ticket(input@) == Some(ticket@),
            None => scan_ticket(input@) is None,
        },
{
    let p1 = match read_literal(input, 0, "{\"node_id\":".as_bytes()) {
        Some(p) => p,
        None => {
            return None;
        },
    };
    let (id_text, p2) = match read_string(input, p1) {
        Some(found) => found,
        None => {
            return None;
        },
    };
    if id_text.len() != 64 {
        return None;
    }
    let id_bytes = match read_hex(id_text.as_slice(), 0, 32) {
        Some(bytes) => bytes,
        None => {
            return None;
        },
    };
    let p3 = match read_literal(input, p2, ",\"addresses\":[".as_bytes()) {
        Some(p) => p,
        None => {
            return None;
        },
    };
    let (addresses, p4) = match read_address_list(input, p3) {
        Some(found) => found,
        None => {
            return None;
        },
    };
    let p5 = match read_literal(input, p4, "}".as_bytes()) {
        Some(p) => p,
        None => {
            return None;
        },
    };
    if p5 != input.len() {
        return None;
    }
    let mut bytes: [u8; 32] = [0u8; 32];
    let mut i: usize = 0;
    while i < 32
        invariant
            i <= 32,
            id_bytes@.len() == 32,
            forall|j: int| 0 <= j < i ==> bytes@[j] == id_bytes@[j],
        decreases 32 - i,
    {
        bytes[i] = id_bytes[i];
        i += 1;
    }
    assert(bytes@ =~= id_bytes@);
    Some(ConnectionTicket { node_id: PeerId::from_bytes(bytes), addresses })
}

/// Appends the addresses as quoted strings, from index `from` on.
fn push_address_items(out: &mut Vec<u8>, addresses: &Vec<SocketAddress>, from: usize)
    requires
        from <= addresses@.len(),
    ensures
        final(out)@ == old(out)@ + address_items(address_views(addresses@).skip(from as int)),
    decreases addresses@.len() - from,
{
    let ghost views = address_views(addresses@).skip(from as int);
    if from < addresses.len() {
        let mut text: Vec<u8> = Vec::new();
        push_address(&mut text, &addresses[from]);
        push_quoted(out, text.as_slice());
        assert(views[0] == addresses@[from as int]@);
        assert(views.drop_first() =~= address_views(addresses@).skip(from as int + 1));
        if from + 1 < addresses.len() {
            push_byte(out, 0x2c);
            push_address_items(out, addresses, from + 1);
            proof {
                let first = quoted(address_text(views[0]));
                let tail = address_items(views.drop_first());
                lemma_regroup(old(out)@ + first, seq![0x2cu8], tail);
                lemma_regroup(old(out)@, first, seq![0x2cu8] + tail);
            }
        } else {
            assert(views.len() == 1);
        }
    } else {
        assert(views.len() == 0);
        assert(out@ =~= old(out)@ + address_items(views));
    }
}

/// The ticket is well formed: its identity has 32 bytes and its addresses
/// four or sixteen octets.
pub proof fn lemma_ticket_wf(ticket: &ConnectionTicket)
    ensures
        ticket@.wf(),
{
    assert forall|i: int| 0 <= i < ticket@.addresses.len() implies (
    #[trigger] ticket@.addresses[i]).wf() by {
        assert(ticket@.addresses[i] == ticket.addresses@[i]@);
    }
}

/// Writes the JSON form of `ticket`.
#[verifier::rlimit(40)]
pub fn ticket_to_json(ticket: &ConnectionTicket) -> (out: Vec<u8>)
    ensures
        out@ == ticket_bytes(ticket@),
{
    let mut id_text: Vec<u8> = Vec::new();
    push_hex(&mut id_text, ticket.node_id.as_bytes().as_slice());
    assert(id_text@ =~= hex_bytes(ticket.node_id@));
    let mut out: Vec<u8> = Vec::new();
    push_text(&mut out, "{\"node_id\":");
    push_quoted(&mut out, id_text.as_slice());
    push_text(&mut out, ",\"addresses\":[");
    push_address_items(&mut out, &ticket.addresses, 0);
    push_byte(&mut out, 0x5d);
    let ghost body = out@;
    push_text(&mut out, "}");
    proof {
        let views = address_views(ticket.addresses@);
        assert(views.skip(0) =~= views);
        lemma_join5(
            Seq::<u8>::empty(),
            fixed("{\"node_id\":"),
            quoted(hex_bytes(ticket.node_id@)),
            fixed(",\"addresses\":["),
            address_items(views),
            seq![0x5du8],
        );
        lemma_regroup(
            fixed("{\"node_id\":") + (quoted(hex_bytes(ticket.node_id@)) + (fixed(
                ",\"addresses\":[",
            ) + address_items(views))),
            seq![0x5du8],
            fixed("}"),
        );
        assert(out@ =~= ticket_bytes(ticket@));
    }
    out
}

/// Reads the ticket whose JSON form `bytes` is: exactly the JSON forms of
/// tickets are read, each as the ticket it was written from.
pub fn ticket_from_json(bytes: &[u8]) -> (found: Option<ConnectionTicket>)
    ensures
        match found {
            Some(ticket) => ticket_of_bytes(bytes@) == Some(ticket@) && ticket_bytes(ticket@)
                == bytes@,
            None => ticket_of_bytes(bytes@) is None,
        },
{
    let ticket = match read_ticket(bytes) {
        Some(ticket) => ticket,
        None => {
            proof {
                assert forall|t: TicketView| t.wf() implies ticket_bytes(t) != bytes@ by {
                    lemma_scan_ticket(t);
                }
            }
            return None;
        },
    };
    let again = ticket_to_json(&ticket);
    proof {
        lemma_ticket_wf(&ticket);
    }
    if same_bytes(again.as_slice(), bytes) {
        proof {
            let found = choose|t: TicketView| t.wf() && ticket_bytes(t) == bytes@;
            lemma_ticket_bytes_injective(found, ticket@);
        }
        Some(ticket)
    } else {
        proof {
            assert forall|t: TicketView| t.wf() implies ticket_bytes(t) != bytes@ by {
                lemma_scan_ticket(t);
            }
        }
        None
    }
}

// ---------------------------------------------------------------------
// Base64 and the ticket as text
// ---------------------------------------------------------------------
/// The text that the standard base64 alphabet with padding gives for
/// `bytes`: what `Engine::encode` of `base64::engine::general_purpose::STANDARD`
/// returns.
pub uninterp spec fn base64_text(bytes: Seq<u8>) -> Seq<char>;

/// The bytes that `text` stands for in the standard base64 alphabet with
/// padding, if it stands for any: what `Engine::decode` of
/// `base64::engine::general_purpose::STANDARD` returns.
pub uninterp spec fn base64_bytes(text: Seq<char>) -> Option<Seq<u8>>;

/// Error of `Engine::decode`.
#[verifier::external_type_specification]
#[verifier::external_body]
pub struct ExDecodeError(base64::DecodeError);

/// Longest input that is handed to the base64 encoder.
pub const MAX_TICKET_JSON: usize = usize::MAX / 2;

/// `Engine::encode` of the standard engine. The result depends on the bytes
/// alone, and decoding it with the same engine gives the bytes back. The
/// encoder panics when the length of its output does not fit in `usize`;
/// the bound on the input keeps clear of that.
#[verifier::external_body]
fn base64_encode(bytes: &[u8]) -> (text: String)
    requires
        bytes@.len() <= MAX_TICKET_JSON,
    ensures
        text@ == base64_text(bytes@),
        base64_bytes(text@) == Some(bytes@),
{
    base64::engine::general_purpose::STANDARD.encode(bytes)
}

/// `Engine::decode` of the standard engine: the bytes that the text stands
/// for, or an error where it is no base64 text with canonical padding.
#[verifier::external_body]
fn base64_decode(text: &str) -> (decoded: Result<Vec<u8>, base64::DecodeError>)
    ensures
        match decoded {
            Ok(bytes) => base64_bytes(text@) == Some(bytes@),
            Err(_) => base64_bytes(text@) is None,
        },
{
    base64::engine::general_purpose::STANDARD.decode(text)
}

/// A ticket without addresses can always be written as text: its JSON form
/// has a few hundred bytes at most.
pub proof fn lemma_bare_ticket_fits(node_id: Seq<u8>)
    requires
        node_id.len() == 32,
    ensures
        fits_in_text(TicketView { node_id, addresses: Seq::<AddressView>::empty() }),
{
    let id_text = hex_bytes(node_id);
    lemma_hex_bytes_len(node_id);
    lemma_escape_len(id_text);
    reveal_strlit("{\"node_id\":");
    reveal_strlit(",\"addresses\":[");
    reveal_strlit("}");
    vstd::utf8::is_ascii_chars_encode_utf8("{\"node_id\":"@);
    vstd::utf8::is_ascii_chars_encode_utf8(",\"addresses\":["@);
    vstd::utf8::is_ascii_chars_encode_utf8("}"@);
    assert(address_items(Seq::<AddressView>::empty()).len() == 0);
    assert(quoted(id_text).len() == escape_bytes(id_text).len() + 2);
}

/// The ticket that the text `text` stands for, if it stands for one.
pub open spec fn ticket_of_text(text: Seq<char>) -> Option<TicketView> {
    match base64_bytes(text) {
        Some(bytes) => ticket_of_bytes(bytes),
        None => None,
    }
}

/// Whether a ticket can be written as text: its JSON form is not longer
/// than the base64 encoder takes.
pub open spec fn fits_in_text(ticket: TicketView) -> bool {
    ticket_bytes(ticket).len() <= MAX_TICKET_JSON
}

impl ConnectionTicket {
    /// The ticket as text: the base64 form of its JSON form. The text stands
    /// for this ticket, so that reading it with [`ConnectionTicket::from_string`]
    /// gives the ticket back. Writing fails only for a ticket whose JSON
    /// form is longer than half the address space.
    pub fn to_string(&self) -> (written: Result<String, EncodingError>)
        ensures
            match written {
                Ok(text) => fits_in_text(self@) && text@ == base64_text(ticket_bytes(self@))
                    && ticket_of_text(text@) == Some(self@),
                Err(_) => !fits_in_text(self@),
            },
    {
        let json = ticket_to_json(self);
        if json.len() > MAX_TICKET_JSON {
            return Err(EncodingError);
        }
        let text = base64_encode(json.as_slice());
        proof {
            lemma_ticket_wf(self);
            lemma_ticket_bytes_round_trip(self@);
        }
        Ok(text)
    }

    /// The ticket that `text` stands for. A text that is not base64 and a
    /// text whose bytes are not the JSON form of a ticket are turned down,
    /// each with its own error.
    pub fn from_string(text: &str) -> (read: Result<ConnectionTicket, InvalidTicket>)
        ensures
            match read {
                Ok(ticket) => ticket_of_text(text@) == Some(ticket@),
                Err(InvalidTicket::NotBase64) => base64_bytes(text@) is None,
                Err(InvalidTicket::NotATicket) => base64_bytes(text@) is Some && ticket_of_text(
                    text@,
                ) is None,
            },
    {
        let bytes = match base64_decode(text) {
            Ok(bytes) => bytes,
            Err(_) => {
                return Err(InvalidTicket::NotBase64);
            },
        };
        match ticket_from_json(bytes.as_slice()) {
            Some(ticket) => Ok(ticket),
            None => Err(InvalidTicket::NotATicket),
        }
    }
}

} // verus!
