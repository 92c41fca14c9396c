//! The wire form of a clipboard message.
//!
//! A message travels as one JSON object in UTF-8, without any white space,
//! its members in a fixed order:
//!
//! ```text
//! {"content":{"Text":"hello"},"timestamp":1700000000,"sender_id":"laptop"}
//! {"content":{"Image":{"width":2,"height":1,"data":[137,80]}},"timestamp":1,"sender_id":"laptop"}
//! ```
//!
//! Writing is total and deterministic. Reading accepts exactly the texts that
//! writing produces and gives back the message that was written; every other
//! input, a truncated or reordered one included, is turned down.

use crate::content::{ClipboardContent, ClipboardMessage, ContentView, MessageView};
use crate::json::{
    byte_array, lemma_join3, lemma_join5, lemma_join7, lemma_nest3, lemma_nest7,
    lemma_scan_byte_array, lemma_scan_decimal, lemma_scan_quoted, lemma_split,
    push_byte_array, push_quoted, push_text, quoted_text, read_byte_array, read_decimal,
    read_literal, read_string, same_bytes, scan_byte_array, scan_decimal, scan_literal,
    scan_string,
};
use crate::text::{decimal_digits, string_from_utf8};
use vstd::prelude::*;
use vstd::utf8::*;

verus! {

/// Name under which the transport offers and accepts the clipboard
/// protocol.
pub const PROTOCOL_NAME: &'static str = "iroh-clipboard-sync/0";

/// A message could not be written. No message makes [`ClipboardMessage::to_bytes`]
/// fail; the type is there for callers that treat writing as fallible.
#[derive(Clone, Copy, Debug, PartialEq, Eq, Structural)]
pub struct EncodingError;

/// The input is not the wire form of any message.
#[derive(Clone, Copy, Debug, PartialEq, Eq, Structural)]
pub struct DecodingError;

/// The UTF-8 bytes of a piece of fixed text.
pub open spec fn fixed(text: &str) -> Seq<u8> {
    encode_utf8(text@)
}

/// What follows the content: the timestamp, the sender and the end of the
/// object.
pub open spec fn trailer_bytes(timestamp: u64, sender_id: Seq<char>) -> Seq<u8> {
    fixed(",\"timestamp\":") + (decimal_digits(timestamp as nat) + (fixed(",\"sender_id\":") + (
    quoted_text(sender_id) + fixed("}"))))
}

/// The wire form of the content, with the member name before it.
pub open spec fn content_bytes(content: ContentView) -> Seq<u8> {
    match content {
        ContentView::Text(text) => fixed("{\"content\":{\"Text\":") + (quoted_text(text) + fixed("}")),
        ContentView::Image { width, height, data } => fixed("{\"content\":{\"Image\":{\"width\":")
            + (decimal_digits(width as nat) + (fixed(",\"height\":") + (decimal_digits(
            height as nat,
        ) + (fixed(",\"data\":") + (byte_array(data) + fixed("}}")))))),
    }
}

/// The wire form of a message.
pub open spec fn message_bytes(message: MessageView) -> Seq<u8> {
    content_bytes(message.content) + trailer_bytes(message.timestamp, message.sender_id)
}

/// The text whose UTF-8 bytes stand as a quoted string at `pos`, and the
/// position after the string.
pub open spec fn scan_text(input: Seq<u8>, pos: int) -> Option<(Seq<char>, int)> {
    match scan_string(input, pos) {
        Some((bytes, end)) => if valid_utf8(bytes) {
            Some((decode_utf8(bytes), end))
        } else {
            None
        },
        None => None,
    }
}

/// The number of at most `max` whose digits stand at `pos`, and the position
/// after them.
pub open spec fn scan_number(input: Seq<u8>, pos: int, max: nat) -> Option<(nat, int)> {
    match scan_decimal(input, pos) {
        Some((n, end)) => if n <= max {
            Some((n, end))
        } else {
            None
        },
        None => None,
    }
}

/// The timestamp and the sender that stand at `pos`, where they are all that
/// is left of the input.
pub open spec fn scan_trailer(input: Seq<u8>, pos: int) -> Option<(u64, Seq<char>)> {
    match scan_literal(input, pos, fixed(",\"timestamp\":")) {
        None => None,
        Some(p1) => match scan_number(input, p1, u64::MAX as nat) {
            None => None,
            Some((timestamp, p2)) => match scan_literal(input, p2, fixed(",\"sender_id\":")) {
                None => None,
                Some(p3) => match scan_text(input, p3) {
                    None => None,
                    Some((sender_id, p4)) => match scan_literal(input, p4, fixed("}")) {
                        None => None,
                        Some(p5) => if p5 == input.len() {
                            Some((timestamp as u64, sender_id))
                        } else {
                            None
                        },
                    },
                },
            },
        },
    }
}

/// The text content that stands at `pos`, and the position after it.
pub open spec fn scan_text_content(input: Seq<u8>, pos: int) -> Option<(ContentView, int)> {
    match scan_text(input, pos) {
        None => None,
        Some((text, p1)) => match scan_literal(input, p1, fixed("}")) {
            None => None,
            Some(p2) => Some((ContentView::Text(text), p2)),
        },
    }
}

/// The image content that stands at `pos`, and the position after it.
pub open spec fn scan_image_content(input: Seq<u8>, pos: int) -> Option<(ContentView, int)> {
    match scan_number(input, pos, u32::MAX as nat) {
        None => None,
        Some((width, p1)) => match scan_literal(input, p1, fixed(",\"height\":")) {
            None => None,
            Some(p2) => match scan_number(input, p2, u32::MAX as nat) {
                None => None,
                Some((height, p3)) => match scan_literal(input, p3, fixed(",\"data\":")) {
                    None => None,
                    Some(p4) => match scan_byte_array(input, p4) {
                        None => None,
                        Some((data, p5)) => match scan_literal(input, p5, fixed("}}")) {
                            None => None,
                            Some(p6) => Some(
                                (
                                    ContentView::Image {
                                        width: width as u32,
                                        height: height as u32,
                                        data,
                                    },
                                    p6,
                                ),
                            ),
                        },
                    },
                },
            },
        },
    }
}

/// The message that a reader going through `input` from the front finds.
pub open spec fn scan_message(input: Seq<u8>) -> Option<MessageView> {
    let content = match scan_literal(input, 0, fixed("{\"content\":{\"Text\":")) {
        Some(p) => scan_text_content(input, p),
        None => match scan_literal(input, 0, fixed("{\"content\":{\"Image\":{\"width\":")) {
            Some(p) => scan_image_content(input, p),
            None => None,
        },
    };
    match content {
        None => None,
        Some((content, p)) => match scan_trailer(input, p) {
            None => None,
            Some((timestamp, sender_id)) => Some(MessageView { content, timestamp, sender_id }),
        },
    }
}

/// The message whose wire form `bytes` is, if it is the wire form of one.
pub open spec fn decoded(bytes: Seq<u8>) -> Option<MessageView> {
    if exists|m: MessageView| message_bytes(m) == bytes {
        Some(choose|m: MessageView| message_bytes(m) == bytes)
    } else {
        None
    }
}

/// A piece of fixed text in ASCII has one byte for each of its characters.
proof fn lemma_fixed_ascii(text: &str)
    requires
        is_ascii_chars(text@),
    ensures
        fixed(text).len() == text@.len(),
        forall|i: int| 0 <= i < text@.len() ==> fixed(text)[i] == text@[i] as u8,
{
    is_ascii_chars_encode_utf8(text@);
}

/// The pieces of fixed text that follow a number start with a comma, and the
/// openings of the two kinds of content differ.
proof fn lemma_fixed_facts()
    ensures
        fixed(",\"timestamp\":").len() > 0 && fixed(",\"timestamp\":")[0] == 0x2c,
        fixed(",\"sender_id\":").len() > 0 && fixed(",\"sender_id\":")[0] == 0x2c,
        fixed(",\"height\":").len() > 0 && fixed(",\"height\":")[0] == 0x2c,
        fixed(",\"data\":").len() > 0 && fixed(",\"data\":")[0] == 0x2c,
        fixed("{\"content\":{\"Text\":").len() == 19,
        fixed("{\"content\":{\"Text\":")[13] == 0x54,
        fixed("{\"content\":{\"Image\":{\"width\":").len() == 29,
        fixed("{\"content\":{\"Image\":{\"width\":")[13] == 0x49,
{
    reveal_strlit(",\"timestamp\":");
    reveal_strlit(",\"sender_id\":");
    reveal_strlit(",\"height\":");
    reveal_strlit(",\"data\":");
    reveal_strlit("{\"content\":{\"Text\":");
    reveal_strlit("{\"content\":{\"Image\":{\"width\":");
    lemma_fixed_ascii(",\"timestamp\":");
    lemma_fixed_ascii(",\"sender_id\":");
    lemma_fixed_ascii(",\"height\":");
    lemma_fixed_ascii(",\"data\":");
    lemma_fixed_ascii("{\"content\":{\"Text\":");
    lemma_fixed_ascii("{\"content\":{\"Image\":{\"width\":");
}

/// Reading a written text gives the text back, whatever follows it.
pub proof fn lemma_scan_text(input: Seq<u8>, pos: int, text: Seq<char>, rest: Seq<u8>)
    requires
        0 <= pos <= input.len(),
        input.skip(pos) == quoted_text(text) + rest,
    ensures
        scan_text(input, pos) == Some((text, pos + quoted_text(text).len())),
        input.skip(pos + quoted_text(text).len()) == rest,
{
    lemma_scan_quoted(input, pos, encode_utf8(text), rest);
    encode_utf8_valid_utf8(text);
    encode_utf8_decode_utf8(text);
}

/// Reading a piece of fixed text that is there succeeds.
proof fn lemma_scan_fixed(input: Seq<u8>, pos: int, piece: Seq<u8>, rest: Seq<u8>)
    requires
        0 <= pos <= input.len(),
        input.skip(pos) == piece + rest,
    ensures
        scan_literal(input, pos, piece) == Some(pos + piece.len()),
        0 <= pos + piece.len() <= input.len(),
        input.skip(pos + piece.len()) == rest,
{
    lemma_split(input, pos, piece, rest);
}

/// Reading a written number within its range gives the number back, where a
/// comma follows it.
proof fn lemma_scan_number(input: Seq<u8>, pos: int, n: nat, max: nat, rest: Seq<u8>)
    requires
        0 <= pos <= input.len(),
        input.skip(pos) == decimal_digits(n) + rest,
        rest.len() > 0 && rest[0] == 0x2c,
        n <= max,
    ensures
        scan_number(input, pos, max) == Some((n, pos + decimal_digits(n).len())),
        0 <= pos + decimal_digits(n).len() <= input.len(),
        input.skip(pos + decimal_digits(n).len()) == rest,
{
    lemma_scan_decimal(input, pos, n, rest);
    lemma_split(input, pos, decimal_digits(n), rest);
}

#[verifier::rlimit(40)]
proof fn lemma_scan_trailer(input: Seq<u8>, pos: int, timestamp: u64, sender_id: Seq<char>)
    requires
        0 <= pos <= input.len(),
        input.skip(pos) == trailer_bytes(timestamp, sender_id),
    ensures
        scan_trailer(input, pos) == Some((timestamp, sender_id)),
{
    lemma_fixed_facts();
    let r4 = fixed("}");
    let r3 = quoted_text(sender_id) + r4;
    let r2 = fixed(",\"sender_id\":") + r3;
    let r1 = decimal_digits(timestamp as nat) + r2;
    lemma_scan_fixed(input, pos, fixed(",\"timestamp\":"), r1);
    let p1 = pos + fixed(",\"timestamp\":").len();
    assert(r2[0] == fixed(",\"sender_id\":")[0]);
    lemma_scan_number(input, p1, timestamp as nat, u64::MAX as nat, r2);
    let p2 = p1 + decimal_digits(timestamp as nat).len();
    lemma_scan_fixed(input, p2, fixed(",\"sender_id\":"), r3);
    let p3 = p2 + fixed(",\"sender_id\":").len();
    lemma_scan_text(input, p3, sender_id, r4);
    lemma_split(input, p3, quoted_text(sender_id), r4);
    let p4 = p3 + quoted_text(sender_id).len();
    assert(r4 + Seq::<u8>::empty() =~= r4);
    lemma_scan_fixed(input, p4, r4, Seq::<u8>::empty());
    lemma_split(input, p4, r4, Seq::<u8>::empty());
}

#[verifier::rlimit(40)]
proof fn lemma_scan_text_content(input: Seq<u8>, pos: int, text: Seq<char>, rest: Seq<u8>)
    requires
        0 <= pos <= input.len(),
        input.skip(pos) == quoted_text(text) + (fixed("}") + rest),
    ensures
        scan_text_content(input, pos) matches Some((content, end)) && content == ContentView::Text(
            text,
        ) && 0 <= end <= input.len() && input.skip(end) == rest,
{
    let r1 = fixed("}") + rest;
    lemma_scan_text(input, pos, text, r1);
    lemma_split(input, pos, quoted_text(text), r1);
    let p1 = pos + quoted_text(text).len();
    lemma_scan_fixed(input, p1, fixed("}"), rest);
}

#[verifier::rlimit(40)]
proof fn lemma_scan_image_content(
    input: Seq<u8>,
    pos: int,
    width: u32,
    height: u32,
    data: Seq<u8>,
    rest: Seq<u8>,
)
    requires
        0 <= pos <= input.len(),
        input.skip(pos) == decimal_digits(width as nat) + (fixed(",\"height\":") + (decimal_digits(
            height as nat,
        ) + (fixed(",\"data\":") + (byte_array(data) + (fixed("}}") + rest))))),
    ensures
        scan_image_content(input, pos) matches Some((content, end)) && content == (
        ContentView::Image { width, height, data }) && 0 <= end <= input.len() && input.skip(end)
            == rest,
{
    lemma_fixed_facts();
    let r5 = fixed("}}") + rest;
    let r4 = byte_array(data) + r5;
    let r3 = fixed(",\"data\":") + r4;
    let r2 = decimal_digits(height as nat) + r3;
    let r1 = fixed(",\"height\":") + r2;
    assert(r1[0] == fixed(",\"height\":")[0]);
    lemma_scan_number(input, pos, width as nat, u32::MAX as nat, r1);
    let p1 = pos + decimal_digits(width as nat).len();
    lemma_scan_fixed(input, p1, fixed(",\"height\":"), r2);
    let p2 = p1 + fixed(",\"height\":").len();
    assert(r3[0] == fixed(",\"data\":")[0]);
    lemma_scan_number(input, p2, height as nat, u32::MAX as nat, r3);
    let p3 = p2 + decimal_digits(height as nat).len();
    lemma_scan_fixed(input, p3, fixed(",\"data\":"), r4);
    let p4 = p3 + fixed(",\"data\":").len();
    lemma_scan_byte_array(input, p4, data, r5);
    lemma_split(input, p4, byte_array(data), r5);
    let p5 = p4 + byte_array(data).len();
    lemma_scan_fixed(input, p5, fixed("}}"), rest);
}

/// An input that opens as an image does not open as a text.
proof fn lemma_image_is_no_text(input: Seq<u8>, rest: Seq<u8>)
    requires
        input.skip(0) == fixed("{\"content\":{\"Image\":{\"width\":") + rest,
    ensures
        scan_literal(input, 0, fixed("{\"content\":{\"Text\":")) is None,
{
    lemma_fixed_facts();
    let open = fixed("{\"content\":{\"Image\":{\"width\":");
    let wrong = fixed("{\"content\":{\"Text\":");
    lemma_split(input, 0, open, rest);
    if crate::json::holds_at(input, 0, wrong) {
        assert(input.subrange(0, 19)[13] == wrong[13]);
        assert(input[0int + 13] == open[13]);
    }
}

/// Reading the wire form of a message gives the message back.
#[verifier::rlimit(40)]
pub proof fn lemma_scan_message(message: MessageView)
    ensures
        scan_message(message_bytes(message)) == Some(message),
{
    let input = message_bytes(message);
    let trailer = trailer_bytes(message.timestamp, message.sender_id);
    assert(input.skip(0) =~= input);
    match message.content {
        ContentView::Text(text) => {
            let open = fixed("{\"content\":{\"Text\":");
            let r1 = quoted_text(text) + (fixed("}") + trailer);
            lemma_nest3(open, quoted_text(text), fixed("}"), trailer);
            lemma_scan_fixed(input, 0, open, r1);
            lemma_scan_text_content(input, open.len() as int, text, trailer);
            let end = scan_text_content(input, open.len() as int).unwrap().1;
            lemma_scan_trailer(input, end, message.timestamp, message.sender_id);
        },
        ContentView::Image { width, height, data } => {
            let open = fixed("{\"content\":{\"Image\":{\"width\":");
            let r1 = decimal_digits(width as nat) + (fixed(",\"height\":") + (decimal_digits(
                height as nat,
            ) + (fixed(",\"data\":") + (byte_array(data) + (fixed("}}") + trailer)))));
            lemma_nest7(
                open,
                decimal_digits(width as nat),
                fixed(",\"height\":"),
                decimal_digits(height as nat),
                fixed(",\"data\":"),
                byte_array(data),
                fixed("}}"),
                trailer,
            );
            lemma_scan_fixed(input, 0, open, r1);
            lemma_image_is_no_text(input, r1);
            lemma_scan_image_content(input, open.len() as int, width, height, data, trailer);
            let end = scan_image_content(input, open.len() as int).unwrap().1;
            lemma_scan_trailer(input, end, message.timestamp, message.sender_id);
        },
    }
}

/// Two messages with the same wire form are the same message.
pub proof fn lemma_message_bytes_injective(a: MessageView, b: MessageView)
    requires
        message_bytes(a) == message_bytes(b),
    ensures
        a == b,
{
    lemma_scan_message(a);
    lemma_scan_message(b);
}

/// Reading what was written gives the message back: for every message,
/// decoding its wire form yields that message.
pub proof fn lemma_message_round_trip(message: MessageView)
    ensures
        decoded(message_bytes(message)) == Some(message),
{
    let found = choose|m: MessageView| message_bytes(m) == message_bytes(message);
    lemma_message_bytes_injective(found, message);
}

/// Reads the piece of fixed text `piece` at `pos`.
fn read_fixed(input: &[u8], pos: usize, piece: &str) -> (end: Option<usize>)
    ensures
        match end {
            Some(e) => scan_literal(input@, pos as int, fixed(piece)) == Some(e as int) && e
                <= input@.len(),
            None => scan_literal(input@, pos as int, fixed(piece)) is None,
        },
{
    read_literal(input, pos, piece.as_bytes())
}

/// Reads the quoted text at `pos`.
fn read_text(input: &[u8], pos: usize) -> (found: Option<(String, usize)>)
    ensures
        match found {
            Some((text, end)) => scan_text(input@, pos as int) == Some((text@, end as int)) && end
                <= input@.len(),
            None => scan_text(input@, pos as int) is None,
        },
{
    match read_string(input, pos) {
        None => None,
        Some((bytes, end)) => match string_from_utf8(bytes) {
            None => None,
            Some(text) => Some((text, end)),
        },
    }
}

/// Reads the number of at most `max` at `pos`.
fn read_number(input: &[u8], pos: usize, max: u64) -> (found: Option<(u64, usize)>)
    ensures
        match found {
            Some((n, end)) => scan_number(input@, pos as int, max as nat) == Some(
                (n as nat, end as int),
            ) && n <= max && end <= input@.len(),
            None => scan_number(input@, pos as int, max as nat) is None,
        },
{
    read_decimal(input, pos, max)
}

/// Reads the timestamp and the sender at `pos`, up to the end of the input.
fn read_trailer(input: &[u8], pos: usize) -> (found: Option<(u64, String)>)
    ensures
        match found {
            Some((timestamp, sender_id)) => scan_trailer(input@, pos as int) == Some(
                (timestamp, sender_id@),
            ),
            None => scan_trailer(input@, pos as int) is None,
        },
{
    let p1 = match read_fixed(input, pos, ",\"timestamp\":") {
        Some(p) => p,
        None => {
            return None;
        },
    };
    let (timestamp, p2) = match read_number(input, p1, u64::MAX) {
        Some(found) => found,
        None => {
            return None;
        },
    };
    let p3 = match read_fixed(input, p2, ",\"sender_id\":") {
        Some(p) => p,
        None => {
            return None;
        },
    };
    let (sender_id, p4) = match read_text(input, p3) {
        Some(found) => found,
        None => {
            return None;
        },
    };
    let p5 = match read_fixed(input, p4, "}") {
        Some(p) => p,
        None => {
            return None;
        },
    };
    if p5 != input.len() {
        return None;
    }
    Some((timestamp, sender_id))
}

/// Reads the text content at `pos`.
fn read_text_content(input: &[u8], pos: usize) -> (found: Option<(ClipboardContent, usize)>)
    ensures
        match found {
            Some((content, end)) => scan_text_content(input@, pos as int) == Some(
                (content@, end as int),
            ) && end <= input@.len(),
            None => scan_text_content(input@, pos as int) is None,
        },
{
    let (text, p1) = match read_text(input, pos) {
        Some(found) => found,
        None => {
            return None;
        },
    };
    let p2 = match read_fixed(input, p1, "}") {
        Some(p) => p,
        None => {
            return None;
        },
    };
    Some((ClipboardContent::Text(text), p2))
}

/// Reads the image content at `pos`.
fn read_image_content(input: &[u8], pos: usize) -> (found: Option<(ClipboardContent, usize)>)
    ensures
        match found {
            Some((content, end)) => scan_image_content(input@, pos as int) == Some(
                (content@, end as int),
            ) && end <= input@.len(),
            None => scan_image_content(input@, pos as int) is None,
        },
{
    let (width, p1) = match read_number(input, pos, 0xffff_ffff) {
        Some(found) => found,
        None => {
            return None;
        },
    };
    let p2 = match read_fixed(input, p1, ",\"height\":") {
        Some(p) => p,
        None => {
            return None;
        },
    };
    let (height, p3) = match read_number(input, p2, 0xffff_ffff) {
        Some(found) => found,
        None => {
            return None;
        },
    };
    let p4 = match read_fixed(input, p3, ",\"data\":") {
        Some(p) => p,
        None => {
            return None;
        },
    };
    let (data, p5) = match read_byte_array(input, p4) {
        Some(found) => found,
        None => {
            return None;
        },
    };
    let p6 = match read_fixed(input, p5, "}}") {
        Some(p) => p,
        None => {
            return None;
        },
    };
    Some((ClipboardContent::Image { width: width as u32, height: height as u32, data }, p6))
}

/// Reads a message from the front of `input` to its end.
fn read_message(input: &[u8]) -> (found: Option<ClipboardMessage>)
    ensures
        match found {
            Some(message) => scan_message(input@) == Some(message@),
            None => scan_message(input@) is None,
        },
{
    let content = match read_fixed(input, 0, "{\"content\":{\"Text\":") {
        Some(p) => read_text_content(input, p),
        None => match read_fixed(input, 0, "{\"content\":{\"Image\":{\"width\":") {
            Some(p) => read_image_content(input, p),
            None => None,
        },
    };
    let (content, p) = match content {
        Some(found) => found,
        None => {
            return None;
        },
    };
    match read_trailer(input, p) {
        None => None,
        Some((timestamp, sender_id)) => Some(ClipboardMessage { content, timestamp, sender_id }),
    }
}

/// Appends the timestamp, the sender and the end of the object.
#[verifier::rlimit(40)]
fn push_trailer(out: &mut Vec<u8>, timestamp: u64, sender_id: &str)
    ensures
        final(out)@ == old(out)@ + trailer_bytes(timestamp, sender_id@),
{
    push_text(out, ",\"timestamp\":");
    crate::text::push_decimal(out, timestamp);
    push_text(out, ",\"sender_id\":");
    push_quoted(out, sender_id.as_bytes());
    push_text(out, "}");
    proof {
        lemma_join5(
            old(out)@,
            fixed(",\"timestamp\":"),
            decimal_digits(timestamp as nat),
            fixed(",\"sender_id\":"),
            quoted_text(sender_id@),
            fixed("}"),
        );
    }
}

/// Appends the content, with the member name before it.
#[verifier::rlimit(40)]
fn push_content(out: &mut Vec<u8>, content: &ClipboardContent)
    ensures
        final(out)@ == old(out)@ + content_bytes(content@),
{
    match content {
        ClipboardContent::Text(text) => {
            push_text(out, "{\"content\":{\"Text\":");
            push_quoted(out, text.as_str().as_bytes());
            push_text(out, "}");
            proof {
                lemma_join3(
                    old(out)@,
                    fixed("{\"content\":{\"Text\":"),
                    quoted_text(text@),
                    fixed("}"),
                );
            }
        },
        ClipboardContent::Image { width, height, data } => {
            push_text(out, "{\"content\":{\"Image\":{\"width\":");
            crate::text::push_decimal(out, *width as u64);
            push_text(out, ",\"height\":");
            crate::text::push_decimal(out, *height as u64);
            push_text(out, ",\"data\":");
            push_byte_array(out, data.as_slice());
            push_text(out, "}}");
            proof {
                lemma_join7(
                    old(out)@,
                    fixed("{\"content\":{\"Image\":{\"width\":"),
                    decimal_digits(*width as nat),
                    fixed(",\"height\":"),
                    decimal_digits(*height as nat),
                    fixed(",\"data\":"),
                    byte_array(data@),
                    fixed("}}"),
                );
            }
        },
    }
}

impl ClipboardMessage {
    /// The wire form of the message. Writing never fails.
    pub fn to_bytes(&self) -> (written: Result<Vec<u8>, EncodingError>)
        ensures
            written matches Ok(bytes) && bytes@ == message_bytes(self@),
    {
        let mut out: Vec<u8> = Vec::new();
        push_content(&mut out, &self.content);
        let ghost content = out@;
        push_trailer(&mut out, self.timestamp, self.sender_id.as_str());
        proof {
            assert(content =~= content_bytes(self@.content));
        }
        Ok(out)
    }

    /// The message whose wire form `bytes` is. Reading succeeds exactly on
    /// the wire forms of messages, and the message it gives is the one that
    /// was written; any other input is a [`DecodingError`].
    pub fn from_bytes(bytes: &[u8]) -> (read: Result<ClipboardMessage, DecodingError>)
        ensures
            match read {
                Ok(message) => decoded(bytes@) == Some(message@) && message_bytes(message@)
                    == bytes@,
                Err(_) => decoded(bytes@) is None,
            },
    {
        let message = match read_message(bytes) {
            Some(message) => message,
            None => {
                proof {
                    assert forall|m: MessageView| message_bytes(m) != bytes@ by {
                        lemma_scan_message(m);
                    }
                }
                return Err(DecodingError);
            },
        };
        let again = match message.to_bytes() {
            Ok(again) => again,
            Err(_) => {
                return Err(DecodingError);
            },
        };
        if same_bytes(again.as_slice(), bytes) {
            proof {
                let found = choose|m: MessageView| message_bytes(m) == bytes@;
                lemma_message_bytes_injective(found, message@);
            }
            Ok(message)
        } else {
            proof {
                assert forall|m: MessageView| message_bytes(m) != bytes@ by {
                    lemma_scan_message(m);
                }
            }
            Err(DecodingError)
        }
    }
}

} // verus!
