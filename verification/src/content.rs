//! Clipboard content and the message that carries one change of it.

use crate::text::{decimal_text, push_decimal_text};
use vstd::prelude::*;
use vstd::string::*;
use vstd::utf8::encode_utf8;

verus! {

/// What the clipboard holds: plain text, or a raster image in an encoded
/// form such as PNG together with its pixel dimensions.
#[derive(Debug, PartialEq, Eq)]
pub enum ClipboardContent {
    Text(String),
    Image { width: u32, height: u32, data: Vec<u8> },
}

/// Mathematical value of a [`ClipboardContent`].
pub enum ContentView {
    Text(Seq<char>),
    Image { width: u32, height: u32, data: Seq<u8> },
}

impl View for ClipboardContent {
    type V = ContentView;

    open spec fn view(&self) -> ContentView {
        match self {
            ClipboardContent::Text(text) => ContentView::Text(text@),
            ClipboardContent::Image { width, height, data } => ContentView::Image {
                width: *width,
                height: *height,
                data: data@,
            },
        }
    }
}

/// Length that a preview of an image is taken to have.
pub const IMAGE_PREVIEW_LENGTH: usize = 50;

/// Description of an image of the given dimensions, as shown to the user.
pub open spec fn image_label(width: u32, height: u32) -> Seq<char> {
    "图片 "@ + decimal_text(width as nat) + "x"@ + decimal_text(height as nat)
}

/// The preview of `content` in at most `max_length` characters of text.
pub open spec fn preview_of(content: ContentView, max_length: nat) -> Seq<char> {
    match content {
        ContentView::Text(text) => if text.len() > max_length {
            text.take(max_length as int) + "..."@
        } else {
            text
        },
        ContentView::Image { width, height, data } => image_label(width, height),
    }
}

/// The one-line description of `content`: its kind, then the text itself or
/// the dimensions of the image.
pub open spec fn description_of(content: ContentView) -> Seq<char> {
    match content {
        ContentView::Text(text) => "文本: "@ + text,
        ContentView::Image { width, height, data } => "图片: "@ + decimal_text(width as nat) + "x"@
            + decimal_text(height as nat),
    }
}

/// Copies `bytes` into a new vector.
pub fn copy_bytes(bytes: &Vec<u8>) -> (copy: Vec<u8>)
    ensures
        copy@ == bytes@,
{
    let mut copy: Vec<u8> = Vec::new();
    let mut i: usize = 0;
    while i < bytes.len()
        invariant
            i <= bytes@.len(),
            copy@ == bytes@.take(i as int),
        decreases bytes@.len() - i,
    {
        copy.push(bytes[i]);
        proof {
            assert(bytes@.take(i as int + 1) =~= bytes@.take(i as int).push(bytes@[i as int]));
        }
        i += 1;
    }
    assert(bytes@.take(bytes@.len() as int) =~= bytes@);
    copy
}

impl Clone for ClipboardContent {
    fn clone(&self) -> (copy: ClipboardContent)
        ensures
            copy@ == self@,
    {
        match self {
            ClipboardContent::Text(text) => ClipboardContent::Text(text.clone()),
            ClipboardContent::Image { width, height, data } => ClipboardContent::Image {
                width: *width,
                height: *height,
                data: copy_bytes(data),
            },
        }
    }
}

impl ClipboardContent {
    /// The length by which a preview is sized: the number of bytes of a
    /// text in UTF-8, and a fixed length for an image.
    pub fn preview_length(&self) -> (length: usize)
        ensures
            length == match self@ {
                ContentView::Text(text) => encode_utf8(text).len(),
                ContentView::Image { width, height, data } => IMAGE_PREVIEW_LENGTH as nat,
            },
    {
        match self {
            ClipboardContent::Text(text) => text.as_str().as_bytes().len(),
            ClipboardContent::Image { .. } => IMAGE_PREVIEW_LENGTH,
        }
    }

    /// A short text for a notification. A text longer than `max_length`
    /// characters is cut after that many characters, whatever their width in
    /// bytes, and marked with three dots; a shorter one is given whole. An
    /// image is described by its dimensions.
    pub fn preview(&self, max_length: usize) -> (shown: String)
        ensures
            shown@ == preview_of(self@, max_length as nat),
    {
        match self {
            ClipboardContent::Text(text) => {
                let count = text.as_str().unicode_len();
                if count > max_length {
                    let head = text.as_str().substring_char(0, max_length);
                    let mut shown = String::from_str(head);
                    shown.append("...");
                    assert(text@.subrange(0, max_length as int) =~= text@.take(max_length as int));
                    shown
                } else {
                    text.clone()
                }
            },
            ClipboardContent::Image { width, height, .. } => {
                let mut shown = String::from_str("图片 ");
                push_decimal_text(&mut shown, *width as u64);
                shown.append("x");
                push_decimal_text(&mut shown, *height as u64);
                shown
            },
        }
    }

    /// The description of the content for a log line.
    pub fn to_string(&self) -> (shown: String)
        ensures
            shown@ == description_of(self@),
    {
        match self {
            ClipboardContent::Text(text) => {
                let mut shown = String::from_str("文本: ");
                shown.append(text.as_str());
                shown
            },
            ClipboardContent::Image { width, height, .. } => {
                let mut shown = String::from_str("图片: ");
                push_decimal_text(&mut shown, *width as u64);
                shown.append("x");
                push_decimal_text(&mut shown, *height as u64);
                shown
            },
        }
    }
}

/// One clipboard change on its way between devices.
#[derive(Debug, PartialEq, Eq)]
pub struct ClipboardMessage {
    pub content: ClipboardContent,
    /// Seconds since the Unix epoch at which the change was seen.
    pub timestamp: u64,
    /// Name of the device that saw it.
    pub sender_id: String,
}

/// Mathematical value of a [`ClipboardMessage`].
pub struct MessageView {
    pub content: ContentView,
    pub timestamp: u64,
    pub sender_id: Seq<char>,
}

impl View for ClipboardMessage {
    type V = MessageView;

    open spec fn view(&self) -> MessageView {
        MessageView {
            content: self.content@,
            timestamp: self.timestamp,
            sender_id: self.sender_id@,
        }
    }
}

impl Clone for ClipboardMessage {
    fn clone(&self) -> (copy: ClipboardMessage)
        ensures
            copy@ == self@,
    {
        ClipboardMessage {
            content: self.content.clone(),
            timestamp: self.timestamp,
            sender_id: self.sender_id.clone(),
        }
    }
}

/// A point in time of the system clock.
#[verifier::external_type_specification]
#[verifier::external_body]
pub struct ExSystemTime(std::time::SystemTime);

/// Error of `SystemTime::duration_since`: the second point in time is the
/// later one.
#[verifier::external_type_specification]
#[verifier::external_body]
pub struct ExSystemTimeError(std::time::SystemTimeError);

/// `SystemTime::now`: the system clock at the call. Nothing is claimed of
/// it.
#[verifier::external_body]
pub(crate) fn system_time_now() -> (now: std::time::SystemTime) {
    std::time::SystemTime::now()
}

/// `SystemTime::duration_since` the Unix epoch: the time that has passed
/// since the epoch, or an error for a point in time before it. Nothing is
/// claimed of the span.
#[verifier::external_body]
pub(crate) fn since_unix_epoch(time: &std::time::SystemTime) -> (passed: Result<
    std::time::Duration,
    std::time::SystemTimeError,
>) {
    time.duration_since(std::time::UNIX_EPOCH)
}

/// `Duration::as_secs`: the whole seconds of the span. Nothing is claimed
/// of the number.
#[verifier::external_body]
pub(crate) fn whole_seconds(span: &std::time::Duration) -> (seconds: u64) {
    span.as_secs()
}

/// Seconds since the Unix epoch by the system clock, and zero where that
/// clock stands before the epoch.
fn unix_time_seconds() -> (seconds: u64) {
    let now = system_time_now();
    match since_unix_epoch(&now) {
        Ok(passed) => whole_seconds(&passed),
        Err(_) => 0,
    }
}

impl ClipboardMessage {
    /// The message for `content`, seen at `timestamp` by `sender_id`.
    pub fn new(content: ClipboardContent, timestamp: u64, sender_id: String) -> (message: Self)
        ensures
            message@ == (MessageView { content: content@, timestamp, sender_id: sender_id@ }),
    {
        ClipboardMessage { content, timestamp, sender_id }
    }

    /// The message for a text seen now by `sender_id`. The timestamp is the
    /// machine's clock at the call.
    pub fn new_text(content: String, sender_id: String) -> (message: Self)
        ensures
            message@.content == ContentView::Text(content@),
            message@.sender_id == sender_id@,
    {
        let timestamp = unix_time_seconds();
        ClipboardMessage::new(ClipboardContent::Text(content), timestamp, sender_id)
    }

    /// The message for an image seen now by `sender_id`. The timestamp is
    /// the machine's clock at the call.
    pub fn new_image(width: u32, height: u32, data: Vec<u8>, sender_id: String) -> (message: Self)
        ensures
            message@.content == (ContentView::Image { width, height, data: data@ }),
            message@.sender_id == sender_id@,
    {
        let timestamp = unix_time_seconds();
        ClipboardMessage::new(ClipboardContent::Image { width, height, data }, timestamp, sender_id)
    }
}

} // verus!
