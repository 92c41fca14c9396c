//! The inbound side of a connection: bytes that arrive on a stream are
//! gathered until the stream ends, and then read as one message.
//!
//! A stream carries one message; its end marks the end of the message. What
//! cannot be read is dropped without ending the connection, and the handler
//! is ready for the next stream.

use crate::content::{
    preview_of, ClipboardContent, ClipboardMessage, ContentView, MessageView,
};
use crate::json::push_bytes;
use crate::wire::{decoded, DecodingError};
use vstd::prelude::*;
use vstd::string::*;

verus! {

/// Handler of the clipboard protocol for one accepted connection.
#[derive(Debug)]
pub struct ClipboardProtocol {
    buffer: Vec<u8>,
}

impl View for ClipboardProtocol {
    type V = Seq<u8>;

    /// The bytes gathered since the last end of a stream.
    closed spec fn view(&self) -> Seq<u8> {
        self.buffer@
    }
}

/// What to do at the end of an inbound stream.
#[derive(Debug, PartialEq, Eq)]
pub enum Inbound {
    /// Nothing arrived on the stream.
    Nothing,
    /// The stream carried this message: hand it to the application.
    Forward(ClipboardMessage),
    /// The stream carried bytes that are no message: log and go on.
    Discard(DecodingError),
}

/// What is done with the bytes `gathered` of a stream that has ended.
pub open spec fn outcome_of(gathered: Seq<u8>, outcome: Inbound) -> bool {
    match outcome {
        Inbound::Nothing => gathered.len() == 0,
        Inbound::Forward(message) => gathered.len() > 0 && decoded(gathered) == Some(message@),
        Inbound::Discard(_) => gathered.len() > 0 && decoded(gathered) is None,
    }
}

impl ClipboardProtocol {
    /// A handler that has seen no bytes yet.
    pub fn new() -> (handler: Self)
        ensures
            handler@ == Seq::<u8>::empty(),
    {
        ClipboardProtocol { buffer: Vec::new() }
    }

    /// The number of bytes gathered on the current stream.
    pub fn pending(&self) -> (count: usize)
        ensures
            count == self@.len(),
    {
        self.buffer.len()
    }

    /// Bytes arrived on the stream: they are kept, in order of arrival.
    pub fn received(&mut self, chunk: &[u8])
        ensures
            final(self)@ == old(self)@ + chunk@,
    {
        push_bytes(&mut self.buffer, chunk);
    }

    /// The stream ended, or the connection was closed. The bytes gathered
    /// are read as one message, which is forwarded if they are one and
    /// dropped if not; the handler starts afresh either way.
    pub fn end_of_data(&mut self) -> (outcome: Inbound)
        ensures
            final(self)@ == Seq::<u8>::empty(),
            outcome_of(old(self)@, outcome),
    {
        let mut gathered: Vec<u8> = Vec::new();
        core::mem::swap(&mut self.buffer, &mut gathered);
        if gathered.len() == 0 {
            return Inbound::Nothing;
        }
        match ClipboardMessage::from_bytes(gathered.as_slice()) {
            Ok(message) => Inbound::Forward(message),
            Err(e) => Inbound::Discard(e),
        }
    }
}

/// What the user is told after a message was written to the clipboard.
#[derive(Debug, PartialEq, Eq)]
pub struct Notification {
    pub title: String,
    pub body: String,
}

/// Number of characters of a text that a notification shows.
pub const NOTIFICATION_PREVIEW: usize = 50;

/// The title of the notification for `content`.
pub open spec fn notification_title(content: ContentView) -> Seq<char> {
    match content {
        ContentView::Text(_) => "文本剪贴板已同步"@,
        ContentView::Image { .. } => "图片剪贴板已同步"@,
    }
}

/// The line that reports a received message.
pub open spec fn received_line_of(message: MessageView) -> Seq<char> {
    "收到剪贴板消息: "@ + crate::content::description_of(message.content) + " (来自: "@
        + message.sender_id + ")"@
}

impl ClipboardMessage {
    /// The notification to show once the content of the message is on the
    /// local clipboard: a title that names the kind of content, and the
    /// preview of the content in fifty characters.
    pub fn notification(&self) -> (shown: Notification)
        ensures
            shown.title@ == notification_title(self@.content),
            shown.body@ == preview_of(self@.content, NOTIFICATION_PREVIEW as nat),
    {
        let title = match &self.content {
            ClipboardContent::Text(_) => String::from_str("文本剪贴板已同步"),
            ClipboardContent::Image { .. } => String::from_str("图片剪贴板已同步"),
        };
        Notification { title, body: self.content.preview(NOTIFICATION_PREVIEW) }
    }

    /// The line that reports the message as received: what it holds and who
    /// sent it.
    pub fn received_line(&self) -> (line: String)
        ensures
            line@ == received_line_of(self@),
    {
        let mut line = String::from_str("收到剪贴板消息: ");
        let shown = self.content.to_string();
        line.append(shown.as_str());
        line.append(" (来自: ");
        line.append(self.sender_id.as_str());
        line.append(")");
        line
    }
}

} // verus!
