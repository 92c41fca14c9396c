//! The clipboard change detector: what to read at a tick of the polling
//! loop, and whether what was read is a change worth a broadcast.
//!
//! Texts are compared by value. Images are not: an image counts as new only
//! when the clipboard did not hold an image at the last change, so an image
//! edited in place is not announced again.

use crate::content::{ClipboardContent, ContentView};
use vstd::prelude::*;
use vstd::string::*;

verus! {

/// Milliseconds between two ticks of the polling loop.
pub const POLL_INTERVAL_MILLIS: u64 = 500;

/// Kind of content that the clipboard reports.
#[derive(Clone, Copy, Debug, PartialEq, Eq, Structural)]
pub enum ContentKind {
    Empty,
    Text,
    Image,
}

/// What the polling loop reads next from the clipboard.
#[derive(Clone, Copy, Debug, PartialEq, Eq, Structural)]
pub enum Probe {
    /// Nothing: the tick is over.
    Idle,
    /// The text, to be handed to [`ClipboardState::text_read`].
    ReadText,
    /// The image, to be handed to [`ClipboardState::image_read`].
    ReadImage,
}

/// What the clipboard showed at one tick.
#[derive(Debug, PartialEq, Eq)]
pub enum Observation {
    /// The clipboard is empty.
    Empty,
    /// The clipboard holds this text.
    Text(String),
    /// The clipboard holds this image.
    Image { width: u32, height: u32, data: Vec<u8> },
    /// The clipboard holds text or an image that could not be read.
    Unreadable(ContentKind),
}

/// Mathematical value of an [`Observation`].
pub enum ObservationView {
    Empty,
    Text(Seq<char>),
    Image { width: u32, height: u32, data: Seq<u8> },
    Unreadable(ContentKind),
}

impl View for Observation {
    type V = ObservationView;

    open spec fn view(&self) -> ObservationView {
        match self {
            Observation::Empty => ObservationView::Empty,
            Observation::Text(text) => ObservationView::Text(text@),
            Observation::Image { width, height, data } => ObservationView::Image {
                width: *width,
                height: *height,
                data: data@,
            },
            Observation::Unreadable(kind) => ObservationView::Unreadable(*kind),
        }
    }
}

/// What the detector remembers between ticks.
#[derive(Debug)]
pub struct ClipboardState {
    last_text: String,
    last_content_type: ContentKind,
}

/// Mathematical value of a [`ClipboardState`].
pub struct StateView {
    pub last_text: Seq<char>,
    pub last_content_type: ContentKind,
}

impl View for ClipboardState {
    type V = StateView;

    closed spec fn view(&self) -> StateView {
        StateView { last_text: self.last_text@, last_content_type: self.last_content_type }
    }
}

/// The state before the first tick: no text seen, clipboard taken as empty.
pub open spec fn initial_state() -> StateView {
    StateView { last_text: Seq::<char>::empty(), last_content_type: ContentKind::Empty }
}

/// What is read after the clipboard reported `kind`.
pub open spec fn probe_for(state: StateView, kind: ContentKind) -> Probe {
    match kind {
        ContentKind::Empty => Probe::Idle,
        ContentKind::Text => Probe::ReadText,
        ContentKind::Image => if state.last_content_type != ContentKind::Image {
            Probe::ReadImage
        } else {
            Probe::Idle
        },
    }
}

/// The state after the clipboard reported `kind`, before anything is read.
pub open spec fn after_kind(state: StateView, kind: ContentKind) -> StateView {
    if kind == ContentKind::Empty && state.last_content_type != ContentKind::Empty {
        initial_state()
    } else {
        state
    }
}

/// Whether a text read from the clipboard is a change: it is not empty and
/// differs from the text of the last change.
pub open spec fn text_is_change(state: StateView, text: Seq<char>) -> bool {
    text != state.last_text && text.len() > 0
}

/// Whether an image read from the clipboard is a change: the last change was
/// not an image.
pub open spec fn image_is_change(state: StateView) -> bool {
    state.last_content_type != ContentKind::Image
}

/// The state after one tick at which the clipboard showed `seen`.
pub open spec fn next_state(state: StateView, seen: ObservationView) -> StateView {
    match seen {
        ObservationView::Empty => after_kind(state, ContentKind::Empty),
        ObservationView::Text(text) => if text_is_change(state, text) {
            StateView { last_text: text, last_content_type: ContentKind::Text }
        } else {
            state
        },
        ObservationView::Image { width, height, data } => if image_is_change(state) {
            StateView { last_text: state.last_text, last_content_type: ContentKind::Image }
        } else {
            state
        },
        ObservationView::Unreadable(kind) => after_kind(state, kind),
    }
}

/// The content to broadcast after one tick at which the clipboard showed
/// `seen`, if there is a change.
pub open spec fn change_at(state: StateView, seen: ObservationView) -> Option<ContentView> {
    match seen {
        ObservationView::Empty => None,
        ObservationView::Text(text) => if text_is_change(state, text) {
            Some(ContentView::Text(text))
        } else {
            None
        },
        ObservationView::Image { width, height, data } => if image_is_change(state) {
            Some(ContentView::Image { width, height, data })
        } else {
            None
        },
        ObservationView::Unreadable(kind) => None,
    }
}

impl ClipboardState {
    /// The state before the first tick.
    pub fn new() -> (state: Self)
        ensures
            state@ == initial_state(),
    {
        ClipboardState { last_text: String::new(), last_content_type: ContentKind::Empty }
    }

    /// The text of the last change, empty if there was none since the
    /// clipboard was last empty.
    pub fn last_text(&self) -> (text: &String)
        ensures
            text@ == self@.last_text,
    {
        &self.last_text
    }

    /// The kind of content at the last change.
    pub fn last_content_type(&self) -> (kind: ContentKind)
        ensures
            kind == self@.last_content_type,
    {
        self.last_content_type
    }

    /// First half of a tick: the clipboard reported `kind`. An empty
    /// clipboard is remembered at once; for text and images the answer says
    /// what to read. An image is read only if the last change was not one.
    pub fn classified(&mut self, kind: ContentKind) -> (probe: Probe)
        ensures
            probe == probe_for(old(self)@, kind),
            final(self)@ == after_kind(old(self)@, kind),
    {
        match kind {
            ContentKind::Empty => {
                if self.last_content_type != ContentKind::Empty {
                    self.last_content_type = ContentKind::Empty;
                    self.last_text = String::new();
                }
                Probe::Idle
            },
            ContentKind::Text => Probe::ReadText,
            ContentKind::Image => {
                if self.last_content_type != ContentKind::Image {
                    Probe::ReadImage
                } else {
                    Probe::Idle
                }
            },
        }
    }

    /// Second half of a tick at which text was read. The text is a change,
    /// and is handed back for broadcast, exactly if it is not empty and
    /// differs from the text of the last change.
    pub fn text_read(&mut self, text: String) -> (change: Option<ClipboardContent>)
        ensures
            final(self)@ == next_state(old(self)@, ObservationView::Text(text@)),
            match change {
                Some(content) => Some(content@) == change_at(
                    old(self)@,
                    ObservationView::Text(text@),
                ),
                None => change_at(old(self)@, ObservationView::Text(text@)) is None,
            },
    {
        let nonempty = text.as_str().unicode_len() > 0;
        if text != self.last_text && nonempty {
            self.last_text = text.clone();
            self.last_content_type = ContentKind::Text;
            Some(ClipboardContent::Text(text))
        } else {
            None
        }
    }

    /// Second half of a tick at which an image was read. The image is a
    /// change exactly if the last change was not an image.
    pub fn image_read(&mut self, width: u32, height: u32, data: Vec<u8>) -> (change: Option<
        ClipboardContent,
    >)
        ensures
            final(self)@ == next_state(
                old(self)@,
                ObservationView::Image { width, height, data: data@ },
            ),
            match change {
                Some(content) => Some(content@) == change_at(
                    old(self)@,
                    ObservationView::Image { width, height, data: data@ },
                ),
                None => change_at(old(self)@, ObservationView::Image { width, height, data: data@ })
                    is None,
            },
    {
        if self.last_content_type != ContentKind::Image {
            self.last_content_type = ContentKind::Image;
            Some(ClipboardContent::Image { width, height, data })
        } else {
            None
        }
    }

    /// One whole tick at which the clipboard showed `seen`: the new state,
    /// and the content to broadcast if `seen` is a change.
    pub fn tick(&mut self, seen: Observation) -> (change: Option<ClipboardContent>)
        ensures
            final(self)@ == next_state(old(self)@, seen@),
            match change {
                Some(content) => Some(content@) == change_at(old(self)@, seen@),
                None => change_at(old(self)@, seen@) is None,
            },
    {
        match seen {
            Observation::Empty => {
                self.classified(ContentKind::Empty);
                None
            },
            Observation::Text(text) => {
                self.classified(ContentKind::Text);
                self.text_read(text)
            },
            Observation::Image { width, height, data } => {
                self.classified(ContentKind::Image);
                self.image_read(width, height, data)
            },
            Observation::Unreadable(kind) => {
                self.classified(kind);
                None
            },
        }
    }
}

/// A text that stays on the clipboard is broadcast at most once: the tick
/// after one that showed `text` announces nothing if it shows `text` again.
pub proof fn lemma_repeated_text_is_silent(state: StateView, text: Seq<char>)
    ensures
        change_at(next_state(state, ObservationView::Text(text)), ObservationView::Text(text))
            is None,
{
}

/// An image that stays on the clipboard is broadcast at most once, whatever
/// its bytes are at the later tick.
pub proof fn lemma_repeated_image_is_silent(
    state: StateView,
    first: ObservationView,
    second: ObservationView,
)
    requires
        first is Image,
        second is Image,
    ensures
        change_at(next_state(state, first), second) is None,
{
}

/// An empty clipboard is never a change, and after it any text that is not
/// empty is one, also the text of the change before.
pub proof fn lemma_text_after_empty_is_change(state: StateView, text: Seq<char>)
    requires
        text.len() > 0,
    ensures
        change_at(state, ObservationView::Empty) is None,
        state.last_content_type != ContentKind::Empty ==> change_at(
            next_state(state, ObservationView::Empty),
            ObservationView::Text(text),
        ) == Some(ContentView::Text(text)),
{
}

} // verus!
