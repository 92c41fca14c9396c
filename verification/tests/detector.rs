use clipboard_sync::content::ClipboardContent;
use clipboard_sync::detector::{ClipboardState, ContentKind, Observation, Probe, POLL_INTERVAL_MILLIS};

fn text(s: &str) -> Observation {
    Observation::Text(s.to_string())
}

fn image(data: Vec<u8>) -> Observation {
    Observation::Image { width: 2, height: 2, data }
}

#[test]
fn repeated_and_empty_states_are_not_broadcast() {
    let mut state = ClipboardState::new();
    let seen = vec![text("a"), text("a"), text("b"), Observation::Empty, text("b")];
    let changes: Vec<Option<ClipboardContent>> = seen.into_iter().map(|o| state.tick(o)).collect();
    assert_eq!(
        changes,
        vec![
            Some(ClipboardContent::Text("a".to_string())),
            None,
            Some(ClipboardContent::Text("b".to_string())),
            None,
            Some(ClipboardContent::Text("b".to_string())),
        ]
    );
}

#[test]
fn clipboard_is_polled_twice_a_second() {
    assert_eq!(POLL_INTERVAL_MILLIS, 500);
}

#[test]
fn initial_state_is_empty() {
    let state = ClipboardState::new();
    assert_eq!(state.last_text(), "");
    assert_eq!(state.last_content_type(), ContentKind::Empty);
}

#[test]
fn empty_text_is_never_a_change() {
    let mut state = ClipboardState::new();
    assert_eq!(state.tick(text("")), None);
    assert_eq!(state.last_content_type(), ContentKind::Empty);
    assert_eq!(state.tick(text("a")), Some(ClipboardContent::Text("a".to_string())));
    assert_eq!(state.tick(text("")), None);
    assert_eq!(state.last_text(), "a");
    assert_eq!(state.last_content_type(), ContentKind::Text);
}

#[test]
fn image_is_broadcast_on_transition_only() {
    let mut state = ClipboardState::new();
    assert_eq!(
        state.tick(image(vec![1])),
        Some(ClipboardContent::Image { width: 2, height: 2, data: vec![1] })
    );
    assert_eq!(state.tick(image(vec![1])), None);
    assert_eq!(state.tick(image(vec![2, 3])), None);
    assert_eq!(state.last_content_type(), ContentKind::Image);
    assert_eq!(state.tick(Observation::Empty), None);
    assert_eq!(
        state.tick(image(vec![2, 3])),
        Some(ClipboardContent::Image { width: 2, height: 2, data: vec![2, 3] })
    );
}

#[test]
fn image_keeps_the_last_text() {
    let mut state = ClipboardState::new();
    assert!(state.tick(text("a")).is_some());
    assert!(state.tick(image(vec![1])).is_some());
    assert_eq!(state.last_text(), "a");
    assert_eq!(state.tick(text("a")), None);
    assert_eq!(state.last_content_type(), ContentKind::Image);
    assert_eq!(state.tick(image(vec![9])), None);
    assert_eq!(state.tick(text("b")), Some(ClipboardContent::Text("b".to_string())));
    assert_eq!(state.last_content_type(), ContentKind::Text);
    assert!(state.tick(image(vec![9])).is_some());
}

#[test]
fn empty_clipboard_clears_the_last_text() {
    let mut state = ClipboardState::new();
    assert!(state.tick(text("a")).is_some());
    assert_eq!(state.tick(Observation::Empty), None);
    assert_eq!(state.last_text(), "");
    assert_eq!(state.last_content_type(), ContentKind::Empty);
    assert_eq!(state.tick(Observation::Empty), None);
}

#[test]
fn unreadable_content_changes_nothing_but_for_empty() {
    let mut state = ClipboardState::new();
    assert!(state.tick(text("a")).is_some());
    assert_eq!(state.tick(Observation::Unreadable(ContentKind::Text)), None);
    assert_eq!(state.tick(Observation::Unreadable(ContentKind::Image)), None);
    assert_eq!(state.last_text(), "a");
    assert_eq!(state.last_content_type(), ContentKind::Text);
    assert!(state.tick(image(vec![1])).is_some());
    assert_eq!(state.tick(Observation::Unreadable(ContentKind::Empty)), None);
    assert_eq!(state.last_content_type(), ContentKind::Empty);
}

#[test]
fn classified_says_what_to_read() {
    let mut state = ClipboardState::new();
    assert_eq!(state.classified(ContentKind::Empty), Probe::Idle);
    assert_eq!(state.classified(ContentKind::Text), Probe::ReadText);
    assert_eq!(state.classified(ContentKind::Image), Probe::ReadImage);
    assert!(state.image_read(1, 1, vec![0]).is_some());
    assert_eq!(state.classified(ContentKind::Image), Probe::Idle);
    assert_eq!(state.classified(ContentKind::Text), Probe::ReadText);
    assert_eq!(state.classified(ContentKind::Empty), Probe::Idle);
    assert_eq!(state.last_content_type(), ContentKind::Empty);
    assert_eq!(state.classified(ContentKind::Image), Probe::ReadImage);
}

#[test]
fn text_read_and_image_read_guard_themselves() {
    let mut state = ClipboardState::new();
    assert_eq!(state.text_read("x".to_string()), Some(ClipboardContent::Text("x".to_string())));
    assert_eq!(state.text_read("x".to_string()), None);
    assert_eq!(
        state.image_read(4, 5, vec![6]),
        Some(ClipboardContent::Image { width: 4, height: 5, data: vec![6] })
    );
    assert_eq!(state.image_read(4, 5, vec![6]), None);
}
