use clipboard_sync::content::{ClipboardContent, ClipboardMessage, IMAGE_PREVIEW_LENGTH};
use clipboard_sync::inbound::Notification;

fn text(s: &str) -> ClipboardContent {
    ClipboardContent::Text(s.to_string())
}

#[test]
fn preview_cuts_after_characters_not_bytes() {
    assert_eq!(text("aあbいc").preview(3), "aあb...");
}

#[test]
fn preview_of_short_text_is_the_text() {
    assert_eq!(text("aあb").preview(3), "aあb");
    assert_eq!(text("ab").preview(3), "ab");
    assert_eq!(text("").preview(3), "");
    assert_eq!(text("").preview(0), "");
}

#[test]
fn preview_with_no_room_is_only_the_mark() {
    assert_eq!(text("abc").preview(0), "...");
}

#[test]
fn preview_of_text_one_longer_than_the_limit_is_cut() {
    assert_eq!(text("🎆🎆🎆🎆").preview(3), "🎆🎆🎆...");
}

#[test]
fn preview_of_image_names_its_dimensions() {
    let image = ClipboardContent::Image { width: 640, height: 480, data: vec![1, 2, 3] };
    assert_eq!(image.preview(3), "图片 640x480");
    assert_eq!(image.preview(0), "图片 640x480");
    let extreme = ClipboardContent::Image { width: 0, height: u32::MAX, data: vec![] };
    assert_eq!(extreme.preview(50), "图片 0x4294967295");
}

#[test]
fn preview_length_counts_bytes_of_text() {
    assert_eq!(text("abc").preview_length(), 3);
    assert_eq!(text("aあ").preview_length(), 4);
    assert_eq!(text("").preview_length(), 0);
}

#[test]
fn preview_length_of_image_is_fixed() {
    let image = ClipboardContent::Image { width: 1, height: 1, data: vec![0; 1000] };
    assert_eq!(image.preview_length(), 50);
    assert_eq!(IMAGE_PREVIEW_LENGTH, 50);
}

#[test]
fn description_names_kind_and_content() {
    assert_eq!(text("hello").to_string(), "文本: hello");
    let image = ClipboardContent::Image { width: 12, height: 7, data: vec![] };
    assert_eq!(image.to_string(), "图片: 12x7");
}

#[test]
fn content_clone_is_equal() {
    let image = ClipboardContent::Image { width: 12, height: 7, data: vec![1, 2, 3] };
    assert_eq!(image.clone(), image);
    assert_eq!(text("a").clone(), text("a"));
}

#[test]
fn notification_for_text_shows_fifty_characters() {
    let long: String = std::iter::repeat('あ').take(60).collect();
    let message = ClipboardMessage::new(text(&long), 1, "desk".to_string());
    let head: String = std::iter::repeat('あ').take(50).collect();
    assert_eq!(
        message.notification(),
        Notification { title: "文本剪贴板已同步".to_string(), body: format!("{}...", head) }
    );
    let short = ClipboardMessage::new(text("hello"), 1, "desk".to_string());
    assert_eq!(short.notification().body, "hello");
}

#[test]
fn notification_for_image_shows_dimensions() {
    let image = ClipboardContent::Image { width: 3, height: 4, data: vec![9] };
    let message = ClipboardMessage::new(image, 1, "desk".to_string());
    assert_eq!(
        message.notification(),
        Notification { title: "图片剪贴板已同步".to_string(), body: "图片 3x4".to_string() }
    );
}

#[test]
fn received_line_names_content_and_sender() {
    let message = ClipboardMessage::new(text("hello"), 1, "desk".to_string());
    assert_eq!(message.received_line(), "收到剪贴板消息: 文本: hello (来自: desk)");
    let image = ClipboardContent::Image { width: 3, height: 4, data: vec![9] };
    let message = ClipboardMessage::new(image, 1, "desk".to_string());
    assert_eq!(message.received_line(), "收到剪贴板消息: 图片: 3x4 (来自: desk)");
}
