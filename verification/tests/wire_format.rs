use clipboard_sync::content::{ClipboardContent, ClipboardMessage};
use clipboard_sync::wire::{DecodingError, PROTOCOL_NAME};

fn text_message(text: &str, timestamp: u64, sender: &str) -> ClipboardMessage {
    ClipboardMessage::new(ClipboardContent::Text(text.to_string()), timestamp, sender.to_string())
}

fn image_message(width: u32, height: u32, data: Vec<u8>, timestamp: u64, sender: &str) -> ClipboardMessage {
    ClipboardMessage::new(ClipboardContent::Image { width, height, data }, timestamp, sender.to_string())
}

#[test]
fn text_message_has_the_documented_wire_form() {
    let bytes = text_message("hello", 1700000000, "laptop").to_bytes().unwrap();
    assert_eq!(
        String::from_utf8(bytes).unwrap(),
        "{\"content\":{\"Text\":\"hello\"},\"timestamp\":1700000000,\"sender_id\":\"laptop\"}"
    );
}

#[test]
fn image_message_has_the_documented_wire_form() {
    let bytes = image_message(2, 1, vec![137, 80, 0, 255], 1, "laptop").to_bytes().unwrap();
    assert_eq!(
        String::from_utf8(bytes).unwrap(),
        "{\"content\":{\"Image\":{\"width\":2,\"height\":1,\"data\":[137,80,0,255]}},\"timestamp\":1,\"sender_id\":\"laptop\"}"
    );
}

#[test]
fn empty_image_data_is_an_empty_array() {
    let bytes = image_message(0, 0, vec![], 0, "").to_bytes().unwrap();
    assert_eq!(
        String::from_utf8(bytes).unwrap(),
        "{\"content\":{\"Image\":{\"width\":0,\"height\":0,\"data\":[]}},\"timestamp\":0,\"sender_id\":\"\"}"
    );
}

#[test]
fn text_message_round_trips() {
    let message = text_message("hello", 1700000000, "laptop");
    let bytes = message.to_bytes().unwrap();
    assert_eq!(ClipboardMessage::from_bytes(&bytes), Ok(message));
}

#[test]
fn image_message_round_trips() {
    let data: Vec<u8> = (0..=255u8).collect();
    let message = image_message(u32::MAX, 7, data, u64::MAX, "desk");
    let bytes = message.to_bytes().unwrap();
    assert_eq!(ClipboardMessage::from_bytes(&bytes), Ok(message));
}

#[test]
fn empty_strings_and_zero_numbers_round_trip() {
    let message = text_message("", 0, "");
    let bytes = message.to_bytes().unwrap();
    assert_eq!(ClipboardMessage::from_bytes(&bytes), Ok(message));
    let image = image_message(0, 0, vec![], 0, "");
    let bytes = image.to_bytes().unwrap();
    assert_eq!(ClipboardMessage::from_bytes(&bytes), Ok(image));
}

#[test]
fn text_with_quotes_controls_and_wide_characters_round_trips() {
    let mut text = String::from("a\"b\\c\n\r\t\u{8}\u{c}\u{0}\u{1f}\u{7f} あい 🎆 é");
    for code in 0u8..0x20 {
        text.push(code as char);
    }
    let message = text_message(&text, 42, "我的设备");
    let bytes = message.to_bytes().unwrap();
    assert_eq!(ClipboardMessage::from_bytes(&bytes), Ok(message));
}

#[test]
fn every_single_byte_character_round_trips() {
    for code in 0u8..128 {
        let text: String = [code as char, 'x', code as char].iter().collect();
        let message = text_message(&text, 1, "s");
        let bytes = message.to_bytes().unwrap();
        assert_eq!(ClipboardMessage::from_bytes(&bytes), Ok(message));
    }
}

#[test]
fn strings_are_escaped_as_serde_json_escapes_them() {
    let mut text = String::from("plain \"quoted\" back\\slash あ 🎆 \u{7f}");
    for code in 0u8..0x20 {
        text.push(code as char);
    }
    let sender = "dev\tice";
    let expected = format!(
        "{{\"content\":{{\"Text\":{}}},\"timestamp\":{},\"sender_id\":{}}}",
        serde_json::to_string(&text).unwrap(),
        serde_json::to_string(&1234567890123u64).unwrap(),
        serde_json::to_string(sender).unwrap()
    );
    let bytes = text_message(&text, 1234567890123, sender).to_bytes().unwrap();
    assert_eq!(String::from_utf8(bytes).unwrap(), expected);
}

#[test]
fn image_data_is_written_as_serde_json_writes_bytes() {
    let data: Vec<u8> = vec![0, 1, 9, 10, 99, 100, 255];
    let expected = format!(
        "{{\"content\":{{\"Image\":{{\"width\":640,\"height\":480,\"data\":{}}}}},\"timestamp\":5,\"sender_id\":\"s\"}}",
        serde_json::to_string(&data).unwrap()
    );
    let bytes = image_message(640, 480, data, 5, "s").to_bytes().unwrap();
    assert_eq!(String::from_utf8(bytes).unwrap(), expected);
}

#[test]
fn wire_form_is_json_with_the_expected_members() {
    let bytes = text_message("hi \"there\"", 77, "desk").to_bytes().unwrap();
    let value: serde_json::Value = serde_json::from_slice(&bytes).unwrap();
    assert_eq!(value["content"]["Text"].as_str(), Some("hi \"there\""));
    assert_eq!(value["timestamp"].as_u64(), Some(77));
    assert_eq!(value["sender_id"].as_str(), Some("desk"));
    let bytes = image_message(3, 4, vec![1, 2], 8, "desk").to_bytes().unwrap();
    let value: serde_json::Value = serde_json::from_slice(&bytes).unwrap();
    assert_eq!(value["content"]["Image"]["width"].as_u64(), Some(3));
    assert_eq!(value["content"]["Image"]["height"].as_u64(), Some(4));
    assert_eq!(value["content"]["Image"]["data"][1].as_u64(), Some(2));
}

#[test]
fn protocol_name_is_fixed() {
    assert_eq!(PROTOCOL_NAME.as_bytes(), b"iroh-clipboard-sync/0");
}

#[test]
fn writing_is_deterministic() {
    let message = text_message("same", 9, "s");
    assert_eq!(message.to_bytes().unwrap(), message.clone().to_bytes().unwrap());
}

#[test]
fn empty_input_is_a_decoding_error() {
    assert_eq!(ClipboardMessage::from_bytes(b""), Err(DecodingError));
}

#[test]
fn every_truncation_is_a_decoding_error() {
    let bytes = text_message("hello \"w\"", 1700000000, "laptop").to_bytes().unwrap();
    for end in 0..bytes.len() {
        assert_eq!(ClipboardMessage::from_bytes(&bytes[..end]), Err(DecodingError));
    }
    let bytes = image_message(2, 1, vec![1, 22, 255], 3, "s").to_bytes().unwrap();
    for end in 0..bytes.len() {
        assert_eq!(ClipboardMessage::from_bytes(&bytes[..end]), Err(DecodingError));
    }
}

#[test]
fn trailing_bytes_are_a_decoding_error() {
    let mut bytes = text_message("hello", 1, "s").to_bytes().unwrap();
    bytes.push(b' ');
    assert_eq!(ClipboardMessage::from_bytes(&bytes), Err(DecodingError));
}

#[test]
fn malformed_inputs_are_decoding_errors() {
    let inputs: Vec<&[u8]> = vec![
        b"not json",
        b"{}",
        b"{\"content\":{\"Text\":\"a\"},\"timestamp\":1}",
        b"{\"content\":{\"Text\":\"a\"},\"sender_id\":\"s\",\"timestamp\":1}",
        b"{ \"content\":{\"Text\":\"a\"},\"timestamp\":1,\"sender_id\":\"s\"}",
        b"{\"content\":{\"Text\":\"a\"},\"timestamp\":01,\"sender_id\":\"s\"}",
        b"{\"content\":{\"Text\":\"a\"},\"timestamp\":-1,\"sender_id\":\"s\"}",
        b"{\"content\":{\"Text\":\"a\"},\"timestamp\":18446744073709551616,\"sender_id\":\"s\"}",
        b"{\"content\":{\"Text\":\"\\u0041\"},\"timestamp\":1,\"sender_id\":\"s\"}",
        b"{\"content\":{\"Text\":\"a\\q\"},\"timestamp\":1,\"sender_id\":\"s\"}",
        b"{\"content\":{\"Text\":\"a\nb\"},\"timestamp\":1,\"sender_id\":\"s\"}",
        b"{\"content\":{\"Text\":\"\xff\"},\"timestamp\":1,\"sender_id\":\"s\"}",
        b"{\"content\":{\"Image\":{\"width\":4294967296,\"height\":1,\"data\":[]}},\"timestamp\":1,\"sender_id\":\"s\"}",
        b"{\"content\":{\"Image\":{\"width\":1,\"height\":1,\"data\":[256]}},\"timestamp\":1,\"sender_id\":\"s\"}",
        b"{\"content\":{\"Image\":{\"width\":1,\"height\":1,\"data\":[1,]}},\"timestamp\":1,\"sender_id\":\"s\"}",
        b"{\"content\":{\"Image\":{\"width\":1,\"height\":1,\"data\":[1 ,2]}},\"timestamp\":1,\"sender_id\":\"s\"}",
        b"{\"content\":{\"Video\":\"a\"},\"timestamp\":1,\"sender_id\":\"s\"}",
    ];
    for input in inputs {
        assert_eq!(ClipboardMessage::from_bytes(input), Err(DecodingError));
    }
}

#[test]
fn largest_numbers_are_read() {
    let input = b"{\"content\":{\"Image\":{\"width\":4294967295,\"height\":0,\"data\":[255]}},\"timestamp\":18446744073709551615,\"sender_id\":\"s\"}";
    assert_eq!(
        ClipboardMessage::from_bytes(input),
        Ok(image_message(u32::MAX, 0, vec![255], u64::MAX, "s"))
    );
}

#[test]
fn new_text_stamps_the_message_with_the_clock() {
    let before = std::time::SystemTime::now().duration_since(std::time::UNIX_EPOCH).unwrap().as_secs();
    let message = ClipboardMessage::new_text("hello".to_string(), "laptop".to_string());
    let after = std::time::SystemTime::now().duration_since(std::time::UNIX_EPOCH).unwrap().as_secs();
    assert_eq!(message.content, ClipboardContent::Text("hello".to_string()));
    assert_eq!(message.sender_id, "laptop");
    assert!(before <= message.timestamp && message.timestamp <= after);
}

#[test]
fn new_image_stamps_the_message_with_the_clock() {
    let before = std::time::SystemTime::now().duration_since(std::time::UNIX_EPOCH).unwrap().as_secs();
    let message = ClipboardMessage::new_image(3, 2, vec![1, 2, 3], "laptop".to_string());
    let after = std::time::SystemTime::now().duration_since(std::time::UNIX_EPOCH).unwrap().as_secs();
    assert_eq!(message.content, ClipboardContent::Image { width: 3, height: 2, data: vec![1, 2, 3] });
    assert_eq!(message.sender_id, "laptop");
    assert!(before <= message.timestamp && message.timestamp <= after);
}
