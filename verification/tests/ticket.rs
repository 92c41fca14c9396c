use base64::Engine;
use clipboard_sync::peer::PeerId;
use clipboard_sync::ticket::{ticket_from_json, ticket_to_json, ConnectionTicket, InvalidTicket, SocketAddress};

fn peer() -> PeerId {
    let mut bytes = [0u8; 32];
    for (i, b) in bytes.iter_mut().enumerate() {
        *b = (i as u8).wrapping_mul(17).wrapping_add(3);
    }
    PeerId::from_bytes(bytes)
}

fn v4(a: u8, b: u8, c: u8, d: u8, port: u16) -> SocketAddress {
    SocketAddress::V4 { octets: [a, b, c, d], port }
}

fn v6(segments: [u16; 8], port: u16) -> SocketAddress {
    let mut octets = [0u8; 16];
    for (i, s) in segments.iter().enumerate() {
        octets[2 * i] = (s >> 8) as u8;
        octets[2 * i + 1] = (s & 0xff) as u8;
    }
    SocketAddress::V6 { octets, port }
}

fn standard() -> base64::engine::GeneralPurpose {
    base64::engine::general_purpose::STANDARD
}

#[test]
fn ticket_without_addresses_round_trips() {
    let ticket = ConnectionTicket { node_id: peer(), addresses: vec![] };
    let text = ticket.to_string().unwrap();
    assert_eq!(ConnectionTicket::from_string(&text), Ok(ticket));
}

#[test]
fn ticket_with_addresses_round_trips() {
    let ticket = ConnectionTicket {
        node_id: peer(),
        addresses: vec![
            v4(192, 168, 1, 7, 4433),
            v6([0xfe80, 0, 0, 0, 0x1, 0xabcd, 0xff, 0x1234], 65535),
            v4(0, 0, 0, 0, 0),
            v4(255, 255, 255, 255, 65535),
            v6([0; 8], 0),
            v6([0xffff; 8], 1),
        ],
    };
    let text = ticket.to_string().unwrap();
    assert_eq!(ConnectionTicket::from_string(&text), Ok(ticket));
}

#[test]
fn ticket_text_is_base64_of_the_documented_json() {
    let ticket = ConnectionTicket {
        node_id: PeerId::from_bytes([0xab; 32]),
        addresses: vec![v4(10, 0, 0, 1, 80), v6([0x2001, 0xdb8, 0, 0, 0, 0, 0, 1], 443)],
    };
    let json = format!(
        "{{\"node_id\":\"{}\",\"addresses\":[\"10.0.0.1:80\",\"[2001:0db8:0000:0000:0000:0000:0000:0001]:443\"]}}",
        "ab".repeat(32)
    );
    assert_eq!(String::from_utf8(ticket_to_json(&ticket)).unwrap(), json);
    assert_eq!(ticket.to_string().unwrap(), standard().encode(json.as_bytes()));
    assert_ne!(ticket.to_string().unwrap(), json);
}

#[test]
fn ticket_json_without_addresses_has_an_empty_array() {
    let ticket = ConnectionTicket { node_id: PeerId::from_bytes([0; 32]), addresses: vec![] };
    let json = format!("{{\"node_id\":\"{}\",\"addresses\":[]}}", "00".repeat(32));
    assert_eq!(String::from_utf8(ticket_to_json(&ticket)).unwrap(), json);
    assert_eq!(ticket_from_json(json.as_bytes()), Some(ticket));
}

#[test]
fn ticket_json_is_json_with_the_expected_members() {
    let ticket = ConnectionTicket { node_id: peer(), addresses: vec![v4(1, 2, 3, 4, 5)] };
    let value: serde_json::Value = serde_json::from_slice(&ticket_to_json(&ticket)).unwrap();
    assert_eq!(value["node_id"].as_str(), Some(peer().to_hex().as_str()));
    assert_eq!(value["addresses"][0].as_str(), Some("1.2.3.4:5"));
}

#[test]
fn text_that_is_not_base64_is_turned_down() {
    assert_eq!(ConnectionTicket::from_string("not base64!"), Err(InvalidTicket::NotBase64));
    assert_eq!(ConnectionTicket::from_string("YQ"), Err(InvalidTicket::NotBase64));
    assert_eq!(ConnectionTicket::from_string("YR=="), Err(InvalidTicket::NotBase64));
    assert_eq!(ConnectionTicket::from_string(" YQ=="), Err(InvalidTicket::NotBase64));
}

#[test]
fn base64_of_something_else_is_no_ticket() {
    assert_eq!(ConnectionTicket::from_string(""), Err(InvalidTicket::NotATicket));
    assert_eq!(ConnectionTicket::from_string("YQ=="), Err(InvalidTicket::NotATicket));
    let junk = standard().encode(b"{\"node_id\":\"abc\",\"addresses\":[]}");
    assert_eq!(ConnectionTicket::from_string(&junk), Err(InvalidTicket::NotATicket));
    let missing = standard().encode(format!("{{\"node_id\":\"{}\"}}", "00".repeat(32)));
    assert_eq!(ConnectionTicket::from_string(&missing), Err(InvalidTicket::NotATicket));
}

#[test]
fn truncated_ticket_text_is_invalid() {
    let ticket = ConnectionTicket { node_id: peer(), addresses: vec![v4(192, 168, 1, 7, 4433)] };
    let text = ticket.to_string().unwrap();
    for end in 0..text.len() {
        assert!(ConnectionTicket::from_string(&text[..end]).is_err());
    }
}

#[test]
fn corrupted_ticket_text_is_invalid_or_another_ticket() {
    let ticket = ConnectionTicket { node_id: peer(), addresses: vec![v4(192, 168, 1, 7, 4433)] };
    let text = ticket.to_string().unwrap();
    for at in 0..text.len() {
        let mut bytes = text.clone().into_bytes();
        bytes[at] = if bytes[at] == b'#' { b'!' } else { b'#' };
        let corrupted = String::from_utf8(bytes).unwrap();
        assert_eq!(ConnectionTicket::from_string(&corrupted), Err(InvalidTicket::NotBase64));
    }
    for at in 0..text.len() {
        let mut bytes = text.clone().into_bytes();
        bytes[at] = if bytes[at] == b'A' { b'B' } else { b'A' };
        let corrupted = String::from_utf8(bytes).unwrap();
        match ConnectionTicket::from_string(&corrupted) {
            Ok(other) => assert_ne!(other, ticket),
            Err(_) => {}
        }
    }
}

#[test]
fn malformed_ticket_json_is_turned_down() {
    let id = "0f".repeat(32);
    let inputs = vec![
        format!("{{\"node_id\":\"{}\",\"addresses\":[]}} ", id),
        format!("{{\"addresses\":[],\"node_id\":\"{}\"}}", id),
        format!("{{\"node_id\":\"{}\",\"addresses\":[\"1.2.3.4\"]}}", id),
        format!("{{\"node_id\":\"{}\",\"addresses\":[\"1.2.3.256:1\"]}}", id),
        format!("{{\"node_id\":\"{}\",\"addresses\":[\"1.2.3.4:65536\"]}}", id),
        format!("{{\"node_id\":\"{}\",\"addresses\":[\"01.2.3.4:5\"]}}", id),
        format!("{{\"node_id\":\"{}\",\"addresses\":[\"[::1]:5\"]}}", id),
        format!("{{\"node_id\":\"{}\",\"addresses\":[\"[0000:0000:0000:0000:0000:0000:0000:000G]:5\"]}}", id),
        format!("{{\"node_id\":\"{}\",\"addresses\":[\"[0000:0000:0000:0000:0000:0000:0000:00AB]:5\"]}}", id),
        format!("{{\"node_id\":\"{}\",\"addresses\":[\"1.2.3.4:5\",]}}", id),
        format!("{{\"node_id\":\"{}\",\"addresses\":[}}", id),
        format!("{{\"node_id\":\"{}\",\"addresses\":[]}}", "0F".repeat(32)),
        format!("{{\"node_id\":\"{}\",\"addresses\":[]}}", "0f".repeat(31)),
        format!("{{\"node_id\":\"{}\",\"addresses\":[]}}", "0f".repeat(33)),
        String::new(),
    ];
    for input in inputs {
        assert_eq!(ticket_from_json(input.as_bytes()), None);
        assert_eq!(
            ConnectionTicket::from_string(&standard().encode(input.as_bytes())),
            Err(InvalidTicket::NotATicket)
        );
    }
}

#[test]
fn ticket_json_round_trips() {
    let ticket = ConnectionTicket { node_id: peer(), addresses: vec![v6([1, 2, 3, 4, 5, 6, 7, 8], 9)] };
    assert_eq!(ticket_from_json(&ticket_to_json(&ticket)), Some(ticket));
}
