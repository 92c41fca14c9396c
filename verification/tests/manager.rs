use clipboard_sync::content::{ClipboardContent, ClipboardMessage};
use clipboard_sync::detector::{ClipboardState, ContentKind, Observation, Probe};
use clipboard_sync::inbound::{ClipboardProtocol, Inbound};
use clipboard_sync::manager::{Delivery, DiscoveryDecision, NetworkManager, PeerState};
use clipboard_sync::peer::PeerId;
use clipboard_sync::ticket::{ConnectionTicket, InvalidTicket, SocketAddress};
use clipboard_sync::wire::DecodingError;

fn peer(tag: u8) -> PeerId {
    PeerId::from_bytes([tag; 32])
}

fn manager(local: u8) -> NetworkManager<String> {
    NetworkManager::new(format!("device-{}", local), peer(local))
}

#[test]
fn new_manager_knows_itself_and_nobody_else() {
    let m = manager(1);
    assert_eq!(m.get_node_id(), peer(1));
    assert_eq!(m.device_name(), "device-1");
    assert!(m.connections().is_empty());
}

#[test]
fn failing_peer_is_pruned_and_the_others_are_served() {
    let mut m = manager(0);
    m.connected(peer(b'A'), "a".to_string());
    m.connected(peer(b'B'), "b".to_string());
    m.connected(peer(b'C'), "c".to_string());
    let plan = m.broadcast_clipboard("x").unwrap();
    assert_eq!(plan.targets.len(), 3);
    assert_eq!(plan.payload, plan.message.to_bytes().unwrap());
    let mut delivered: Vec<(PeerId, Vec<u8>)> = Vec::new();
    let mut outcomes = Vec::new();
    for (target, _session) in plan.targets.iter() {
        if *target == peer(b'B') {
            outcomes.push((*target, Delivery::WriteFailed));
        } else {
            delivered.push((*target, plan.payload.clone()));
            outcomes.push((*target, Delivery::Sent));
        }
    }
    let failed = m.complete_broadcast(&outcomes);
    assert_eq!(failed, vec![peer(b'B')]);
    delivered.sort_by_key(|d| *d.0.as_bytes());
    assert_eq!(delivered.len(), 2);
    assert_eq!(delivered[0].0, peer(b'A'));
    assert_eq!(delivered[1].0, peer(b'C'));
    let received = ClipboardMessage::from_bytes(&delivered[0].1).unwrap();
    assert_eq!(received.content, ClipboardContent::Text("x".to_string()));
    assert_eq!(m.connections().len(), 2);
    assert_eq!(m.connections().get(&peer(b'A')), Some(&"a".to_string()));
    assert_eq!(m.connections().get(&peer(b'C')), Some(&"c".to_string()));
    assert!(!m.connections().contains(&peer(b'B')));
}

#[test]
fn stream_that_cannot_be_opened_counts_as_failure() {
    let mut m = manager(0);
    m.connected(peer(1), "1".to_string());
    m.connected(peer(2), "2".to_string());
    let failed = m.complete_broadcast(&vec![(peer(1), Delivery::OpenFailed), (peer(2), Delivery::Sent)]);
    assert_eq!(failed, vec![peer(1)]);
    assert!(m.connections().contains(&peer(2)));
    assert!(!m.connections().contains(&peer(1)));
}

#[test]
fn broadcast_without_failures_changes_nothing() {
    let mut m = manager(0);
    m.connected(peer(1), "1".to_string());
    let failed = m.complete_broadcast(&vec![(peer(1), Delivery::Sent)]);
    assert!(failed.is_empty());
    assert_eq!(m.connections().len(), 1);
    let failed = m.complete_broadcast(&vec![]);
    assert!(failed.is_empty());
    assert_eq!(m.connections().len(), 1);
}

#[test]
fn broadcast_to_nobody_has_no_targets() {
    let m = manager(0);
    let plan = m.broadcast_clipboard("x").unwrap();
    assert!(plan.targets.is_empty());
    assert!(!plan.payload.is_empty());
}

#[test]
fn broadcast_carries_the_device_name_and_the_content() {
    let mut m = manager(7);
    m.connected(peer(1), "one".to_string());
    let plan = m.broadcast_image(3, 2, vec![1, 2, 3]).unwrap();
    assert_eq!(plan.message.sender_id, "device-7");
    assert_eq!(plan.message.content, ClipboardContent::Image { width: 3, height: 2, data: vec![1, 2, 3] });
    assert_eq!(ClipboardMessage::from_bytes(&plan.payload), Ok(plan.message.clone()));
    assert_eq!(plan.targets, vec![(peer(1), "one".to_string())]);
    let plan = m.broadcast(ClipboardContent::Text("t".to_string())).unwrap();
    assert_eq!(plan.message.content, ClipboardContent::Text("t".to_string()));
    let message = ClipboardMessage::new(ClipboardContent::Text("m".to_string()), 5, "other".to_string());
    let plan = m.broadcast_message(message.clone()).unwrap();
    assert_eq!(plan.message, message);
    assert_eq!(plan.payload, message.to_bytes().unwrap());
}

#[test]
fn delivery_failure_is_told_from_success() {
    assert!(!Delivery::Sent.is_failure());
    assert!(Delivery::OpenFailed.is_failure());
    assert!(Delivery::WriteFailed.is_failure());
}

#[test]
fn discovering_a_connected_peer_twice_attempts_once() {
    let mut m = manager(0);
    let mut attempts = 0;
    for _ in 0..2 {
        if m.try_connect_to_clipboard_node(&peer(5)) == DiscoveryDecision::Attempt {
            attempts += 1;
            assert_eq!(m.connect_attempted(peer(5), Some("session".to_string())), PeerState::Connected);
        }
    }
    assert_eq!(attempts, 1);
    assert_eq!(m.try_connect_to_clipboard_node(&peer(5)), DiscoveryDecision::AlreadyConnected);
    assert_eq!(m.connections().len(), 1);
}

#[test]
fn discovering_oneself_never_attempts() {
    let mut m = manager(3);
    assert_eq!(m.try_connect_to_clipboard_node(&peer(3)), DiscoveryDecision::IsSelf);
    m.connected(peer(3), "loop".to_string());
    assert_eq!(m.try_connect_to_clipboard_node(&peer(3)), DiscoveryDecision::IsSelf);
}

#[test]
fn failed_attempt_is_retried_on_rediscovery() {
    let mut m = manager(0);
    assert_eq!(m.try_connect_to_clipboard_node(&peer(5)), DiscoveryDecision::Attempt);
    assert_eq!(m.connect_attempted(peer(5), None), PeerState::AttemptFailed);
    assert!(m.connections().is_empty());
    assert_eq!(m.try_connect_to_clipboard_node(&peer(5)), DiscoveryDecision::Attempt);
}

#[test]
fn reconnecting_peer_replaces_its_session() {
    let mut m = manager(0);
    m.connected(peer(1), "old".to_string());
    m.connected(peer(1), "new".to_string());
    assert_eq!(m.connections().len(), 1);
    assert_eq!(m.connections().get(&peer(1)), Some(&"new".to_string()));
    m.disconnected(&peer(1));
    m.disconnected(&peer(1));
    assert!(m.connections().is_empty());
}

#[test]
fn generated_ticket_names_the_local_endpoint() {
    let m = manager(9);
    let text = m.generate_ticket().unwrap();
    assert_eq!(
        ConnectionTicket::from_string(&text),
        Ok(ConnectionTicket { node_id: peer(9), addresses: vec![] })
    );
}

#[test]
fn connect_to_peer_reads_the_ticket() {
    let m = manager(1);
    let ticket = ConnectionTicket {
        node_id: peer(2),
        addresses: vec![SocketAddress::V4 { octets: [127, 0, 0, 1], port: 7000 }],
    };
    assert_eq!(m.connect_to_peer(&ticket.to_string().unwrap()), Ok(ticket));
    assert_eq!(m.connect_to_peer("***"), Err(InvalidTicket::NotBase64));
    assert_eq!(m.connect_to_peer("aGVsbG8="), Err(InvalidTicket::NotATicket));
}

#[test]
fn inbound_bytes_are_gathered_until_the_stream_ends() {
    let message = ClipboardMessage::new(ClipboardContent::Text("hello".to_string()), 3, "a".to_string());
    let bytes = message.to_bytes().unwrap();
    let mut handler = ClipboardProtocol::new();
    assert_eq!(handler.pending(), 0);
    for chunk in bytes.chunks(7) {
        handler.received(chunk);
    }
    assert_eq!(handler.pending(), bytes.len());
    assert_eq!(handler.end_of_data(), Inbound::Forward(message));
    assert_eq!(handler.pending(), 0);
    assert_eq!(handler.end_of_data(), Inbound::Nothing);
}

#[test]
fn inbound_bytes_that_are_no_message_are_dropped() {
    let mut handler = ClipboardProtocol::new();
    handler.received(b"{\"content\":");
    assert_eq!(handler.end_of_data(), Inbound::Discard(DecodingError));
    let message = ClipboardMessage::new(ClipboardContent::Text("next".to_string()), 3, "a".to_string());
    handler.received(&message.to_bytes().unwrap());
    assert_eq!(handler.end_of_data(), Inbound::Forward(message));
}

#[test]
fn inbound_messages_are_forwarded_in_order_of_arrival() {
    let mut handler = ClipboardProtocol::new();
    let mut forwarded = Vec::new();
    for text in ["one", "two", "three"] {
        let message = ClipboardMessage::new(ClipboardContent::Text(text.to_string()), 1, "a".to_string());
        handler.received(&message.to_bytes().unwrap());
        if let Inbound::Forward(m) = handler.end_of_data() {
            forwarded.push(m.content);
        }
    }
    assert_eq!(
        forwarded,
        vec![
            ClipboardContent::Text("one".to_string()),
            ClipboardContent::Text("two".to_string()),
            ClipboardContent::Text("three".to_string()),
        ]
    );
}

#[test]
fn two_devices_pair_by_ticket_and_share_a_text() {
    let mut a = manager(b'a');
    let mut b = manager(b'b');
    let ticket_text = a.generate_ticket().unwrap();
    let target = b.connect_to_peer(&ticket_text).unwrap();
    assert_eq!(target.node_id, a.get_node_id());
    b.connected(target.node_id, "b-to-a".to_string());
    a.connected(b.get_node_id(), "a-to-b".to_string());
    assert_eq!(a.connections().len(), 1);
    assert_eq!(b.connections().len(), 1);
    assert!(a.connections().contains(&b.get_node_id()));
    assert!(b.connections().contains(&a.get_node_id()));

    let mut detector = ClipboardState::new();
    assert_eq!(detector.classified(ContentKind::Text), Probe::ReadText);
    let change = detector.text_read("hello".to_string()).unwrap();
    let plan = a.broadcast(change).unwrap();
    assert_eq!(plan.targets, vec![(b.get_node_id(), "a-to-b".to_string())]);

    let mut handler = ClipboardProtocol::new();
    let mut b_clipboard = String::new();
    let mut outcomes = Vec::new();
    for (target, _session) in plan.targets.iter() {
        for chunk in plan.payload.chunks(16) {
            handler.received(chunk);
        }
        outcomes.push((*target, Delivery::Sent));
    }
    assert!(a.complete_broadcast(&outcomes).is_empty());
    match handler.end_of_data() {
        Inbound::Forward(message) => {
            assert_eq!(message.sender_id, "device-97");
            if let ClipboardContent::Text(text) = message.content {
                b_clipboard = text;
            }
        }
        other => panic!("expected a message, got {:?}", other),
    }
    assert_eq!(b_clipboard, "hello");

    let mut b_detector = ClipboardState::new();
    assert!(b_detector.tick(Observation::Text(b_clipboard.clone())).is_some());
    assert_eq!(b_detector.tick(Observation::Text(b_clipboard)), None);
}
