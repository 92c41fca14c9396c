use clipboard_sync::peer::PeerId;
use clipboard_sync::registry::PeerSessionRegistry;

fn peer(tag: u8) -> PeerId {
    let mut bytes = [0u8; 32];
    bytes[0] = tag;
    bytes[31] = tag.wrapping_mul(3);
    PeerId::from_bytes(bytes)
}

#[test]
fn new_registry_is_empty() {
    let registry: PeerSessionRegistry<u32> = PeerSessionRegistry::new();
    assert_eq!(registry.len(), 0);
    assert!(registry.is_empty());
    assert!(!registry.contains(&peer(1)));
    assert_eq!(registry.get(&peer(1)), None);
    assert!(registry.peers().is_empty());
    assert!(registry.snapshot().is_empty());
}

#[test]
fn insert_then_contains_and_get() {
    let mut registry = PeerSessionRegistry::new();
    registry.insert(peer(1), "one".to_string());
    registry.insert(peer(2), "two".to_string());
    assert_eq!(registry.len(), 2);
    assert!(!registry.is_empty());
    assert!(registry.contains(&peer(1)));
    assert!(registry.contains(&peer(2)));
    assert!(!registry.contains(&peer(3)));
    assert_eq!(registry.get(&peer(2)), Some(&"two".to_string()));
}

#[test]
fn insert_replaces_the_session_of_a_known_peer() {
    let mut registry = PeerSessionRegistry::new();
    registry.insert(peer(1), 10u32);
    registry.insert(peer(2), 20u32);
    registry.insert(peer(1), 11u32);
    assert_eq!(registry.len(), 2);
    assert_eq!(registry.get(&peer(1)), Some(&11));
    assert_eq!(registry.get(&peer(2)), Some(&20));
}

#[test]
fn remove_is_idempotent() {
    let mut registry = PeerSessionRegistry::new();
    registry.insert(peer(1), 10u32);
    registry.insert(peer(2), 20u32);
    assert_eq!(registry.remove(&peer(1)), Some(10));
    assert_eq!(registry.remove(&peer(1)), None);
    assert_eq!(registry.remove(&peer(9)), None);
    assert_eq!(registry.len(), 1);
    assert!(registry.contains(&peer(2)));
    assert!(!registry.contains(&peer(1)));
}

#[test]
fn identities_that_differ_in_one_byte_are_different_peers() {
    let mut a = [7u8; 32];
    let mut b = [7u8; 32];
    a[31] = 1;
    b[31] = 2;
    let mut registry = PeerSessionRegistry::new();
    registry.insert(PeerId::from_bytes(a), 1u8);
    assert!(!registry.contains(&PeerId::from_bytes(b)));
    assert!(registry.contains(&PeerId::from_bytes(a)));
    assert!(PeerId::from_bytes(a) != PeerId::from_bytes(b));
    assert!(PeerId::from_bytes(a) == PeerId::from_bytes(a));
}

#[test]
fn snapshot_holds_every_peer_once() {
    let mut registry = PeerSessionRegistry::new();
    registry.insert(peer(1), 10u32);
    registry.insert(peer(2), 20u32);
    registry.insert(peer(3), 30u32);
    registry.insert(peer(2), 21u32);
    let mut pairs = registry.snapshot();
    pairs.sort_by_key(|pair| pair.1);
    assert_eq!(pairs, vec![(peer(1), 10), (peer(2), 21), (peer(3), 30)]);
    let mut peers = registry.peers();
    peers.sort_by_key(|p| *p.as_bytes());
    assert_eq!(peers, vec![peer(1), peer(2), peer(3)]);
}

#[test]
fn prune_removes_the_named_peers_only() {
    let mut registry = PeerSessionRegistry::new();
    registry.insert(peer(1), 10u32);
    registry.insert(peer(2), 20u32);
    registry.insert(peer(3), 30u32);
    registry.prune(&vec![peer(2), peer(9), peer(2)]);
    assert_eq!(registry.len(), 2);
    assert_eq!(registry.get(&peer(1)), Some(&10));
    assert_eq!(registry.get(&peer(3)), Some(&30));
    assert!(!registry.contains(&peer(2)));
    registry.prune(&vec![]);
    assert_eq!(registry.len(), 2);
}

#[test]
fn peer_id_as_hexadecimal_text() {
    let mut bytes = [0u8; 32];
    bytes[0] = 0xab;
    bytes[1] = 0x01;
    bytes[31] = 0xf0;
    let id = PeerId::from_bytes(bytes);
    assert_eq!(
        id.to_hex(),
        "ab010000000000000000000000000000000000000000000000000000000000f0"
    );
    assert_eq!(id.as_bytes(), &bytes);
}
