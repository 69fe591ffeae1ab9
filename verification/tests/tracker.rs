use acorntorrent::error::{DecodeError, Field};
use acorntorrent::ip::IpAddress;
use acorntorrent::tracker::BTrackerResponse;

/// A reply whose `peers` value is given verbatim (already bencoded).
fn reply_with_peers(peers_value: &[u8]) -> Vec<u8> {
    let mut d = Vec::new();
    d.extend_from_slice(b"d8:intervali1800e5:peers");
    d.extend_from_slice(peers_value);
    d.extend_from_slice(b"e");
    d
}

/// Bencodes a byte string.
fn bstring(bytes: &[u8]) -> Vec<u8> {
    let mut d = format!("{}:", bytes.len()).into_bytes();
    d.extend_from_slice(bytes);
    d
}

#[test]
fn compact_ipv4_single_peer() {
    let record = [127u8, 0, 0, 1, 0x1a, 0xe1];
    let doc = reply_with_peers(&bstring(&record));
    let t = BTrackerResponse::from_bytes(&doc).unwrap();
    assert_eq!(t.interval, 1800);
    assert_eq!(t.peers.len(), 1);
    assert_eq!(t.peers[0].ip, IpAddress::V4(0x7f000001));
    assert_eq!(t.peers[0].port, 6881);
    assert_eq!(t.peers[0].peer_id, "");
}

#[test]
fn compact_ipv4_source_order() {
    let records = [1u8, 2, 3, 4, 0, 80, 5, 6, 7, 8, 0, 81, 9, 10, 11, 12, 0, 82];
    let doc = reply_with_peers(&bstring(&records));
    let t = BTrackerResponse::from_bytes(&doc).unwrap();
    assert_eq!(t.peers.len(), 3);
    assert_eq!(t.peers[0].ip, IpAddress::V4(0x01020304));
    assert_eq!(t.peers[0].port, 80);
    assert_eq!(t.peers[1].ip, IpAddress::V4(0x05060708));
    assert_eq!(t.peers[1].port, 81);
    assert_eq!(t.peers[2].ip, IpAddress::V4(0x090a0b0c));
    assert_eq!(t.peers[2].port, 82);
}

#[test]
fn compact_ipv4_bad_length() {
    let doc = reply_with_peers(&bstring(&[1u8, 2, 3, 4, 5, 6, 7]));
    let r = BTrackerResponse::from_bytes(&doc);
    assert!(matches!(r, Err(DecodeError::InvalidCompactLength(6, 7))));
}

#[test]
fn compact_ipv6_single_peer() {
    let mut record = [0u8; 18];
    record[15] = 1; // the loopback address
    record[16] = 0x1a;
    record[17] = 0xe1;
    let mut doc = Vec::new();
    doc.extend_from_slice(b"d8:intervali1800e5:peers0:6:peers6");
    doc.extend_from_slice(&bstring(&record));
    doc.extend_from_slice(b"e");
    let t = BTrackerResponse::from_bytes(&doc).unwrap();
    assert_eq!(t.peers.len(), 1);
    assert_eq!(t.peers[0].ip, IpAddress::V6(1));
    assert_eq!(t.peers[0].port, 6881);
    assert_eq!(t.peers[0].peer_id, "");
}

#[test]
fn compact_ipv6_bad_length() {
    let mut doc = Vec::new();
    doc.extend_from_slice(b"d8:intervali1800e5:peers0:6:peers6");
    doc.extend_from_slice(&bstring(&[0u8; 19]));
    doc.extend_from_slice(b"e");
    let r = BTrackerResponse::from_bytes(&doc);
    assert!(matches!(r, Err(DecodeError::InvalidCompactLength(18, 19))));
}

#[test]
fn mixed_peer_sources_keep_order() {
    // Two explicit dictionary peers, then one compact IPv6 peer: the
    // explicit peers come first, in source order, the IPv6 peer last.
    let mut doc = Vec::new();
    doc.extend_from_slice(b"d8:intervali1800e5:peersl");
    doc.extend_from_slice(b"d2:ip9:127.0.0.17:peer id20:AAAAAAAAAAAAAAAAAAAA4:porti6881ee");
    doc.extend_from_slice(b"d2:ip9:127.0.0.27:peer id20:BBBBBBBBBBBBBBBBBBBB4:porti6882ee");
    doc.extend_from_slice(b"e6:peers6");
    let mut record = [0u8; 18];
    record[15] = 2;
    record[16] = 0x1a;
    record[17] = 0xe3;
    doc.extend_from_slice(&bstring(&record));
    doc.extend_from_slice(b"e");
    let t = BTrackerResponse::from_bytes(&doc).unwrap();
    assert_eq!(t.peers.len(), 3);
    assert_eq!(t.peers[0].ip, IpAddress::V4(0x7f000001));
    assert_eq!(t.peers[0].peer_id, "AAAAAAAAAAAAAAAAAAAA");
    assert_eq!(t.peers[0].port, 6881);
    assert_eq!(t.peers[1].ip, IpAddress::V4(0x7f000002));
    assert_eq!(t.peers[1].peer_id, "BBBBBBBBBBBBBBBBBBBB");
    assert_eq!(t.peers[1].port, 6882);
    assert_eq!(t.peers[2].ip, IpAddress::V6(2));
    assert_eq!(t.peers[2].peer_id, "");
    assert_eq!(t.peers[2].port, 6883);
}

#[test]
fn explicit_peer_with_ipv6_text_address() {
    let mut doc = Vec::new();
    doc.extend_from_slice(b"d8:intervali60e5:peersl");
    doc.extend_from_slice(b"d2:ip7:ff02::27:peer id20:CCCCCCCCCCCCCCCCCCCC4:porti10eee");
    doc.extend_from_slice(b"e");
    let t = BTrackerResponse::from_bytes(&doc).unwrap();
    assert_eq!(t.peers.len(), 1);
    assert_eq!(
        t.peers[0].ip,
        IpAddress::V6(0xff02_0000_0000_0000_0000_0000_0000_0002)
    );
    assert_eq!(t.peers[0].port, 10);
}

#[test]
fn explicit_peer_bad_address() {
    let mut doc = Vec::new();
    doc.extend_from_slice(b"d8:intervali60e5:peersl");
    doc.extend_from_slice(b"d2:ip4:nope7:peer id20:CCCCCCCCCCCCCCCCCCCC4:porti10eee");
    doc.extend_from_slice(b"e");
    let r = BTrackerResponse::from_bytes(&doc);
    assert!(matches!(r, Err(DecodeError::InvalidIpAddress)));
}

#[test]
fn explicit_peer_port_out_of_range() {
    let mut doc = Vec::new();
    doc.extend_from_slice(b"d8:intervali60e5:peersl");
    doc.extend_from_slice(b"d2:ip9:127.0.0.17:peer id20:CCCCCCCCCCCCCCCCCCCC4:porti70000eee");
    doc.extend_from_slice(b"e");
    let r = BTrackerResponse::from_bytes(&doc);
    assert!(matches!(r, Err(DecodeError::WrongType(Field::Port))));
}

#[test]
fn missing_interval() {
    let r = BTrackerResponse::from_bytes(b"d5:peers0:e");
    assert!(matches!(r, Err(DecodeError::MissingField(Field::Interval))));
}

#[test]
fn missing_peers() {
    let r = BTrackerResponse::from_bytes(b"d8:intervali60ee");
    assert!(matches!(r, Err(DecodeError::MissingField(Field::Peers))));
}

#[test]
fn peers_wrong_type() {
    let r = BTrackerResponse::from_bytes(b"d8:intervali60e5:peersi5ee");
    assert!(matches!(r, Err(DecodeError::WrongType(Field::Peers))));
}

#[test]
fn explicit_peer_list_reply() {
    // The shape a small tracker sends for an announce with two peers.
    let doc = b"d8:intervali1800e5:peersld2:ip9:127.0.0.17:peer id20:ABCDEFGHIJ01234567894:porti6881eed2:ip9:127.0.0.27:peer id20:BCDEFGHIJK12345678904:porti6882eeee";
    let t = BTrackerResponse::from_bytes(doc).unwrap();
    assert_eq!(t.interval, 1800);
    assert_eq!(t.complete, None);
    assert_eq!(t.incomplete, None);
    assert_eq!(t.peers.len(), 2);
    assert_eq!(t.peers[0].peer_id, "ABCDEFGHIJ0123456789");
    assert_eq!(t.peers[1].peer_id, "BCDEFGHIJK1234567890");
}

#[test]
fn counts_decoded() {
    let doc = b"d8:completei4e10:incompletei7e8:intervali60e5:peers0:e";
    let t = BTrackerResponse::from_bytes(doc).unwrap();
    assert_eq!(t.complete, Some(4));
    assert_eq!(t.incomplete, Some(7));
    assert_eq!(t.peers.len(), 0);
}

#[test]
fn tracker_trailing_data_rejected() {
    let mut doc = reply_with_peers(&bstring(&[127u8, 0, 0, 1, 0x1a, 0xe1]));
    doc.push(0);
    let r = BTrackerResponse::from_bytes(&doc);
    assert!(matches!(r, Err(DecodeError::TrailingData)));
}
