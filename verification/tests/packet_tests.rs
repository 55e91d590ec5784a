use ninja::engine::packet::NinjaPacket;
use ninja::engine::path::{PacketError, PacketErrorKind, PathHeader};

fn header() -> PathHeader {
    PathHeader::new(vec!["10.0.0.1:9001".to_string(), "ノード".to_string()])
}

#[test]
fn path_header_bytes() {
    let mut h = PathHeader::new(vec!["ab".to_string()]);
    assert_eq!(h.current_hop, 0);
    h.increment_hop();
    assert_eq!(h.to_bytes(), vec![0, 0, 0, 1, 0, 0, 0, 1, 0, 0, 0, 2, b'a', b'b']);
}

#[test]
fn path_header_roundtrip() {
    let h = header();
    let mut bytes = h.to_bytes();
    let len = bytes.len();
    bytes.extend_from_slice(&[1, 2, 3]);
    let (back, used) = PathHeader::from_bytes(&bytes).unwrap();
    assert_eq!(used, len);
    assert_eq!(back.routes, h.routes);
    assert_eq!(back.current_hop, 0);
}

#[test]
fn path_header_errors() {
    assert_eq!(PathHeader::from_bytes(&[0; 7]).unwrap_err(), PacketError::HeaderTooShort);
    assert_eq!(
        PathHeader::from_bytes(&[0, 0, 0, 0, 0, 0, 0, 1, 0, 0]).unwrap_err(),
        PacketError::RouteLengthTruncated
    );
    assert_eq!(
        PathHeader::from_bytes(&[0, 0, 0, 0, 0, 0, 0, 1, 0, 0, 0, 3, b'a']).unwrap_err(),
        PacketError::RouteTruncated
    );
    let bad = PathHeader::from_bytes(&[0, 0, 0, 0, 0, 0, 0, 1, 0, 0, 0, 1, 0xff]).unwrap_err();
    assert_eq!(bad, PacketError::InvalidUtf8("invalid utf-8 sequence of 1 bytes from index 0".to_string()));
    assert_eq!(bad.message(), "invalid utf-8 sequence of 1 bytes from index 0");
    let cut = PathHeader::from_bytes(&[0, 0, 0, 0, 0, 0, 0, 1, 0, 0, 0, 3, b'a', 0xe3, 0x81]).unwrap_err();
    assert_eq!(cut.message(), "incomplete utf-8 byte sequence from index 1");
    assert_eq!(bad.kind(), PacketErrorKind::InvalidData);
    assert_eq!(PacketError::RouteTruncated.kind(), PacketErrorKind::UnexpectedEof);
}

#[test]
fn path_header_decodes_utf8_routes() {
    let bytes = [0, 0, 0, 9, 0, 0, 0, 1, 0, 0, 0, 3, 0xe3, 0x83, 0x8e];
    let (h, used) = PathHeader::from_bytes(&bytes).unwrap();
    assert_eq!(h.routes, vec!["ノ".to_string()]);
    assert_eq!(h.current_hop, 9);
    assert_eq!(used, 15);
}

#[test]
fn packet_roundtrip() {
    let p = NinjaPacket::new(5, header(), b"payload".to_vec());
    let bytes = p.to_bytes();
    assert_eq!(bytes[0], 5);
    let back = NinjaPacket::from_bytes(&bytes).unwrap();
    assert_eq!(back.ttl, 5);
    assert_eq!(back.path.routes, p.path.routes);
    assert_eq!(back.path.current_hop, 0);
    assert_eq!(back.payload, b"payload".to_vec());
}

#[test]
fn packet_errors() {
    assert_eq!(NinjaPacket::from_bytes(&[]).unwrap_err(), PacketError::EmptyPacket);
    assert_eq!(NinjaPacket::from_bytes(&[3, 0, 0]).unwrap_err(), PacketError::HeaderTooShort);
    let empty_payload = NinjaPacket::from_bytes(&[3, 0, 0, 0, 0, 0, 0, 0, 0]).unwrap();
    assert!(empty_payload.payload.is_empty());
}

#[test]
fn forward_spends_a_hop() {
    let mut p = NinjaPacket::new(2, header(), vec![]);
    assert!(p.forward().is_ok());
    assert_eq!(p.ttl, 1);
    assert_eq!(p.path.current_hop, 1);
    let err = p.forward().unwrap_err();
    assert_eq!(err, PacketError::TtlExpired);
    assert_eq!(err.kind(), PacketErrorKind::Other);
    assert_eq!(p.ttl, 1);
    assert_eq!(p.path.current_hop, 1);
}

#[test]
fn forward_refuses_ttl_zero() {
    let mut p = NinjaPacket::new(0, header(), vec![]);
    assert_eq!(p.forward(), Err(PacketError::TtlExpired));
    assert_eq!(p.ttl, 0);
}

#[test]
fn cloned_packet_keeps_its_contents() {
    let p = NinjaPacket::new(4, header(), vec![1, 2]);
    let q = p.clone();
    assert_eq!(q.to_bytes(), p.to_bytes());
}

#[test]
fn packet_bytes_read_and_written_back_are_unchanged() {
    let bytes = vec![7, 0, 0, 0, 2, 0, 0, 0, 2, 0, 0, 0, 1, b'x', 0, 0, 0, 0, 0xde, 0xad];
    let p = NinjaPacket::from_bytes(&bytes).unwrap();
    assert_eq!(p.ttl, 7);
    assert_eq!(p.path.current_hop, 2);
    assert_eq!(p.path.routes, vec!["x".to_string(), String::new()]);
    assert_eq!(p.payload, vec![0xde, 0xad]);
    assert_eq!(p.to_bytes(), bytes);
}

#[test]
fn a_packet_makes_ttl_minus_one_hops() {
    let mut p = NinjaPacket::new(3, header(), vec![7]);
    let hop = p.path.current_hop;
    assert!(p.forward().is_ok());
    assert!(p.forward().is_ok());
    assert!(matches!(p.forward(), Err(PacketError::TtlExpired)));
    assert!(matches!(p.forward(), Err(PacketError::TtlExpired)));
    assert_eq!(p.ttl, 1);
    assert_eq!(p.path.current_hop, hop + 2);
}

#[test]
fn packet_errors_carry_their_texts() {
    assert_eq!(PacketError::HeaderTooShort.message(), "PathHeaderのパケット長が足りません");
    assert_eq!(PacketError::EmptyPacket.message(), "パケットデータが空です");
    assert_eq!(
        PacketError::TtlExpired.message(),
        "❌ [Packet] TTL expired (Time To Live が0になりました。パケットを破棄します)"
    );
}
