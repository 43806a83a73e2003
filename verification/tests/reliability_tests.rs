use reudp::message::{Message, MessageType};
use reudp::mode::{Mode, PeerAddr};
use reudp::reudp::ReUDP;

fn addr(port: u16) -> PeerAddr {
    PeerAddr::new(0x7F000001, port)
}

fn data_frame(sequence: u64, payload: &[u8]) -> Vec<u8> {
    Message::new(sequence, MessageType::Data, payload.to_vec()).to_bytes()
}

fn ack_frame(sequence: u64) -> Vec<u8> {
    Message::new(sequence, MessageType::Ack, vec![]).to_bytes()
}

#[test]
fn test_sequence_advance() {
    let remote = addr(9000);
    let mut c = ReUDP::new(Mode::Client(remote), 1000, 0);
    for i in 0u64..5 {
        let out = c.send(vec![i as u8], i % 2 == 0).unwrap();
        assert_eq!(out.len(), 1);
        assert_eq!(out[0].0, remote);
        let m = Message::from_bytes(&out[0].1).unwrap();
        assert_eq!(m.sequence, i);
        assert_eq!(m.message_type, MessageType::Data);
    }
    assert_eq!(c.send_sequence, 5);
}

#[test]
fn test_send_records_unacked_only_when_required() {
    let mut c = ReUDP::new(Mode::Client(addr(9000)), 1000, 0);
    let out = c.send(vec![1], true).unwrap();
    assert_eq!(c.unacked_packets.len(), 1);
    assert_eq!(c.unacked_packets[0].0, 0);
    assert_eq!(c.unacked_packets[0].1, out[0].1);
    c.send(vec![2], false).unwrap();
    assert_eq!(c.unacked_packets.len(), 1);
    assert_eq!(c.send_sequence, 2);
}

#[test]
fn test_ack_removes_unacked() {
    let peer = addr(9001);
    let mut c = ReUDP::new(Mode::Client(peer), 1000, 0);
    c.send(vec![1], true).unwrap();
    c.send(vec![2], true).unwrap();
    assert_eq!(c.unacked_packets.len(), 2);
    let oc = c.recv(peer, &ack_frame(0), 1).unwrap();
    assert!(oc.delivered.is_empty());
    assert!(oc.replies.is_empty());
    assert_eq!(c.unacked_packets.len(), 1);
    assert_eq!(c.unacked_packets[0].0, 1);
}

#[test]
fn test_ack_idempotent() {
    let peer = addr(9001);
    let mut c = ReUDP::new(Mode::Client(peer), 1000, 0);
    c.send(vec![1], true).unwrap();
    c.send(vec![2], true).unwrap();
    c.recv(peer, &ack_frame(0), 1).unwrap();
    assert_eq!(c.unacked_packets.len(), 1);
    let oc = c.recv(peer, &ack_frame(0), 2).unwrap();
    assert!(oc.delivered.is_empty());
    assert_eq!(c.unacked_packets.len(), 1);
    assert_eq!(c.unacked_packets[0].0, 1);
}

#[test]
fn test_in_order_delivery() {
    let peer = addr(9002);
    let mut s = ReUDP::new(Mode::Server, 1000, 0);
    for i in 0u64..3 {
        let oc = s.recv(peer, &data_frame(i, &[i as u8 + 10]), i + 1).unwrap();
        assert_eq!(oc.delivered.len(), 1);
        assert_eq!(oc.delivered[0].0, peer);
        assert_eq!(oc.delivered[0].1, vec![i as u8 + 10]);
        assert_eq!(oc.replies.len(), 1);
        let ack = Message::from_bytes(&oc.replies[0].1).unwrap();
        assert_eq!(ack.message_type, MessageType::Ack);
        assert_eq!(ack.sequence, i);
    }
    assert_eq!(s.recv_sequence, 3);
    assert!(s.recv_buffer.is_empty());
}

#[test]
fn test_gap_filling_delivery() {
    let peer = addr(9003);
    let mut s = ReUDP::new(Mode::Server, 1000, 0);
    let oc0 = s.recv(peer, &data_frame(0, b"a"), 1).unwrap();
    assert_eq!(oc0.delivered.len(), 1);
    assert_eq!(oc0.delivered[0].1, b"a".to_vec());
    let oc2 = s.recv(peer, &data_frame(2, b"c"), 2).unwrap();
    assert!(oc2.delivered.is_empty());
    assert_eq!(s.recv_buffer.len(), 1);
    let oc1 = s.recv(peer, &data_frame(1, b"b"), 3).unwrap();
    assert_eq!(oc1.delivered.len(), 2);
    assert_eq!(oc1.delivered[0].1, b"b".to_vec());
    assert_eq!(oc1.delivered[1].1, b"c".to_vec());
    assert_eq!(s.recv_sequence, 3);
    assert!(s.recv_buffer.is_empty());
}

#[test]
fn test_stale_duplicate_is_reacked_not_delivered() {
    let peer = addr(9004);
    let mut s = ReUDP::new(Mode::Server, 1000, 0);
    s.recv(peer, &data_frame(0, b"a"), 1).unwrap();
    assert_eq!(s.recv_sequence, 1);
    let oc = s.recv(peer, &data_frame(0, b"a"), 2).unwrap();
    assert!(oc.delivered.is_empty());
    assert_eq!(oc.replies.len(), 1);
    let ack = Message::from_bytes(&oc.replies[0].1).unwrap();
    assert_eq!(ack.message_type, MessageType::Ack);
    assert_eq!(ack.sequence, 0);
    assert_eq!(s.recv_sequence, 1);
}

#[test]
fn test_server_learns_peers_and_fans_out() {
    let p1 = addr(9005);
    let p2 = addr(9006);
    let mut s = ReUDP::new(Mode::Server, 1000, 0);
    s.recv(p1, &data_frame(0, b"x"), 1).unwrap();
    assert_eq!(s.clients, vec![p1]);
    s.recv(p2, &data_frame(1, b"y"), 2).unwrap();
    assert_eq!(s.clients, vec![p1, p2]);
    s.recv(p1, &data_frame(2, b"z"), 3).unwrap();
    assert_eq!(s.clients, vec![p1, p2]);
    let out = s.send(b"hello".to_vec(), false).unwrap();
    assert_eq!(out.len(), 2);
    assert_eq!(out[0].0, p1);
    assert_eq!(out[1].0, p2);
}

#[test]
fn test_malformed_datagram_dropped() {
    let peer = addr(9007);
    let mut s = ReUDP::new(Mode::Server, 1000, 0);
    let oc = s.recv(peer, &[1, 2, 3], 1).unwrap();
    assert!(oc.delivered.is_empty());
    assert!(oc.replies.is_empty());
    assert!(s.clients.is_empty());
    assert_eq!(s.recv_sequence, 0);
}

#[test]
fn test_unknown_kind_ignored() {
    let peer = addr(9008);
    let mut s = ReUDP::new(Mode::Server, 1000, 0);
    let frame = Message::new(0, MessageType::Unknown(9), vec![1]).to_bytes();
    let oc = s.recv(peer, &frame, 1).unwrap();
    assert!(oc.delivered.is_empty());
    assert!(oc.replies.is_empty());
    assert_eq!(s.recv_sequence, 0);
    assert!(s.unacked_packets.is_empty());
    assert_eq!(s.clients, vec![peer]);
}
