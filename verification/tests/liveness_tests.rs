use reudp::error::ReUDPError;
use reudp::message::{Message, MessageType};
use reudp::mode::{Mode, PeerAddr};
use reudp::reudp::{LivenessStatus, ReUDP};

fn addr(port: u16) -> PeerAddr {
    PeerAddr::new(0x7F000001, port)
}

fn heartbeat_frame() -> Vec<u8> {
    Message::new(0, MessageType::Heartbeat, vec![]).to_bytes()
}

#[test]
fn test_heartbeat_broadcast_when_due() {
    let remote = addr(9100);
    let mut c = ReUDP::new(Mode::Client(remote), 100, 0);
    let early = c.tick(50);
    assert!(early.is_empty());
    assert_eq!(c.last_heartbeat_time, 0);
    let due = c.tick(101);
    assert_eq!(due.len(), 1);
    assert_eq!(due[0].0, remote);
    let hb = Message::from_bytes(&due[0].1).unwrap();
    assert_eq!(hb.message_type, MessageType::Heartbeat);
    assert_eq!(hb.sequence, 0);
    assert_eq!(c.last_heartbeat_time, 101);
    assert_eq!(c.last_ping_time, Some(101));
    assert_eq!(c.status, LivenessStatus::Alive);
}

#[test]
fn test_no_response_terminal() {
    let remote = addr(9101);
    let mut c = ReUDP::new(Mode::Client(remote), 100, 0);
    let actions = c.tick(201);
    assert!(actions.is_empty());
    assert_eq!(c.status, LivenessStatus::NoResponse);
    let later = c.tick(300);
    assert!(later.is_empty());
    assert_eq!(c.status, LivenessStatus::NoResponse);
    assert_eq!(c.send(b"x".to_vec(), true), Err(ReUDPError::NoResponseFromServer));
    assert!(matches!(c.recv(remote, &heartbeat_frame(), 301), Err(ReUDPError::NoResponseFromServer)));
}

#[test]
fn test_no_response_not_yet_at_boundary() {
    let mut c = ReUDP::new(Mode::Client(addr(9102)), 100, 0);
    c.tick(200);
    assert_eq!(c.status, LivenessStatus::Alive);
}

#[test]
fn test_connection_lost_after_response_goes_stale() {
    let remote = addr(9103);
    let mut c = ReUDP::new(Mode::Client(remote), 100, 0);
    let oc = c.recv(remote, &heartbeat_frame(), 10).unwrap();
    assert_eq!(oc.replies.len(), 1);
    assert_eq!(c.last_heartbeat_response_time, Some(10));
    c.tick(150);
    assert_eq!(c.status, LivenessStatus::Alive);
    let actions = c.tick(211);
    assert!(actions.is_empty());
    assert_eq!(c.status, LivenessStatus::Lost);
    assert_eq!(c.send(b"x".to_vec(), false), Err(ReUDPError::ConnectionLost));
    assert!(matches!(c.recv(remote, &heartbeat_frame(), 212), Err(ReUDPError::ConnectionLost)));
}

#[test]
fn test_rtt_pairs_probe_with_response() {
    let remote = addr(9104);
    let mut c = ReUDP::new(Mode::Client(remote), 100, 0);
    let due = c.tick(150);
    assert_eq!(due.len(), 1);
    assert_eq!(c.last_ping_time, Some(150));
    let oc = c.recv(remote, &heartbeat_frame(), 190).unwrap();
    assert_eq!(oc.replies.len(), 1);
    let reply = Message::from_bytes(&oc.replies[0].1).unwrap();
    assert_eq!(reply.message_type, MessageType::Heartbeat);
    assert_eq!(c.get_current_ping(), Some(40));
    assert_eq!(c.last_ping_time, None);
    c.recv(remote, &heartbeat_frame(), 300).unwrap();
    assert_eq!(c.get_current_ping(), Some(40));
    assert_eq!(c.last_heartbeat_response_time, Some(300));
}

#[test]
fn test_no_rtt_without_outstanding_probe() {
    let remote = addr(9105);
    let mut c = ReUDP::new(Mode::Client(remote), 100, 0);
    c.recv(remote, &heartbeat_frame(), 20).unwrap();
    assert_eq!(c.get_current_ping(), None);
    assert_eq!(c.last_heartbeat_response_time, Some(20));
}

#[test]
fn test_resend_unacked_until_acked() {
    let remote = addr(9106);
    let mut c = ReUDP::new(Mode::Client(remote), 1000, 0);
    let out = c.send(b"payload".to_vec(), true).unwrap();
    let resent = c.tick(10);
    assert_eq!(resent.len(), 1);
    assert_eq!(resent[0].0, remote);
    assert_eq!(resent[0].1, out[0].1);
    let ack = Message::new(0, MessageType::Ack, vec![]).to_bytes();
    c.recv(remote, &ack, 20).unwrap();
    let after = c.tick(30);
    assert!(after.is_empty());
}
