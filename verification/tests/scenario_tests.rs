use reudp::message::{Message, MessageType};
use reudp::mode::{Mode, PeerAddr};
use reudp::reudp::ReUDP;

fn localhost(port: u16) -> PeerAddr {
    PeerAddr::new(0x7F000001, port)
}

#[test]
fn test_reudp_communication() {
    let client_addr = localhost(8080);
    let server_addr = localhost(8081);
    let mut client = ReUDP::new(Mode::Client(server_addr), 100, 0);
    let mut server = ReUDP::new(Mode::Server, 100, 0);

    let to_server = client.send(b"Test message from client".to_vec(), true).unwrap();
    assert_eq!(to_server.len(), 1);
    assert_eq!(to_server[0].0, server_addr);
    assert_eq!(client.unacked_packets.len(), 1);

    let at_server = server.recv(client_addr, &to_server[0].1, 5).unwrap();
    assert_eq!(at_server.delivered.len(), 1);
    assert_eq!(at_server.delivered[0].0, client_addr);
    assert_eq!(at_server.delivered[0].1, b"Test message from client".to_vec());
    assert_eq!(at_server.replies.len(), 1);

    client.recv(server_addr, &at_server.replies[0].1, 10).unwrap();
    assert!(client.unacked_packets.is_empty());

    let to_client = server.send(b"Hello from server!".to_vec(), true).unwrap();
    assert_eq!(to_client.len(), 1);
    assert_eq!(to_client[0].0, client_addr);

    let at_client = client.recv(server_addr, &to_client[0].1, 15).unwrap();
    assert_eq!(at_client.delivered.len(), 1);
    assert_eq!(at_client.delivered[0].0, server_addr);
    assert_eq!(at_client.delivered[0].1, b"Hello from server!".to_vec());

    server.recv(client_addr, &at_client.replies[0].1, 20).unwrap();
    assert!(server.unacked_packets.is_empty());
}

#[test]
fn test_ping_pong_exchange() {
    let client_addr = localhost(7000);
    let peer_addr = localhost(7001);
    let mut client = ReUDP::new(Mode::Client(peer_addr), 200, 0);
    let mut peer = ReUDP::new(Mode::Server, 200, 0);

    let ping_out = client.send(b"ping".to_vec(), true).unwrap();
    assert_eq!(ping_out.len(), 1);

    // the peer would see the datagram within one retransmission cadence;
    // a resend carries the identical frame
    let resent = client.tick(100);
    assert_eq!(resent.len(), 1);
    assert_eq!(resent[0].1, ping_out[0].1);

    let at_peer = peer.recv(client_addr, &ping_out[0].1, 100).unwrap();
    assert_eq!(at_peer.delivered.len(), 1);
    assert_eq!(at_peer.delivered[0].0, client_addr);
    assert_eq!(at_peer.delivered[0].1, b"ping".to_vec());

    let pong_out = peer.send(b"pong".to_vec(), false).unwrap();
    assert_eq!(pong_out.len(), 1);
    assert_eq!(pong_out[0].0, client_addr);

    let at_client = client.recv(peer_addr, &pong_out[0].1, 150).unwrap();
    assert_eq!(at_client.delivered.len(), 1);
    assert_eq!(at_client.delivered[0].0, peer_addr);
    assert_eq!(at_client.delivered[0].1, b"pong".to_vec());

    // the peer's Ack for sequence 0 empties the client's unacked table
    assert_eq!(client.unacked_packets.len(), 1);
    let ack = Message::new(0, MessageType::Ack, vec![]).to_bytes();
    client.recv(peer_addr, &ack, 160).unwrap();
    assert!(client.unacked_packets.is_empty());
    let nothing_left = client.tick(170);
    assert!(nothing_left.is_empty());
}

#[test]
fn test_duplicate_delivery_suppressed_after_retransmission() {
    let client_addr = localhost(7002);
    let peer_addr = localhost(7003);
    let mut client = ReUDP::new(Mode::Client(peer_addr), 200, 0);
    let mut peer = ReUDP::new(Mode::Server, 200, 0);

    let out = client.send(b"once".to_vec(), true).unwrap();
    let first = peer.recv(client_addr, &out[0].1, 10).unwrap();
    assert_eq!(first.delivered.len(), 1);

    // the ack is lost; the scheduler resends the same frame
    let resent = client.tick(100);
    let second = peer.recv(client_addr, &resent[0].1, 110).unwrap();
    assert!(second.delivered.is_empty());
    assert_eq!(second.replies.len(), 1);

    // the second ack finally reaches the client
    let ack = Message::from_bytes(&second.replies[0].1).unwrap();
    assert_eq!(ack.message_type, MessageType::Ack);
    assert_eq!(ack.sequence, 0);
    client.recv(peer_addr, &second.replies[0].1, 120).unwrap();
    assert!(client.unacked_packets.is_empty());
}
