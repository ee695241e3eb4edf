use udp_hole_punching::addr::{Addr, AddrV4};
use udp_hole_punching::message::Message;
use udp_hole_punching::server::{peer_gc, Registry, Server, GC_THRESHOLD, PEER_TTL, RECV_BUF_SIZE};

const SECOND: u64 = 1_000_000_000;

fn at(last: u8, port: u16) -> Addr {
    Addr::V4(AddrV4 { ip: u32::from_be_bytes([10, 0, 0, last]), port })
}

fn id(n: u32) -> Vec<u8> {
    format!("peer-{}", n).into_bytes()
}

#[test]
fn constants_of_the_server() {
    assert_eq!(GC_THRESHOLD, 256);
    assert_eq!(PEER_TTL, 600 * SECOND);
    assert_eq!(RECV_BUF_SIZE, 256);
}

#[test]
fn query_is_answered_with_the_senders_address() {
    let mut server = Server::new(0);
    assert_eq!(
        server.on_primary(Message::Query, at(5, 5), 1),
        vec![(Message::Address(at(5, 5)), at(5, 5))]
    );
    assert_eq!(
        server.on_secondary(&Message::Query, at(5, 6), 1),
        vec![(Message::Address(at(5, 6)), at(5, 6))]
    );
    assert_eq!(server.peers.len(), 0);
}

#[test]
fn registration_is_noted_and_confirmed() {
    let mut server = Server::new(0);
    assert_eq!(
        server.on_primary(Message::Register { id: id(1) }, at(5, 5), 10),
        vec![(Message::RegisterAck, at(5, 5))]
    );
    assert_eq!(server.peers.get(&id(1)), Some(at(5, 5)));
    assert_eq!(server.peers.get(&id(2)), None);
    assert_eq!(server.peers.len(), 1);
    server.on_primary(Message::Register { id: id(1) }, at(5, 6), 20);
    assert_eq!(server.peers.get(&id(1)), Some(at(5, 6)));
    assert_eq!(server.peers.len(), 1);
    server.on_primary(Message::Register { id: Vec::new() }, at(5, 7), 20);
    assert_eq!(server.peers.get(&[]), Some(at(5, 7)));
    assert_eq!(server.peers.len(), 2);
}

#[test]
fn lookup_is_passed_on_to_the_peer_or_answered_with_nothing() {
    let mut server = Server::new(0);
    server.on_primary(Message::Register { id: id(1) }, at(5, 5), 10);
    assert_eq!(
        server.on_primary(Message::Lookup { peer_id: id(1) }, at(9, 9), 11),
        vec![(Message::Request { peer_addr: at(9, 9) }, at(5, 5))]
    );
    assert_eq!(
        server.on_primary(Message::Lookup { peer_id: id(2) }, at(9, 9), 11),
        vec![(Message::Peer { addr: None }, at(9, 9))]
    );
    assert_eq!(server.peers.len(), 1);
}

#[test]
fn response_is_confirmed_and_passed_on() {
    let mut server = Server::new(0);
    assert_eq!(
        server.on_primary(Message::Response { peer_addr: at(9, 9) }, at(5, 77), 12),
        vec![
            (Message::ResponseAck, at(5, 77)),
            (Message::Peer { addr: Some(at(5, 77)) }, at(9, 9)),
        ]
    );
}

#[test]
fn everything_else_is_ignored() {
    let mut server = Server::new(0);
    for msg in [
        Message::Address(at(1, 1)),
        Message::RegisterAck,
        Message::Peer { addr: None },
        Message::Request { peer_addr: at(1, 1) },
        Message::ResponseAck,
        Message::Hello,
        Message::HelloAck,
    ] {
        assert_eq!(server.on_secondary(&msg, at(2, 2), 1), Vec::new());
        assert_eq!(server.on_primary(msg, at(2, 2), 1), Vec::new());
    }
    for msg in [
        Message::Register { id: id(1) },
        Message::Lookup { peer_id: id(1) },
        Message::Response { peer_addr: at(1, 1) },
    ] {
        assert_eq!(server.on_secondary(&msg, at(2, 2), 1), Vec::new());
    }
    assert_eq!(server.peers.len(), 0);
}

fn crowded(idle_from: u64) -> Server {
    let mut server = Server::new(0);
    for n in 0..300u32 {
        let seen = if n < 200 { n as u64 } else { idle_from + n as u64 };
        server.on_primary(Message::Register { id: id(n) }, at(1, n as u16), seen);
    }
    server
}

#[test]
fn stale_peers_are_swept_on_a_query_to_the_second_socket() {
    let mut server = crowded(400 * SECOND);
    assert_eq!(server.peers.len(), 300);
    let now = 601 * SECOND;
    assert_eq!(
        server.on_secondary(&Message::Query, at(3, 3), now),
        vec![(Message::Address(at(3, 3)), at(3, 3))]
    );
    assert_eq!(server.peer_gc_at, now);
    assert_eq!(server.peers.len(), 100);
    for n in 0..300u32 {
        let expected = if n < 200 { None } else { Some(at(1, n as u16)) };
        assert_eq!(server.peers.get(&id(n)), expected);
    }
}

#[test]
fn sweep_waits_for_its_time_and_for_a_crowd() {
    let mut server = crowded(400 * SECOND);
    server.on_secondary(&Message::Query, at(3, 3), 600 * SECOND);
    assert_eq!(server.peers.len(), 300);
    assert_eq!(server.peer_gc_at, 0);
    server.on_primary(Message::Query, at(3, 3), 601 * SECOND);
    server.on_secondary(&Message::Hello, at(3, 3), 601 * SECOND);
    assert_eq!(server.peers.len(), 300);
    let mut small = Server::new(0);
    for n in 0..256u32 {
        small.on_primary(Message::Register { id: id(n) }, at(1, n as u16), 0);
    }
    small.on_secondary(&Message::Query, at(3, 3), 10_000 * SECOND);
    assert_eq!(small.peers.len(), 256);
    assert_eq!(small.peer_gc_at, 0);
    small.on_primary(Message::Register { id: id(256) }, at(1, 256), 9_999 * SECOND);
    small.on_secondary(&Message::Query, at(3, 3), 10_000 * SECOND);
    assert_eq!(small.peers.len(), 1);
    assert_eq!(small.peer_gc_at, 10_000 * SECOND);
}

#[test]
fn peer_is_stale_only_past_the_limit() {
    let mut peers = Registry::new();
    peers.insert(id(1), at(1, 1), 100);
    peers.insert(id(2), at(1, 2), 101);
    peers.insert(id(3), at(1, 3), 5_000 * SECOND);
    assert_eq!(peer_gc(&mut peers, 100 + PEER_TTL), 100 + PEER_TTL);
    assert_eq!(peers.len(), 3);
    assert_eq!(peer_gc(&mut peers, 101 + PEER_TTL), 101 + PEER_TTL);
    assert_eq!(peers.get(&id(1)), None);
    assert_eq!(peers.get(&id(2)), Some(at(1, 2)));
    assert_eq!(peers.get(&id(3)), Some(at(1, 3)));
    peers.sweep(0);
    assert_eq!(peers.len(), 2);
    peers.sweep(u64::MAX);
    assert_eq!(peers.len(), 0);
}
