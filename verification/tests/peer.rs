use udp_hole_punching::addr::{Addr, AddrV4};
use udp_hole_punching::message::Message;
use udp_hole_punching::operation::{Failure, Operation, Resolved, Retry, Timeout};
use udp_hole_punching::peer::{
    lookup_target, Action, DetectSymmetricNat, Inboxes, Initiator, Lookup, Punch, Register,
    Responder, INITIATOR_INTERVAL, KEEPALIVE_INTERVAL, PROBE_PAUSE, PROBE_TTL,
    PUNCH_HOLE_DURATION, RECV_BUF_SIZE, RESPONDER_INTERVAL,
};

fn at(last: u8, port: u16) -> Addr {
    Addr::V4(AddrV4 { ip: u32::from_be_bytes([10, 0, 0, last]), port })
}

fn server1() -> Addr {
    at(1, 3000)
}

fn server2() -> Addr {
    at(1, 3001)
}

fn peer() -> Addr {
    at(9, 50000)
}

#[test]
fn constants_of_the_punch() {
    assert_eq!(PUNCH_HOLE_DURATION, 1_000_000_000);
    assert_eq!(PROBE_TTL, 6);
    assert_eq!(PROBE_PAUSE, 50_000_000);
    assert_eq!(INITIATOR_INTERVAL, 100_000_000);
    assert_eq!(RESPONDER_INTERVAL, 150_000_000);
    assert_eq!(KEEPALIVE_INTERVAL, 30_000_000_000);
    assert_eq!(RECV_BUF_SIZE, 256);
}

#[test]
fn detection_asks_both_servers_until_each_has_answered() {
    let mut op = DetectSymmetricNat::new(server1(), server2());
    assert_eq!(op.poll(), vec![(Message::Query, server1()), (Message::Query, server2())]);
    assert_eq!(op.resolve((Message::Address(at(7, 1234)), server2())), Resolved::Pending);
    assert_eq!(op.addr2, Some(at(7, 1234)));
    assert_eq!(op.poll(), vec![(Message::Query, server1())]);
    assert_eq!(op.resolve((Message::Address(at(7, 1234)), server1())), Resolved::Done(()));
    assert_eq!(op.poll(), Vec::new());
    assert_eq!(op.result(), None);
}

#[test]
fn equal_answers_mean_the_nat_can_be_punched() {
    let mut op = DetectSymmetricNat::new(server1(), server2());
    assert_eq!(op.resolve((Message::Address(at(7, 1234)), server1())), Resolved::Pending);
    assert_eq!(op.resolve((Message::Address(at(7, 1234)), server2())), Resolved::Done(()));
}

#[test]
fn different_ports_mean_a_symmetric_nat() {
    let mut op = DetectSymmetricNat::new(server1(), server2());
    assert_eq!(op.resolve((Message::Address(at(7, 1234)), server1())), Resolved::Pending);
    assert_eq!(
        op.resolve((Message::Address(at(7, 1235)), server2())),
        Resolved::Failed(Failure::SymmetricNat)
    );
    let mut op = DetectSymmetricNat::new(server1(), server2());
    op.resolve((Message::Address(at(7, 1234)), server2()));
    assert_eq!(
        op.resolve((Message::Address(at(8, 1234)), server1())),
        Resolved::Failed(Failure::SymmetricNat)
    );
}

#[test]
fn detection_ignores_strangers_and_other_messages() {
    let mut op = DetectSymmetricNat::new(server1(), server2());
    assert_eq!(op.resolve((Message::Address(at(7, 1)), peer())), Resolved::Pending);
    assert_eq!(op.resolve((Message::Hello, server1())), Resolved::Pending);
    assert_eq!(op.resolve((Message::RegisterAck, server2())), Resolved::Pending);
    assert_eq!((op.addr1, op.addr2), (None, None));
    op.resolve((Message::Address(at(7, 1)), server1()));
    assert_eq!(op.resolve((Message::Address(at(7, 1)), peer())), Resolved::Pending);
    assert_eq!(op.resolve((Message::Query, server2())), Resolved::Pending);
    assert_eq!(op.resolve((Message::Address(at(7, 2)), server1())), Resolved::Pending);
    assert_eq!(op.addr1, Some(at(7, 2)));
}

#[test]
fn detection_without_an_answer_times_out() {
    let mut op = DetectSymmetricNat::new(server1(), server2());
    let mut retry = Retry::new();
    op.resolve((Message::Address(at(7, 1)), server1()));
    for _ in 0..3 {
        assert_eq!(retry.on_timeout(&mut op), Timeout::Poll);
        assert_eq!(op.poll(), vec![(Message::Query, server2())]);
    }
    assert_eq!(retry.on_timeout(&mut op), Timeout::TimedOut);
}

#[test]
fn registration_is_confirmed_by_the_server() {
    let id = b"bob".to_vec();
    let mut op = Register::new(&id);
    assert_eq!(op.msg, Message::Register { id: id.clone() });
    assert_eq!(op.poll(), vec![Message::Register { id }]);
    assert_eq!(op.resolve(Message::ResponseAck), Resolved::Pending);
    assert_eq!(op.resolve(Message::Request { peer_addr: peer() }), Resolved::Pending);
    assert_eq!(op.resolve(Message::RegisterAck), Resolved::Done(()));
    assert_eq!(op.result(), None);
}

#[test]
fn lookup_is_answered_by_the_server_only() {
    let id = b"bob".to_vec();
    let mut op = Lookup::new(server1(), &id);
    assert_eq!(op.poll(), vec![(Message::Lookup { peer_id: id }, server1())]);
    assert_eq!(op.resolve((Message::Peer { addr: Some(peer()) }, server2())), Resolved::Pending);
    assert_eq!(op.resolve((Message::Hello, server1())), Resolved::Pending);
    assert_eq!(
        op.resolve((Message::Peer { addr: Some(peer()) }, server1())),
        Resolved::Done(Some(peer()))
    );
    assert_eq!(op.resolve((Message::Peer { addr: None }, server1())), Resolved::Done(None));
    assert_eq!(op.result(), None);
}

#[test]
fn unknown_peer_ends_the_attempt() {
    assert_eq!(lookup_target(Some(peer())), Ok(peer()));
    assert_eq!(lookup_target(None), Err(Failure::PeerNotFound));
}

#[test]
fn initiator_probes_with_a_short_hop_limit_first() {
    assert_eq!(
        Initiator::open(peer(), 64),
        vec![
            Action::SetTtl(6),
            Action::Hello(peer()),
            Action::SetTtl(64),
            Action::Sleep(50_000_000),
            Action::Hello(peer()),
        ]
    );
}

#[test]
fn initiator_connects_on_the_peers_greeting() {
    let punch = Initiator::new(peer(), 5_000);
    assert_eq!(punch.deadline, 1_000_005_000);
    assert_eq!(
        punch.on_packet(&Message::Hello, peer()),
        Punch::Connected(vec![Action::Connect(peer()), Action::HelloAck])
    );
    assert_eq!(
        punch.on_packet(&Message::Hello, server1()),
        Punch::Continue(vec![Action::Hello(peer())])
    );
    assert_eq!(
        punch.on_packet(&Message::HelloAck, peer()),
        Punch::Continue(vec![Action::Hello(peer())])
    );
    assert_eq!(
        punch.on_packet(&Message::Peer { addr: Some(peer()) }, server1()),
        Punch::Continue(vec![Action::Hello(peer())])
    );
}

#[test]
fn initiator_greets_again_until_the_deadline() {
    let punch = Initiator::new(peer(), 0);
    assert_eq!(punch.on_tick(100_000_000), Punch::Continue(vec![Action::Hello(peer())]));
    assert_eq!(punch.on_tick(999_999_999), Punch::Continue(vec![Action::Hello(peer())]));
    assert_eq!(punch.on_tick(1_000_000_000), Punch::Failed(Failure::TimedOut));
    assert_eq!(punch.on_tick(u64::MAX), Punch::Failed(Failure::TimedOut));
    assert_eq!(Initiator::new(peer(), u64::MAX - 5).deadline, u64::MAX);
}

#[test]
fn responder_answers_the_server_first() {
    assert_eq!(
        Responder::open(server1(), peer()),
        vec![Action::Response { peer_addr: peer(), server_addr: server1() }]
    );
    let punch = Responder::new(server1(), peer(), 64, 7);
    assert_eq!(
        punch,
        Responder {
            server_addr: server1(),
            peer_addr: peer(),
            default_ttl: 64,
            deadline: 1_000_000_007,
            server_ack: false,
            hello: false,
        }
    );
}

#[test]
fn responder_walks_through_the_handshake() {
    let mut punch = Responder::new(server1(), peer(), 64, 0);
    assert_eq!(
        punch.on_packet(&Message::ResponseAck, server1()),
        Punch::Continue(vec![Action::SetTtl(6), Action::Hello(peer())])
    );
    assert!(punch.server_ack && !punch.hello);
    assert_eq!(
        punch.on_packet(&Message::Hello, peer()),
        Punch::Continue(vec![Action::SetTtl(64), Action::Hello(peer())])
    );
    assert!(punch.server_ack && punch.hello);
    assert_eq!(
        punch.on_packet(&Message::HelloAck, peer()),
        Punch::Connected(vec![Action::SetTtl(64), Action::Connect(peer())])
    );
}

#[test]
fn responder_ignores_the_wrong_sender() {
    let mut punch = Responder::new(server1(), peer(), 64, 0);
    let before = punch;
    assert_eq!(punch.on_packet(&Message::ResponseAck, peer()), Punch::Continue(Vec::new()));
    assert_eq!(punch.on_packet(&Message::ResponseAck, server2()), Punch::Continue(Vec::new()));
    assert_eq!(punch.on_packet(&Message::Hello, server1()), Punch::Continue(Vec::new()));
    assert_eq!(punch.on_packet(&Message::HelloAck, server1()), Punch::Continue(Vec::new()));
    assert_eq!(punch.on_packet(&Message::Query, peer()), Punch::Continue(Vec::new()));
    assert_eq!(punch, before);
}

#[test]
fn repeated_request_makes_the_responder_answer_again() {
    let mut punch = Responder::new(server1(), peer(), 64, 0);
    punch.on_packet(&Message::ResponseAck, server1());
    assert_eq!(
        punch.on_wake(),
        vec![
            Action::SetTtl(64),
            Action::Response { peer_addr: peer(), server_addr: server1() },
        ]
    );
    assert!(!punch.server_ack);
    punch.on_packet(&Message::ResponseAck, server1());
    punch.on_packet(&Message::Hello, peer());
    let before = punch;
    assert_eq!(punch.on_wake(), Vec::new());
    assert_eq!(punch, before);
}

#[test]
fn responder_sends_again_what_it_waits_on() {
    let mut punch = Responder::new(server1(), peer(), 64, 0);
    assert_eq!(
        punch.on_tick(150_000_000),
        Punch::Continue(vec![Action::Response { peer_addr: peer(), server_addr: server1() }])
    );
    punch.on_packet(&Message::ResponseAck, server1());
    assert_eq!(punch.on_tick(300_000_000), Punch::Continue(vec![Action::Hello(peer())]));
    assert_eq!(punch.on_tick(1_000_000_000), Punch::Continue(vec![Action::Hello(peer())]));
}

#[test]
fn responder_past_the_deadline() {
    let mut punch = Responder::new(server1(), peer(), 64, 0);
    assert_eq!(punch.on_tick(1_000_000_001), Punch::Failed(Failure::TimedOut));
    punch.on_packet(&Message::ResponseAck, server1());
    assert_eq!(punch.on_tick(1_000_000_001), Punch::Failed(Failure::TimedOut));
    punch.on_packet(&Message::Hello, peer());
    assert_eq!(punch.on_tick(1_000_000_001), Punch::Connected(vec![Action::Connect(peer())]));
}

#[test]
fn inboxes_hold_one_entry_per_peer() {
    let mut table: Inboxes<u32> = Inboxes::new();
    assert_eq!(table.get(peer()), None);
    table.insert(peer(), 1);
    table.insert(at(2, 2), 2);
    assert_eq!(table.get(peer()), Some(&1));
    assert_eq!(table.get(at(2, 2)), Some(&2));
    assert_eq!(table.get(at(2, 3)), None);
    table.insert(peer(), 3);
    assert_eq!(table.get(peer()), Some(&3));
    assert_eq!(table.remove(peer()), Some(3));
    assert_eq!(table.remove(peer()), None);
    assert_eq!(table.get(peer()), None);
    assert_eq!(table.get(at(2, 2)), Some(&2));
}
