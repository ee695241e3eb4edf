//! The peer's side of the rendezvous: finding out whether the NAT in front
//! of it can be punched, making itself known, finding the other peer, and
//! the two halves of the punch.
//!
//! Nothing here touches a socket or a clock. Each step takes what happened
//! (a datagram from an address, a timer, the time) and yields what to do.
use crate::addr::Addr;
use crate::assoc::{
    absent, distinct, lemma_entry, lemma_keys, lemma_push, lemma_remove, lemma_update, to_map,
};
use crate::message::{Message, MessageView};
use crate::operation::{Failure, Operation, Resolved};
use vstd::prelude::*;

verus! {

/// The time a punch may take, in nanoseconds.
pub const PUNCH_HOLE_DURATION: u64 = 1_000_000_000;

/// The hop limit of the first probe: enough to leave a mapping in the NAT
/// on this side, too little to reach the NAT on the other.
pub const PROBE_TTL: u32 = 6;

/// The pause between the short-lived probe and the first full one, in nanoseconds.
pub const PROBE_PAUSE: u64 = 50_000_000;

/// How often the initiator sends its greeting again, in nanoseconds.
pub const INITIATOR_INTERVAL: u64 = 100_000_000;

/// How often the responder sends again what it is waiting on, in nanoseconds.
pub const RESPONDER_INTERVAL: u64 = 150_000_000;

/// How often a registered peer registers again, in nanoseconds.
pub const KEEPALIVE_INTERVAL: u64 = 30_000_000_000;

/// The size of the buffer that rendezvous datagrams are received in.
pub const RECV_BUF_SIZE: usize = 256;

/// The messages and their destinations, as mathematical values.
pub open spec fn sent(v: Seq<(Message, Addr)>) -> Seq<(MessageView, Addr)> {
    v.map_values(|p: (Message, Addr)| (p.0@, p.1))
}

/// The messages, as mathematical values.
pub open spec fn sent_connected(v: Seq<Message>) -> Seq<MessageView> {
    v.map_values(|m: Message| m@)
}

/// Asks two servers for the address they see, and compares.
pub struct DetectSymmetricNat {
    pub server_addr1: Addr,
    pub server_addr2: Addr,
    /// What the first server answered, once it has.
    pub addr1: Option<Addr>,
    /// What the second server answered, once it has.
    pub addr2: Option<Addr>,
}

impl DetectSymmetricNat {
    pub fn new(server_addr1: Addr, server_addr2: Addr) -> (r: Self)
        ensures
            r.server_addr1 == server_addr1,
            r.server_addr2 == server_addr2,
            r.addr1 is None,
            r.addr2 is None,
    {
        Self { server_addr1, server_addr2, addr1: None, addr2: None }
    }

    /// The queries that are still open: one to each server that has not answered.
    pub open spec fn queries(&self) -> Seq<(MessageView, Addr)> {
        (if self.addr1 is None {
            seq![(MessageView::Query, self.server_addr1)]
        } else {
            Seq::empty()
        }) + (if self.addr2 is None {
            seq![(MessageView::Query, self.server_addr2)]
        } else {
            Seq::empty()
        })
    }

    /// The state after `msg` has come from `src`.
    pub open spec fn noted(&self, msg: MessageView, src: Addr) -> DetectSymmetricNat {
        match msg {
            MessageView::Address(addr) => if src == self.server_addr1 {
                DetectSymmetricNat { addr1: Some(addr), ..*self }
            } else if src == self.server_addr2 {
                DetectSymmetricNat { addr2: Some(addr), ..*self }
            } else {
                *self
            },
            _ => *self,
        }
    }

    /// What `msg` from `src` settles: nothing unless it is an address from
    /// one of the two servers and both have then answered; then success if
    /// the two answers are the same, and a symmetric NAT if they differ.
    pub open spec fn settled(&self, msg: MessageView, src: Addr) -> Resolved<()> {
        let after = self.noted(msg, src);
        if msg is Address && (src == self.server_addr1 || src == self.server_addr2)
            && after.addr1 is Some && after.addr2 is Some {
            if after.addr1 == after.addr2 {
                Resolved::Done(())
            } else {
                Resolved::Failed(Failure::SymmetricNat)
            }
        } else {
            Resolved::Pending
        }
    }
}

impl Operation<()> for DetectSymmetricNat {
    type Request = (Message, Addr);

    type Reply = (Message, Addr);

    open spec fn partial(&self) -> Option<()> {
        None
    }

    fn poll(&mut self) -> (r: Vec<(Message, Addr)>)
        ensures
            *final(self) == *old(self),
            sent(r@) == old(self).queries(),
    {
        let mut r: Vec<(Message, Addr)> = Vec::new();
        if self.addr1.is_none() {
            r.push((Message::Query, self.server_addr1));
        }
        if self.addr2.is_none() {
            r.push((Message::Query, self.server_addr2));
        }
        assert(sent(r@) =~= self.queries());
        r
    }

    fn resolve(&mut self, reply: (Message, Addr)) -> (r: Resolved<()>)
        ensures
            *final(self) == old(self).noted(reply.0@, reply.1),
            r == old(self).settled(reply.0@, reply.1),
    {
        let (msg, src) = reply;
        match msg {
            Message::Address(addr) => {
                if src == self.server_addr1 {
                    self.addr1 = Some(addr);
                } else if src == self.server_addr2 {
                    self.addr2 = Some(addr);
                } else {
                    return Resolved::Pending;
                }
                match (self.addr1, self.addr2) {
                    (Some(a), Some(b)) => {
                        if a == b {
                            Resolved::Done(())
                        } else {
                            Resolved::Failed(Failure::SymmetricNat)
                        }
                    },
                    _ => Resolved::Pending,
                }
            },
            _ => Resolved::Pending,
        }
    }

    fn result(&mut self) -> (r: Option<()>)
        ensures
            *final(self) == *old(self),
    {
        None
    }
}

/// Makes this peer known to the server under an id.
pub struct Register {
    pub msg: Message,
}

impl Register {
    pub fn new(id: &Vec<u8>) -> (r: Self)
        ensures
            r.msg@ == (MessageView::Register { id: id@ }),
    {
        Self { msg: Message::Register { id: id.clone() } }
    }
}

impl Operation<()> for Register {
    type Request = Message;

    type Reply = Message;

    open spec fn partial(&self) -> Option<()> {
        None
    }

    fn poll(&mut self) -> (r: Vec<Message>)
        ensures
            final(self).msg@ == old(self).msg@,
            sent_connected(r@) == seq![old(self).msg@],
    {
        let mut r: Vec<Message> = Vec::new();
        r.push(self.msg.duplicate());
        assert(sent_connected(r@) =~= seq![self.msg@]);
        r
    }

    fn resolve(&mut self, reply: Message) -> (r: Resolved<()>)
        ensures
            final(self).msg@ == old(self).msg@,
            r == (if reply@ is RegisterAck {
                Resolved::Done(())
            } else {
                Resolved::Pending
            }),
    {
        match reply {
            Message::RegisterAck => Resolved::Done(()),
            _ => Resolved::Pending,
        }
    }

    fn result(&mut self) -> (r: Option<()>)
        ensures
            final(self).msg@ == old(self).msg@,
    {
        None
    }
}

/// Asks the server for the address of the peer known under an id.
pub struct Lookup {
    pub server_addr: Addr,
    pub msg: Message,
}

impl Lookup {
    pub fn new(server_addr: Addr, peer_id: &Vec<u8>) -> (r: Self)
        ensures
            r.server_addr == server_addr,
            r.msg@ == (MessageView::Lookup { peer_id: peer_id@ }),
    {
        Self { server_addr, msg: Message::Lookup { peer_id: peer_id.clone() } }
    }
}

impl Operation<Option<Addr>> for Lookup {
    type Request = (Message, Addr);

    type Reply = (Message, Addr);

    open spec fn partial(&self) -> Option<Option<Addr>> {
        None
    }

    fn poll(&mut self) -> (r: Vec<(Message, Addr)>)
        ensures
            final(self).msg@ == old(self).msg@,
            final(self).server_addr == old(self).server_addr,
            sent(r@) == seq![(old(self).msg@, old(self).server_addr)],
    {
        let mut r: Vec<(Message, Addr)> = Vec::new();
        r.push((self.msg.duplicate(), self.server_addr));
        assert(sent(r@) =~= seq![(self.msg@, self.server_addr)]);
        r
    }

    /// The server's answer ends the lookup, with the address it names or
    /// with none; whatever else comes, from the server or another, does not.
    fn resolve(&mut self, reply: (Message, Addr)) -> (r: Resolved<Option<Addr>>)
        ensures
            final(self).msg@ == old(self).msg@,
            final(self).server_addr == old(self).server_addr,
            r == match reply.0@ {
                MessageView::Peer { addr } => if reply.1 == old(self).server_addr {
                    Resolved::Done(addr)
                } else {
                    Resolved::Pending
                },
                _ => Resolved::Pending,
            },
    {
        let (msg, src) = reply;
        match msg {
            Message::Peer { addr } => {
                if src == self.server_addr {
                    Resolved::Done(addr)
                } else {
                    Resolved::Pending
                }
            },
            _ => Resolved::Pending,
        }
    }

    fn result(&mut self) -> (r: Option<Option<Addr>>)
        ensures
            final(self).msg@ == old(self).msg@,
            final(self).server_addr == old(self).server_addr,
    {
        None
    }
}

/// What a lookup's result means for the peer that wants to send: the
/// address to punch towards, or the end where the server knows no such peer.
pub fn lookup_target(found: Option<Addr>) -> (r: Result<Addr, Failure>)
    ensures
        r == match found {
            Some(addr) => Ok::<Addr, Failure>(addr),
            None => Err::<Addr, Failure>(Failure::PeerNotFound),
        },
{
    match found {
        Some(addr) => Ok(addr),
        None => Err(Failure::PeerNotFound),
    }
}

/// One thing for the peer to do with its socket.
#[derive(Debug, Clone, Copy, PartialEq, Eq, Structural)]
pub enum Action {
    /// Set the hop limit of what is sent from now on.
    SetTtl(u32),
    /// Send a greeting to the address.
    Hello(Addr),
    /// Send the answer to the server's request, naming the peer that asked, to the server.
    Response { peer_addr: Addr, server_addr: Addr },
    /// Wait for this many nanoseconds.
    Sleep(u64),
    /// Make the address the socket's only correspondent.
    Connect(Addr),
    /// Send the acknowledgement of a greeting to the correspondent.
    HelloAck,
}

/// How a step of a punch ended.
#[derive(Debug, Clone, PartialEq, Eq)]
pub enum Punch {
    /// Do these things, in order, and go on waiting.
    Continue(Vec<Action>),
    /// Do these things, in order; the way to the other peer is then open.
    Connected(Vec<Action>),
    Failed(Failure),
}

impl Punch {
    /// Whether this step says to do `acts` and go on waiting.
    pub open spec fn continues_with(self, acts: Seq<Action>) -> bool {
        match self {
            Punch::Continue(a) => a@ =~= acts,
            _ => false,
        }
    }

    /// Whether this step says to do `acts`, which opens the way.
    pub open spec fn connects_with(self, acts: Seq<Action>) -> bool {
        match self {
            Punch::Connected(a) => a@ =~= acts,
            _ => false,
        }
    }
}

/// The time that lies `PUNCH_HOLE_DURATION` after `now`.
pub open spec fn deadline_after(now: u64) -> u64 {
    if now + PUNCH_HOLE_DURATION <= u64::MAX {
        (now + PUNCH_HOLE_DURATION) as u64
    } else {
        u64::MAX
    }
}

/// The punch as the peer that wants to send sees it.
#[derive(Debug, Clone, Copy, PartialEq, Eq, Structural)]
pub struct Initiator {
    pub peer_addr: Addr,
    /// When the punch is given up.
    pub deadline: u64,
}

impl Initiator {
    /// What opens the punch, given the socket's hop limit: a probe that
    /// dies on the way, a pause, and a greeting that arrives.
    pub fn open(peer_addr: Addr, ttl: u32) -> (r: Vec<Action>)
        ensures
            r@ == seq![
                Action::SetTtl(PROBE_TTL),
                Action::Hello(peer_addr),
                Action::SetTtl(ttl),
                Action::Sleep(PROBE_PAUSE),
                Action::Hello(peer_addr),
            ],
    {
        let mut r: Vec<Action> = Vec::new();
        r.push(Action::SetTtl(PROBE_TTL));
        r.push(Action::Hello(peer_addr));
        r.push(Action::SetTtl(ttl));
        r.push(Action::Sleep(PROBE_PAUSE));
        r.push(Action::Hello(peer_addr));
        r
    }

    /// The wait for the other peer's greeting, begun at `now`.
    pub fn new(peer_addr: Addr, now: u64) -> (r: Self)
        ensures
            r.peer_addr == peer_addr,
            r.deadline == deadline_after(now),
    {
        Self { peer_addr, deadline: now.saturating_add(PUNCH_HOLE_DURATION) }
    }

    /// A datagram has come: the other peer's greeting opens the way, and
    /// anything else is answered with another greeting to the other peer.
    pub fn on_packet(&self, msg: &Message, src: Addr) -> (r: Punch)
        ensures
            msg@ is Hello && src == self.peer_addr ==> r.connects_with(
                seq![Action::Connect(self.peer_addr), Action::HelloAck],
            ),
            !(msg@ is Hello && src == self.peer_addr) ==> r.continues_with(
                seq![Action::Hello(self.peer_addr)],
            ),
    {
        let mut acts: Vec<Action> = Vec::new();
        match msg {
            Message::Hello => {
                if src == self.peer_addr {
                    acts.push(Action::Connect(self.peer_addr));
                    acts.push(Action::HelloAck);
                    return Punch::Connected(acts);
                }
            },
            _ => {},
        }
        acts.push(Action::Hello(self.peer_addr));
        Punch::Continue(acts)
    }

    /// The interval has passed without a datagram: greet again while the
    /// deadline lies ahead, give up once it does not.
    pub fn on_tick(&self, now: u64) -> (r: Punch)
        ensures
            now < self.deadline ==> r.continues_with(seq![Action::Hello(self.peer_addr)]),
            now >= self.deadline ==> r == Punch::Failed(Failure::TimedOut),
    {
        if now < self.deadline {
            let mut acts: Vec<Action> = Vec::new();
            acts.push(Action::Hello(self.peer_addr));
            Punch::Continue(acts)
        } else {
            Punch::Failed(Failure::TimedOut)
        }
    }
}

/// The punch as the registered peer sees it, for one peer that asked.
#[derive(Debug, Clone, Copy, PartialEq, Eq, Structural)]
pub struct Responder {
    pub server_addr: Addr,
    pub peer_addr: Addr,
    /// The socket's hop limit before the punch changed it.
    pub default_ttl: u32,
    /// When the punch is given up.
    pub deadline: u64,
    /// Whether the server has confirmed the answer to its request.
    pub server_ack: bool,
    /// Whether the other peer's greeting has come.
    pub hello: bool,
}

impl Responder {
    /// What opens the punch: the answer to the server's request.
    pub fn open(server_addr: Addr, peer_addr: Addr) -> (r: Vec<Action>)
        ensures
            r@ == seq![Action::Response { peer_addr, server_addr }],
    {
        let mut r: Vec<Action> = Vec::new();
        r.push(Action::Response { peer_addr, server_addr });
        r
    }

    /// The wait, begun at `now` on a socket whose hop limit is `default_ttl`.
    pub fn new(server_addr: Addr, peer_addr: Addr, default_ttl: u32, now: u64) -> (r: Self)
        ensures
            r == (Responder {
                server_addr,
                peer_addr,
                default_ttl,
                deadline: deadline_after(now),
                server_ack: false,
                hello: false,
            }),
    {
        Self {
            server_addr,
            peer_addr,
            default_ttl,
            deadline: now.saturating_add(PUNCH_HOLE_DURATION),
            server_ack: false,
            hello: false,
        }
    }

    /// The state after `msg` has come from `src`.
    pub open spec fn noted(&self, msg: MessageView, src: Addr) -> Responder {
        if msg is ResponseAck && src == self.server_addr {
            Responder { server_ack: true, ..*self }
        } else if msg is Hello && src == self.peer_addr {
            Responder { hello: true, ..*self }
        } else {
            *self
        }
    }

    /// What to do when `msg` has come from `src`.
    pub open spec fn reaction(&self, msg: MessageView, src: Addr) -> Seq<Action> {
        if msg is ResponseAck && src == self.server_addr {
            seq![Action::SetTtl(PROBE_TTL), Action::Hello(self.peer_addr)]
        } else if msg is Hello && src == self.peer_addr {
            seq![Action::SetTtl(self.default_ttl), Action::Hello(self.peer_addr)]
        } else if msg is HelloAck && src == self.peer_addr {
            seq![Action::SetTtl(self.default_ttl), Action::Connect(self.peer_addr)]
        } else {
            Seq::empty()
        }
    }

    /// A datagram has come. The server's confirmation is followed by a
    /// short-lived greeting to the other peer; the other peer's greeting by
    /// a full one; its acknowledgement opens the way. The rest is ignored.
    pub fn on_packet(&mut self, msg: &Message, src: Addr) -> (r: Punch)
        ensures
            *final(self) == old(self).noted(msg@, src),
            msg@ is HelloAck && src == old(self).peer_addr ==> r.connects_with(
                old(self).reaction(msg@, src),
            ),
            !(msg@ is HelloAck && src == old(self).peer_addr) ==> r.continues_with(
                old(self).reaction(msg@, src),
            ),
    {
        let mut acts: Vec<Action> = Vec::new();
        match msg {
            Message::ResponseAck => {
                if src == self.server_addr {
                    self.server_ack = true;
                    acts.push(Action::SetTtl(PROBE_TTL));
                    acts.push(Action::Hello(self.peer_addr));
                }
            },
            Message::Hello => {
                if src == self.peer_addr {
                    self.hello = true;
                    acts.push(Action::SetTtl(self.default_ttl));
                    acts.push(Action::Hello(self.peer_addr));
                }
            },
            Message::HelloAck => {
                if src == self.peer_addr {
                    acts.push(Action::SetTtl(self.default_ttl));
                    acts.push(Action::Connect(self.peer_addr));
                    return Punch::Connected(acts);
                }
            },
            _ => {},
        }
        Punch::Continue(acts)
    }

    /// The server has sent its request again, so the answer was lost: while
    /// the other peer's greeting has not come, answer once more, with the
    /// full hop limit, and wait for the confirmation anew. After the
    /// greeting the signal is left unheard.
    pub fn on_wake(&mut self) -> (r: Vec<Action>)
        ensures
            old(self).hello ==> *final(self) == *old(self) && r@ == Seq::<Action>::empty(),
            !old(self).hello ==> *final(self) == (Responder { server_ack: false, ..*old(self) })
                && r@ == seq![
                Action::SetTtl(old(self).default_ttl),
                Action::Response {
                    peer_addr: old(self).peer_addr,
                    server_addr: old(self).server_addr,
                },
            ],
    {
        let mut acts: Vec<Action> = Vec::new();
        if !self.hello {
            self.server_ack = false;
            acts.push(Action::SetTtl(self.default_ttl));
            acts.push(
                Action::Response { peer_addr: self.peer_addr, server_addr: self.server_addr },
            );
        }
        acts
    }

    /// The interval has passed. Past the deadline the punch has succeeded if
    /// the other peer's greeting has come, and has failed if not. Before
    /// it, send again what is waited on: the greeting once the server has
    /// confirmed, the answer to the server until then.
    pub fn on_tick(&self, now: u64) -> (r: Punch)
        ensures
            now > self.deadline && self.hello ==> r.connects_with(
                seq![Action::Connect(self.peer_addr)],
            ),
            now > self.deadline && !self.hello ==> r == Punch::Failed(Failure::TimedOut),
            now <= self.deadline && self.server_ack ==> r.continues_with(
                seq![Action::Hello(self.peer_addr)],
            ),
            now <= self.deadline && !self.server_ack ==> r.continues_with(
                seq![
                    Action::Response { peer_addr: self.peer_addr, server_addr: self.server_addr },
                ],
            ),
    {
        let mut acts: Vec<Action> = Vec::new();
        if now > self.deadline {
            if self.hello {
                acts.push(Action::Connect(self.peer_addr));
                return Punch::Connected(acts);
            } else {
                return Punch::Failed(Failure::TimedOut);
            }
        }
        if self.server_ack {
            acts.push(Action::Hello(self.peer_addr));
        } else {
            acts.push(
                Action::Response { peer_addr: self.peer_addr, server_addr: self.server_addr },
            );
        }
        Punch::Continue(acts)
    }
}

/// The punches that are under way, each under the address of the peer that
/// asked, with what its task is reached by.
///
/// A request from a peer that has no punch under way starts one; a request
/// from a peer that has one is the server saying so once more, and is
/// passed on to the task.
pub struct Inboxes<T> {
    entries: Vec<(Addr, T)>,
}

impl<T> View for Inboxes<T> {
    type V = Map<Addr, T>;

    closed spec fn view(&self) -> Map<Addr, T> {
        to_map(self.entries@)
    }
}

impl<T> Inboxes<T> {
    /// The representation invariant: no address is held twice.
    pub closed spec fn wf(&self) -> bool {
        distinct(self.entries@)
    }

    pub fn new() -> (r: Self)
        ensures
            r.wf(),
            r@ == Map::<Addr, T>::empty(),
    {
        Inboxes { entries: Vec::new() }
    }

    fn position(&self, peer_addr: Addr) -> (r: Option<usize>)
        ensures
            match r {
                Some(i) => i < self.entries@.len() && self.entries@[i as int].0 == peer_addr,
                None => absent(self.entries@, peer_addr),
            },
    {
        let mut i: usize = 0;
        while i < self.entries.len()
            invariant
                i <= self.entries@.len(),
                forall|k: int| 0 <= k < i ==> (#[trigger] self.entries@[k]).0 != peer_addr,
            decreases self.entries@.len() - i,
        {
            if self.entries[i].0 == peer_addr {
                return Some(i);
            }
            i += 1;
        }
        None
    }

    /// What the task that punches towards `peer_addr` is reached by, if
    /// such a punch is under way.
    pub fn get(&self, peer_addr: Addr) -> (r: Option<&T>)
        requires
            self.wf(),
        ensures
            match r {
                Some(inbox) => self@.contains_key(peer_addr) && self@[peer_addr] == *inbox,
                None => !self@.contains_key(peer_addr),
            },
    {
        proof {
            lemma_keys(self.entries@, peer_addr);
        }
        match self.position(peer_addr) {
            Some(i) => {
                proof {
                    lemma_entry(self.entries@, i as int);
                }
                Some(&self.entries[i].1)
            },
            None => None,
        }
    }

    /// Notes that a punch towards `peer_addr` is under way.
    pub fn insert(&mut self, peer_addr: Addr, inbox: T)
        requires
            old(self).wf(),
        ensures
            final(self).wf(),
            final(self)@ == old(self)@.insert(peer_addr, inbox),
    {
        let ghost before = self.entries@;
        match self.position(peer_addr) {
            Some(i) => {
                proof {
                    lemma_update(before, i as int, inbox);
                }
                self.entries.set(i, (peer_addr, inbox));
                assert(self.entries@ =~= before.update(i as int, (before[i as int].0, inbox)));
            },
            None => {
                proof {
                    lemma_push(before, peer_addr, inbox);
                }
                self.entries.push((peer_addr, inbox));
            },
        }
    }

    /// Notes that the punch towards `peer_addr` is over.
    pub fn remove(&mut self, peer_addr: Addr) -> (r: Option<T>)
        requires
            old(self).wf(),
        ensures
            final(self).wf(),
            final(self)@ == old(self)@.remove(peer_addr),
            match r {
                Some(inbox) => old(self)@.contains_key(peer_addr) && old(self)@[peer_addr]
                    == inbox,
                None => !old(self)@.contains_key(peer_addr),
            },
    {
        let ghost before = self.entries@;
        proof {
            lemma_keys(before, peer_addr);
        }
        match self.position(peer_addr) {
            Some(i) => {
                proof {
                    lemma_entry(before, i as int);
                    lemma_remove(before, i as int);
                }
                let entry = self.entries.remove(i);
                Some(entry.1)
            },
            None => {
                assert(to_map(before).remove(peer_addr) =~= to_map(before));
                None
            },
        }
    }
}

} // verus!
