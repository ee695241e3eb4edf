//! The rendezvous server: who is registered under which id, and what each
//! datagram on each of its two sockets is answered with.
use crate::addr::Addr;
use crate::assoc::{
    absent, distinct, lemma_entry, lemma_keys, lemma_len, lemma_push, lemma_remove, lemma_update,
    to_map,
};
use crate::message::{Message, MessageView};
use crate::peer::sent;
use crate::wire::same_bytes;
use vstd::prelude::*;

verus! {

/// The number of registered peers above which the registry is swept.
pub const GC_THRESHOLD: usize = 256;

/// How long a peer stays registered without registering again, and how long
/// lies between two sweeps at least, in nanoseconds.
pub const PEER_TTL: u64 = 600_000_000_000;

/// The size of the buffers that the server receives in.
pub const RECV_BUF_SIZE: usize = 256;

/// The time from `then` to `now`; none where `then` is the later.
pub open spec fn elapsed(now: u64, then: u64) -> nat {
    if now >= then {
        (now - then) as nat
    } else {
        0
    }
}

/// Whether a peer last seen at `last_seen` is swept at `now`.
pub open spec fn stale(last_seen: u64, now: u64) -> bool {
    elapsed(now, last_seen) > PEER_TTL
}

/// The registry after a sweep at `now`: the same, less the stale peers.
pub open spec fn swept(peers: Map<Seq<u8>, (Addr, u64)>, now: u64) -> Map<Seq<u8>, (Addr, u64)> {
    peers.restrict(Set::new(|id: Seq<u8>| !stale(peers[id].1, now)))
}

/// One registered peer.
pub struct PeerEntry {
    id: Vec<u8>,
    addr: Addr,
    last_seen: u64,
}

/// The entries as keys and values.
pub open spec fn pairs(entries: Seq<PeerEntry>) -> Seq<(Seq<u8>, (Addr, u64))> {
    entries.map_values(|e: PeerEntry| e.pair())
}

impl PeerEntry {
    /// The entry as key and value.
    pub closed spec fn pair(self) -> (Seq<u8>, (Addr, u64)) {
        (self.id@, (self.addr, self.last_seen))
    }
}

/// When the peer of an entry was last seen.
pub open spec fn seen_at(entry: (Seq<u8>, (Addr, u64))) -> u64 {
    let (id, (addr, last_seen)) = entry;
    last_seen
}

/// The entries that a sweep at `now` leaves, in their order.
pub open spec fn fresh(s: Seq<(Seq<u8>, (Addr, u64))>, now: u64) -> Seq<(Seq<u8>, (Addr, u64))>
    decreases s.len(),
{
    if s.len() == 0 {
        Seq::empty()
    } else if stale(seen_at(s.last()), now) {
        fresh(s.drop_last(), now)
    } else {
        fresh(s.drop_last(), now).push(s.last())
    }
}

proof fn lemma_fresh(s: Seq<(Seq<u8>, (Addr, u64))>, now: u64)
    requires
        distinct(s),
    ensures
        distinct(fresh(s, now)),
        to_map(fresh(s, now)) == swept(to_map(s), now),
    decreases s.len(),
{
    if s.len() == 0 {
        assert(to_map(fresh(s, now)) =~= swept(to_map(s), now));
    } else {
        let rest = s.drop_last();
        let key = s.last().0;
        assert(distinct(rest)) by {
            assert forall|a: int, b: int| 0 <= a < b < rest.len() implies rest[a].0 != rest[b].0 by {
                assert(rest[a] == s[a] && rest[b] == s[b]);
            }
        }
        lemma_fresh(rest, now);
        assert(absent(rest, key)) by {
            assert forall|a: int| 0 <= a < rest.len() implies (#[trigger] rest[a]).0 != key by {
                assert(rest[a] == s[a]);
            }
        }
        lemma_keys(rest, key);
        lemma_keys(fresh(rest, now), key);
        lemma_push(fresh(rest, now), key, s.last().1);
        assert(to_map(fresh(s, now)) =~= swept(to_map(s), now));
    }
}

/// The peers that are registered, each under its id, with the address it
/// was seen under and the time it last registered.
pub struct Registry {
    entries: Vec<PeerEntry>,
}

impl View for Registry {
    type V = Map<Seq<u8>, (Addr, u64)>;

    closed spec fn view(&self) -> Map<Seq<u8>, (Addr, u64)> {
        to_map(pairs(self.entries@))
    }
}

impl Registry {
    /// The representation invariant: no id is held twice.
    pub closed spec fn wf(&self) -> bool {
        distinct(pairs(self.entries@))
    }

    pub fn new() -> (r: Self)
        ensures
            r.wf(),
            r@ == Map::<Seq<u8>, (Addr, u64)>::empty(),
    {
        Registry { entries: Vec::new() }
    }

    /// The number of registered peers.
    pub fn len(&self) -> (n: usize)
        requires
            self.wf(),
        ensures
            self@.dom().finite(),
            n == self@.dom().len(),
    {
        proof {
            lemma_len(pairs(self.entries@));
        }
        self.entries.len()
    }

    /// Where the entry of `id` stands, if there is one.
    fn position(&self, id: &[u8]) -> (r: Option<usize>)
        ensures
            match r {
                Some(i) => i < self.entries@.len() && pairs(self.entries@)[i as int].0 == id@,
                None => absent(pairs(self.entries@), id@),
            },
    {
        let mut i: usize = 0;
        while i < self.entries.len()
            invariant
                i <= self.entries@.len(),
                forall|k: int| 0 <= k < i ==> (#[trigger] pairs(self.entries@)[k]).0 != id@,
            decreases self.entries@.len() - i,
        {
            if same_bytes(self.entries[i].id.as_slice(), id) {
                return Some(i);
            }
            i += 1;
        }
        None
    }

    /// The address that the peer under `id` was last seen under.
    pub fn get(&self, id: &[u8]) -> (r: Option<Addr>)
        requires
            self.wf(),
        ensures
            r == (if self@.contains_key(id@) {
                Some(self@[id@].0)
            } else {
                None
            }),
    {
        proof {
            lemma_keys(pairs(self.entries@), id@);
        }
        match self.position(id) {
            Some(i) => {
                proof {
                    lemma_entry(pairs(self.entries@), i as int);
                }
                Some(self.entries[i].addr)
            },
            None => None,
        }
    }

    /// Registers the peer under `id`, or registers it anew.
    pub fn insert(&mut self, id: Vec<u8>, addr: Addr, now: u64)
        requires
            old(self).wf(),
        ensures
            final(self).wf(),
            final(self)@ == old(self)@.insert(id@, (addr, now)),
    {
        let ghost before = pairs(self.entries@);
        match self.position(id.as_slice()) {
            Some(i) => {
                proof {
                    lemma_update(before, i as int, (addr, now));
                }
                self.entries.set(i, PeerEntry { id, addr, last_seen: now });
                assert(pairs(self.entries@) =~= before.update(i as int, (before[i as int].0, (addr, now))));
            },
            None => {
                proof {
                    lemma_push(before, id@, (addr, now));
                }
                self.entries.push(PeerEntry { id, addr, last_seen: now });
                assert(pairs(self.entries@) =~= before.push((id@, (addr, now))));
            },
        }
    }

    /// Takes out the peers that have not registered for longer than `PEER_TTL`.
    pub fn sweep(&mut self, now: u64)
        requires
            old(self).wf(),
        ensures
            final(self).wf(),
            final(self)@ == swept(old(self)@, now),
    {
        let ghost orig = pairs(self.entries@);
        let ghost mut j: int = 0;
        let mut i: usize = 0;
        while i < self.entries.len()
            invariant
                0 <= j <= orig.len(),
                i <= self.entries@.len(),
                self.entries@.len() - i == orig.len() - j,
                pairs(self.entries@).take(i as int) == fresh(orig.take(j), now),
                pairs(self.entries@).skip(i as int) == orig.skip(j),
            decreases self.entries@.len() - i,
        {
            let ghost cur = pairs(self.entries@);
            let last_seen: u64 = self.entries[i].last_seen;
            let age: u64 = if now >= last_seen {
                now - last_seen
            } else {
                0
            };
            proof {
                assert(cur.skip(i as int)[0] == orig.skip(j)[0]);
                assert(cur[i as int] == orig[j]);
                assert(orig.take(j + 1).drop_last() =~= orig.take(j));
                assert(orig.take(j + 1).last() == orig[j]);
            }
            if age > PEER_TTL {
                self.entries.remove(i);
                proof {
                    let next = pairs(self.entries@);
                    assert(next =~= cur.remove(i as int));
                    assert(next.take(i as int) =~= cur.take(i as int));
                    assert(next.skip(i as int) =~= cur.skip(i as int).skip(1));
                    assert(orig.skip(j + 1) =~= orig.skip(j).skip(1));
                    j = j + 1;
                }
            } else {
                proof {
                    assert(cur.take(i + 1) =~= cur.take(i as int).push(cur[i as int]));
                    assert(cur.skip(i + 1) =~= cur.skip(i as int).skip(1));
                    assert(orig.skip(j + 1) =~= orig.skip(j).skip(1));
                    j = j + 1;
                }
                i += 1;
            }
        }
        proof {
            let cur = pairs(self.entries@);
            assert(cur.take(i as int) =~= cur);
            assert(orig.take(j) =~= orig);
            lemma_fresh(orig, now);
        }
    }
}

/// Sweeps the registry at `now` and yields the time of the sweep.
pub fn peer_gc(peers: &mut Registry, now: u64) -> (at: u64)
    requires
        old(peers).wf(),
    ensures
        final(peers).wf(),
        final(peers)@ == swept(old(peers)@, now),
        at == now,
{
    peers.sweep(now);
    now
}

/// The server's state: the registry and the time of its last sweep.
pub struct Server {
    pub peers: Registry,
    pub peer_gc_at: u64,
}

impl Server {
    /// A server that starts at `now` with nobody registered.
    pub fn new(now: u64) -> (s: Self)
        ensures
            s.peers.wf(),
            s.peers@ == Map::<Seq<u8>, (Addr, u64)>::empty(),
            s.peer_gc_at == now,
    {
        Server { peers: Registry::new(), peer_gc_at: now }
    }

    /// What the registry is after `msg` from `src` on the first socket.
    pub open spec fn registered(
        peers: Map<Seq<u8>, (Addr, u64)>,
        msg: MessageView,
        src: Addr,
        now: u64,
    ) -> Map<Seq<u8>, (Addr, u64)> {
        match msg {
            MessageView::Register { id } => peers.insert(id, (src, now)),
            _ => peers,
        }
    }

    /// What `msg` from `src` on the first socket is answered with, to whom.
    pub open spec fn answers(peers: Map<Seq<u8>, (Addr, u64)>, msg: MessageView, src: Addr) -> Seq<
        (MessageView, Addr),
    > {
        match msg {
            MessageView::Query => seq![(MessageView::Address(src), src)],
            MessageView::Register { id } => seq![(MessageView::RegisterAck, src)],
            MessageView::Lookup { peer_id } => if peers.contains_key(peer_id) {
                seq![(MessageView::Request { peer_addr: src }, peers[peer_id].0)]
            } else {
                seq![(MessageView::Peer { addr: None }, src)]
            },
            MessageView::Response { peer_addr } => seq![
                (MessageView::ResponseAck, src),
                (MessageView::Peer { addr: Some(src) }, peer_addr),
            ],
            _ => Seq::empty(),
        }
    }

    /// A datagram on the first socket: a query is answered with the
    /// address it came from, a registration is noted and confirmed, a
    /// lookup is passed on to the peer it names or answered with nothing,
    /// and a peer's answer is confirmed and passed on to the peer that asked.
    pub fn on_primary(&mut self, msg: Message, src: Addr, now: u64) -> (out: Vec<(Message, Addr)>)
        requires
            old(self).peers.wf(),
        ensures
            final(self).peers.wf(),
            final(self).peer_gc_at == old(self).peer_gc_at,
            final(self).peers@ == Server::registered(old(self).peers@, msg@, src, now),
            sent(out@) == Server::answers(old(self).peers@, msg@, src),
    {
        let mut out: Vec<(Message, Addr)> = Vec::new();
        match msg {
            Message::Query => {
                out.push((Message::Address(src), src));
            },
            Message::Register { id } => {
                self.peers.insert(id, src, now);
                out.push((Message::RegisterAck, src));
            },
            Message::Lookup { peer_id } => match self.peers.get(peer_id.as_slice()) {
                Some(addr) => {
                    out.push((Message::Request { peer_addr: src }, addr));
                },
                None => {
                    out.push((Message::Peer { addr: None }, src));
                },
            },
            Message::Response { peer_addr } => {
                out.push((Message::ResponseAck, src));
                out.push((Message::Peer { addr: Some(src) }, peer_addr));
            },
            _ => {},
        }
        assert(sent(out@) =~= Server::answers(old(self).peers@, msg@, src));
        out
    }

    /// Whether a query on the second socket at `now` is followed by a sweep.
    pub open spec fn sweep_due(&self, now: u64) -> bool {
        self.peers@.dom().len() > GC_THRESHOLD && elapsed(now, self.peer_gc_at) > PEER_TTL
    }

    /// A datagram on the second socket: a query is answered with the
    /// address it came from, and is the occasion to sweep the registry
    /// where it has grown and the last sweep is long ago. Nothing else is
    /// answered.
    pub fn on_secondary(&mut self, msg: &Message, src: Addr, now: u64) -> (out: Vec<
        (Message, Addr),
    >)
        requires
            old(self).peers.wf(),
        ensures
            final(self).peers.wf(),
            sent(out@) == (if msg@ is Query {
                seq![(MessageView::Address(src), src)]
            } else {
                Seq::empty()
            }),
            msg@ is Query && old(self).sweep_due(now) ==> final(self).peers@ == swept(
                old(self).peers@,
                now,
            ) && final(self).peer_gc_at == now,
            !(msg@ is Query && old(self).sweep_due(now)) ==> final(self).peers@ == old(
                self,
            ).peers@ && final(self).peer_gc_at == old(self).peer_gc_at,
    {
        let mut out: Vec<(Message, Addr)> = Vec::new();
        match msg {
            Message::Query => {
                out.push((Message::Address(src), src));
                let since: u64 = if now >= self.peer_gc_at {
                    now - self.peer_gc_at
                } else {
                    0
                };
                if self.peers.len() > GC_THRESHOLD && since > PEER_TTL {
                    self.peer_gc_at = peer_gc(&mut self.peers, now);
                }
            },
            _ => {},
        }
        assert(sent(out@) =~= (if msg@ is Query {
            seq![(MessageView::Address(src), src)]
        } else {
            Seq::empty()
        }));
        out
    }
}

} // verus!
