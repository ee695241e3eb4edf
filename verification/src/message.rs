//! The rendezvous messages and their wire form.
//!
//! A message goes out as a four-byte tag, the fields of its variant, and
//! eight closing bytes that tell it from foreign datagrams.
use crate::addr::{
    get_opt_addr, lemma_read_written_opt, lemma_written_read_opt, opt_addr_wire, opt_on_wire,
    put_opt_addr, read_opt_addr, Addr,
};
use crate::socket::{Decode, Encode};
use crate::wire::{
    bytes_wire, get_bytes, get_u32, holds_at, lemma_holds_concat, lemma_holds_whole,
    lemma_read_bytes, lemma_read_u32, lemma_u32_le_value, put_bytes, put_u32, read_bytes,
    read_u32, u32_le,
};
use vstd::prelude::*;

verus! {

/// The eight bytes that close every rendezvous message.
pub open spec fn magic() -> Seq<u8> {
    seq![205u8, 126u8, 86u8, 230u8, 111u8, 189u8, 169u8, 142u8]
}

/// What peers and the rendezvous server say to each other.
#[derive(Debug, Clone, PartialEq, Eq)]
pub enum Message {
    /// A peer asks the server which address it is seen under.
    Query,
    /// The server's answer to `Query`.
    Address(Addr),
    /// A peer makes itself known under `id`.
    Register { id: Vec<u8> },
    RegisterAck,
    /// A peer asks for the address of the peer known under `peer_id`.
    Lookup { peer_id: Vec<u8> },
    /// The server's answer to a lookup; no address where the id is unknown.
    Peer { addr: Option<Addr> },
    /// The server tells a registered peer that `peer_addr` wants to reach it.
    Request { peer_addr: Addr },
    /// The registered peer answers from the socket it will punch with.
    Response { peer_addr: Addr },
    ResponseAck,
    /// The punch handshake between two peers.
    Hello,
    HelloAck,
}

/// A message as a mathematical value.
pub enum MessageView {
    Query,
    Address(Addr),
    Register { id: Seq<u8> },
    RegisterAck,
    Lookup { peer_id: Seq<u8> },
    Peer { addr: Option<Addr> },
    Request { peer_addr: Addr },
    Response { peer_addr: Addr },
    ResponseAck,
    Hello,
    HelloAck,
}

impl View for Message {
    type V = MessageView;

    open spec fn view(&self) -> MessageView {
        match self {
            Message::Query => MessageView::Query,
            Message::Address(a) => MessageView::Address(*a),
            Message::Register { id } => MessageView::Register { id: id@ },
            Message::RegisterAck => MessageView::RegisterAck,
            Message::Lookup { peer_id } => MessageView::Lookup { peer_id: peer_id@ },
            Message::Peer { addr } => MessageView::Peer { addr: *addr },
            Message::Request { peer_addr } => MessageView::Request { peer_addr: *peer_addr },
            Message::Response { peer_addr } => MessageView::Response { peer_addr: *peer_addr },
            Message::ResponseAck => MessageView::ResponseAck,
            Message::Hello => MessageView::Hello,
            Message::HelloAck => MessageView::HelloAck,
        }
    }
}

impl MessageView {
    /// Whether the lengths in the message fit the eight bytes they are sent in.
    pub open spec fn fits(self) -> bool {
        match self {
            MessageView::Register { id } => id.len() <= u64::MAX,
            MessageView::Lookup { peer_id } => peer_id.len() <= u64::MAX,
            _ => true,
        }
    }

    /// The tag and the fields, without the closing bytes.
    pub open spec fn body(self) -> Seq<u8> {
        match self {
            MessageView::Query => u32_le(0),
            MessageView::Address(a) => u32_le(1) + a.wire(),
            MessageView::Register { id } => u32_le(2) + bytes_wire(id),
            MessageView::RegisterAck => u32_le(3),
            MessageView::Lookup { peer_id } => u32_le(4) + bytes_wire(peer_id),
            MessageView::Peer { addr } => u32_le(5) + opt_addr_wire(addr),
            MessageView::Request { peer_addr } => u32_le(6) + peer_addr.wire(),
            MessageView::Response { peer_addr } => u32_le(7) + peer_addr.wire(),
            MessageView::ResponseAck => u32_le(8),
            MessageView::Hello => u32_le(9),
            MessageView::HelloAck => u32_le(10),
        }
    }

    /// The whole datagram.
    pub open spec fn wire(self) -> Seq<u8> {
        self.body() + magic()
    }

    /// The message as it arrives at the other end.
    pub open spec fn on_wire(self) -> MessageView {
        match self {
            MessageView::Address(a) => MessageView::Address(a.on_wire()),
            MessageView::Peer { addr } => MessageView::Peer { addr: opt_on_wire(addr) },
            MessageView::Request { peer_addr } => MessageView::Request {
                peer_addr: peer_addr.on_wire(),
            },
            MessageView::Response { peer_addr } => MessageView::Response {
                peer_addr: peer_addr.on_wire(),
            },
            _ => self,
        }
    }

    /// The message at the head of `s`, and where it ends.
    pub open spec fn read(s: Seq<u8>) -> Option<(MessageView, int)> {
        match read_u32(s, 0) {
            Some((tag, p)) => if tag == 0 {
                Some((MessageView::Query, p))
            } else if tag == 1 {
                match Addr::read(s, p) {
                    Some((a, q)) => Some((MessageView::Address(a), q)),
                    None => None,
                }
            } else if tag == 2 {
                match read_bytes(s, p) {
                    Some((id, q)) => Some((MessageView::Register { id }, q)),
                    None => None,
                }
            } else if tag == 3 {
                Some((MessageView::RegisterAck, p))
            } else if tag == 4 {
                match read_bytes(s, p) {
                    Some((peer_id, q)) => Some((MessageView::Lookup { peer_id }, q)),
                    None => None,
                }
            } else if tag == 5 {
                match read_opt_addr(s, p) {
                    Some((addr, q)) => Some((MessageView::Peer { addr }, q)),
                    None => None,
                }
            } else if tag == 6 {
                match Addr::read(s, p) {
                    Some((peer_addr, q)) => Some((MessageView::Request { peer_addr }, q)),
                    None => None,
                }
            } else if tag == 7 {
                match Addr::read(s, p) {
                    Some((peer_addr, q)) => Some((MessageView::Response { peer_addr }, q)),
                    None => None,
                }
            } else if tag == 8 {
                Some((MessageView::ResponseAck, p))
            } else if tag == 9 {
                Some((MessageView::Hello, p))
            } else if tag == 10 {
                Some((MessageView::HelloAck, p))
            } else {
                None
            },
            None => None,
        }
    }

    /// The message that the datagram `s` carries: the one at its head, where
    /// exactly the closing bytes follow it.
    pub open spec fn decode(s: Seq<u8>) -> Option<MessageView> {
        match MessageView::read(s) {
            Some((m, p)) => if s.subrange(p, s.len() as int) == magic() {
                Some(m)
            } else {
                None
            },
            None => None,
        }
    }
}

proof fn lemma_read_with_addr(s: Seq<u8>, tag: u32, a: Addr)
    requires
        holds_at(s, 0, u32_le(tag) + a.wire()),
    ensures
        read_u32(s, 0) == Some((tag, 4int)),
        Addr::read(s, 4) == Some((a.on_wire(), (u32_le(tag) + a.wire()).len() as int)),
{
    lemma_u32_le_value(tag);
    lemma_holds_concat(s, 0, u32_le(tag), a.wire());
    lemma_read_u32(s, 0, tag);
    Addr::lemma_read_written(s, 4, a);
}

proof fn lemma_read_with_bytes(s: Seq<u8>, tag: u32, b: Seq<u8>)
    requires
        b.len() <= u64::MAX,
        holds_at(s, 0, u32_le(tag) + bytes_wire(b)),
    ensures
        read_u32(s, 0) == Some((tag, 4int)),
        read_bytes(s, 4) == Some((b, (u32_le(tag) + bytes_wire(b)).len() as int)),
{
    lemma_u32_le_value(tag);
    lemma_holds_concat(s, 0, u32_le(tag), bytes_wire(b));
    lemma_read_u32(s, 0, tag);
    lemma_read_bytes(s, 4, b);
}

/// A read at the head of bytes that begin with a message's body yields that
/// message, as it arrives, and ends behind the body.
pub proof fn lemma_read_body(s: Seq<u8>, m: MessageView)
    requires
        m.fits(),
        holds_at(s, 0, m.body()),
    ensures
        MessageView::read(s) == Some((m.on_wire(), m.body().len() as int)),
{
    match m {
        MessageView::Query => {
            lemma_u32_le_value(0);
            lemma_read_u32(s, 0, 0);
        },
        MessageView::Address(a) => {
            lemma_read_with_addr(s, 1, a);
        },
        MessageView::Register { id } => {
            lemma_read_with_bytes(s, 2, id);
        },
        MessageView::RegisterAck => {
            lemma_u32_le_value(3);
            lemma_read_u32(s, 0, 3);
        },
        MessageView::Lookup { peer_id } => {
            lemma_read_with_bytes(s, 4, peer_id);
        },
        MessageView::Peer { addr } => {
            lemma_u32_le_value(5);
            lemma_holds_concat(s, 0, u32_le(5), opt_addr_wire(addr));
            lemma_read_u32(s, 0, 5);
            lemma_read_written_opt(s, 4, addr);
        },
        MessageView::Request { peer_addr } => {
            lemma_read_with_addr(s, 6, peer_addr);
        },
        MessageView::Response { peer_addr } => {
            lemma_read_with_addr(s, 7, peer_addr);
        },
        MessageView::ResponseAck => {
            lemma_u32_le_value(8);
            lemma_read_u32(s, 0, 8);
        },
        MessageView::Hello => {
            lemma_u32_le_value(9);
            lemma_read_u32(s, 0, 9);
        },
        MessageView::HelloAck => {
            lemma_u32_le_value(10);
            lemma_read_u32(s, 0, 10);
        },
    }
}

/// What a read yields is a message whose body lies at the head of the bytes,
/// and the read ends behind that body.
#[verifier::rlimit(60)]
pub proof fn lemma_body_read(s: Seq<u8>)
    ensures
        MessageView::read(s) matches Some((m, p)) ==> holds_at(s, 0, m.body()) && p
            == m.body().len() && m.fits() && m.on_wire() == m,
{
    lemma_u32_le_value(0);
    match MessageView::read(s) {
        Some((m, p)) => {
            match m {
                MessageView::Query => {
                    lemma_read_u32(s, 0, 0);
                },
                MessageView::Address(a) => {
                    lemma_read_u32(s, 0, 1);
                    Addr::lemma_written_read(s, 4);
                    lemma_holds_concat(s, 0, u32_le(1), a.wire());
                },
                MessageView::Register { id } => {
                    lemma_read_u32(s, 0, 2);
                    lemma_read_bytes(s, 4, Seq::empty());
                    lemma_read_bytes(s, 4, id);
                    lemma_holds_concat(s, 0, u32_le(2), bytes_wire(id));
                },
                MessageView::RegisterAck => {
                    lemma_read_u32(s, 0, 3);
                },
                MessageView::Lookup { peer_id } => {
                    lemma_read_u32(s, 0, 4);
                    lemma_read_bytes(s, 4, Seq::empty());
                    lemma_read_bytes(s, 4, peer_id);
                    lemma_holds_concat(s, 0, u32_le(4), bytes_wire(peer_id));
                },
                MessageView::Peer { addr } => {
                    lemma_read_u32(s, 0, 5);
                    lemma_written_read_opt(s, 4);
                    lemma_holds_concat(s, 0, u32_le(5), opt_addr_wire(addr));
                },
                MessageView::Request { peer_addr } => {
                    lemma_read_u32(s, 0, 6);
                    Addr::lemma_written_read(s, 4);
                    lemma_holds_concat(s, 0, u32_le(6), peer_addr.wire());
                },
                MessageView::Response { peer_addr } => {
                    lemma_read_u32(s, 0, 7);
                    Addr::lemma_written_read(s, 4);
                    lemma_holds_concat(s, 0, u32_le(7), peer_addr.wire());
                },
                MessageView::ResponseAck => {
                    lemma_read_u32(s, 0, 8);
                },
                MessageView::Hello => {
                    lemma_read_u32(s, 0, 9);
                },
                MessageView::HelloAck => {
                    lemma_read_u32(s, 0, 10);
                },
            }
        },
        None => {},
    }
}

/// Decoding what was encoded yields the message, as it arrives.
pub proof fn law_decode_encoded(m: MessageView)
    requires
        m.fits(),
    ensures
        MessageView::decode(m.wire()) == Some(m.on_wire()),
{
    let s = m.wire();
    lemma_holds_whole(s, s);
    lemma_holds_concat(s, 0, m.body(), magic());
    lemma_read_body(s, m);
    assert(s.subrange(m.body().len() as int, s.len() as int) =~= magic());
}

/// A datagram carries at most one message, and it is the encoding of the
/// message it carries.
pub proof fn law_decoded_is_encoding(s: Seq<u8>, m: MessageView)
    requires
        MessageView::decode(s) == Some(m),
    ensures
        s == m.wire(),
        m.fits(),
        m.on_wire() == m,
{
    lemma_body_read(s);
    let p = m.body().len() as int;
    assert(s =~= s.subrange(0, p) + s.subrange(p, s.len() as int));
}

/// A datagram whose last eight bytes are not the closing bytes carries no
/// message.
pub proof fn law_magic_required(s: Seq<u8>)
    requires
        s.len() < 8 || s.subrange(s.len() - 8, s.len() as int) != magic(),
    ensures
        MessageView::decode(s) is None,
{
    match MessageView::decode(s) {
        Some(m) => {
            law_decoded_is_encoding(s, m);
            assert(s.subrange(s.len() - 8, s.len() as int) =~= magic());
        },
        None => {},
    }
}

fn put_magic(out: &mut Vec<u8>)
    ensures
        final(out)@ == old(out)@ + magic(),
{
    out.push(205);
    out.push(126);
    out.push(86);
    out.push(230);
    out.push(111);
    out.push(189);
    out.push(169);
    out.push(142);
    assert(out@ =~= old(out)@ + magic());
}

/// Whether exactly the closing bytes lie behind position `pos`.
fn magic_follows(data: &[u8], pos: usize) -> (b: bool)
    requires
        pos <= data@.len(),
    ensures
        b == (data@.subrange(pos as int, data@.len() as int) == magic()),
{
    let ghost rest = data@.subrange(pos as int, data@.len() as int);
    if data.len() - pos != 8 {
        assert(magic().len() == 8);
        return false;
    }
    let b = data[pos] == 205 && data[pos + 1] == 126 && data[pos + 2] == 86 && data[pos + 3] == 230
        && data[pos + 4] == 111 && data[pos + 5] == 189 && data[pos + 6] == 169 && data[pos + 7]
        == 142;
    proof {
        if b {
            assert(rest =~= magic());
        } else {
            assert(rest[0] == data@[pos as int]);
            assert(rest[1] == data@[pos + 1]);
            assert(rest[2] == data@[pos + 2]);
            assert(rest[3] == data@[pos + 3]);
            assert(rest[4] == data@[pos + 4]);
            assert(rest[5] == data@[pos + 5]);
            assert(rest[6] == data@[pos + 6]);
            assert(rest[7] == data@[pos + 7]);
        }
    }
    b
}

/// Reads the message at the head of `data`.
fn read_message(data: &[u8]) -> (r: Option<(Message, usize)>)
    ensures
        match r {
            Some((m, p)) => MessageView::read(data@) == Some((m@, p as int)) && p <= data@.len(),
            None => MessageView::read(data@) is None,
        },
{
    let (tag, p) = match get_u32(data, 0) {
        Some(x) => x,
        None => return None,
    };
    proof {
        Addr::lemma_written_read(data@, p as int);
        lemma_written_read_opt(data@, p as int);
    }
    if tag == 0 {
        Some((Message::Query, p))
    } else if tag == 1 {
        match Addr::get(data, p) {
            Some((a, q)) => Some((Message::Address(a), q)),
            None => None,
        }
    } else if tag == 2 {
        match get_bytes(data, p) {
            Some((id, q)) => Some((Message::Register { id }, q)),
            None => None,
        }
    } else if tag == 3 {
        Some((Message::RegisterAck, p))
    } else if tag == 4 {
        match get_bytes(data, p) {
            Some((peer_id, q)) => Some((Message::Lookup { peer_id }, q)),
            None => None,
        }
    } else if tag == 5 {
        match get_opt_addr(data, p) {
            Some((addr, q)) => Some((Message::Peer { addr }, q)),
            None => None,
        }
    } else if tag == 6 {
        match Addr::get(data, p) {
            Some((peer_addr, q)) => Some((Message::Request { peer_addr }, q)),
            None => None,
        }
    } else if tag == 7 {
        match Addr::get(data, p) {
            Some((peer_addr, q)) => Some((Message::Response { peer_addr }, q)),
            None => None,
        }
    } else if tag == 8 {
        Some((Message::ResponseAck, p))
    } else if tag == 9 {
        Some((Message::Hello, p))
    } else if tag == 10 {
        Some((Message::HelloAck, p))
    } else {
        None
    }
}

impl Message {
    /// A second copy of the message.
    pub fn duplicate(&self) -> (m: Message)
        ensures
            m@ == self@,
    {
        match self {
            Message::Query => Message::Query,
            Message::Address(a) => Message::Address(*a),
            Message::Register { id } => Message::Register { id: id.clone() },
            Message::RegisterAck => Message::RegisterAck,
            Message::Lookup { peer_id } => Message::Lookup { peer_id: peer_id.clone() },
            Message::Peer { addr } => Message::Peer { addr: *addr },
            Message::Request { peer_addr } => Message::Request { peer_addr: *peer_addr },
            Message::Response { peer_addr } => Message::Response { peer_addr: *peer_addr },
            Message::ResponseAck => Message::ResponseAck,
            Message::Hello => Message::Hello,
            Message::HelloAck => Message::HelloAck,
        }
    }
}

impl Encode for Message {
    open spec fn wire(&self) -> Seq<u8> {
        self@.wire()
    }

    fn encode(&self) -> (v: Vec<u8>) {
        let mut v: Vec<u8> = Vec::new();
        match self {
            Message::Query => put_u32(&mut v, 0),
            Message::Address(a) => {
                put_u32(&mut v, 1);
                a.put(&mut v);
            },
            Message::Register { id } => {
                put_u32(&mut v, 2);
                put_bytes(&mut v, id.as_slice());
            },
            Message::RegisterAck => put_u32(&mut v, 3),
            Message::Lookup { peer_id } => {
                put_u32(&mut v, 4);
                put_bytes(&mut v, peer_id.as_slice());
            },
            Message::Peer { addr } => {
                put_u32(&mut v, 5);
                put_opt_addr(&mut v, addr);
            },
            Message::Request { peer_addr } => {
                put_u32(&mut v, 6);
                peer_addr.put(&mut v);
            },
            Message::Response { peer_addr } => {
                put_u32(&mut v, 7);
                peer_addr.put(&mut v);
            },
            Message::ResponseAck => put_u32(&mut v, 8),
            Message::Hello => put_u32(&mut v, 9),
            Message::HelloAck => put_u32(&mut v, 10),
        }
        assert(v@ =~= self@.body());
        put_magic(&mut v);
        v
    }
}

impl Decode for Message {
    open spec fn carries(data: Seq<u8>, value: &Self) -> bool {
        MessageView::decode(data) == Some(value@)
    }

    fn decode(data: &[u8]) -> (r: Option<Self>)
        ensures
            match r {
                Some(m) => MessageView::decode(data@) == Some(m@),
                None => MessageView::decode(data@) is None,
            },
    {
        match read_message(data) {
            Some((m, p)) => {
                if magic_follows(data, p) {
                    Some(m)
                } else {
                    None
                }
            },
            None => None,
        }
    }
}

} // verus!
