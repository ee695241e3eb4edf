//! The transfer messages and their wire form.
//!
//! A message goes out as a four-byte tag and the fields of its variant. A
//! file part is its header with the chunk's bytes behind it, unprefixed.
use crate::socket::{Decode, Encode};
use crate::wire::{
    get_text, get_u16, get_u32, get_u32s, get_u64, get_u8, holds_at, lemma_holds_concat,
    lemma_holds_whole, lemma_read_text, lemma_read_u16, lemma_read_u32, lemma_read_u32s,
    lemma_read_u64, lemma_read_u8, lemma_u16_le_value, lemma_u32_le_value, lemma_u32s_le,
    lemma_u64_le_value, put_text, put_u16, put_u32, put_u32s, put_u64, read_text, read_u16,
    read_u32, read_u32s, read_u64, read_u8, text_wire, u16_le, u32_le, u32s_wire, u64_le,
};
use vstd::prelude::*;
use vstd::utf8::encode_utf8;

verus! {

/// The sender's offer of a file.
#[derive(Debug, Clone, PartialEq, Eq)]
pub struct Request {
    pub name: String,
    pub size: u64,
    /// Whether the receiver may go on from what it already holds.
    pub resume: bool,
}

impl Request {
    pub fn new(name: String, size: u64, resume: bool) -> (r: Self)
        ensures
            r.name == name,
            r.size == size,
            r.resume == resume,
    {
        Self { name, size, resume }
    }
}

/// The receiver's terms: the sizes it wants and the block to start from.
#[derive(Debug, Clone, Copy, PartialEq, Eq, Structural)]
pub struct Response {
    /// A file goes in blocks; each is confirmed before the next is sent.
    pub block_size: u32,
    /// A block goes in chunks, one per datagram.
    pub chunk_size: u16,
    pub start_block: u32,
}

impl Response {
    pub fn new(block_size: u32, chunk_size: u16, start_block: u32) -> (r: Self)
        ensures
            r == (Response { block_size, chunk_size, start_block }),
    {
        Self { block_size, chunk_size, start_block }
    }
}

/// What sender and receiver say to each other.
#[derive(Debug, Clone, PartialEq, Eq)]
pub enum Message {
    Request(Request),
    Response(Response),
    /// The header of a chunk; the chunk's bytes follow it in the datagram.
    FilePart { block: u32, chunk: u32 },
    /// The sender has sent every chunk of the block.
    BlockComplete(u32),
    /// The receiver holds the whole block.
    BlockCompleteAck(u32),
    /// The receiver lacks chunks of the block; `count` is how many in all,
    /// of which this message lists some.
    BlockMissingChunk { block: u32, chunk: Vec<u32>, count: u32 },
    /// The receiver holds the whole file.
    FileComplete,
    FileCompleteAck,
}

/// A message as a mathematical value.
pub enum MessageView {
    Request { name: Seq<char>, size: u64, resume: bool },
    Response(Response),
    FilePart { block: u32, chunk: u32 },
    BlockComplete(u32),
    BlockCompleteAck(u32),
    BlockMissingChunk { block: u32, chunk: Seq<u32>, count: u32 },
    FileComplete,
    FileCompleteAck,
}

impl View for Message {
    type V = MessageView;

    open spec fn view(&self) -> MessageView {
        match self {
            Message::Request(r) => MessageView::Request {
                name: r.name@,
                size: r.size,
                resume: r.resume,
            },
            Message::Response(r) => MessageView::Response(*r),
            Message::FilePart { block, chunk } => MessageView::FilePart {
                block: *block,
                chunk: *chunk,
            },
            Message::BlockComplete(b) => MessageView::BlockComplete(*b),
            Message::BlockCompleteAck(b) => MessageView::BlockCompleteAck(*b),
            Message::BlockMissingChunk { block, chunk, count } => MessageView::BlockMissingChunk {
                block: *block,
                chunk: chunk@,
                count: *count,
            },
            Message::FileComplete => MessageView::FileComplete,
            Message::FileCompleteAck => MessageView::FileCompleteAck,
        }
    }
}

/// A flag as one byte: 1 where it is set, 0 where it is not.
pub open spec fn bool_wire(b: bool) -> Seq<u8> {
    if b {
        seq![1u8]
    } else {
        seq![0u8]
    }
}

/// The flag at `pos`; a byte other than 0 and 1 is none.
pub open spec fn read_bool(s: Seq<u8>, pos: int) -> Option<(bool, int)> {
    match read_u8(s, pos) {
        Some((b, p)) => if b == 0 {
            Some((false, p))
        } else if b == 1 {
            Some((true, p))
        } else {
            None
        },
        None => None,
    }
}

/// The fields of an offer, read at `pos`.
pub open spec fn read_request(s: Seq<u8>, pos: int) -> Option<(MessageView, int)> {
    match read_text(s, pos) {
        Some((name, p)) => match read_u64(s, p) {
            Some((size, q)) => match read_bool(s, q) {
                Some((resume, r)) => Some((MessageView::Request { name, size, resume }, r)),
                None => None,
            },
            None => None,
        },
        None => None,
    }
}

/// The fields of the receiver's terms, read at `pos`.
pub open spec fn read_response(s: Seq<u8>, pos: int) -> Option<(MessageView, int)> {
    match read_u32(s, pos) {
        Some((block_size, p)) => match read_u16(s, p) {
            Some((chunk_size, q)) => match read_u32(s, q) {
                Some((start_block, r)) => Some(
                    (MessageView::Response(Response { block_size, chunk_size, start_block }), r),
                ),
                None => None,
            },
            None => None,
        },
        None => None,
    }
}

/// The fields of the header of a file part, read at `pos`.
pub open spec fn read_file_part(s: Seq<u8>, pos: int) -> Option<(MessageView, int)> {
    match read_u32(s, pos) {
        Some((block, p)) => match read_u32(s, p) {
            Some((chunk, q)) => Some((MessageView::FilePart { block, chunk }, q)),
            None => None,
        },
        None => None,
    }
}

/// The fields of a message about missing chunks, read at `pos`.
pub open spec fn read_missing(s: Seq<u8>, pos: int) -> Option<(MessageView, int)> {
    match read_u32(s, pos) {
        Some((block, p)) => match read_u32s(s, p) {
            Some((chunk, q)) => match read_u32(s, q) {
                Some((count, r)) => Some((MessageView::BlockMissingChunk { block, chunk, count }, r)),
                None => None,
            },
            None => None,
        },
        None => None,
    }
}

impl MessageView {
    /// Whether the lengths in the message fit the eight bytes they are sent in.
    pub open spec fn fits(self) -> bool {
        match self {
            MessageView::Request { name, size, resume } => encode_utf8(name).len() <= u64::MAX,
            MessageView::BlockMissingChunk { block, chunk, count } => chunk.len() <= u64::MAX,
            _ => true,
        }
    }

    /// The fields of the variant, in order.
    pub open spec fn fields(self) -> Seq<u8> {
        match self {
            MessageView::Request { name, size, resume } => text_wire(name) + u64_le(size)
                + bool_wire(resume),
            MessageView::Response(r) => u32_le(r.block_size) + u16_le(r.chunk_size) + u32_le(
                r.start_block,
            ),
            MessageView::FilePart { block, chunk } => u32_le(block) + u32_le(chunk),
            MessageView::BlockComplete(b) => u32_le(b),
            MessageView::BlockCompleteAck(b) => u32_le(b),
            MessageView::BlockMissingChunk { block, chunk, count } => u32_le(block) + u32s_wire(
                chunk,
            ) + u32_le(count),
            MessageView::FileComplete => Seq::empty(),
            MessageView::FileCompleteAck => Seq::empty(),
        }
    }

    /// The number that tells the variant on the wire.
    pub open spec fn tag(self) -> u32 {
        match self {
            MessageView::Request { .. } => 0,
            MessageView::Response(_) => 1,
            MessageView::FilePart { .. } => 2,
            MessageView::BlockComplete(_) => 3,
            MessageView::BlockCompleteAck(_) => 4,
            MessageView::BlockMissingChunk { .. } => 5,
            MessageView::FileComplete => 6,
            MessageView::FileCompleteAck => 7,
        }
    }

    /// The wire form: the tag, then the fields.
    pub open spec fn wire(self) -> Seq<u8> {
        u32_le(self.tag()) + self.fields()
    }

    /// The fields of the variant with tag `tag`, read at `pos`.
    pub open spec fn read_fields(s: Seq<u8>, tag: u32, pos: int) -> Option<(MessageView, int)> {
        if tag == 0 {
            read_request(s, pos)
        } else if tag == 1 {
            read_response(s, pos)
        } else if tag == 2 {
            read_file_part(s, pos)
        } else if tag == 3 {
            match read_u32(s, pos) {
                Some((b, p)) => Some((MessageView::BlockComplete(b), p)),
                None => None,
            }
        } else if tag == 4 {
            match read_u32(s, pos) {
                Some((b, p)) => Some((MessageView::BlockCompleteAck(b), p)),
                None => None,
            }
        } else if tag == 5 {
            read_missing(s, pos)
        } else if tag == 6 {
            Some((MessageView::FileComplete, pos))
        } else if tag == 7 {
            Some((MessageView::FileCompleteAck, pos))
        } else {
            None
        }
    }

    /// The message at the head of `s`, and where it ends.
    pub open spec fn read(s: Seq<u8>) -> Option<(MessageView, int)> {
        match read_u32(s, 0) {
            Some((tag, p)) => MessageView::read_fields(s, tag, p),
            None => None,
        }
    }

    /// The message that `s` is the wire form of: the one at its head, where
    /// nothing follows it.
    pub open spec fn decode(s: Seq<u8>) -> Option<MessageView> {
        match MessageView::read(s) {
            Some((m, p)) => if p == s.len() {
                Some(m)
            } else {
                None
            },
            None => None,
        }
    }
}

proof fn lemma_read_bool(s: Seq<u8>, pos: int, b: bool)
    ensures
        read_bool(s, pos) == Some((b, pos + 1)) <==> holds_at(s, pos, bool_wire(b)),
        read_bool(s, pos) matches Some((got, p)) ==> p == pos + 1,
{
    lemma_read_u8(s, pos, 0);
    lemma_read_u8(s, pos, 1);
}

proof fn lemma_request(s: Seq<u8>, pos: int, name: Seq<char>, size: u64, resume: bool)
    requires
        encode_utf8(name).len() <= u64::MAX,
    ensures
        ({
            let m = MessageView::Request { name, size, resume };
            read_request(s, pos) == Some((m, pos + m.fields().len())) <==> holds_at(
                s,
                pos,
                m.fields(),
            )
        }),
{
    let a = text_wire(name);
    let b = u64_le(size);
    let c = bool_wire(resume);
    lemma_u64_le_value(size);
    lemma_holds_concat(s, pos, a + b, c);
    lemma_holds_concat(s, pos, a, b);
    lemma_read_text(s, pos, name);
    lemma_read_u64(s, pos + a.len(), size);
    lemma_read_bool(s, pos + a.len() + 8, resume);
}

proof fn lemma_response(s: Seq<u8>, pos: int, r: Response)
    ensures
        ({
            let m = MessageView::Response(r);
            read_response(s, pos) == Some((m, pos + m.fields().len())) <==> holds_at(
                s,
                pos,
                m.fields(),
            )
        }),
{
    let a = u32_le(r.block_size);
    let b = u16_le(r.chunk_size);
    let c = u32_le(r.start_block);
    lemma_u32_le_value(r.block_size);
    lemma_u16_le_value(r.chunk_size);
    lemma_u32_le_value(r.start_block);
    lemma_holds_concat(s, pos, a + b, c);
    lemma_holds_concat(s, pos, a, b);
    lemma_read_u32(s, pos, r.block_size);
    lemma_read_u16(s, pos + 4, r.chunk_size);
    lemma_read_u32(s, pos + 6, r.start_block);
}

proof fn lemma_file_part(s: Seq<u8>, pos: int, block: u32, chunk: u32)
    ensures
        ({
            let m = MessageView::FilePart { block, chunk };
            read_file_part(s, pos) == Some((m, pos + m.fields().len())) <==> holds_at(
                s,
                pos,
                m.fields(),
            )
        }),
{
    let a = u32_le(block);
    let b = u32_le(chunk);
    lemma_u32_le_value(block);
    lemma_u32_le_value(chunk);
    lemma_holds_concat(s, pos, a, b);
    lemma_read_u32(s, pos, block);
    lemma_read_u32(s, pos + 4, chunk);
}

proof fn lemma_missing(s: Seq<u8>, pos: int, block: u32, chunk: Seq<u32>, count: u32)
    requires
        chunk.len() <= u64::MAX,
    ensures
        ({
            let m = MessageView::BlockMissingChunk { block, chunk, count };
            read_missing(s, pos) == Some((m, pos + m.fields().len())) <==> holds_at(
                s,
                pos,
                m.fields(),
            )
        }),
{
    let a = u32_le(block);
    let b = u32s_wire(chunk);
    let c = u32_le(count);
    lemma_u32_le_value(block);
    lemma_u32_le_value(count);
    lemma_u64_le_value(chunk.len() as u64);
    if chunk.len() > 0 {
        lemma_u32s_le(chunk, 0);
    }
    lemma_holds_concat(s, pos, a + b, c);
    lemma_holds_concat(s, pos, a, b);
    lemma_read_u32(s, pos, block);
    lemma_read_u32s(s, pos + 4, chunk);
    lemma_read_u32(s, pos + 4 + b.len(), count);
}

/// The fields of a message are read back exactly where they lie.
proof fn lemma_fields(s: Seq<u8>, pos: int, m: MessageView)
    requires
        m.fits(),
        0 <= pos <= s.len(),
    ensures
        MessageView::read_fields(s, m.tag(), pos) == Some((m, pos + m.fields().len()))
            <==> holds_at(s, pos, m.fields()),
{
    match m {
        MessageView::Request { name, size, resume } => {
            lemma_request(s, pos, name, size, resume);
        },
        MessageView::Response(r) => {
            lemma_response(s, pos, r);
        },
        MessageView::FilePart { block, chunk } => {
            lemma_file_part(s, pos, block, chunk);
        },
        MessageView::BlockComplete(b) => {
            lemma_u32_le_value(b);
            lemma_read_u32(s, pos, b);
        },
        MessageView::BlockCompleteAck(b) => {
            lemma_u32_le_value(b);
            lemma_read_u32(s, pos, b);
        },
        MessageView::BlockMissingChunk { block, chunk, count } => {
            lemma_missing(s, pos, block, chunk, count);
        },
        MessageView::FileComplete => {
            assert(s.subrange(pos, pos + 0) =~= Seq::<u8>::empty());
        },
        MessageView::FileCompleteAck => {
            assert(s.subrange(pos, pos + 0) =~= Seq::<u8>::empty());
        },
    }
}

/// What a read of fields yields is a message of that tag whose fields lie
/// where they were read.
proof fn lemma_fields_read(s: Seq<u8>, tag: u32, pos: int)
    requires
        0 <= pos <= s.len(),
    ensures
        MessageView::read_fields(s, tag, pos) matches Some((m, p)) ==> m.tag() == tag && m.fits()
            && p == pos + m.fields().len() && holds_at(s, pos, m.fields()),
{
    match MessageView::read_fields(s, tag, pos) {
        Some((m, p)) => {
            match m {
                MessageView::Request { name, size, resume } => {
                    assert(encode_utf8(Seq::<char>::empty()).len() == 0);
                    lemma_read_text(s, pos, Seq::empty());
                    lemma_read_text(s, pos, name);
                    let q = pos + 8 + encode_utf8(name).len();
                    lemma_u64_le_value(size);
                    lemma_read_u64(s, q, size);
                    lemma_read_bool(s, q + 8, resume);
                    lemma_u64_le_value(encode_utf8(name).len() as u64);
                    lemma_request(s, pos, name, size, resume);
                },
                MessageView::Response(r) => {
                    lemma_read_u32(s, pos, r.block_size);
                    lemma_read_u16(s, pos + 4, r.chunk_size);
                    lemma_read_u32(s, pos + 6, r.start_block);
                    lemma_u32_le_value(r.block_size);
                    lemma_u16_le_value(r.chunk_size);
                    lemma_u32_le_value(r.start_block);
                    lemma_response(s, pos, r);
                },
                MessageView::FilePart { block, chunk } => {
                    lemma_read_u32(s, pos, block);
                    lemma_read_u32(s, pos + 4, chunk);
                    lemma_u32_le_value(block);
                    lemma_u32_le_value(chunk);
                    lemma_file_part(s, pos, block, chunk);
                },
                MessageView::BlockComplete(b) => {
                    lemma_u32_le_value(b);
                    lemma_read_u32(s, pos, b);
                },
                MessageView::BlockCompleteAck(b) => {
                    lemma_u32_le_value(b);
                    lemma_read_u32(s, pos, b);
                },
                MessageView::BlockMissingChunk { block, chunk, count } => {
                    lemma_read_u32(s, pos, block);
                    lemma_read_u32s(s, pos + 4, chunk);
                    let q = pos + 4 + 8 + 4 * chunk.len();
                    lemma_read_u32(s, q, count);
                    lemma_u32_le_value(block);
                    lemma_u32_le_value(count);
                    lemma_u64_le_value(chunk.len() as u64);
                    if chunk.len() > 0 {
                        lemma_u32s_le(chunk, 0);
                    }
                    lemma_missing(s, pos, block, chunk, count);
                },
                MessageView::FileComplete => {
                    assert(s.subrange(pos, pos + 0) =~= Seq::<u8>::empty());
                },
                MessageView::FileCompleteAck => {
                    assert(s.subrange(pos, pos + 0) =~= Seq::<u8>::empty());
                },
            }
        },
        None => {},
    }
}

/// A read at the head of bytes that begin with a message's wire form yields
/// that message and ends behind it.
pub proof fn lemma_read_written(s: Seq<u8>, m: MessageView)
    requires
        m.fits(),
        holds_at(s, 0, m.wire()),
    ensures
        MessageView::read(s) == Some((m, m.wire().len() as int)),
{
    lemma_u32_le_value(m.tag());
    lemma_holds_concat(s, 0, u32_le(m.tag()), m.fields());
    lemma_read_u32(s, 0, m.tag());
    lemma_fields(s, 4, m);
}

/// What a read yields is a message whose wire form lies at the head of the
/// bytes, and the read ends behind it.
pub proof fn lemma_written_read(s: Seq<u8>)
    ensures
        MessageView::read(s) matches Some((m, p)) ==> holds_at(s, 0, m.wire()) && p
            == m.wire().len() && m.fits(),
{
    match read_u32(s, 0) {
        Some((tag, q)) => {
            lemma_read_u32(s, 0, tag);
            lemma_u32_le_value(tag);
            lemma_fields_read(s, tag, 4);
            match MessageView::read_fields(s, tag, 4) {
                Some((m, p)) => {
                    lemma_holds_concat(s, 0, u32_le(tag), m.fields());
                },
                None => {},
            }
        },
        None => {},
    }
}

/// Decoding what was encoded yields the message.
pub proof fn law_decode_encoded(m: MessageView)
    requires
        m.fits(),
    ensures
        MessageView::decode(m.wire()) == Some(m),
{
    lemma_holds_whole(m.wire(), m.wire());
    lemma_read_written(m.wire(), m);
}

/// A byte string is the wire form of at most one message: of the one that
/// decoding it yields.
pub proof fn law_decoded_is_encoding(s: Seq<u8>, m: MessageView)
    requires
        MessageView::decode(s) == Some(m),
    ensures
        s == m.wire(),
        m.fits(),
{
    lemma_written_read(s);
    lemma_holds_whole(s, m.wire());
}

/// Behind the header of a file part the datagram holds the chunk's bytes,
/// whatever they are: reading the header ends where they begin.
pub proof fn law_part_then_payload(block: u32, chunk: u32, payload: Seq<u8>)
    ensures
        ({
            let m = MessageView::FilePart { block, chunk };
            let s = m.wire() + payload;
            &&& m.wire().len() == 12
            &&& MessageView::read(s) == Some((m, 12int))
            &&& s.subrange(12, s.len() as int) == payload
        }),
{
    let m = MessageView::FilePart { block, chunk };
    let s = m.wire() + payload;
    lemma_u32_le_value(2);
    lemma_u32_le_value(block);
    lemma_u32_le_value(chunk);
    assert(s.subrange(0, m.wire().len() as int) =~= m.wire());
    lemma_read_written(s, m);
    assert(s.subrange(12, s.len() as int) =~= payload);
}

fn get_bool(data: &[u8], pos: usize) -> (r: Option<(bool, usize)>)
    ensures
        match r {
            Some((b, p)) => read_bool(data@, pos as int) == Some((b, p as int)),
            None => read_bool(data@, pos as int) is None,
        },
{
    match get_u8(data, pos) {
        Some((b, p)) => {
            if b == 0 {
                Some((false, p))
            } else if b == 1 {
                Some((true, p))
            } else {
                None
            }
        },
        None => None,
    }
}

fn get_request(data: &[u8], pos: usize) -> (r: Option<(Message, usize)>)
    ensures
        match r {
            Some((m, p)) => read_request(data@, pos as int) == Some((m@, p as int)),
            None => read_request(data@, pos as int) is None,
        },
{
    let (name, p) = match get_text(data, pos) {
        Some(x) => x,
        None => return None,
    };
    let (size, q) = match get_u64(data, p) {
        Some(x) => x,
        None => return None,
    };
    match get_bool(data, q) {
        Some((resume, r)) => Some((Message::Request(Request { name, size, resume }), r)),
        None => None,
    }
}

fn get_response(data: &[u8], pos: usize) -> (r: Option<(Message, usize)>)
    ensures
        match r {
            Some((m, p)) => read_response(data@, pos as int) == Some((m@, p as int)),
            None => read_response(data@, pos as int) is None,
        },
{
    let (block_size, p) = match get_u32(data, pos) {
        Some(x) => x,
        None => return None,
    };
    let (chunk_size, q) = match get_u16(data, p) {
        Some(x) => x,
        None => return None,
    };
    match get_u32(data, q) {
        Some((start_block, r)) => Some(
            (Message::Response(Response { block_size, chunk_size, start_block }), r),
        ),
        None => None,
    }
}

fn get_missing(data: &[u8], pos: usize) -> (r: Option<(Message, usize)>)
    ensures
        match r {
            Some((m, p)) => read_missing(data@, pos as int) == Some((m@, p as int)),
            None => read_missing(data@, pos as int) is None,
        },
{
    let (block, p) = match get_u32(data, pos) {
        Some(x) => x,
        None => return None,
    };
    let (chunk, q) = match get_u32s(data, p) {
        Some(x) => x,
        None => return None,
    };
    match get_u32(data, q) {
        Some((count, r)) => Some((Message::BlockMissingChunk { block, chunk, count }, r)),
        None => None,
    }
}

/// Reads the message at the head of `data`.
fn read_message(data: &[u8]) -> (r: Option<(Message, usize)>)
    ensures
        match r {
            Some((m, p)) => MessageView::read(data@) == Some((m@, p as int)) && p <= data@.len(),
            None => MessageView::read(data@) is None,
        },
{
    let (tag, p) = match get_u32(data, 0) {
        Some(x) => x,
        None => return None,
    };
    proof {
        lemma_written_read(data@);
        lemma_u32_le_value(tag);
    }
    if tag == 0 {
        get_request(data, p)
    } else if tag == 1 {
        get_response(data, p)
    } else if tag == 2 {
        let (block, q) = match get_u32(data, p) {
            Some(x) => x,
            None => return None,
        };
        match get_u32(data, q) {
            Some((chunk, r)) => Some((Message::FilePart { block, chunk }, r)),
            None => None,
        }
    } else if tag == 3 {
        match get_u32(data, p) {
            Some((b, q)) => Some((Message::BlockComplete(b), q)),
            None => None,
        }
    } else if tag == 4 {
        match get_u32(data, p) {
            Some((b, q)) => Some((Message::BlockCompleteAck(b), q)),
            None => None,
        }
    } else if tag == 5 {
        get_missing(data, p)
    } else if tag == 6 {
        Some((Message::FileComplete, p))
    } else if tag == 7 {
        Some((Message::FileCompleteAck, p))
    } else {
        None
    }
}

impl Message {
    /// A second copy of the message.
    pub fn duplicate(&self) -> (m: Message)
        ensures
            m@ == self@,
    {
        match self {
            Message::Request(r) => Message::Request(
                Request { name: r.name.clone(), size: r.size, resume: r.resume },
            ),
            Message::Response(r) => Message::Response(*r),
            Message::FilePart { block, chunk } => Message::FilePart {
                block: *block,
                chunk: *chunk,
            },
            Message::BlockComplete(b) => Message::BlockComplete(*b),
            Message::BlockCompleteAck(b) => Message::BlockCompleteAck(*b),
            Message::BlockMissingChunk { block, chunk, count } => Message::BlockMissingChunk {
                block: *block,
                chunk: chunk.clone(),
                count: *count,
            },
            Message::FileComplete => Message::FileComplete,
            Message::FileCompleteAck => Message::FileCompleteAck,
        }
    }

    /// The message at the head of `data` and the number of bytes behind it.
    pub fn trailing_decode(data: &[u8]) -> (r: Option<(Message, usize)>)
        ensures
            match r {
                Some((m, rest)) => rest <= data@.len() && MessageView::read(data@) == Some(
                    (m@, data@.len() - rest),
                ),
                None => MessageView::read(data@) is None,
            },
    {
        match read_message(data) {
            Some((m, p)) => Some((m, data.len() - p)),
            None => None,
        }
    }
}

impl Encode for Message {
    open spec fn wire(&self) -> Seq<u8> {
        self@.wire()
    }

    fn encode(&self) -> (v: Vec<u8>) {
        let mut v: Vec<u8> = Vec::new();
        match self {
            Message::Request(r) => {
                put_u32(&mut v, 0);
                put_text(&mut v, r.name.as_str());
                put_u64(&mut v, r.size);
                v.push(if r.resume { 1 } else { 0 });
            },
            Message::Response(r) => {
                put_u32(&mut v, 1);
                put_u32(&mut v, r.block_size);
                put_u16(&mut v, r.chunk_size);
                put_u32(&mut v, r.start_block);
            },
            Message::FilePart { block, chunk } => {
                put_u32(&mut v, 2);
                put_u32(&mut v, *block);
                put_u32(&mut v, *chunk);
            },
            Message::BlockComplete(b) => {
                put_u32(&mut v, 3);
                put_u32(&mut v, *b);
            },
            Message::BlockCompleteAck(b) => {
                put_u32(&mut v, 4);
                put_u32(&mut v, *b);
            },
            Message::BlockMissingChunk { block, chunk, count } => {
                put_u32(&mut v, 5);
                put_u32(&mut v, *block);
                put_u32s(&mut v, chunk);
                put_u32(&mut v, *count);
            },
            Message::FileComplete => put_u32(&mut v, 6),
            Message::FileCompleteAck => put_u32(&mut v, 7),
        }
        assert(v@ =~= self@.wire());
        v
    }
}

impl Decode for Message {
    open spec fn carries(data: Seq<u8>, value: &Self) -> bool {
        MessageView::decode(data) == Some(value@)
    }

    fn decode(data: &[u8]) -> (r: Option<Self>)
        ensures
            match r {
                Some(m) => MessageView::decode(data@) == Some(m@),
                None => MessageView::decode(data@) is None,
            },
    {
        match read_message(data) {
            Some((m, p)) => {
                if p == data.len() {
                    Some(m)
                } else {
                    None
                }
            },
            None => None,
        }
    }
}

/// A chunk on its way out: the header of a file part and the chunk's bytes.
#[derive(Debug)]
pub struct Chunk<'a> {
    header: Message,
    data: &'a [u8],
}

impl<'a> Chunk<'a> {
    /// The header that goes out before the bytes.
    pub closed spec fn header(&self) -> MessageView {
        self.header@
    }

    /// The chunk's bytes.
    pub closed spec fn payload(&self) -> Seq<u8> {
        self.data@
    }

    pub fn new(block: u32, chunk: u32, data: &'a [u8]) -> (c: Self)
        ensures
            c.header() == (MessageView::FilePart { block, chunk }),
            c.payload() == data@,
    {
        Self { header: Message::FilePart { block, chunk }, data }
    }
}

impl<'a> Encode for Chunk<'a> {
    open spec fn wire(&self) -> Seq<u8> {
        self.header().wire() + self.payload()
    }

    fn encode(&self) -> (v: Vec<u8>) {
        let mut v = self.header.encode();
        v.extend_from_slice(self.data);
        v
    }
}

} // verus!
