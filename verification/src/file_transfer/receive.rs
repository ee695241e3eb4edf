//! The receiving side of a transfer.
//!
//! The receiver answers the sender's offer with its terms, takes the chunks
//! of one block at a time, says which are missing when the sender has sent
//! them all, and confirms the block when none is. Every step takes a
//! datagram and yields what to send and what to put on disk.
use crate::file_transfer::block::{
    chunk_at, follows_source, last_index, last_size, law_complete_is_source,
    law_write_follows_source, open_plan, unit_count, unit_size, BlockBuffer, BlockWriter,
    BufferView, OpenPlan,
};
use crate::file_transfer::message::{Message, MessageView, Request, Response};
use crate::operation::{Failure, Operation, Resolved};
use crate::socket::Decode;
use vstd::prelude::*;

verus! {

/// The size of a block: 1 MiB.
pub const BLOCK_SIZE: u32 = 1048576;

/// The size of a chunk: what is left of the smallest datagram that IPv4
/// hosts must accept, 576 bytes, after the largest IP header, the UDP
/// header and the header of a file part.
pub const CHUNK_SIZE: u16 = 496;

/// The size of the header of a file part.
pub const CHUNK_HEAD_SIZE: usize = 12;

/// How long the receiver waits for the sender before it gives up, in nanoseconds.
pub const READ_TIMEOUT: u64 = 5_000_000_000;

/// The most chunks that one message names as missing.
pub const MISSING_PER_MESSAGE: usize = 100;

/// The messages, as mathematical values.
pub open spec fn views(v: Seq<Message>) -> Seq<MessageView> {
    v.map_values(|m: Message| m@)
}

/// The sender's offer in a datagram, where the datagram is one.
pub fn read_request(data: &[u8]) -> (r: Option<Request>)
    ensures
        match r {
            Some(req) => MessageView::decode(data@) == Some(Message::Request(req)@),
            None => match MessageView::decode(data@) {
                Some(m) => !(m is Request),
                None => true,
            },
        },
{
    match Message::decode(data) {
        Some(msg) => {
            match msg {
                Message::Request(req) => Some(req),
                _ => None,
            }
        },
        None => None,
    }
}

/// Whether a datagram that holds `msg` with `rest` bytes behind it is taken:
/// a file part always, with its bytes behind it; any other message only
/// with nothing behind it.
pub open spec fn taken(msg: MessageView, rest: int) -> bool {
    msg is FilePart || rest == 0
}

/// The message in a datagram and the place where the bytes behind it
/// begin; nothing where the datagram holds no message or is not taken.
pub fn read_message(data: &[u8]) -> (r: Option<(Message, usize)>)
    ensures
        match r {
            Some((msg, start)) => start <= data@.len() && MessageView::read(data@) == Some(
                (msg@, start as int),
            ) && taken(msg@, data@.len() - start),
            None => !(MessageView::read(data@) matches Some((m, p)) && taken(m, data@.len() - p)),
        },
{
    match Message::trailing_decode(data) {
        Some((msg, remain)) => {
            match msg {
                Message::FilePart { .. } => Some((msg, data.len() - remain)),
                _ => {
                    if remain == 0 {
                        Some((msg, data.len()))
                    } else {
                        None
                    }
                },
            }
        },
        None => None,
    }
}

/// How the files are opened for the offer `req`, given the size of the
/// sidecar file if there is one. An offer of more blocks than can be
/// numbered is turned down.
pub fn plan(req: &Request, part_size: Option<u64>) -> (r: Result<OpenPlan, Failure>)
    ensures
        match r {
            Ok(p) => unit_count(req.size as nat, BLOCK_SIZE as nat) <= u32::MAX && p
                == crate::file_transfer::block::spec_open_plan(
                req.size,
                BLOCK_SIZE,
                true,
                part_size,
            ),
            Err(e) => e == Failure::TooManyBlocks && unit_count(req.size as nat, BLOCK_SIZE as nat)
                > u32::MAX,
        },
{
    if !fits_blocks(req.size, BLOCK_SIZE) {
        return Err(Failure::TooManyBlocks);
    }
    Ok(open_plan(req.size, BLOCK_SIZE, true, part_size))
}

/// Whether the blocks of a file of `size` bytes can be numbered.
pub fn fits_blocks(size: u64, block_size: u32) -> (b: bool)
    requires
        block_size > 0,
    ensures
        b == (unit_count(size as nat, block_size as nat) <= u32::MAX),
{
    if size == 0 {
        return true;
    }
    proof {
        crate::file_transfer::block::law_last_unit(size as nat, block_size as nat);
    }
    (size - 1) / (block_size as u64) < u32::MAX as u64
}

/// The chunks of `missing` that the message with number `i` names.
pub open spec fn fragment(missing: Seq<u32>, i: int) -> Seq<u32> {
    missing.subrange(
        MISSING_PER_MESSAGE * i,
        if MISSING_PER_MESSAGE * i + MISSING_PER_MESSAGE <= missing.len() {
            MISSING_PER_MESSAGE * i + MISSING_PER_MESSAGE
        } else {
            missing.len() as int
        },
    )
}

/// The messages that tell the sender which chunks of `block` are missing:
/// the list in pieces of at most `MISSING_PER_MESSAGE`, each with the
/// number of all that are missing.
pub open spec fn missing_messages(block: u32, missing: Seq<u32>) -> Seq<MessageView> {
    Seq::new(
        unit_count(missing.len(), MISSING_PER_MESSAGE as nat),
        |i: int|
            MessageView::BlockMissingChunk {
                block,
                chunk: fragment(missing, i),
                count: missing.len() as u32,
            },
    )
}

/// Builds the messages that tell the sender which chunks are missing.
pub fn report_missing(block: u32, missing: &Vec<u32>) -> (out: Vec<Message>)
    requires
        missing@.len() <= u32::MAX,
    ensures
        views(out@) == missing_messages(block, missing@),
{
    let count: u32 = missing.len() as u32;
    let mut out: Vec<Message> = Vec::new();
    let mut start: usize = 0;
    assert(MISSING_PER_MESSAGE * 0 == 0);
    while start < missing.len()
        invariant
            count == missing@.len(),
            start <= missing@.len(),
            start < missing@.len() ==> start == out@.len() * MISSING_PER_MESSAGE,
            start == missing@.len() ==> out@.len() == unit_count(
                missing@.len(),
                MISSING_PER_MESSAGE as nat,
            ),
            forall|i: int|
                0 <= i < out@.len() ==> (#[trigger] out@[i])@ == (MessageView::BlockMissingChunk {
                    block,
                    chunk: fragment(missing@, i),
                    count,
                }),
        decreases missing@.len() - start,
    {
        let end: usize = if missing.len() - start > MISSING_PER_MESSAGE {
            start + MISSING_PER_MESSAGE
        } else {
            missing.len()
        };
        let ghost i = out@.len();
        proof {
            if end == missing@.len() {
                lemma_last_fragment(missing@.len(), i);
            }
        }
        let mut chunk: Vec<u32> = Vec::new();
        let mut k: usize = start;
        while k < end
            invariant
                start <= k <= end <= missing@.len(),
                chunk@ == missing@.subrange(start as int, k as int),
            decreases end - k,
        {
            chunk.push(missing[k]);
            assert(chunk@ =~= missing@.subrange(start as int, k + 1));
            k += 1;
        }
        out.push(Message::BlockMissingChunk { block, chunk, count });
        start = end;
    }
    assert(views(out@) =~= missing_messages(block, missing@));
    out
}

proof fn lemma_last_fragment(len: nat, i: nat)
    requires
        i * MISSING_PER_MESSAGE < len <= i * MISSING_PER_MESSAGE + MISSING_PER_MESSAGE,
    ensures
        unit_count(len, MISSING_PER_MESSAGE as nat) == i + 1,
{
    crate::file_transfer::block::law_last_unit(len, MISSING_PER_MESSAGE as nat);
}

/// The chunk lists of messages about missing chunks, one behind the other.
pub open spec fn gathered(msgs: Seq<MessageView>) -> Seq<u32>
    decreases msgs.len(),
{
    if msgs.len() == 0 {
        Seq::empty()
    } else {
        gathered(msgs.drop_last()) + (match msgs.last() {
            MessageView::BlockMissingChunk { block, chunk, count } => chunk,
            _ => Seq::empty(),
        })
    }
}

/// The messages about the missing chunks of a block name that block and the
/// number of all missing chunks, hold between one and
/// `MISSING_PER_MESSAGE` chunks each, and together hold the missing chunks,
/// each once and in order.
pub proof fn law_missing_messages(block: u32, missing: Seq<u32>)
    requires
        missing.len() <= u32::MAX,
    ensures
        missing.len() > 0 ==> missing_messages(block, missing).len() > 0,
        forall|i: int|
            0 <= i < missing_messages(block, missing).len() ==> (#[trigger] missing_messages(
                block,
                missing,
            )[i]) == (MessageView::BlockMissingChunk {
                block,
                chunk: fragment(missing, i),
                count: missing.len() as u32,
            }) && 0 < fragment(missing, i).len() <= MISSING_PER_MESSAGE,
        gathered(missing_messages(block, missing)) == missing,
{
    let msgs = missing_messages(block, missing);
    if missing.len() > 0 {
        crate::file_transfer::block::law_last_unit(missing.len(), MISSING_PER_MESSAGE as nat);
    }
    lemma_gathered(block, missing, msgs.len());
    assert(msgs.take(msgs.len() as int) =~= msgs);
}

proof fn lemma_gathered(block: u32, missing: Seq<u32>, n: nat)
    requires
        missing.len() <= u32::MAX,
        n <= missing_messages(block, missing).len(),
    ensures
        gathered(missing_messages(block, missing).take(n as int)) == missing.take(
            if MISSING_PER_MESSAGE * n <= missing.len() {
                (MISSING_PER_MESSAGE * n) as int
            } else {
                missing.len() as int
            },
        ),
        n == missing_messages(block, missing).len() ==> MISSING_PER_MESSAGE * n >= missing.len(),
    decreases n,
{
    let msgs = missing_messages(block, missing);
    if missing.len() > 0 {
        crate::file_transfer::block::law_last_unit(missing.len(), MISSING_PER_MESSAGE as nat);
    }
    if n == 0 {
        assert(gathered(msgs.take(0)) =~= missing.take(0));
    } else {
        lemma_gathered(block, missing, (n - 1) as nat);
        let head = msgs.take(n as int);
        assert(head.drop_last() =~= msgs.take(n - 1));
        assert(head.last() == msgs[n - 1]);
        let upto = if MISSING_PER_MESSAGE * n <= missing.len() {
            (MISSING_PER_MESSAGE * n) as int
        } else {
            missing.len() as int
        };
        assert(missing.take(MISSING_PER_MESSAGE * (n - 1)) + fragment(missing, n - 1)
            =~= missing.take(upto));
    }
}

/// Sends the receiver's terms until the first chunk of the first block comes.
pub struct SendResponse {
    /// The block that the transfer starts with.
    pub block: u32,
}

/// The first chunk that came: its number, and where in the datagram its
/// bytes begin and end.
#[derive(Debug, Clone, Copy, PartialEq, Eq, Structural)]
pub struct FirstChunk {
    pub chunk: u32,
    pub start: usize,
    pub end: usize,
}

impl SendResponse {
    pub fn new(block: u32) -> (r: Self)
        ensures
            r.block == block,
    {
        Self { block }
    }

    /// The chunk in `datagram`, where it is a file part of the block that
    /// the transfer starts with.
    pub fn accept(&self, datagram: &[u8]) -> (r: Option<FirstChunk>)
        ensures
            match r {
                Some(first) => first.end == datagram@.len() && first.start <= first.end
                    && MessageView::read(datagram@) == Some(
                    (
                        MessageView::FilePart { block: self.block, chunk: first.chunk },
                        first.start as int,
                    ),
                ),
                None => match MessageView::read(datagram@) {
                    Some((m, p)) => match m {
                        MessageView::FilePart { block, chunk } => block != self.block,
                        _ => true,
                    },
                    None => true,
                },
            },
    {
        match Message::trailing_decode(datagram) {
            Some((msg, remain)) => {
                match msg {
                    Message::FilePart { block, chunk } => {
                        if block == self.block {
                            Some(
                                FirstChunk {
                                    chunk,
                                    start: datagram.len() - remain,
                                    end: datagram.len(),
                                },
                            )
                        } else {
                            None
                        }
                    },
                    _ => None,
                }
            },
            None => None,
        }
    }
}

impl Operation<FirstChunk> for SendResponse {
    type Request = Message;

    type Reply = Vec<u8>;

    open spec fn partial(&self) -> Option<FirstChunk> {
        None
    }

    fn poll(&mut self) -> (r: Vec<Message>)
        ensures
            final(self).block == old(self).block,
            views(r@) == seq![
                MessageView::Response(
                    Response {
                        block_size: BLOCK_SIZE,
                        chunk_size: CHUNK_SIZE,
                        start_block: old(self).block,
                    },
                ),
            ],
    {
        let mut r: Vec<Message> = Vec::new();
        r.push(Message::Response(Response::new(BLOCK_SIZE, CHUNK_SIZE, self.block)));
        assert(views(r@) =~= seq![
            MessageView::Response(
                Response { block_size: BLOCK_SIZE, chunk_size: CHUNK_SIZE, start_block: self.block },
            ),
        ]);
        r
    }

    fn resolve(&mut self, reply: Vec<u8>) -> (r: Resolved<FirstChunk>)
        ensures
            final(self).block == old(self).block,
            match r {
                Resolved::Done(first) => first.end == reply@.len() && first.start <= first.end
                    && MessageView::read(reply@) == Some(
                    (
                        MessageView::FilePart { block: old(self).block, chunk: first.chunk },
                        first.start as int,
                    ),
                ),
                Resolved::Pending => match MessageView::read(reply@) {
                    Some((m, p)) => match m {
                        MessageView::FilePart { block, chunk } => block != old(self).block,
                        _ => true,
                    },
                    None => true,
                },
                Resolved::Failed(_) => false,
            },
    {
        match self.accept(reply.as_slice()) {
            Some(first) => Resolved::Done(first),
            None => Resolved::Pending,
        }
    }

    fn result(&mut self) -> (r: Option<FirstChunk>)
        ensures
            final(self).block == old(self).block,
    {
        None
    }
}

/// Tells the sender that the file is there, until the sender confirms. When
/// no confirmation comes the transfer still counts as done.
pub struct SendComplete {}

impl Operation<()> for SendComplete {
    type Request = Message;

    type Reply = Message;

    open spec fn partial(&self) -> Option<()> {
        Some(())
    }

    fn poll(&mut self) -> (r: Vec<Message>)
        ensures
            views(r@) == seq![MessageView::FileComplete],
    {
        let mut r: Vec<Message> = Vec::new();
        r.push(Message::FileComplete);
        assert(views(r@) =~= seq![MessageView::FileComplete]);
        r
    }

    fn resolve(&mut self, reply: Message) -> (r: Resolved<()>)
        ensures
            r == (if reply@ is FileCompleteAck {
                Resolved::Done(())
            } else {
                Resolved::Pending
            }),
    {
        match reply {
            Message::FileCompleteAck => Resolved::Done(()),
            _ => Resolved::Pending,
        }
    }

    fn result(&mut self) -> (r: Option<()>) {
        Some(())
    }
}

/// What a datagram does to the block that is being received.
pub enum Step {
    /// Send these messages, and go on receiving into the block.
    Continue { block: BufferView, send: Seq<MessageView> },
    /// The block is whole: send `ack`, put the block on disk, then move on.
    Commit { ack: MessageView, block: BufferView },
    Failed(Failure),
}

/// The receiver's rule. A file part of the block in progress is written,
/// unless the block has no such chunk or the part has the wrong size. When
/// the sender says that it has sent the block in progress, the block is
/// confirmed if no chunk is missing, and the missing chunks are named if
/// some are. When it says so of the block before, the confirmation is
/// sent once more and nothing changes. Everything else changes nothing and
/// is not answered.
pub open spec fn step(b: BufferView, msg: MessageView, payload: Seq<u8>) -> Step {
    match msg {
        MessageView::FilePart { block, chunk } => if block == b.index {
            if b.expects(chunk as nat, payload.len()) {
                Step::Continue { block: b.write(chunk as nat, payload), send: Seq::empty() }
            } else {
                Step::Failed(Failure::ChunkOutOfRange)
            }
        } else {
            Step::Continue { block: b, send: Seq::empty() }
        },
        MessageView::BlockComplete(n) => if n == b.index {
            if b.complete() {
                Step::Commit { ack: MessageView::BlockCompleteAck(n), block: b }
            } else {
                Step::Continue { block: b, send: missing_messages(n, b.missing()) }
            }
        } else if n + 1 == b.index {
            Step::Continue { block: b, send: seq![MessageView::BlockCompleteAck(n)] }
        } else {
            Step::Continue { block: b, send: Seq::empty() }
        },
        _ => Step::Continue { block: b, send: Seq::empty() },
    }
}

/// What a datagram does to the block that is being received: what the
/// message in it does, with the bytes behind it, where the datagram holds a
/// message that is taken; else nothing.
pub open spec fn datagram_step(b: BufferView, data: Seq<u8>) -> Step {
    match MessageView::read(data) {
        Some((m, p)) => if taken(m, data.len() - p) {
            step(b, m, data.subrange(p, data.len() as int))
        } else {
            Step::Continue { block: b, send: Seq::empty() }
        },
        None => Step::Continue { block: b, send: Seq::empty() },
    }
}

/// The receiver while a block is in progress.
pub struct Receiver {
    block: BlockBuffer,
}

/// What the receiver does next.
pub enum Outcome {
    /// Send these messages, in order, and go on receiving.
    Continue { receiver: Receiver, send: Vec<Message> },
    /// Send `ack`, write the bytes of `block` to the file, then call `advance`.
    Commit { ack: Message, block: BlockBuffer },
    Failed(Failure),
}

impl Outcome {
    /// The outcome as a mathematical value.
    pub open spec fn view(&self) -> Step {
        match self {
            Outcome::Continue { receiver, send } => Step::Continue {
                block: receiver@,
                send: views(send@),
            },
            Outcome::Commit { ack, block } => Step::Commit { ack: ack@, block: block@ },
            Outcome::Failed(f) => Step::Failed(*f),
        }
    }

    /// Whether the receiver or block in this outcome is well formed and
    /// belongs to the same file as `before`.
    pub open spec fn wf(&self, before: &Receiver) -> bool {
        match self {
            Outcome::Continue { receiver, send } => receiver.wf() && receiver.same_file(before),
            Outcome::Commit { ack, block } => {
                &&& block.wf()
                &&& block.block_size() == before.block_size()
                &&& block.last_block_size() == before.last_block_size()
                &&& block.last_block() == before.last_block()
            },
            Outcome::Failed(f) => true,
        }
    }
}

impl View for Receiver {
    type V = BufferView;

    closed spec fn view(&self) -> BufferView {
        self.block@
    }
}

impl Receiver {
    /// The representation invariant: that of the block in progress.
    pub closed spec fn wf(&self) -> bool {
        self.block.wf()
    }

    /// The size of every block of the file but the last.
    pub closed spec fn block_size(&self) -> u32 {
        self.block.block_size()
    }

    /// The size of the last block of the file.
    pub closed spec fn last_block_size(&self) -> u32 {
        self.block.last_block_size()
    }

    /// The index of the last block of the file.
    pub closed spec fn last_block(&self) -> u32 {
        self.block.last_block()
    }

    /// Whether the two receive blocks of the same file.
    pub open spec fn same_file(&self, other: &Receiver) -> bool {
        &&& self.block_size() == other.block_size()
        &&& self.last_block_size() == other.last_block_size()
        &&& self.last_block() == other.last_block()
    }

    /// The block in progress is a well-formed block of the file: it is not
    /// behind the last block, and it has the size of the last block if it
    /// is the last and the size of the others if it is not.
    pub proof fn lemma_view_wf(&self)
        requires
            self.wf(),
        ensures
            self@.wf(),
            self@.index <= self.last_block() < u32::MAX,
            0 < self.last_block_size() <= self.block_size(),
            self@.content.len() == (if self@.index < self.last_block() {
                self.block_size()
            } else {
                self.last_block_size()
            }),
            self@.chunk_size <= u16::MAX,
            self@.received.len() <= u32::MAX,
    {
        self.block.lemma_view_wf();
    }

    /// The receiver at the start of a transfer of `size` bytes that begins
    /// with block `start_block`; none where the file has no such block.
    pub fn new(size: u64, start_block: u32) -> (r: Option<Receiver>)
        requires
            unit_count(size as nat, BLOCK_SIZE as nat) <= u32::MAX,
        ensures
            match r {
                Some(receiver) => {
                    &&& size > 0
                    &&& receiver.wf()
                    &&& receiver@.wf()
                    &&& receiver.block_size() == BLOCK_SIZE
                    &&& receiver.last_block() == last_index(size as nat, BLOCK_SIZE as nat)
                    &&& receiver.last_block_size() == last_size(size as nat, BLOCK_SIZE as nat)
                    &&& receiver@.index == start_block
                    &&& receiver@.chunk_size == CHUNK_SIZE
                    &&& start_block < unit_count(size as nat, BLOCK_SIZE as nat)
                    &&& receiver@.content.len() == unit_size(
                        size as nat,
                        BLOCK_SIZE as nat,
                        start_block as nat,
                    )
                    &&& receiver@.received.len() == unit_count(
                        receiver@.content.len(),
                        CHUNK_SIZE as nat,
                    )
                    &&& forall|i: int|
                        0 <= i < receiver@.received.len() ==> !receiver@.received[i]
                },
                None => start_block >= unit_count(size as nat, BLOCK_SIZE as nat),
            },
    {
        if size == 0 {
            return None;
        }
        let writer = BlockWriter::at(size, BLOCK_SIZE, CHUNK_SIZE, start_block);
        match writer.next_block() {
            Some(block) => {
                proof {
                    block.lemma_view_wf();
                }
                Some(Receiver { block })
            },
            None => None,
        }
    }

    /// The index of the block in progress.
    pub fn index(&self) -> (i: u32)
        ensures
            i == self@.index,
    {
        self.block.index()
    }

    /// Takes a message and the bytes that came behind it.
    pub fn on_message(self, msg: Message, payload: &[u8]) -> (out: Outcome)
        requires
            self.wf(),
        ensures
            out@ == step(self@, msg@, payload@),
            out.wf(&self),
    {
        let mut receiver = self;
        proof {
            receiver.block.lemma_view_wf();
        }
        match msg {
            Message::FilePart { block, chunk } => {
                if block == receiver.block.index() {
                    if receiver.block.expects(chunk, payload.len()) {
                        receiver.block.write(chunk, payload);
                        let out = Outcome::Continue { receiver, send: Vec::new() };
                        assert(views(Seq::<Message>::empty()) =~= Seq::<MessageView>::empty());
                        out
                    } else {
                        Outcome::Failed(Failure::ChunkOutOfRange)
                    }
                } else {
                    assert(views(Seq::<Message>::empty()) =~= Seq::<MessageView>::empty());
                    Outcome::Continue { receiver, send: Vec::new() }
                }
            },
            Message::BlockComplete(n) => {
                let index = receiver.block.index();
                if n == index {
                    let missing = receiver.block.get_missing_chunk();
                    if missing.len() == 0 {
                        Outcome::Commit { ack: Message::BlockCompleteAck(n), block: receiver.block }
                    } else {
                        proof {
                            crate::file_transfer::bit_array::law_unset_indices(
                                receiver.block@.received,
                            );
                        }
                        let send = report_missing(n, &missing);
                        Outcome::Continue { receiver, send }
                    }
                } else if n < index && index - n == 1 {
                    let mut send: Vec<Message> = Vec::new();
                    send.push(Message::BlockCompleteAck(n));
                    assert(views(send@) =~= seq![MessageView::BlockCompleteAck(n)]);
                    Outcome::Continue { receiver, send }
                } else {
                    assert(views(Seq::<Message>::empty()) =~= Seq::<MessageView>::empty());
                    Outcome::Continue { receiver, send: Vec::new() }
                }
            },
            _ => {
                assert(views(Seq::<Message>::empty()) =~= Seq::<MessageView>::empty());
                Outcome::Continue { receiver, send: Vec::new() }
            },
        }
    }

    /// Takes a datagram: as `on_message`, where the datagram holds a
    /// message that is taken; else nothing changes and nothing is sent.
    pub fn on_datagram(self, data: &[u8]) -> (out: Outcome)
        requires
            self.wf(),
        ensures
            out.wf(&self),
            out@ == datagram_step(self@, data@),
    {
        match read_message(data) {
            Some((msg, start)) => {
                let payload = vstd::slice::slice_subrange(data, start, data.len());
                self.on_message(msg, payload)
            },
            None => {
                assert(views(Seq::<Message>::empty()) =~= Seq::<MessageView>::empty());
                Outcome::Continue { receiver: self, send: Vec::new() }
            },
        }
    }

    /// Moves on behind a block that is whole and on disk: to the next
    /// block, with no chunk written, or to the end where it was the last.
    pub fn advance(block: BlockBuffer) -> (r: Option<Receiver>)
        requires
            block.wf(),
            block@.complete(),
        ensures
            match r {
                Some(receiver) => {
                    &&& receiver.wf()
                    &&& receiver@.wf()
                    &&& receiver.block_size() == block.block_size()
                    &&& receiver.last_block_size() == block.last_block_size()
                    &&& receiver.last_block() == block.last_block()
                    &&& block@.index < block.last_block()
                    &&& receiver@.index == block@.index + 1
                    &&& receiver@.chunk_size == block@.chunk_size
                    &&& receiver@.content.len() == (if receiver@.index < block.last_block() {
                        block.block_size()
                    } else {
                        block.last_block_size()
                    })
                    &&& forall|i: int|
                        0 <= i < receiver@.received.len() ==> !receiver@.received[i]
                },
                None => block@.index >= block.last_block(),
            },
    {
        let writer = block.commit();
        match writer.next_block() {
            Some(next) => {
                proof {
                    next.lemma_view_wf();
                }
                Some(Receiver { block: next })
            },
            None => None,
        }
    }
}

/// The sender's notice of the block before the one in progress is answered
/// with that block's confirmation, and the block in progress stays as it is.
pub proof fn law_late_notice(b: BufferView, n: u32, payload: Seq<u8>)
    requires
        n + 1 == b.index,
    ensures
        step(b, MessageView::BlockComplete(n), payload) == (Step::Continue {
            block: b,
            send: seq![MessageView::BlockCompleteAck(n)],
        }),
{
}

/// A notice of the block in progress is answered in one of two ways: with
/// the confirmation, exactly when no chunk is missing, or with messages
/// that together name every missing chunk.
pub proof fn law_notice_answered(b: BufferView, payload: Seq<u8>)
    requires
        b.wf(),
        b.received.len() <= u32::MAX,
    ensures
        match step(b, MessageView::BlockComplete(b.index), payload) {
            Step::Commit { ack, block } => b.complete() && ack == MessageView::BlockCompleteAck(
                b.index,
            ) && block == b,
            Step::Continue { block, send } => !b.complete() && block == b && send.len() > 0
                && gathered(send) == b.missing(),
            Step::Failed(_) => false,
        },
{
    crate::file_transfer::bit_array::law_unset_indices(b.received);
    crate::file_transfer::bit_array::law_none_unset(b.received);
    law_missing_messages(b.index, b.missing());
}

/// A part of the source block keeps the block in progress equal to the
/// source wherever it is written, whichever part it is and however often
/// it comes.
pub proof fn law_part_follows_source(b: BufferView, source: Seq<u8>, chunk: u32)
    requires
        b.wf(),
        source.len() == b.content.len(),
        follows_source(b, source),
        chunk < b.received.len(),
    ensures
        step(
            b,
            MessageView::FilePart { block: b.index, chunk },
            chunk_at(source, b.chunk_size, chunk as nat),
        ) matches Step::Continue { block, send } && block.wf() && follows_source(block, source)
            && send.len() == 0 && block.index == b.index && block.content.len()
            == b.content.len(),
{
    law_write_follows_source(b, source, chunk as nat);
}

/// A block is confirmed only when it is whole, and a whole block whose
/// parts all came from the source is the source.
pub proof fn law_confirmed_is_source(b: BufferView, source: Seq<u8>, n: u32, payload: Seq<u8>)
    requires
        b.wf(),
        source.len() == b.content.len(),
        follows_source(b, source),
        step(b, MessageView::BlockComplete(n), payload) is Commit,
    ensures
        n == b.index,
        b.content == source,
{
    law_complete_is_source(b, source);
}

} // verus!
