//! The sending side of a transfer.
//!
//! The sender offers the file, learns the receiver's terms, sends each
//! block chunk by chunk, asks whether the block is whole, and sends again
//! what the receiver names as missing.
use crate::file_transfer::bit_array::{law_unset_indices, unset_indices};
use crate::file_transfer::block::{
    chunk_at, follows_source, law_arrivals_rebuild, law_unit_len, received_all, unit_count,
    unit_size, Block, BlockReader, BufferView,
};
use crate::file_transfer::message::{
    law_part_then_payload, Chunk, Message, MessageView, Request, Response,
};
use crate::file_transfer::receive::{
    datagram_step, gathered, law_missing_messages, missing_messages, step, views, Step,
    MISSING_PER_MESSAGE,
};
use crate::operation::{Failure, Operation, Resolved};
use crate::socket::Encode;
use vstd::prelude::*;

verus! {

/// How long the sender waits for the receiver's last word, in nanoseconds.
pub const READ_TIMEOUT: u64 = 5_000_000_000;

/// The size of the buffer that the sender receives in.
pub const RECV_BUF_SIZE: usize = 512;

/// Offers the file until the receiver answers.
pub struct SendRequest {
    pub msg: Message,
}

impl SendRequest {
    /// The offer of a file under `name`, of `size` bytes, that the receiver
    /// may resume.
    pub fn new(name: String, size: u64) -> (r: Self)
        ensures
            r.msg@ == (MessageView::Request { name: name@, size, resume: true }),
    {
        let resume = true;
        Self { msg: Message::Request(Request::new(name, size, resume)) }
    }
}

impl Operation<Option<Response>> for SendRequest {
    type Request = Message;

    type Reply = Message;

    open spec fn partial(&self) -> Option<Option<Response>> {
        None
    }

    fn poll(&mut self) -> (r: Vec<Message>)
        ensures
            final(self).msg@ == old(self).msg@,
            views(r@) == seq![old(self).msg@],
    {
        let mut r: Vec<Message> = Vec::new();
        r.push(self.msg.duplicate());
        assert(views(r@) =~= seq![self.msg@]);
        r
    }

    /// The receiver's terms end the offer, and so does its word that it
    /// has the whole file already; nothing else does.
    fn resolve(&mut self, reply: Message) -> (r: Resolved<Option<Response>>)
        ensures
            final(self).msg@ == old(self).msg@,
            r == match reply@ {
                MessageView::Response(response) => Resolved::Done(Some(response)),
                MessageView::FileComplete => Resolved::Done(None),
                _ => Resolved::Pending,
            },
    {
        match reply {
            Message::Response(response) => Resolved::Done(Some(response)),
            Message::FileComplete => Resolved::Done(None),
            _ => Resolved::Pending,
        }
    }

    fn result(&mut self) -> (r: Option<Option<Response>>)
        ensures
            final(self).msg@ == old(self).msg@,
    {
        None
    }
}

/// What the sender has gathered of the receiver's answer, and what the
/// answer is once it is whole.
pub struct Gathering {
    /// The missing chunks named so far; none while no message named any.
    pub so_far: Option<Seq<u32>>,
    /// The answer, once it is there: the chunks to send again.
    pub answer: Option<Seq<u32>>,
}

/// The sender's rule for the answers to its notice of `block`. The
/// confirmation of the block is the answer that nothing is missing.
/// Messages that name missing chunks of the block are gathered, and are
/// the answer as soon as as many chunks are gathered as the message at
/// hand says are missing in all. Nothing else counts.
pub open spec fn gather(block: u32, so_far: Option<Seq<u32>>, msg: MessageView) -> Gathering {
    match msg {
        MessageView::BlockCompleteAck(b) => if b == block {
            Gathering { so_far, answer: Some(Seq::empty()) }
        } else {
            Gathering { so_far, answer: None }
        },
        MessageView::BlockMissingChunk { block: b, chunk, count } => if b == block {
            let all = (match so_far {
                Some(s) => s,
                None => Seq::empty(),
            }) + chunk;
            if all.len() == count {
                Gathering { so_far: None, answer: Some(all) }
            } else {
                Gathering { so_far: Some(all), answer: None }
            }
        } else {
            Gathering { so_far, answer: None }
        },
        _ => Gathering { so_far, answer: None },
    }
}

/// Tells the receiver that a block has been sent, until the receiver answers.
pub struct SendBlockComplete {
    pub block: u32,
    pub missing_chunk: Option<Vec<u32>>,
}

impl SendBlockComplete {
    pub fn new(block: u32) -> (r: Self)
        ensures
            r.block == block,
            r.missing_chunk is None,
    {
        Self { block, missing_chunk: None }
    }

    /// The missing chunks gathered so far.
    pub open spec fn so_far(&self) -> Option<Seq<u32>> {
        match self.missing_chunk {
            Some(v) => Some(v@),
            None => None,
        }
    }
}

impl Operation<Vec<u32>> for SendBlockComplete {
    type Request = Message;

    type Reply = Message;

    /// A list of which only a part has come is no result: nothing is sent
    /// again before the whole list is there.
    open spec fn partial(&self) -> Option<Vec<u32>> {
        None
    }

    fn poll(&mut self) -> (r: Vec<Message>)
        ensures
            *final(self) == *old(self),
            views(r@) == seq![MessageView::BlockComplete(old(self).block)],
    {
        let mut r: Vec<Message> = Vec::new();
        r.push(Message::BlockComplete(self.block));
        assert(views(r@) =~= seq![MessageView::BlockComplete(self.block)]);
        r
    }

    fn resolve(&mut self, reply: Message) -> (r: Resolved<Vec<u32>>)
        ensures
            final(self).block == old(self).block,
            final(self).so_far() == gather(old(self).block, old(self).so_far(), reply@).so_far,
            match r {
                Resolved::Done(list) => gather(old(self).block, old(self).so_far(), reply@).answer
                    == Some(list@),
                Resolved::Pending => gather(old(self).block, old(self).so_far(), reply@).answer
                    is None,
                Resolved::Failed(_) => false,
            },
    {
        match reply {
            Message::BlockCompleteAck(block) => {
                if block == self.block {
                    Resolved::Done(Vec::new())
                } else {
                    Resolved::Pending
                }
            },
            Message::BlockMissingChunk { block, chunk, count } => {
                if block == self.block {
                    let mut all: Vec<u32> = match self.missing_chunk.take() {
                        Some(v) => v,
                        None => Vec::new(),
                    };
                    all.extend_from_slice(chunk.as_slice());
                    if all.len() == count as usize {
                        Resolved::Done(all)
                    } else {
                        self.missing_chunk = Some(all);
                        Resolved::Pending
                    }
                } else {
                    Resolved::Pending
                }
            },
            _ => Resolved::Pending,
        }
    }

    /// When the last attempt has run out there is no result, whatever part
    /// of a list has come; what was gathered is let go.
    fn result(&mut self) -> (r: Option<Vec<u32>>)
        ensures
            r is None,
            final(self).block == old(self).block,
            final(self).missing_chunk is None,
    {
        self.missing_chunk = None;
        None
    }
}

/// The gathering after the messages `msgs` have come in, in their order,
/// none of them the answer by itself.
pub open spec fn gathered_after(block: u32, so_far: Option<Seq<u32>>, msgs: Seq<MessageView>)
    -> Option<Seq<u32>>
    decreases msgs.len(),
{
    if msgs.len() == 0 {
        so_far
    } else {
        gather(block, gathered_after(block, so_far, msgs.drop_last()), msgs.last()).so_far
    }
}

/// When the receiver's messages about the missing chunks of a block arrive
/// in their order, the sender has its answer at the last of them and not
/// before, and the answer is the list of the missing chunks: at message
/// number `n` the answer is there exactly if `n` is the last.
pub proof fn law_gather_missing(block: u32, missing: Seq<u32>, n: int)
    requires
        0 < missing.len() <= u32::MAX,
        0 <= n < missing_messages(block, missing).len(),
    ensures
        gather(
            block,
            gathered_after(block, None, missing_messages(block, missing).take(n)),
            missing_messages(block, missing)[n],
        ).answer == (if n == missing_messages(block, missing).len() - 1 {
            Some(missing)
        } else {
            None
        }),
{
    let msgs = missing_messages(block, missing);
    law_missing_messages(block, missing);
    crate::file_transfer::block::law_last_unit(missing.len(), MISSING_PER_MESSAGE as nat);
    lemma_gathered_after(block, missing, n as nat);
    lemma_gathered_after(block, missing, (n + 1) as nat);
    assert(msgs.take(n + 1).drop_last() =~= msgs.take(n));
    assert(msgs.take(n + 1).last() == msgs[n]);
    let before = gathered_after(block, None, msgs.take(n));
    let base = match before {
        Some(s) => s,
        None => Seq::empty(),
    };
    assert(base =~= missing.take(MISSING_PER_MESSAGE * n));
    let piece = crate::file_transfer::receive::fragment(missing, n);
    if n < msgs.len() - 1 {
        assert(base + piece =~= missing.take(MISSING_PER_MESSAGE * (n + 1)));
    } else {
        assert(base + piece =~= missing);
    }
}

/// The chunks gathered from the first `n` of the messages about the missing
/// chunks: the first `n` hundreds of them, and none gathered as long as no
/// message has come.
proof fn lemma_gathered_after(block: u32, missing: Seq<u32>, n: nat)
    requires
        0 < missing.len() <= u32::MAX,
        n <= missing_messages(block, missing).len(),
    ensures
        ({
            let msgs = missing_messages(block, missing);
            let got = gathered_after(block, None, msgs.take(n as int));
            &&& n == 0 ==> got is None
            &&& 0 < n < msgs.len() ==> got == Some(missing.take(MISSING_PER_MESSAGE * n))
                && MISSING_PER_MESSAGE * n < missing.len()
            &&& n == msgs.len() ==> got is None
        }),
    decreases n,
{
    let msgs = missing_messages(block, missing);
    law_missing_messages(block, missing);
    crate::file_transfer::block::law_last_unit(missing.len(), MISSING_PER_MESSAGE as nat);
    if n > 0 {
        lemma_gathered_after(block, missing, (n - 1) as nat);
        let head = msgs.take(n as int);
        assert(head.drop_last() =~= msgs.take(n - 1));
        assert(head.last() == msgs[n - 1]);
        let before = gathered_after(block, None, msgs.take(n - 1));
        let base = match before {
            Some(s) => s,
            None => Seq::empty(),
        };
        assert(base =~= missing.take(MISSING_PER_MESSAGE * (n - 1)));
        let piece = crate::file_transfer::receive::fragment(missing, n - 1);
        if n < msgs.len() {
            assert(base + piece =~= missing.take(MISSING_PER_MESSAGE * n));
        } else {
            assert(base + piece =~= missing);
        }
    }
}

/// The datagrams, as mathematical values.
pub open spec fn datagrams(v: Seq<Vec<u8>>) -> Seq<Seq<u8>> {
    v.map_values(|d: Vec<u8>| d@)
}

/// The datagram that carries chunk `chunk` of a block: the header of the
/// file part and the chunk's bytes.
pub open spec fn part_wire(index: u32, bytes: Seq<u8>, chunk_size: nat, chunk: u32) -> Seq<u8> {
    (MessageView::FilePart { block: index, chunk }).wire() + chunk_at(
        bytes,
        chunk_size,
        chunk as nat,
    )
}

/// The datagrams that carry the chunks of `block`, in ascending order.
pub fn block_parts(block: &Block) -> (out: Vec<Vec<u8>>)
    requires
        block.chunk_size() > 0,
        block.bytes().len() <= u32::MAX,
    ensures
        out@.len() == block.chunk_count(),
        forall|i: int|
            0 <= i < out@.len() ==> (#[trigger] out@[i])@ == part_wire(
                block.spec_index(),
                block.bytes(),
                block.chunk_size(),
                i as u32,
            ),
{
    let parts = block.chunks();
    proof {
        lemma_count_bound(block.bytes().len(), block.chunk_size());
    }
    let mut out: Vec<Vec<u8>> = Vec::new();
    let mut chunk: u32 = 0;
    while (chunk as usize) < parts.len()
        invariant
            chunk <= parts@.len() <= u32::MAX,
            out@.len() == chunk,
            parts@.len() == block.chunk_count(),
            forall|i: int|
                0 <= i < parts@.len() ==> (#[trigger] parts@[i])@ == chunk_at(
                    block.bytes(),
                    block.chunk_size(),
                    i as nat,
                ),
            forall|i: int|
                0 <= i < out@.len() ==> (#[trigger] out@[i])@ == part_wire(
                    block.spec_index(),
                    block.bytes(),
                    block.chunk_size(),
                    i as u32,
                ),
        decreases parts@.len() - chunk,
    {
        let msg = Chunk::new(block.index(), chunk, parts[chunk as usize]);
        out.push(msg.encode());
        chunk += 1;
    }
    out
}

proof fn lemma_count_bound(len: nat, size: nat)
    requires
        size > 0,
    ensures
        unit_count(len, size) <= len,
{
    if len > 0 {
        crate::file_transfer::block::law_last_unit(len, size);
        let last = crate::file_transfer::block::last_index(len, size);
        assert(last <= last * size) by (nonlinear_arith)
            requires
                size >= 1,
                last >= 0,
        ;
    }
}

/// Whether datagram `i` of `out` carries the chunk that entry `i` of
/// `missing` names, a chunk that the block has.
pub open spec fn resent(block: &Block, missing: Seq<u32>, out: Seq<Vec<u8>>, i: int) -> bool {
    &&& missing[i] < block.chunk_count()
    &&& out[i]@ == part_wire(block.spec_index(), block.bytes(), block.chunk_size(), missing[i])
}

/// What follows the receiver's answer to the notice of a block.
pub enum BlockStep {
    /// Nothing is missing: the block is done.
    Next,
    /// Send these datagrams, then tell the receiver again that the block has been sent.
    Resend(Vec<Vec<u8>>),
}

/// Decides what follows the receiver's answer `missing` to the notice of
/// `block`: the next block where nothing is missing, else the datagrams of
/// exactly the chunks named, in the order named. An answer that names a
/// chunk which the block does not have ends the transfer.
pub fn after_block_complete(block: &Block, missing: &Vec<u32>) -> (r: Result<BlockStep, Failure>)
    requires
        block.chunk_size() > 0,
    ensures
        match r {
            Ok(step) => match step {
                BlockStep::Next => missing@.len() == 0,
                BlockStep::Resend(out) => {
                    &&& missing@.len() > 0
                    &&& out@.len() == missing@.len()
                    &&& forall|i: int|
                        0 <= i < out@.len() ==> #[trigger] resent(block, missing@, out@, i)
                },
            },
            Err(e) => e == Failure::ChunkOutOfRange && exists|i: int|
                0 <= i < missing@.len() && #[trigger] missing@[i] >= block.chunk_count(),
        },
{
    if missing.len() == 0 {
        return Ok(BlockStep::Next);
    }
    let mut out: Vec<Vec<u8>> = Vec::new();
    let mut k: usize = 0;
    while k < missing.len()
        invariant
            block.chunk_size() > 0,
            missing@.len() > 0,
            k <= missing@.len(),
            out@.len() == k,
            forall|i: int| 0 <= i < out@.len() ==> #[trigger] resent(block, missing@, out@, i),
        decreases missing@.len() - k,
    {
        let c: u32 = missing[k];
        match block.get_chunk(c) {
            Some(data) => {
                let msg = Chunk::new(block.index(), c, data);
                let datagram = msg.encode();
                let ghost before = out@;
                out.push(datagram);
                assert forall|i: int| 0 <= i < out@.len() implies #[trigger] resent(
                    block,
                    missing@,
                    out@,
                    i,
                ) by {
                    if i < k {
                        assert(resent(block, missing@, before, i));
                        assert(out@[i] == before[i]);
                    }
                }
            },
            None => {
                assert(missing@[k as int] >= block.chunk_count());
                return Err(Failure::ChunkOutOfRange);
            },
        }
        k += 1;
    }
    Ok(BlockStep::Resend(out))
}

/// Turns the receiver's terms into the reader of the file of `file_size`
/// bytes. Terms with a size of zero, or under which the file has more
/// blocks than can be numbered, or terms for an empty file, end the
/// transfer.
pub fn open_reader(file_size: u64, terms: Response) -> (r: Result<BlockReader, Failure>)
    ensures
        match r {
            Ok(reader) => {
                &&& file_size > 0
                &&& terms.block_size > 0
                &&& terms.chunk_size > 0
                &&& unit_count(file_size as nat, terms.block_size as nat) <= u32::MAX
                &&& reader.wf()
                &&& reader.block_size() == terms.block_size
                &&& reader.chunk_size() == terms.chunk_size
                &&& reader.next_block() == terms.start_block
                &&& reader.block_count() == unit_count(file_size as nat, terms.block_size as nat)
                &&& reader.last_block_size() == crate::file_transfer::block::last_size(
                    file_size as nat,
                    terms.block_size as nat,
                )
            },
            Err(e) => if file_size == 0 || terms.block_size == 0 || terms.chunk_size == 0 {
                e == Failure::BadTerms
            } else {
                e == Failure::TooManyBlocks && unit_count(
                    file_size as nat,
                    terms.block_size as nat,
                ) > u32::MAX
            },
        },
{
    if file_size == 0 || terms.block_size == 0 || terms.chunk_size == 0 {
        return Err(Failure::BadTerms);
    }
    if !crate::file_transfer::receive::fits_blocks(file_size, terms.block_size) {
        return Err(Failure::TooManyBlocks);
    }
    Ok(BlockReader::new(file_size, terms.block_size, terms.chunk_size, terms.start_block))
}

/// Whether `msg` is the receiver's word that it has the whole file, which
/// the sender waits for at the end and answers with its confirmation.
pub fn is_file_complete(msg: &Message) -> (b: bool)
    ensures
        b == (msg@ is FileComplete),
{
    match msg {
        Message::FileComplete => true,
        _ => false,
    }
}

/// The block in progress after the datagrams that carry the chunks of
/// `source` named by `arrivals` have come in, in that order.
pub open spec fn after_parts(b: BufferView, source: Seq<u8>, arrivals: Seq<u32>) -> BufferView
    decreases arrivals.len(),
{
    if arrivals.len() == 0 {
        b
    } else {
        let before = after_parts(b, source, arrivals.drop_last());
        match datagram_step(before, part_wire(b.index, source, b.chunk_size, arrivals.last())) {
            Step::Continue { block, send } => block,
            _ => before,
        }
    }
}

/// Sender and receiver agree. Send the chunks of a block as the sender
/// does, let any of them arrive at the receiver of that block, in any
/// order and any number of times: no arrival fails or is answered, and the
/// receiver holds what `received_all` says, which equals the source
/// wherever a chunk has been written.
pub proof fn law_parts_rebuild(b: BufferView, source: Seq<u8>, arrivals: Seq<u32>)
    requires
        b.wf(),
        source.len() == b.content.len(),
        b.received.len() <= u32::MAX,
        follows_source(b, source),
        forall|k: int| 0 <= k < arrivals.len() ==> arrivals[k] < b.received.len(),
    ensures
        after_parts(b, source, arrivals) == received_all(b, source, arrivals),
        after_parts(b, source, arrivals).wf(),
        after_parts(b, source, arrivals).index == b.index,
        follows_source(after_parts(b, source, arrivals), source),
{
    lemma_after_parts(b, source, arrivals);
    law_arrivals_rebuild(b, source, arrivals);
}

/// The chunks that the receiver of a block names as missing are those of
/// which no datagram has arrived, each once and in ascending order: what
/// the sender sends again is what was lost, and nothing else.
pub proof fn law_missing_is_lost(b: BufferView, source: Seq<u8>, arrivals: Seq<u32>)
    requires
        b.wf(),
        source.len() == b.content.len(),
        b.received.len() <= u32::MAX,
        forall|i: int| 0 <= i < b.received.len() ==> !b.received[i],
        forall|k: int| 0 <= k < arrivals.len() ==> arrivals[k] < b.received.len(),
    ensures
        forall|i: u32|
            after_parts(b, source, arrivals).missing().contains(i) <==> i < b.received.len()
                && !arrivals.contains(i),
        forall|x: int, y: int|
            0 <= x < y < after_parts(b, source, arrivals).missing().len() ==> after_parts(
                b,
                source,
                arrivals,
            ).missing()[x] < after_parts(b, source, arrivals).missing()[y],
{
    lemma_after_parts(b, source, arrivals);
    law_arrivals_rebuild(b, source, arrivals);
    let received = received_all(b, source, arrivals).received;
    let missing = after_parts(b, source, arrivals).missing();
    assert(missing == unset_indices(received));
    law_unset_indices(received);
    assert forall|i: u32| missing.contains(i) <==> i < b.received.len() && !arrivals.contains(
        i,
    ) by {
        lemma_unset_is_lost(b.received, received, arrivals, i);
    }
}

proof fn lemma_unset_is_lost(fresh: Seq<bool>, received: Seq<bool>, arrivals: Seq<u32>, i: u32)
    requires
        fresh.len() == received.len() <= u32::MAX,
        forall|k: int| 0 <= k < fresh.len() ==> !fresh[k],
        forall|k: int|
            0 <= k < fresh.len() ==> (#[trigger] received[k] <==> (fresh[k] || arrivals.contains(
                k as u32,
            ))),
    ensures
        unset_indices(received).contains(i) <==> i < received.len() && !arrivals.contains(i),
{
    law_unset_indices(received);
    let missing = unset_indices(received);
    if missing.contains(i) {
        let k = choose|k: int| 0 <= k < missing.len() && missing[k] == i;
        assert(missing[k] < received.len() && !received[missing[k] as int]);
        assert(received[i as int] <==> (fresh[i as int] || arrivals.contains(i as int as u32)));
    }
    if i < received.len() && !arrivals.contains(i) {
        assert(received[i as int] <==> (fresh[i as int] || arrivals.contains(i as int as u32)));
        assert(!received[i as int]);
        assert(missing.contains(i as int as u32));
    }
}

/// Once a datagram of every chunk has arrived, the sender's notice is
/// answered with the confirmation, and the block is the source.
pub proof fn law_all_arrived_is_source(b: BufferView, source: Seq<u8>, arrivals: Seq<u32>)
    requires
        b.wf(),
        source.len() == b.content.len(),
        b.received.len() <= u32::MAX,
        follows_source(b, source),
        forall|k: int| 0 <= k < arrivals.len() ==> arrivals[k] < b.received.len(),
        forall|i: u32| i < b.received.len() ==> arrivals.contains(i),
    ensures
        after_parts(b, source, arrivals).content == source,
        step(after_parts(b, source, arrivals), MessageView::BlockComplete(b.index), Seq::empty())
            == (Step::Commit {
            ack: MessageView::BlockCompleteAck(b.index),
            block: after_parts(b, source, arrivals),
        }),
{
    lemma_after_parts(b, source, arrivals);
    law_arrivals_rebuild(b, source, arrivals);
    let after = received_all(b, source, arrivals);
    lemma_all_received(b.received, after.received, arrivals);
}

/// A file arrives block by block. Take any block of a file, the receiver's
/// fresh block of that index and of that block's size, and let a datagram
/// of every chunk of the block arrive, in any order, however often and
/// after whatever was lost before: the receiver then holds that block of
/// the file and confirms it. The blocks, written in ascending order, are
/// the file (`law_blocks_are_file`).
pub proof fn law_block_of_file(
    file: Seq<u8>,
    block_size: nat,
    b: BufferView,
    arrivals: Seq<u32>,
)
    requires
        block_size > 0,
        b.index < unit_count(file.len(), block_size),
        b.wf(),
        b.content.len() == unit_size(file.len(), block_size, b.index as nat),
        b.received.len() <= u32::MAX,
        forall|i: int| 0 <= i < b.received.len() ==> !b.received[i],
        forall|k: int| 0 <= k < arrivals.len() ==> arrivals[k] < b.received.len(),
        forall|i: u32| i < b.received.len() ==> arrivals.contains(i),
    ensures
        after_parts(b, chunk_at(file, block_size, b.index as nat), arrivals).content == chunk_at(
            file,
            block_size,
            b.index as nat,
        ),
        step(
            after_parts(b, chunk_at(file, block_size, b.index as nat), arrivals),
            MessageView::BlockComplete(b.index),
            Seq::empty(),
        ) == (Step::Commit {
            ack: MessageView::BlockCompleteAck(b.index),
            block: after_parts(b, chunk_at(file, block_size, b.index as nat), arrivals),
        }),
{
    let source = chunk_at(file, block_size, b.index as nat);
    law_unit_len(file, block_size, b.index as nat);
    law_all_arrived_is_source(b, source, arrivals);
}

proof fn lemma_all_received(fresh: Seq<bool>, received: Seq<bool>, arrivals: Seq<u32>)
    requires
        fresh.len() == received.len() <= u32::MAX,
        forall|k: int|
            0 <= k < fresh.len() ==> (#[trigger] received[k] <==> (fresh[k] || arrivals.contains(
                k as u32,
            ))),
        forall|i: u32| i < fresh.len() ==> arrivals.contains(i),
    ensures
        forall|k: int| 0 <= k < received.len() ==> received[k],
{
    assert forall|k: int| 0 <= k < received.len() implies received[k] by {
        let j = k as u32;
        assert(arrivals.contains(j));
        assert(received[k] <==> (fresh[k] || arrivals.contains(k as u32)));
    }
}

proof fn lemma_after_parts(b: BufferView, source: Seq<u8>, arrivals: Seq<u32>)
    requires
        b.wf(),
        source.len() == b.content.len(),
        b.received.len() <= u32::MAX,
        follows_source(b, source),
        forall|k: int| 0 <= k < arrivals.len() ==> arrivals[k] < b.received.len(),
    ensures
        after_parts(b, source, arrivals) == received_all(b, source, arrivals),
    decreases arrivals.len(),
{
    if arrivals.len() > 0 {
        let rest = arrivals.drop_last();
        let last = arrivals.last();
        assert forall|k: int| 0 <= k < rest.len() implies rest[k] < b.received.len() by {
            assert(rest[k] == arrivals[k]);
        }
        lemma_after_parts(b, source, rest);
        law_arrivals_rebuild(b, source, rest);
        let before = received_all(b, source, rest);
        let payload = chunk_at(source, b.chunk_size, last as nat);
        law_part_then_payload(b.index, last, payload);
        crate::file_transfer::block::law_write_follows_source(before, source, last as nat);
    }
}

} // verus!
