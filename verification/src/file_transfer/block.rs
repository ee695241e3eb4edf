//! A file as a run of blocks, a block as a run of chunks.
//!
//! The reader's side cuts blocks into chunks; the writer's side puts the
//! chunks of a block back together, in whatever order they come, and keeps
//! account of which it has.
use crate::file_transfer::bit_array::{law_none_unset, unset_indices, BitArray};
use vstd::prelude::*;
use vstd::slice::slice_subrange;
use vstd::string::StringExecFns;

verus! {

/// The index of the last of the units of `unit` bytes that hold `size` bytes.
pub open spec fn last_index(size: nat, unit: nat) -> nat
    recommends
        size > 0,
        unit > 0,
{
    if size % unit == 0 {
        (size / unit - 1) as nat
    } else {
        size / unit
    }
}

/// The size of that last unit.
pub open spec fn last_size(size: nat, unit: nat) -> nat
    recommends
        size > 0,
        unit > 0,
{
    if size % unit == 0 {
        unit
    } else {
        size % unit
    }
}

/// The number of units of `unit` bytes that hold `size` bytes.
pub open spec fn unit_count(size: nat, unit: nat) -> nat
    recommends
        unit > 0,
{
    if size == 0 {
        0
    } else {
        last_index(size, unit) + 1
    }
}

/// The size of unit `i` of the units of `unit` bytes that hold `size` bytes.
pub open spec fn unit_size(size: nat, unit: nat, i: nat) -> nat
    recommends
        size > 0,
        unit > 0,
        i <= last_index(size, unit),
{
    if i < last_index(size, unit) {
        unit
    } else {
        last_size(size, unit)
    }
}

/// Chunk `i` of `data` cut into chunks of `chunk_size` bytes.
pub open spec fn chunk_at(data: Seq<u8>, chunk_size: nat, i: nat) -> Seq<u8>
    recommends
        chunk_size > 0,
        i * chunk_size < data.len(),
{
    data.subrange(
        (i * chunk_size) as int,
        if (i + 1) * chunk_size <= data.len() {
            ((i + 1) * chunk_size) as int
        } else {
            data.len() as int
        },
    )
}

/// All but the last unit are full, and the sizes add up: with `last` the
/// last index and `last_size` the last size, `(last + 1) * unit - (unit -
/// last_size)` is `size`.
pub proof fn law_last_unit(size: nat, unit: nat)
    requires
        size > 0,
        unit > 0,
    ensures
        (last_index(size, unit) + 1) * unit - (unit - last_size(size, unit)) == size,
        0 < last_size(size, unit) <= unit,
        last_index(size, unit) * unit < size,
        last_index(size, unit) == (size - 1) / (unit as int),
        size % unit == 0 ==> size / unit >= 1,
{
    let q = size / unit;
    let r = size % unit;
    assert(size == q * unit + r && 0 <= r < unit) by (nonlinear_arith)
        requires
            q == size / unit,
            r == size % unit,
            unit > 0,
    ;
    if r == 0 {
        assert(q >= 1) by (nonlinear_arith)
            requires
                size == q * unit,
                size > 0,
                unit > 0,
        ;
        assert((q - 1 + 1) * unit - (unit - unit) == q * unit);
        assert((q - 1) * unit < q * unit) by (nonlinear_arith)
            requires
                unit > 0,
        ;
        assert((size - 1) / (unit as int) == q - 1) by (nonlinear_arith)
            requires
                size == q * unit,
                unit > 0,
                q >= 1,
        ;
    } else {
        assert((q + 1) * unit - (unit - r) == q * unit + r) by (nonlinear_arith);
        assert((size - 1) / (unit as int) == q) by (nonlinear_arith)
            requires
                size == q * unit + r,
                0 < r < unit,
        ;
    }
}

/// The last index and size of the blocks of a file.
pub fn last_block_index_size(file_size: u64, block_size: u32) -> (r: (u32, u32))
    requires
        file_size > 0,
        block_size > 0,
        last_index(file_size as nat, block_size as nat) <= u32::MAX,
    ensures
        r.0 == last_index(file_size as nat, block_size as nat),
        r.1 == last_size(file_size as nat, block_size as nat),
{
    let q: u64 = file_size / block_size as u64;
    let r: u64 = file_size % block_size as u64;
    proof {
        law_last_unit(file_size as nat, block_size as nat);
    }
    if r == 0 {
        ((q - 1) as u32, block_size)
    } else {
        (q as u32, r as u32)
    }
}

/// The last index and size of the chunks of a block.
pub fn last_chunk_index_size(block_size: u32, chunk_size: u16) -> (r: (u32, u16))
    requires
        block_size > 0,
        chunk_size > 0,
    ensures
        r.0 == last_index(block_size as nat, chunk_size as nat),
        r.1 == last_size(block_size as nat, chunk_size as nat),
{
    let q: u32 = block_size / chunk_size as u32;
    let r: u32 = block_size % chunk_size as u32;
    proof {
        law_last_unit(block_size as nat, chunk_size as nat);
    }
    if r == 0 {
        (q - 1, chunk_size)
    } else {
        (q, r as u16)
    }
}

/// The extension of the sidecar file that holds an unfinished transfer:
/// `.part` behind the extension of the final name, or `part` where that
/// name has no extension.
pub fn part_extension(extension: Option<&str>) -> (r: String)
    ensures
        r@ == match extension {
            Some(e) => e@ + ".part"@,
            None => "part"@,
        },
{
    match extension {
        Some(e) => String::from_str(e).concat(".part"),
        None => String::from_str("part"),
    }
}

/// A block on the reader's side: its index, its bytes and the chunk size.
pub struct Block<'a> {
    index: u32,
    block: &'a [u8],
    chunk_size: u16,
}

impl<'a> Block<'a> {
    pub closed spec fn spec_index(&self) -> u32 {
        self.index
    }

    pub closed spec fn bytes(&self) -> Seq<u8> {
        self.block@
    }

    pub closed spec fn chunk_size(&self) -> nat {
        self.chunk_size as nat
    }

    pub fn new(index: u32, block: &'a [u8], chunk_size: u16) -> (b: Self)
        requires
            chunk_size > 0,
        ensures
            b.spec_index() == index,
            b.bytes() == block@,
            b.chunk_size() == chunk_size,
    {
        Self { index, block, chunk_size }
    }

    #[verifier::when_used_as_spec(spec_index)]
    pub fn index(&self) -> (i: u32)
        ensures
            i == self.spec_index(),
    {
        self.index
    }

    /// The number of chunks of this block.
    pub open spec fn chunk_count(&self) -> nat {
        unit_count(self.bytes().len(), self.chunk_size())
    }

    /// The chunks of the block, in ascending order of their index.
    pub fn chunks(&self) -> (parts: Vec<&'a [u8]>)
        requires
            self.chunk_size() > 0,
        ensures
            parts@.len() == self.chunk_count(),
            forall|i: int|
                0 <= i < parts@.len() ==> (#[trigger] parts@[i])@ == chunk_at(
                    self.bytes(),
                    self.chunk_size(),
                    i as nat,
                ),
    {
        let mut parts: Vec<&'a [u8]> = Vec::new();
        let len: usize = self.block.len();
        let size: usize = self.chunk_size as usize;
        let mut start: usize = 0;
        assert(0 * size == 0);
        while start < len
            invariant
                len == self.block@.len(),
                size == self.chunk_size,
                size > 0,
                start <= len,
                start < len ==> start == parts@.len() * size,
                start == len ==> parts@.len() == unit_count(len as nat, size as nat),
                forall|i: int|
                    0 <= i < parts@.len() ==> (#[trigger] parts@[i])@ == chunk_at(
                        self.block@,
                        size as nat,
                        i as nat,
                    ),
            decreases len - start,
        {
            let end: usize = if len - start > size {
                start + size
            } else {
                len
            };
            let ghost i = parts@.len();
            proof {
                assert((i + 1) * size == i * size + size) by (nonlinear_arith);
                if end == len {
                    lemma_count(len as nat, size as nat, i);
                }
            }
            parts.push(slice_subrange(self.block, start, end));
            start = end;
        }
        parts
    }

    /// The chunk with the given index, where the block has one.
    pub fn get_chunk(&self, index: u32) -> (r: Option<&'a [u8]>)
        requires
            self.chunk_size() > 0,
        ensures
            match r {
                Some(part) => index < self.chunk_count() && part@ == chunk_at(
                    self.bytes(),
                    self.chunk_size(),
                    index as nat,
                ),
                None => index >= self.chunk_count(),
            },
    {
        let len: u64 = self.block.len() as u64;
        let size: u64 = self.chunk_size as u64;
        assert(size * index <= 0xffff_ffff * 0xffff && size * index == index * size)
            by (nonlinear_arith)
            requires
                index <= 0xffff_ffff,
                size <= 0xffff,
        ;
        let start: u64 = size * index as u64;
        proof {
            assert((index + 1) * size == index * size + size) by (nonlinear_arith);
            lemma_index_in_count(len as nat, size as nat, index as nat);
            assert(start == (index as nat) * (size as nat));
            assert(((index as nat) + 1) * (size as nat) == start + size) by (nonlinear_arith)
                requires
                    start == (index as nat) * (size as nat),
            ;
        }
        if start < len {
            let end: u64 = if len - start > size {
                start + size
            } else {
                len
            };
            Some(slice_subrange(self.block, start as usize, end as usize))
        } else {
            None
        }
    }
}

/// The chunk that ends at the end of the data is the last one.
proof fn lemma_count(len: nat, size: nat, i: nat)
    requires
        size > 0,
        i * size < len <= (i + 1) * size,
    ensures
        unit_count(len, size) == i + 1,
{
    law_last_unit(len, size);
    let last = last_index(len, size);
    assert(last == i) by (nonlinear_arith)
        requires
            size > 0,
            i * size < len <= (i + 1) * size,
            last * size < len,
            (last + 1) * size >= len,
    ;
}

/// An index is below the count exactly when its chunk begins inside the data.
proof fn lemma_index_in_count(len: nat, size: nat, i: nat)
    requires
        size > 0,
    ensures
        i < unit_count(len, size) <==> i * size < len,
{
    if len > 0 {
        law_last_unit(len, size);
        let last = last_index(len, size);
        if i <= last {
            assert(i * size <= last * size) by (nonlinear_arith)
                requires
                    i <= last,
                    size > 0,
            ;
        } else {
            assert(i * size >= (last + 1) * size) by (nonlinear_arith)
                requires
                    i >= last + 1,
                    size > 0,
            ;
        }
    } else {
        assert(i * size >= 0) by (nonlinear_arith);
    }
}

/// Where a file is in its blocks: the reader's side of a transfer.
///
/// It says how many bytes the next block takes and numbers the blocks as
/// they are handed out; reading the bytes is the caller's part. A file of
/// no bytes has no block.
pub struct BlockReader {
    block_size: u32,
    last_block_size: u32,
    chunk_size: u16,
    next_block: u32,
    last_block: u32,
    /// Whether the file has no bytes, and so no last block.
    empty: bool,
}

impl BlockReader {
    pub closed spec fn block_size(&self) -> u32 {
        self.block_size
    }

    pub closed spec fn last_block_size(&self) -> u32 {
        self.last_block_size
    }

    pub closed spec fn chunk_size(&self) -> u16 {
        self.chunk_size
    }

    pub closed spec fn next_block(&self) -> u32 {
        self.next_block
    }

    /// The number of blocks of the file.
    pub closed spec fn block_count(&self) -> nat {
        if self.empty {
            0
        } else {
            (self.last_block + 1) as nat
        }
    }

    /// What holds of every reader: sizes above zero, a last block no larger
    /// than the others, and no more blocks than can be numbered.
    pub open spec fn wf(&self) -> bool {
        &&& self.block_size() > 0
        &&& self.chunk_size() > 0
        &&& 0 < self.last_block_size() <= self.block_size()
        &&& self.block_count() <= u32::MAX
    }

    /// The size of the next block, where one is left.
    pub open spec fn spec_next_len(&self) -> Option<u32> {
        if self.next_block() + 1 < self.block_count() {
            Some(self.block_size())
        } else if self.next_block() + 1 == self.block_count() {
            Some(self.last_block_size())
        } else {
            None
        }
    }

    /// The reader of a file of `file_size` bytes that begins with block
    /// `next_block`.
    pub fn new(file_size: u64, block_size: u32, chunk_size: u16, next_block: u32) -> (r: Self)
        requires
            block_size > 0,
            chunk_size > 0,
            unit_count(file_size as nat, block_size as nat) <= u32::MAX,
        ensures
            r.wf(),
            r.block_size() == block_size,
            r.chunk_size() == chunk_size,
            r.next_block() == next_block,
            r.block_count() == unit_count(file_size as nat, block_size as nat),
            file_size > 0 ==> r.last_block_size() == last_size(file_size as nat, block_size as nat),
            file_size == 0 ==> r.spec_next_len() is None,
    {
        if file_size == 0 {
            return Self {
                block_size,
                last_block_size: block_size,
                chunk_size,
                next_block,
                last_block: 0,
                empty: true,
            };
        }
        proof {
            law_last_unit(file_size as nat, block_size as nat);
        }
        let (last_block, last_block_size) = last_block_index_size(file_size, block_size);
        Self { block_size, last_block_size, chunk_size, next_block, last_block, empty: false }
    }

    /// Where in the file the next block begins.
    pub fn start_offset(&self) -> (offset: u64)
        ensures
            offset == self.next_block() * self.block_size(),
    {
        assert(self.next_block * self.block_size <= 0xffff_ffff * 0xffff_ffff) by (nonlinear_arith)
            requires
                self.next_block <= 0xffff_ffff,
                self.block_size <= 0xffff_ffff,
        ;
        self.next_block as u64 * self.block_size as u64
    }

    #[verifier::when_used_as_spec(spec_next_len)]
    pub fn next_len(&self) -> (len: Option<u32>)
        ensures
            len == self.spec_next_len(),
    {
        if self.empty {
            None
        } else if self.next_block < self.last_block {
            Some(self.block_size)
        } else if self.next_block == self.last_block {
            Some(self.last_block_size)
        } else {
            None
        }
    }

    /// Takes the bytes of the next block and hands them out as that block;
    /// nothing where no block is left.
    pub fn read<'a>(&mut self, data: &'a [u8]) -> (r: Option<Block<'a>>)
        requires
            old(self).wf(),
            old(self).spec_next_len() matches Some(len) ==> data@.len() == len,
        ensures
            final(self).wf(),
            final(self).block_size() == old(self).block_size(),
            final(self).last_block_size() == old(self).last_block_size(),
            final(self).chunk_size() == old(self).chunk_size(),
            final(self).block_count() == old(self).block_count(),
            match r {
                Some(block) => {
                    &&& old(self).spec_next_len() is Some
                    &&& block.spec_index() == old(self).next_block()
                    &&& block.bytes() == data@
                    &&& block.chunk_size() == old(self).chunk_size()
                    &&& final(self).next_block() == old(self).next_block() + 1
                },
                None => old(self).spec_next_len() is None && final(self).next_block() == old(
                    self,
                ).next_block(),
            },
    {
        if self.empty || self.next_block > self.last_block {
            return None;
        }
        let block = Block::new(self.next_block, data, self.chunk_size);
        self.next_block += 1;
        Some(block)
    }
}

/// What to do with the files before the first block is received.
#[derive(Debug, Clone, Copy, PartialEq, Eq, Structural)]
pub enum OpenPlan {
    /// The file is empty: create it under its final name; nothing is to be received.
    Empty,
    /// Create the sidecar file anew, or cut it to nothing, and start at block 0.
    Fresh,
    /// Go on in the sidecar file at `offset`, with block `next_block`.
    Resume { next_block: u32, offset: u64 },
    /// The sidecar file holds the whole file: give it the final name;
    /// nothing is to be received.
    Complete,
}

/// How a transfer of `file_size` bytes begins: an empty file needs none; a
/// sidecar file that is shorter than the file is gone on with, from the
/// last whole block it holds, where resuming is allowed; one of the size of
/// the file is the file; in every other case the transfer starts anew.
pub open spec fn spec_open_plan(
    file_size: u64,
    block_size: u32,
    resume: bool,
    part_size: Option<u64>,
) -> OpenPlan {
    if file_size == 0 {
        OpenPlan::Empty
    } else if resume && part_size is Some && part_size->0 < file_size {
        OpenPlan::Resume {
            next_block: (part_size->0 / block_size as u64) as u32,
            offset: ((part_size->0 / block_size as u64) * block_size) as u64,
        }
    } else if resume && part_size == Some(file_size) {
        OpenPlan::Complete
    } else {
        OpenPlan::Fresh
    }
}

/// The block that a transfer begins with under a plan.
pub open spec fn start_of(plan: OpenPlan) -> u32 {
    match plan {
        OpenPlan::Resume { next_block, offset } => next_block,
        _ => 0,
    }
}

/// A file of no bytes has no block, and its transfer needs nothing but the
/// empty file: whatever the block size, whether or not it may resume, and
/// whatever sidecar file there is.
pub proof fn law_empty_file(block_size: u32, resume: bool, part_size: Option<u64>)
    ensures
        unit_count(0, block_size as nat) == 0,
        spec_open_plan(0, block_size, resume, part_size) == OpenPlan::Empty,
{
}

/// Decides how a transfer of `file_size` bytes begins, given whether it may
/// resume and the size of the sidecar file, if there is one.
pub fn open_plan(file_size: u64, block_size: u32, resume: bool, part_size: Option<u64>) -> (plan:
    OpenPlan)
    requires
        block_size > 0,
        unit_count(file_size as nat, block_size as nat) <= u32::MAX,
    ensures
        plan == spec_open_plan(file_size, block_size, resume, part_size),
        plan matches OpenPlan::Resume { next_block, offset } ==> next_block <= last_index(
            file_size as nat,
            block_size as nat,
        ) && offset == next_block * block_size && offset <= part_size->0,
{
    if file_size == 0 {
        return OpenPlan::Empty;
    }
    if !resume {
        return OpenPlan::Fresh;
    }
    match part_size {
        Some(size) => {
            if size < file_size {
                let next_block: u64 = size / block_size as u64;
                proof {
                    law_last_unit(file_size as nat, block_size as nat);
                    let last = last_index(file_size as nat, block_size as nat);
                    assert(next_block <= last && next_block * block_size <= size)
                        by (nonlinear_arith)
                        requires
                            next_block == size / (block_size as u64),
                            last == (file_size - 1) / (block_size as int),
                            size < file_size,
                            block_size > 0,
                    ;
                }
                OpenPlan::Resume {
                    next_block: next_block as u32,
                    offset: next_block * block_size as u64,
                }
            } else if size == file_size {
                OpenPlan::Complete
            } else {
                OpenPlan::Fresh
            }
        },
        None => OpenPlan::Fresh,
    }
}

/// `base` with `part` put in place of what stood at `at`.
pub open spec fn splice(base: Seq<u8>, at: int, part: Seq<u8>) -> Seq<u8>
    recommends
        0 <= at,
        at + part.len() <= base.len(),
{
    base.subrange(0, at) + part + base.subrange(at + part.len(), base.len() as int)
}

/// A block being received, as a mathematical value.
pub struct BufferView {
    pub index: u32,
    pub chunk_size: nat,
    /// The bytes of the block; where no chunk has been written yet they are arbitrary.
    pub content: Seq<u8>,
    /// For each chunk, whether it has been written.
    pub received: Seq<bool>,
}

impl BufferView {
    /// What holds of every block in progress: it has bytes, and one flag
    /// for each of its chunks.
    pub open spec fn wf(self) -> bool {
        &&& self.chunk_size > 0
        &&& self.content.len() > 0
        &&& self.received.len() == unit_count(self.content.len(), self.chunk_size)
    }

    /// Whether `len` bytes are what chunk number `chunk` of this block holds.
    pub open spec fn expects(self, chunk: nat, len: nat) -> bool {
        chunk < self.received.len() && len == unit_size(
            self.content.len(),
            self.chunk_size,
            chunk,
        )
    }

    /// The block after `data` has come in as chunk `chunk`: the first
    /// arrival of a chunk is kept, a later one changes nothing.
    pub open spec fn write(self, chunk: nat, data: Seq<u8>) -> BufferView {
        if self.received[chunk as int] {
            self
        } else {
            BufferView {
                content: splice(self.content, (chunk * self.chunk_size) as int, data),
                received: self.received.update(chunk as int, true),
                ..self
            }
        }
    }

    /// Whether every chunk has been written.
    pub open spec fn complete(self) -> bool {
        forall|i: int| 0 <= i < self.received.len() ==> self.received[i]
    }

    /// The chunks that have not been written, in ascending order.
    pub open spec fn missing(self) -> Seq<u32> {
        unset_indices(self.received)
    }
}

/// Where a transfer is in its blocks: the writer's side.
pub struct BlockWriter {
    block_size: u32,
    last_block_size: u32,
    chunk_size: u16,
    next_block: u32,
    last_block: u32,
    buf: Vec<u8>,
    write_flag: BitArray,
}

impl BlockWriter {
    pub closed spec fn block_size(&self) -> u32 {
        self.block_size
    }

    pub closed spec fn last_block_size(&self) -> u32 {
        self.last_block_size
    }

    pub closed spec fn chunk_size(&self) -> u16 {
        self.chunk_size
    }

    pub closed spec fn spec_next_index(&self) -> u32 {
        self.next_block
    }

    pub closed spec fn last_block(&self) -> u32 {
        self.last_block
    }

    /// The representation invariant: sizes above zero, a buffer of one
    /// block, and well-formed flags.
    pub closed spec fn wf(&self) -> bool {
        &&& self.block_size > 0
        &&& self.chunk_size > 0
        &&& 0 < self.last_block_size <= self.block_size
        &&& self.last_block < u32::MAX
        &&& self.buf@.len() == self.block_size
        &&& self.write_flag.wf()
    }

    /// The size of the next block, where one is left.
    pub open spec fn next_size(&self) -> Option<u32> {
        if self.spec_next_index() < self.last_block() {
            Some(self.block_size())
        } else if self.spec_next_index() == self.last_block() {
            Some(self.last_block_size())
        } else {
            None
        }
    }

    /// Opens the transfer of a file of `file_size` bytes, given whether it
    /// may resume and the size of the sidecar file, if there is one: what to
    /// do with the files, and the writer that begins where the plan says.
    /// There is no writer where nothing is to be received: for a file of no
    /// bytes, and where the sidecar file holds the whole file already.
    pub fn new(
        file_size: u64,
        block_size: u32,
        chunk_size: u16,
        resume: bool,
        part_size: Option<u64>,
    ) -> (r: (OpenPlan, Option<Self>))
        requires
            block_size > 0,
            chunk_size > 0,
            unit_count(file_size as nat, block_size as nat) <= u32::MAX,
        ensures
            r.0 == spec_open_plan(file_size, block_size, resume, part_size),
            file_size == 0 ==> r.1 is None,
            match r.1 {
                Some(w) => {
                    &&& file_size > 0
                    &&& w.wf()
                    &&& w.block_size() == block_size
                    &&& w.chunk_size() == chunk_size
                    &&& w.spec_next_index() == start_of(r.0)
                    &&& w.spec_next_index() <= w.last_block()
                    &&& w.last_block() == last_index(file_size as nat, block_size as nat)
                    &&& w.last_block_size() == last_size(file_size as nat, block_size as nat)
                    &&& (r.0 is Fresh || r.0 is Resume)
                },
                None => r.0 is Empty || r.0 is Complete,
            },
    {
        let plan = open_plan(file_size, block_size, resume, part_size);
        match plan {
            OpenPlan::Fresh => (plan, Some(Self::at(file_size, block_size, chunk_size, 0))),
            OpenPlan::Resume { next_block, offset } => (
                plan,
                Some(Self::at(file_size, block_size, chunk_size, next_block)),
            ),
            _ => (plan, None),
        }
    }

    /// The writer of a file of `file_size` bytes that begins with block
    /// `next_block`.
    pub fn at(file_size: u64, block_size: u32, chunk_size: u16, next_block: u32) -> (w: Self)
        requires
            file_size > 0,
            block_size > 0,
            chunk_size > 0,
            unit_count(file_size as nat, block_size as nat) <= u32::MAX,
        ensures
            w.wf(),
            w.block_size() == block_size,
            w.chunk_size() == chunk_size,
            w.spec_next_index() == next_block,
            w.last_block() == last_index(file_size as nat, block_size as nat),
            w.last_block_size() == last_size(file_size as nat, block_size as nat),
    {
        proof {
            law_last_unit(file_size as nat, block_size as nat);
        }
        let (last_block, last_block_size) = last_block_index_size(file_size, block_size);
        let buf: Vec<u8> = vec![0u8; block_size as usize];
        Self {
            block_size,
            last_block_size,
            chunk_size,
            next_block,
            last_block,
            buf,
            write_flag: BitArray::new(0),
        }
    }

    /// The index of the block that comes next.
    #[verifier::when_used_as_spec(spec_next_index)]
    pub fn next_index(&self) -> (i: u32)
        ensures
            i == self.spec_next_index(),
    {
        self.next_block
    }

    /// Begins the next block, with no chunk written; nothing where no block is left.
    pub fn next_block(self) -> (r: Option<BlockBuffer>)
        requires
            self.wf(),
        ensures
            match r {
                Some(b) => {
                    &&& self.next_size() is Some
                    &&& b@.content.len() == self.next_size().unwrap()
                    &&& b.wf()
                    &&& b@.index == self.spec_next_index()
                    &&& b@.chunk_size == self.chunk_size()
                    &&& forall|i: int| 0 <= i < b@.received.len() ==> !b@.received[i]
                    &&& b.block_size() == self.block_size()
                    &&& b.last_block_size() == self.last_block_size()
                    &&& b.last_block() == self.last_block()
                },
                None => self.next_size() is None,
            },
    {
        let block_size: u32 = if self.next_block < self.last_block {
            self.block_size
        } else if self.next_block == self.last_block {
            self.last_block_size
        } else {
            return None;
        };
        let (last_chunk, last_chunk_size) = last_chunk_index_size(block_size, self.chunk_size);
        let mut writer = self;
        proof {
            law_last_unit(block_size as nat, writer.chunk_size as nat);
            assert(last_chunk < block_size) by (nonlinear_arith)
                requires
                    last_chunk * writer.chunk_size < block_size,
                    writer.chunk_size >= 1,
            ;
        }
        writer.write_flag.reset(last_chunk + 1);
        Some(BlockBuffer { writer, block_size, last_chunk, last_chunk_size })
    }
}

/// The block that is being received.
pub struct BlockBuffer {
    writer: BlockWriter,
    block_size: u32,
    last_chunk: u32,
    last_chunk_size: u16,
}

impl View for BlockBuffer {
    type V = BufferView;

    closed spec fn view(&self) -> BufferView {
        BufferView {
            index: self.writer.next_block,
            chunk_size: self.writer.chunk_size as nat,
            content: self.writer.buf@.take(self.block_size as int),
            received: self.writer.write_flag@,
        }
    }
}

impl BlockBuffer {
    pub closed spec fn block_size(&self) -> u32 {
        self.writer.block_size
    }

    pub closed spec fn last_block_size(&self) -> u32 {
        self.writer.last_block_size
    }

    pub closed spec fn last_block(&self) -> u32 {
        self.writer.last_block
    }

    /// The representation invariant: the writer's, and the sizes of this
    /// block and of its last chunk as the arithmetic of units gives them.
    pub closed spec fn wf(&self) -> bool {
        &&& self.writer.wf()
        &&& self.writer.next_block <= self.writer.last_block
        &&& 0 < self.block_size <= self.writer.block_size
        &&& self.block_size == (if self.writer.next_block < self.writer.last_block {
            self.writer.block_size
        } else {
            self.writer.last_block_size
        })
        &&& self.last_chunk == last_index(self.block_size as nat, self.writer.chunk_size as nat)
        &&& self.last_chunk_size == last_size(self.block_size as nat, self.writer.chunk_size as nat)
        &&& self.last_chunk < self.block_size
        &&& self.writer.write_flag@.len() == self.last_chunk + 1
    }

    /// A well-formed buffer is a well-formed block of the file: it is not
    /// behind the last block, and it has the size of the last block if it
    /// is the last and the size of the others if it is not.
    pub proof fn lemma_view_wf(&self)
        requires
            self.wf(),
        ensures
            self@.wf(),
            self@.index <= self.last_block() < u32::MAX,
            0 < self.last_block_size() <= self.block_size(),
            self@.content.len() == (if self@.index < self.last_block() {
                self.block_size()
            } else {
                self.last_block_size()
            }),
            self@.chunk_size <= u16::MAX,
            self@.received.len() <= u32::MAX,
    {
    }

    pub fn index(&self) -> (i: u32)
        ensures
            i == self@.index,
    {
        self.writer.next_block
    }

    /// Whether `len` bytes are what chunk number `chunk` of this block holds.
    pub fn expects(&self, chunk: u32, len: usize) -> (b: bool)
        requires
            self.wf(),
        ensures
            b == self@.expects(chunk as nat, len as nat),
    {
        if chunk < self.last_chunk {
            len == self.writer.chunk_size as usize
        } else if chunk == self.last_chunk {
            len == self.last_chunk_size as usize
        } else {
            false
        }
    }

    /// Takes in the bytes of one chunk. The first arrival of a chunk is
    /// kept; a later one changes nothing.
    pub fn write(&mut self, chunk: u32, data: &[u8])
        requires
            old(self).wf(),
            old(self)@.expects(chunk as nat, data@.len()),
        ensures
            final(self).wf(),
            final(self)@ == old(self)@.write(chunk as nat, data@),
            final(self).block_size() == old(self).block_size(),
            final(self).last_block_size() == old(self).last_block_size(),
            final(self).last_block() == old(self).last_block(),
    {
        if !self.writer.write_flag.is_set(chunk) {
            self.writer.write_flag.set(chunk);
            let size: usize = self.writer.chunk_size as usize;
            proof {
                law_last_unit(self.block_size as nat, size as nat);
                assert(chunk * size <= self.last_chunk * size) by (nonlinear_arith)
                    requires
                        chunk <= self.last_chunk,
                        size > 0,
                ;
                if chunk < self.last_chunk {
                    assert((chunk + 1) * size <= self.last_chunk * size) by (nonlinear_arith)
                        requires
                            chunk + 1 <= self.last_chunk,
                            size > 0,
                    ;
                    assert((chunk + 1) * size == chunk * size + size) by (nonlinear_arith);
                } else {
                    assert((self.last_chunk + 1) * size == self.last_chunk * size + size)
                        by (nonlinear_arith);
                }
                assert(size * chunk == chunk * size) by (nonlinear_arith);
                assert(self@.content.len() == self.block_size);
            }
            let start: usize = size * chunk as usize;
            let ghost before = self.writer.buf@;
            let mut k: usize = 0;
            while k < data.len()
                invariant
                    k <= data@.len(),
                    start + data@.len() <= self.block_size,
                    self.block_size <= self.writer.buf@.len(),
                    self.writer.buf@.len() == before.len(),
                    forall|j: int|
                        0 <= j < before.len() ==> self.writer.buf@[j] == (if start <= j < start
                            + k {
                            data@[j - start]
                        } else {
                            before[j]
                        }),
                    self.writer.block_size == old(self).writer.block_size,
                    self.writer.last_block_size == old(self).writer.last_block_size,
                    self.writer.chunk_size == old(self).writer.chunk_size,
                    self.writer.next_block == old(self).writer.next_block,
                    self.writer.last_block == old(self).writer.last_block,
                    self.block_size == old(self).block_size,
                    self.last_chunk == old(self).last_chunk,
                    self.last_chunk_size == old(self).last_chunk_size,
                    self.writer.write_flag.wf(),
                    self.writer.write_flag@ == old(self).writer.write_flag@.update(
                        chunk as int,
                        true,
                    ),
                decreases data@.len() - k,
            {
                self.writer.buf.set(start + k, data[k]);
                k += 1;
            }
            proof {
                assert(self@.content =~= splice(old(self)@.content, start as int, data@));
            }
        }
    }

    /// The chunks that have not been written, in ascending order.
    pub fn get_missing_chunk(&self) -> (missing: Vec<u32>)
        requires
            self.wf(),
        ensures
            missing@ == self@.missing(),
            missing@.len() == 0 <==> self@.complete(),
    {
        proof {
            law_none_unset(self@.received);
        }
        self.writer.write_flag.collect_unset()
    }

    /// The bytes of the block.
    pub fn data(&self) -> (bytes: &[u8])
        requires
            self.wf(),
        ensures
            bytes@ == self@.content,
    {
        slice_subrange(self.writer.buf.as_slice(), 0, self.block_size as usize)
    }

    /// Ends the block, of which every chunk has been written, and moves on
    /// to the next.
    pub fn commit(self) -> (w: BlockWriter)
        requires
            self.wf(),
            self@.complete(),
        ensures
            w.wf(),
            w.spec_next_index() == self@.index + 1,
            w.block_size() == self.block_size(),
            w.last_block_size() == self.last_block_size(),
            w.last_block() == self.last_block(),
            w.chunk_size() == self@.chunk_size,
    {
        let mut writer = self.writer;
        writer.next_block += 1;
        writer
    }
}

/// Whether every chunk that has been written holds what the same chunk of
/// `source` holds.
pub open spec fn follows_source(b: BufferView, source: Seq<u8>) -> bool {
    forall|i: int|
        0 <= i < b.received.len() && b.received[i] ==> #[trigger] chunk_at(
            b.content,
            b.chunk_size,
            i as nat,
        ) == chunk_at(source, b.chunk_size, i as nat)
}

/// Where chunk `i` of `len` bytes begins and ends.
proof fn lemma_chunk_range(len: nat, size: nat, i: nat)
    requires
        size > 0,
        len > 0,
        i < unit_count(len, size),
    ensures
        i * size < len,
        (i + 1) * size == i * size + size,
        unit_size(len, size, i) == (if (i + 1) * size <= len {
            size
        } else {
            (len - i * size) as nat
        }),
        i < last_index(len, size) ==> (i + 1) * size < len,
        i == last_index(len, size) ==> (i + 1) * size >= len,
{
    law_last_unit(len, size);
    lemma_index_in_count(len, size, i);
    let last = last_index(len, size);
    assert((i + 1) * size == i * size + size) by (nonlinear_arith);
    assert((last + 1) * size == last * size + size) by (nonlinear_arith);
    if i < last {
        assert((i + 1) * size <= last * size) by (nonlinear_arith)
            requires
                i + 1 <= last,
                size > 0,
        ;
    }
}

/// Writing a chunk of the source keeps what has been written equal to the
/// source, whichever chunk it is and whether or not it came before.
pub proof fn law_write_follows_source(b: BufferView, source: Seq<u8>, chunk: nat)
    requires
        b.wf(),
        source.len() == b.content.len(),
        follows_source(b, source),
        chunk < b.received.len(),
    ensures
        b.expects(chunk, chunk_at(source, b.chunk_size, chunk).len()),
        b.write(chunk, chunk_at(source, b.chunk_size, chunk)).wf(),
        b.write(chunk, chunk_at(source, b.chunk_size, chunk)).content.len() == b.content.len(),
        follows_source(b.write(chunk, chunk_at(source, b.chunk_size, chunk)), source),
{
    let size = b.chunk_size;
    let len = b.content.len();
    let data = chunk_at(source, size, chunk);
    let after = b.write(chunk, data);
    lemma_chunk_range(len, size, chunk);
    let at = (chunk * size) as int;
    if !b.received[chunk as int] {
        assert(after.content.len() == len);
        assert forall|i: int| 0 <= i < after.received.len() && after.received[i] implies chunk_at(
            after.content,
            size,
            i as nat,
        ) == chunk_at(source, size, i as nat) by {
            lemma_chunk_range(len, size, i as nat);
            if i == chunk {
                assert(chunk_at(after.content, size, i as nat) =~= data);
            } else {
                assert(b.received[i]);
                assert(chunk_at(b.content, size, i as nat) == chunk_at(source, size, i as nat));
                if i < chunk {
                    assert((i + 1) * size <= chunk * size) by (nonlinear_arith)
                        requires
                            i + 1 <= chunk,
                            size > 0,
                    ;
                } else {
                    assert((chunk + 1) * size <= i * size) by (nonlinear_arith)
                        requires
                            chunk + 1 <= i,
                            size > 0,
                    ;
                }
                assert(chunk_at(after.content, size, i as nat) =~= chunk_at(
                    b.content,
                    size,
                    i as nat,
                ));
            }
        }
    }
}

/// A block of which every chunk has been written, each with what the
/// source holds, is the source.
pub proof fn law_complete_is_source(b: BufferView, source: Seq<u8>)
    requires
        b.wf(),
        source.len() == b.content.len(),
        follows_source(b, source),
        b.complete(),
    ensures
        b.content == source,
{
    let size = b.chunk_size;
    let len = b.content.len();
    assert forall|j: int| 0 <= j < len implies b.content[j] == source[j] by {
        let i = j / (size as int);
        assert(i * size <= j < (i + 1) * size) by (nonlinear_arith)
            requires
                i == j / (size as int),
                size > 0,
                j >= 0,
        ;
        lemma_index_in_count(len, size, i as nat);
        lemma_chunk_range(len, size, i as nat);
        assert(b.received[i]);
        let c = chunk_at(b.content, size, i as nat);
        let d = chunk_at(source, size, i as nat);
        assert(c == d);
        assert(c[j - i * size] == b.content[j]);
        assert(d[j - i * size] == source[j]);
    }
    assert(b.content =~= source);
}

/// The units of some data cover it: every byte lies in the unit that its
/// position names, at the place that its position names, and every unit
/// has the size that the arithmetic of units gives it.
pub proof fn law_units_cover(data: Seq<u8>, unit: nat, j: int)
    requires
        unit > 0,
        0 <= j < data.len(),
    ensures
        j / (unit as int) < unit_count(data.len(), unit),
        chunk_at(data, unit, (j / (unit as int)) as nat).len() == unit_size(
            data.len(),
            unit,
            (j / (unit as int)) as nat,
        ),
        chunk_at(data, unit, (j / (unit as int)) as nat)[j % (unit as int)] == data[j],
{
    let i = j / (unit as int);
    assert(i * unit <= j < (i + 1) * unit && j % (unit as int) == j - i * unit && i >= 0)
        by (nonlinear_arith)
        requires
            i == j / (unit as int),
            unit > 0,
            j >= 0,
    ;
    lemma_index_in_count(data.len(), unit, i as nat);
    lemma_chunk_range(data.len(), unit, i as nat);
}

/// Every unit of some data has the size that the arithmetic of units gives it.
pub proof fn law_unit_len(data: Seq<u8>, unit: nat, i: nat)
    requires
        unit > 0,
        i < unit_count(data.len(), unit),
    ensures
        chunk_at(data, unit, i).len() == unit_size(data.len(), unit, i),
        0 < chunk_at(data, unit, i).len() <= unit,
{
    law_last_unit(data.len(), unit);
    lemma_chunk_range(data.len(), unit, i);
}

/// The block after the chunks of `source` that `arrivals` names have come
/// in, in that order.
pub open spec fn received_all(b: BufferView, source: Seq<u8>, arrivals: Seq<u32>) -> BufferView
    decreases arrivals.len(),
{
    if arrivals.len() == 0 {
        b
    } else {
        received_all(b, source, arrivals.drop_last()).write(
            arrivals.last() as nat,
            chunk_at(source, b.chunk_size, arrivals.last() as nat),
        )
    }
}

/// Whatever chunks of the source arrive, in whatever order and however
/// often, what has been written equals the source; a chunk counts as
/// written exactly if it was before or has arrived; and once every chunk
/// has, the block is the source.
pub proof fn law_arrivals_rebuild(b: BufferView, source: Seq<u8>, arrivals: Seq<u32>)
    requires
        b.wf(),
        source.len() == b.content.len(),
        follows_source(b, source),
        b.received.len() <= u32::MAX,
        forall|k: int| 0 <= k < arrivals.len() ==> arrivals[k] < b.received.len(),
    ensures
        received_all(b, source, arrivals).wf(),
        received_all(b, source, arrivals).index == b.index,
        received_all(b, source, arrivals).chunk_size == b.chunk_size,
        received_all(b, source, arrivals).content.len() == b.content.len(),
        received_all(b, source, arrivals).received.len() == b.received.len(),
        follows_source(received_all(b, source, arrivals), source),
        forall|i: int|
            0 <= i < b.received.len() ==> (received_all(b, source, arrivals).received[i] <==> (
            b.received[i] || arrivals.contains(i as u32))),
        received_all(b, source, arrivals).complete() ==> received_all(
            b,
            source,
            arrivals,
        ).content == source,
    decreases arrivals.len(),
{
    let after = received_all(b, source, arrivals);
    if arrivals.len() > 0 {
        let rest = arrivals.drop_last();
        let last = arrivals.last();
        assert forall|k: int| 0 <= k < rest.len() implies rest[k] < b.received.len() by {
            assert(rest[k] == arrivals[k]);
        }
        law_arrivals_rebuild(b, source, rest);
        let mid = received_all(b, source, rest);
        law_write_follows_source(mid, source, last as nat);
        assert forall|i: int| 0 <= i < b.received.len() implies (after.received[i] <==> (
        b.received[i] || arrivals.contains(i as u32))) by {
            assert(mid.received[i] <==> (b.received[i] || rest.contains(i as u32)));
            assert(mid.received.len() == b.received.len());
            if arrivals.contains(i as u32) {
                let k = choose|k: int| 0 <= k < arrivals.len() && arrivals[k] == i as u32;
                if k < arrivals.len() - 1 {
                    assert(rest[k] == i as u32);
                }
            }
            if rest.contains(i as u32) {
                let k = choose|k: int| 0 <= k < rest.len() && rest[k] == i as u32;
                assert(arrivals[k] == i as u32);
            }
            if i == last {
                assert(arrivals[arrivals.len() - 1] == i as u32);
                assert(after.received[i]);
            } else {
                assert(after.received[i] == mid.received[i]);
            }
        }
    }
    if after.complete() {
        law_complete_is_source(after, source);
    }
}

/// The units of `data` from number `from` up to, not including, number
/// `upto`, one behind the other.
pub open spec fn joined_units(data: Seq<u8>, unit: nat, from: nat, upto: nat) -> Seq<u8>
    decreases upto,
{
    if upto <= from {
        Seq::empty()
    } else {
        joined_units(data, unit, from, (upto - 1) as nat) + chunk_at(data, unit, (upto - 1) as nat)
    }
}

/// The blocks of a file, written one behind the other in ascending order
/// from block `from` on, are the file from where that block begins: all of
/// the file where the first block is the first, and nothing where no block
/// is left.
pub proof fn law_blocks_are_file(data: Seq<u8>, unit: nat, from: nat)
    requires
        unit > 0,
        from <= unit_count(data.len(), unit),
    ensures
        from * unit <= data.len() || from == unit_count(data.len(), unit),
        joined_units(data, unit, from, unit_count(data.len(), unit)) == data.subrange(
            if from * unit <= data.len() {
                (from * unit) as int
            } else {
                data.len() as int
            },
            data.len() as int,
        ),
        from == 0 ==> joined_units(data, unit, from, unit_count(data.len(), unit)) == data,
{
    let count = unit_count(data.len(), unit);
    lemma_joined_units(data, unit, from, count);
    assert(0 * unit == 0);
    if data.len() > 0 {
        law_last_unit(data.len(), unit);
        assert(count * unit >= data.len()) by (nonlinear_arith)
            requires
                (count - 1 + 1) * unit - (unit - last_size(data.len(), unit)) == data.len(),
                last_size(data.len(), unit) <= unit,
        ;
        if from < count {
            lemma_index_in_count(data.len(), unit, from);
        }
    }
    if from == 0 {
        assert(data.subrange(0, data.len() as int) =~= data);
    }
}

/// The end of unit `i`, or the end of the data where that comes first.
spec fn unit_end(len: nat, unit: nat, i: nat) -> int {
    if i * unit <= len {
        (i * unit) as int
    } else {
        len as int
    }
}

proof fn lemma_joined_units(data: Seq<u8>, unit: nat, from: nat, upto: nat)
    requires
        unit > 0,
        from <= upto <= unit_count(data.len(), unit),
    ensures
        joined_units(data, unit, from, upto) == data.subrange(
            unit_end(data.len(), unit, from),
            unit_end(data.len(), unit, upto),
        ),
    decreases upto,
{
    let len = data.len();
    if upto <= from {
        assert(joined_units(data, unit, from, upto) =~= data.subrange(
            unit_end(len, unit, from),
            unit_end(len, unit, upto),
        ));
    } else {
        let i = (upto - 1) as nat;
        lemma_joined_units(data, unit, from, i);
        lemma_chunk_range(len, unit, i);
        assert(from * unit <= i * unit) by (nonlinear_arith)
            requires
                from <= i,
                unit > 0,
        ;
        assert(joined_units(data, unit, from, upto) =~= data.subrange(
            unit_end(len, unit, from),
            unit_end(len, unit, upto),
        ));
    }
}

} // verus!
