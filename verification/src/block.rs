//! Where the bytes of a revision lie.
//!
//! A revision is a list of independently-encrypted content blocks, and every
//! layer above this one thinks purely in whole blocks. [`BlockMap`] turns a byte
//! range into the blocks that overlap it.

use vstd::prelude::*;

use std::ops::Range;
use std::sync::Arc;

use crate::stream_error::Error;
use crate::text;

verus! {

/// The bytes that blocks of these sizes hold together.
pub open spec fn total(sizes: Seq<u64>) -> nat
    decreases sizes.len(),
{
    if sizes.len() == 0 {
        0
    } else {
        total(sizes.drop_last()) + sizes.last() as nat
    }
}

/// A count of bytes, as far as 64 bits hold it.
pub open spec fn capped(n: nat) -> u64 {
    if n <= u64::MAX {
        n as u64
    } else {
        u64::MAX
    }
}

/// Where block `i` starts.
pub open spec fn start(sizes: Seq<u64>, i: int) -> u64 {
    capped(total(sizes.take(i)))
}

/// The blocks that start at or before `offset`.
pub open spec fn starts_by(sizes: Seq<u64>, offset: u64) -> spec_fn(int) -> bool {
    |i: int| start(sizes, i) <= offset
}

/// The block that holds byte `offset`: the last that starts at or before it.
pub open spec fn holder(sizes: Seq<u64>, offset: u64) -> Option<int> {
    if offset < capped(total(sizes)) {
        text::last_before(0, sizes.len() as int, starts_by(sizes, offset))
    } else {
        None
    }
}

/// More blocks hold at least as much.
pub proof fn lemma_total_grows(sizes: Seq<u64>, i: int, j: int)
    requires
        0 <= i <= j <= sizes.len(),
    ensures
        total(sizes.take(i)) <= total(sizes.take(j)),
    decreases j - i,
{
    if i < j {
        lemma_total_grows(sizes, i + 1, j);
        assert(sizes.take(i + 1).drop_last() =~= sizes.take(i));
    }
}

proof fn lemma_total_next(sizes: Seq<u64>, i: int)
    requires
        0 <= i < sizes.len(),
    ensures
        total(sizes.take(i + 1)) == total(sizes.take(i)) + sizes[i],
{
    assert(sizes.take(i + 1).drop_last() =~= sizes.take(i));
}

/// Every byte of the revision is held by a block, and by one only: it lies at or
/// past the start of the block that holds it, and before the start of the next.
pub proof fn law_every_byte_has_one_block(sizes: Seq<u64>, offset: u64)
    ensures
        offset >= capped(total(sizes)) ==> holder(sizes, offset) is None,
        offset < capped(total(sizes)) ==> holder(sizes, offset) is Some,
        match holder(sizes, offset) {
            Some(i) => {
                &&& 0 <= i < sizes.len()
                &&& start(sizes, i) <= offset < start(sizes, i + 1)
                &&& sizes[i] > 0
                &&& forall|j: int|
                    0 <= j < sizes.len() && #[trigger] start(sizes, j) <= offset && offset < start(
                        sizes,
                        j + 1,
                    ) ==> j == i
            },
            None => true,
        },
{
    if offset < capped(total(sizes)) {
        let n = sizes.len() as int;
        text::lemma_last_before(0, n, starts_by(sizes, offset));
        assert(sizes.take(n) =~= sizes);
        if n == 0 {
            assert(false);
        }
        assert(sizes.take(0) =~= Seq::<u64>::empty());
        assert(starts_by(sizes, offset)(0));
        let i = holder(sizes, offset)->0;
        if i + 1 < n {
            assert(!starts_by(sizes, offset)(i + 1));
        }
        lemma_total_next(sizes, i);
        assert forall|j: int|
            0 <= j < n && #[trigger] start(sizes, j) <= offset && offset < start(
                sizes,
                j + 1,
            ) implies j == i by {
            if j < i {
                lemma_total_grows(sizes, j + 1, i);
            } else if j > i {
                lemma_total_grows(sizes, i + 1, j);
            }
        }
    }
}

/// Where each block starts in the plaintext, so a byte range can be resolved to
/// blocks without a scan.
#[derive(Debug, PartialEq, Eq)]
pub struct BlockMap {
    /// Plaintext offset of each block.
    starts: Vec<u64>,
    sizes: Vec<u64>,
    size: u64,
}

impl View for BlockMap {
    type V = Seq<u64>;

    /// The sizes of the blocks, in order.
    closed spec fn view(&self) -> Seq<u64> {
        self.sizes@
    }
}

impl Clone for BlockMap {
    fn clone(&self) -> (r: Self)
        ensures
            r@ == self@,
            r.wf() == self.wf(),
    {
        let starts = self.starts.clone();
        let sizes = self.sizes.clone();
        assert(starts@ =~= self.starts@);
        assert(sizes@ =~= self.sizes@);
        BlockMap { starts, sizes, size: self.size }
    }
}

impl BlockMap {
    pub closed spec fn wf(&self) -> bool {
        &&& self.starts@.len() == self.sizes@.len()
        &&& forall|i: int|
            0 <= i < self.starts@.len() ==> #[trigger] self.starts@[i] == start(self.sizes@, i)
        &&& self.size == capped(total(self.sizes@))
    }

    pub fn new(sizes: &[u64]) -> (r: Self)
        ensures
            r.wf(),
            r@ == sizes@,
    {
        let mut starts: Vec<u64> = Vec::new();
        let mut copy: Vec<u64> = Vec::new();
        let mut offset: u64 = 0;
        let mut i: usize = 0;
        assert(sizes@.take(0) =~= Seq::<u64>::empty());
        while i < sizes.len()
            invariant
                i <= sizes@.len(),
                copy@ == sizes@.take(i as int),
                starts@.len() == i,
                forall|j: int| 0 <= j < i ==> #[trigger] starts@[j] == start(sizes@, j),
                offset == start(sizes@, i as int),
            decreases sizes.len() - i,
        {
            starts.push(offset);
            copy.push(sizes[i]);
            proof {
                lemma_total_next(sizes@, i as int);
            }
            offset = offset.saturating_add(sizes[i]);
            i += 1;
            assert(sizes@.take(i as int) =~= sizes@.take(i - 1).push(sizes@[i - 1]));
        }
        assert(sizes@.take(sizes@.len() as int) =~= sizes@);
        BlockMap { starts, sizes: copy, size: offset }
    }

    /// Plaintext size of each block, in order.
    pub fn sizes(&self) -> (r: &[u64])
        ensures
            r@ == self@,
    {
        self.sizes.as_slice()
    }

    /// Total plaintext size of the revision.
    pub fn size(&self) -> (r: u64)
        requires
            self.wf(),
        ensures
            r == capped(total(self@)),
    {
        self.size
    }

    /// How many blocks the revision has.
    pub fn len(&self) -> (r: usize)
        ensures
            r == self@.len(),
    {
        self.sizes.len()
    }

    pub fn is_empty(&self) -> (r: bool)
        ensures
            r == (self@.len() == 0),
    {
        self.sizes.len() == 0
    }

    /// Plaintext offset where block `index` starts.
    pub fn start_of(&self, index: usize) -> (r: Option<u64>)
        requires
            self.wf(),
        ensures
            r == if index < self@.len() {
                Some(start(self@, index as int))
            } else {
                None::<u64>
            },
    {
        if index < self.starts.len() {
            Some(self.starts[index])
        } else {
            None
        }
    }

    /// Plaintext size of block `index`.
    pub fn size_of(&self, index: usize) -> (r: Option<u64>)
        ensures
            r == if index < self@.len() {
                Some(self@[index as int])
            } else {
                None::<u64>
            },
    {
        if index < self.sizes.len() {
            Some(self.sizes[index])
        } else {
            None
        }
    }

    /// The block holding byte `offset`, or `None` at or past the end.
    ///
    /// Binary search rather than a divide: block sizes are uniform in practice
    /// but nothing guarantees it, and a wrong division here serves bytes from
    /// the wrong offset, silently.
    pub fn block_at(&self, offset: u64) -> (r: Option<usize>)
        requires
            self.wf(),
        ensures
            match r {
                Some(i) => i < self@.len() && holder(self@, offset) == Some(i as int),
                None => holder(self@, offset) is None,
            },
    {
        if offset >= self.size {
            return None;
        }
        let ghost sizes = self.sizes@;
        let ghost n = sizes.len() as int;
        proof {
            law_every_byte_has_one_block(sizes, offset);
            assert(sizes.take(0) =~= Seq::<u64>::empty());
        }
        // The holder lies in `low..high`.
        let mut low: usize = 0;
        let mut high: usize = self.starts.len();
        while high - low > 1
            invariant
                self.wf(),
                sizes == self.sizes@,
                low < high <= sizes.len(),
                start(sizes, low as int) <= offset,
                forall|j: int| high <= j < sizes.len() ==> #[trigger] start(sizes, j) > offset,
            decreases high - low,
        {
            let middle = low + (high - low) / 2;
            if self.starts[middle] <= offset {
                low = middle;
            } else {
                proof {
                    assert forall|j: int| middle <= j < sizes.len() implies #[trigger] start(
                        sizes,
                        j,
                    ) > offset by {
                        lemma_total_grows(sizes, middle as int, j);
                    }
                }
                high = middle;
            }
        }
        proof {
            let i = holder(sizes, offset)->0;
            text::lemma_last_before(0, n, starts_by(sizes, offset));
            if i < low {
                assert(starts_by(sizes, offset)(low as int));
            } else if i > low {
                assert(start(sizes, i) > offset);
            }
        }
        Some(low)
    }

    /// Every block index overlapping `[offset, end)`, clamped to the revision.
    pub fn blocks_in(&self, offset: u64, end: u64) -> (r: Range<usize>)
        requires
            self.wf(),
        ensures
            r == blocks_over(self@, offset, end),
            r.start <= r.end <= self@.len(),
    {
        let end = if end <= self.size {
            end
        } else {
            self.size
        };
        if offset >= end {
            return 0..0;
        }
        proof {
            law_every_byte_has_one_block(self@, offset);
            law_every_byte_has_one_block(self@, (end - 1) as u64);
            lemma_holders_in_order(self@, offset, (end - 1) as u64);
        }
        let first = match self.block_at(offset) {
            Some(i) => i,
            None => 0,
        };
        // `end` is exclusive, so the last byte read is `end - 1`.
        let last = match self.block_at(end - 1) {
            Some(i) => i,
            None => first,
        };
        let count: usize = self.sizes.len();
        assert(last < count);
        first..last + 1
    }
}

/// Where the bytes `[offset, end)` stop, inside the revision.
pub open spec fn clamped_end(sizes: Seq<u64>, end: u64) -> u64 {
    if end <= capped(total(sizes)) {
        end
    } else {
        capped(total(sizes))
    }
}

/// The blocks from the one that holds the first byte of `[offset, end)` to the
/// one that holds its last, as far as the revision goes.
pub open spec fn blocks_over(sizes: Seq<u64>, offset: u64, end: u64) -> Range<usize> {
    let stop = clamped_end(sizes, end);
    if offset >= stop {
        Range { start: 0, end: 0 }
    } else {
        Range {
            start: holder(sizes, offset)->0 as usize,
            end: (holder(sizes, (stop - 1) as u64)->0 + 1) as usize,
        }
    }
}

/// A later byte is not in an earlier block.
pub proof fn lemma_holders_in_order(sizes: Seq<u64>, a: u64, b: u64)
    requires
        a <= b < capped(total(sizes)),
    ensures
        holder(sizes, a) is Some,
        holder(sizes, b) is Some,
        0 <= holder(sizes, a)->0 <= holder(sizes, b)->0 < sizes.len(),
{
    law_every_byte_has_one_block(sizes, a);
    law_every_byte_has_one_block(sizes, b);
    let i = holder(sizes, a)->0;
    let j = holder(sizes, b)->0;
    if j < i {
        lemma_total_grows(sizes, j + 1, i);
    }
}

/// A block that holds any byte of the range is among the blocks read for it.
pub proof fn law_no_block_is_missed(sizes: Seq<u64>, offset: u64, end: u64, byte: u64)
    requires
        offset <= byte < end,
        byte < capped(total(sizes)),
        sizes.len() <= usize::MAX,
    ensures
        blocks_over(sizes, offset, end).start <= holder(sizes, byte)->0 < blocks_over(
            sizes,
            offset,
            end,
        ).end,
{
    let stop = clamped_end(sizes, end);
    lemma_holders_in_order(sizes, offset, byte);
    lemma_holders_in_order(sizes, byte, (stop - 1) as u64);
}

/// A read costs exactly the blocks it lands on: every block read for a range
/// holds a byte of it, unless it holds no byte at all.
pub proof fn law_no_block_is_read_in_vain(sizes: Seq<u64>, offset: u64, end: u64, i: int)
    requires
        sizes.len() <= usize::MAX,
        blocks_over(sizes, offset, end).start <= i < blocks_over(sizes, offset, end).end,
        sizes[i] > 0,
    ensures
        exists|byte: u64| offset <= byte < end && #[trigger] holder(sizes, byte) == Some(i),
{
    let stop = clamped_end(sizes, end);
    lemma_holders_in_order(sizes, offset, (stop - 1) as u64);
    law_every_byte_has_one_block(sizes, offset);
    law_every_byte_has_one_block(sizes, (stop - 1) as u64);
    let first = holder(sizes, offset)->0;
    let last = holder(sizes, (stop - 1) as u64)->0;
    if i == first {
        assert(holder(sizes, offset) == Some(i));
    } else {
        let byte = start(sizes, i);
        lemma_total_grows(sizes, first + 1, i);
        lemma_total_grows(sizes, i, last);
        lemma_total_next(sizes, i);
        law_every_byte_has_one_block(sizes, byte);
        assert(holder(sizes, byte) == Some(i));
    }
}

// ---------------------------------------------------------------------------
// Copying
// ---------------------------------------------------------------------------

pub open spec fn larger(a: u64, b: u64) -> u64 {
    if a >= b {
        a
    } else {
        b
    }
}

pub open spec fn smaller(a: u64, b: u64) -> u64 {
    if a <= b {
        a
    } else {
        b
    }
}

/// Where a block of `len` bytes ends.
pub open spec fn block_end(block_start: u64, len: nat) -> u64 {
    capped((block_start + len) as nat)
}

/// The bytes of `[offset, end)` that a block holds, from and to.
pub open spec fn overlap(block: Seq<u8>, block_start: u64, offset: u64, end: u64) -> (u64, u64) {
    (larger(offset, block_start), smaller(end, block_end(block_start, block.len())))
}

/// `out`, which stands for the bytes from `base` on, with the bytes of
/// `[offset, end)` that the block holds put in their places.
pub open spec fn spliced(
    out: Seq<u8>,
    base: u64,
    block: Seq<u8>,
    block_start: u64,
    offset: u64,
    end: u64,
) -> Seq<u8> {
    let (from, to) = overlap(block, block_start, offset, end);
    Seq::new(
        out.len(),
        |k: int|
            if from <= base + k < to {
                block[base + k - block_start]
            } else {
                out[k]
            },
    )
}

/// Copy the part of `block` that falls inside `[offset, end)` into `out`.
///
/// `block_start` is where this block begins in the plaintext, and `out_base`
/// where `out` does. Returns how many bytes were written.
pub fn splice(
    out: &mut [u8],
    out_base: u64,
    block: &[u8],
    block_start: u64,
    offset: u64,
    end: u64,
) -> (r: usize)
    requires
        ({
            let (from, to) = overlap(block@, block_start, offset, end);
            from < to ==> out_base <= from && to - out_base <= old(out)@.len()
        }),
    ensures
        final(out)@ == spliced(old(out)@, out_base, block@, block_start, offset, end),
        ({
            let (from, to) = overlap(block@, block_start, offset, end);
            r == if from < to {
                to - from
            } else {
                0
            }
        }),
{
    let len: usize = block.len();
    let block_end = block_start.saturating_add(len as u64);
    let from = if offset >= block_start {
        offset
    } else {
        block_start
    };
    let to = if end <= block_end {
        end
    } else {
        block_end
    };
    if from >= to {
        assert(out@ =~= spliced(old(out)@, out_base, block@, block_start, offset, end));
        return 0;
    }
    let ghost before = out@;
    let room: usize = out.len();
    let src: usize = (from - block_start) as usize;
    let dst: usize = (from - out_base) as usize;
    let count: usize = (to - from) as usize;
    let mut k: usize = 0;
    while k < count
        invariant
            k <= count,
            before.len() == room,
            out@.len() == room,
            block@.len() == len,
            src + count <= len,
            dst + count <= room,
            forall|j: int|
                0 <= j < room ==> #[trigger] out@[j] == if dst <= j < dst + k {
                    block@[src + (j - dst)]
                } else {
                    before[j]
                },
        decreases count - k,
    {
        out[dst + k] = block[src + k];
        k += 1;
    }
    assert(out@ =~= spliced(before, out_base, block@, block_start, offset, end));
    count
}

/// The plaintext of a revision.
pub open spec fn plaintext(blocks: Seq<Seq<u8>>) -> Seq<u8>
    decreases blocks.len(),
{
    if blocks.len() == 0 {
        Seq::empty()
    } else {
        plaintext(blocks.drop_last()) + blocks.last()
    }
}

/// Whether these are the sizes of those blocks.
pub open spec fn measures(sizes: Seq<u64>, blocks: Seq<Seq<u8>>) -> bool {
    &&& sizes.len() == blocks.len()
    &&& forall|i: int| 0 <= i < blocks.len() ==> (#[trigger] blocks[i]).len() == sizes[i]
}

proof fn lemma_plaintext(sizes: Seq<u64>, blocks: Seq<Seq<u8>>, i: int)
    requires
        measures(sizes, blocks),
        0 <= i < blocks.len(),
    ensures
        plaintext(blocks).len() == total(sizes),
        total(sizes.take(i)) + sizes[i] <= total(sizes),
        forall|k: int|
            0 <= k < sizes[i] ==> #[trigger] blocks[i][k] == plaintext(blocks)[total(sizes.take(i))
                + k],
    decreases blocks.len(),
{
    reveal_with_fuel(plaintext, 2);
    reveal_with_fuel(total, 2);
    let front = blocks.drop_last();
    let fewer = sizes.drop_last();
    let n = blocks.len() as int;
    assert(measures(fewer, front)) by {
        assert forall|j: int| 0 <= j < front.len() implies (#[trigger] front[j]).len()
            == fewer[j] by {
            assert(front[j] == blocks[j]);
        }
    }
    assert(blocks[n - 1].len() == sizes[n - 1]);
    lemma_total_next(sizes, i);
    lemma_total_grows(sizes, i + 1, n);
    assert(sizes.take(n) =~= sizes);
    assert(sizes.take(n - 1) =~= fewer);
    if front.len() == 0 {
        assert(i == n - 1);
        assert(sizes.take(i) =~= fewer);
    } else if i < n - 1 {
        lemma_plaintext(fewer, front, i);
        assert(fewer.take(i) =~= sizes.take(i));
        assert forall|k: int| 0 <= k < sizes[i] implies #[trigger] blocks[i][k] == plaintext(
            blocks,
        )[total(sizes.take(i)) + k] by {
            assert(front[i][k] == plaintext(front)[total(fewer.take(i)) + k]);
        }
    } else {
        lemma_plaintext(fewer, front, 0);
    }
}

/// `buf` with the overlapping parts of `blocks` put in, which are the blocks
/// from `first` on.
pub open spec fn filled(
    buf: Seq<u8>,
    sizes: Seq<u64>,
    offset: u64,
    end: u64,
    first: int,
    blocks: Seq<Seq<u8>>,
) -> Seq<u8>
    decreases blocks.len(),
{
    if blocks.len() == 0 {
        buf
    } else {
        spliced(
            filled(buf, sizes, offset, end, first, blocks.drop_last()),
            offset,
            blocks.last(),
            start(sizes, first + blocks.len() - 1),
            offset,
            end,
        )
    }
}

/// The bytes of shared blocks.
pub open spec fn block_bytes(blocks: Seq<Arc<Vec<u8>>>) -> Seq<Seq<u8>> {
    Seq::new(blocks.len(), |i: int| blocks[i]@)
}

proof fn lemma_filled_so_far(
    buf: Seq<u8>,
    sizes: Seq<u64>,
    data: Seq<Seq<u8>>,
    offset: u64,
    end: u64,
    first: int,
    n: int,
)
    requires
        measures(sizes, data),
        total(sizes) <= u64::MAX,
        0 <= first <= first + n <= data.len(),
        offset < end <= total(sizes),
        end - offset <= buf.len(),
    ensures
        ({
            let out = filled(buf, sizes, offset, end, first, data.subrange(first, first + n));
            &&& out.len() == buf.len()
            &&& forall|k: int|
                0 <= k < buf.len() ==> #[trigger] out[k] == if k < end - offset && start(
                    sizes,
                    first,
                ) <= offset + k < start(sizes, first + n) {
                    plaintext(data)[offset + k]
                } else {
                    buf[k]
                }
        }),
    decreases n,
{
    let some = data.subrange(first, first + n);
    let out = filled(buf, sizes, offset, end, first, some);
    if n > 0 {
        lemma_filled_so_far(buf, sizes, data, offset, end, first, n - 1);
        assert(some.drop_last() =~= data.subrange(first, first + n - 1));
        let i = first + n - 1;
        let before = filled(buf, sizes, offset, end, first, data.subrange(first, i));
        lemma_plaintext(sizes, data, i);
        lemma_total_grows(sizes, first, i);
        lemma_total_grows(sizes, i, i + 1);
        lemma_total_next(sizes, i);
        assert(some.last() == data[i]);
        assert forall|k: int| 0 <= k < buf.len() implies #[trigger] out[k] == if k < end - offset
            && start(sizes, first) <= offset + k < start(sizes, first + n) {
            plaintext(data)[offset + k]
        } else {
            buf[k]
        } by {
            let (from, to) = overlap(data[i], start(sizes, i), offset, end);
            if from <= offset + k < to {
                let at = offset + k - start(sizes, i);
                assert(data[i][at] == plaintext(data)[total(sizes.take(i)) + at]);
            } else {
                assert(out[k] == before[k]);
            }
        }
    }
}

/// The blocks over a range reach from before it to past it.
pub proof fn lemma_blocks_over(sizes: Seq<u64>, offset: u64, end: u64)
    requires
        total(sizes) <= u64::MAX,
        sizes.len() <= usize::MAX,
        offset < end <= total(sizes),
    ensures
        blocks_over(sizes, offset, end).start < blocks_over(sizes, offset, end).end <= sizes.len(),
        start(sizes, blocks_over(sizes, offset, end).start as int) <= offset,
        end <= start(sizes, blocks_over(sizes, offset, end).end as int),
{
    lemma_holders_in_order(sizes, offset, (end - 1) as u64);
    law_every_byte_has_one_block(sizes, offset);
    law_every_byte_has_one_block(sizes, (end - 1) as u64);
}

/// A read gives back what was stored: the blocks over a range, put together,
/// are the bytes of the plaintext in that range. What the buffer holds past them
/// stays.
#[verifier::spinoff_prover]
#[verifier::rlimit(40)]
pub proof fn law_a_read_gives_the_plaintext(
    buf: Seq<u8>,
    sizes: Seq<u64>,
    data: Seq<Seq<u8>>,
    offset: u64,
    end: u64,
)
    requires
        measures(sizes, data),
        total(sizes) <= u64::MAX,
        sizes.len() <= usize::MAX,
        offset < end <= total(sizes),
        end - offset <= buf.len(),
    ensures
        ({
            let wanted = blocks_over(sizes, offset, end);
            filled(
                buf,
                sizes,
                offset,
                end,
                wanted.start as int,
                data.subrange(wanted.start as int, wanted.end as int),
            ) == plaintext(data).subrange(offset as int, end as int) + buf.skip(end - offset)
        }),
{
    let wanted = blocks_over(sizes, offset, end);
    lemma_blocks_over(sizes, offset, end);
    let first = wanted.start as int;
    let last = wanted.end as int;
    lemma_filled_so_far(buf, sizes, data, offset, end, first, last - first);
    lemma_plaintext(sizes, data, 0);
    let out = filled(buf, sizes, offset, end, first, data.subrange(first, last));
    let part = plaintext(data).subrange(offset as int, end as int) + buf.skip(end - offset);
    let from = start(sizes, first);
    let to = start(sizes, last);
    assert(from <= offset && end <= to);
    assert forall|k: int| 0 <= k < out.len() implies #[trigger] out[k] == part[k] by {
        if k < end - offset {
            assert(from <= offset + k < to);
        }
    }
    assert(out =~= part);
}

// ---------------------------------------------------------------------------
// Blocks already in memory
// ---------------------------------------------------------------------------

/// A revision whose blocks are already in memory.
#[derive(Debug, PartialEq, Eq)]
pub struct MemoryBlocks {
    revision: String,
    blocks: Vec<Vec<u8>>,
    sizes: Vec<u64>,
}

impl MemoryBlocks {
    /// The revision's blocks.
    pub closed spec fn data(&self) -> Seq<Seq<u8>> {
        Seq::new(self.blocks@.len(), |i: int| self.blocks@[i]@)
    }

    pub closed spec fn revision(&self) -> Seq<char> {
        self.revision@
    }

    pub closed spec fn wf(&self) -> bool {
        measures(self.sizes@, self.data())
    }

    pub fn new(revision: String, blocks: Vec<Vec<u8>>) -> (r: Self)
        ensures
            r.wf(),
            r.revision() == revision@,
            r.data() == Seq::new(blocks@.len(), |i: int| blocks@[i]@),
    {
        let mut sizes: Vec<u64> = Vec::new();
        let mut i: usize = 0;
        while i < blocks.len()
            invariant
                i <= blocks@.len(),
                sizes@.len() == i,
                forall|j: int| 0 <= j < i ==> #[trigger] sizes@[j] == blocks@[j]@.len(),
            decreases blocks.len() - i,
        {
            sizes.push(blocks[i].len() as u64);
            i += 1;
        }
        MemoryBlocks { revision, blocks, sizes }
    }

    pub fn revision_id(&self) -> (r: &str)
        ensures
            r@ == self.revision(),
    {
        self.revision.as_str()
    }

    /// Plaintext size of each block, in block order.
    pub fn block_sizes(&self) -> (r: &[u64])
        requires
            self.wf(),
        ensures
            measures(r@, self.data()),
    {
        self.sizes.as_slice()
    }

    /// One block.
    pub fn read_block(&self, index: usize) -> (r: Result<Vec<u8>, Error>)
        ensures
            match r {
                Ok(block) => index < self.data().len() && block@ == self.data()[index as int],
                Err(e) => index >= self.data().len() && e is NotFound && e.text() == "block "@
                    + text::decimal(index as nat) + " is past the end"@,
            },
    {
        if index < self.blocks.len() {
            Ok(copy_bytes(&self.blocks[index]))
        } else {
            let mut message = text::owned("block ");
            let digits = text::from_chars(&text::decimal_of(index as u64));
            message.push_str(digits.as_str());
            message.push_str(" is past the end");
            Err(Error::NotFound(message))
        }
    }
}

/// A copy of some bytes.
pub fn copy_bytes(v: &[u8]) -> (r: Vec<u8>)
    ensures
        r@ == v@,
{
    let mut r: Vec<u8> = Vec::new();
    let mut i: usize = 0;
    while i < v.len()
        invariant
            i <= v@.len(),
            r@ == v@.take(i as int),
        decreases v.len() - i,
    {
        r.push(v[i]);
        i += 1;
        assert(v@.take(i as int) =~= v@.take(i - 1).push(v@[i - 1]));
    }
    assert(v@.take(v@.len() as int) =~= v@);
    r
}

/// Whether a block that came back is the block the map describes.
///
/// A short block here is not a tail: the map says how long it is. Serving it
/// would silently shift every later byte.
pub fn checked_block(map: &BlockMap, index: usize, revision: &str, block: Vec<u8>) -> (r: Result<
    Vec<u8>,
    Error,
>)
    requires
        map.wf(),
    ensures
        match r {
            Ok(b) => b@ == block@ && index < map@.len() && block@.len() == map@[index as int],
            Err(e) => e is NotFound && if index >= map@.len() {
                e.text() == "block "@ + text::decimal(index as nat)
                    + " is past the end of revision "@ + revision@
            } else {
                &&& block@.len() != map@[index as int]
                &&& e.text() == "block "@ + text::decimal(index as nat) + " came back "@
                    + text::decimal(block@.len()) + " bytes, expected "@ + text::decimal(
                    map@[index as int] as nat,
                )
            },
        },
{
    let mut message = text::owned("block ");
    let digits = text::from_chars(&text::decimal_of(index as u64));
    message.push_str(digits.as_str());
    match map.size_of(index) {
        None => {
            message.push_str(" is past the end of revision ");
            message.push_str(revision);
            Err(Error::NotFound(message))
        },
        Some(size) => {
            if block.len() as u64 != size {
                message.push_str(" came back ");
                let got = text::from_chars(&text::decimal_of(block.len() as u64));
                message.push_str(got.as_str());
                message.push_str(" bytes, expected ");
                let wanted = text::from_chars(&text::decimal_of(size));
                message.push_str(wanted.as_str());
                return Err(Error::NotFound(message));
            }
            Ok(block)
        },
    }
}

} // verus!
