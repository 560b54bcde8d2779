//! The blocks of one piece, gathered until the piece is whole and then
//! assembled in offset order for hashing and writing.

use vstd::prelude::*;

use sha1::{Digest, Sha1};

use crate::piece_picker::{PieceCheck, PiecePicker};

verus! {

/// A block of a piece that was received.
#[derive(Clone, Debug)]
pub struct ReceivedBlock {
    pub offset: u32,
    pub data: Vec<u8>,
}

/// The total length of the blocks' data.
pub open spec fn data_len(blocks: Seq<ReceivedBlock>) -> int
    decreases blocks.len(),
{
    if blocks.len() == 0 {
        0
    } else {
        data_len(blocks.drop_last()) + blocks.last().data@.len()
    }
}

/// The blocks' data, one after the other.
pub open spec fn joined(blocks: Seq<ReceivedBlock>) -> Seq<u8>
    decreases blocks.len(),
{
    if blocks.len() == 0 {
        Seq::empty()
    } else {
        joined(blocks.drop_last()) + blocks.last().data@
    }
}

/// Where a block ends in its piece.
pub open spec fn block_end(b: ReceivedBlock) -> int {
    b.offset + b.data@.len()
}

/// The blocks of a piece received so far, ordered by offset and never
/// overlapping.
pub struct PieceBuffer {
    pub piece_index: usize,
    pub piece_len: u32,
    /// The blocks received, in offset order.
    pub blocks: Vec<ReceivedBlock>,
    /// The number of bytes received.
    pub received: u32,
}

impl PieceBuffer {
    /// The blocks received, in offset order.
    pub open spec fn blocks(&self) -> Seq<ReceivedBlock> {
        self.blocks@
    }

    /// The blocks are non-empty, within the piece, in increasing order of
    /// offset without overlap, and `received` counts their bytes.
    pub open spec fn wf(&self) -> bool {
        &&& forall|k: int| 0 <= k < self.blocks@.len() ==> {
            &&& #[trigger] self.blocks@[k].data@.len() > 0
            &&& block_end(self.blocks@[k]) <= self.piece_len
        }
        &&& forall|k: int| 0 <= k < self.blocks@.len() - 1 ==> block_end(#[trigger] self.blocks@[k])
            <= self.blocks@[k + 1].offset
        &&& self.received == data_len(self.blocks@)
    }

    /// The number of bytes received.
    pub open spec fn received(&self) -> int {
        self.received as int
    }

    /// An empty buffer for piece `piece_index` of `piece_len` bytes.
    pub fn new(piece_index: usize, piece_len: u32) -> (r: Self)
        ensures
            r.wf(),
            r.piece_index == piece_index,
            r.piece_len == piece_len,
            r.blocks().len() == 0,
    {
        PieceBuffer { piece_index, piece_len, blocks: Vec::new(), received: 0 }
    }

    /// The index of the first block whose offset is not below `offset`.
    fn find_slot(&self, offset: u32) -> (i: usize)
        requires
            self.wf(),
        ensures
            i <= self.blocks@.len(),
            forall|k: int| 0 <= k < i ==> #[trigger] self.blocks@[k].offset < offset,
            i < self.blocks@.len() ==> self.blocks@[i as int].offset >= offset,
    {
        let n = self.blocks.len();
        let mut i: usize = 0;
        while i < n && self.blocks[i].offset < offset
            invariant
                i <= n,
                n == self.blocks@.len(),
                forall|k: int| 0 <= k < i ==> #[trigger] self.blocks@[k].offset < offset,
            decreases n - i,
        {
            i = i + 1;
        }
        i
    }

    /// Adds a block, unless it is empty, reaches beyond the piece, or
    /// overlaps a block already received. Returns whether it was added.
    pub fn add_block(&mut self, offset: u32, data: Vec<u8>) -> (r: bool)
        requires
            old(self).wf(),
        ensures
            final(self).wf(),
            final(self).piece_index == old(self).piece_index,
            final(self).piece_len == old(self).piece_len,
            r ==> final(self).received() == old(self).received() + data@.len(),
            r ==> exists|i: int|
                0 <= i <= old(self).blocks().len() && (forall|k: int| 0 <= k < i ==> #[trigger] old(self).blocks()[k].offset
                    < offset) && (i < old(self).blocks().len() ==> old(self).blocks()[i].offset >= offset)
                    && final(self).blocks() == old(self).blocks().insert(i, ReceivedBlock { offset, data }),
            !r ==> final(self).blocks() == old(self).blocks(),
            r == (data@.len() > 0 && offset + data@.len() <= old(self).piece_len && forall|k: int|
                0 <= k < old(self).blocks().len() ==> disjoint(#[trigger] old(self).blocks()[k], offset as int, offset + data@.len())),
    {
        let len = data.len();
        if len == 0 || offset > self.piece_len || len as u64 > (self.piece_len - offset) as u64 {
            return false;
        }
        let n = self.blocks.len();
        let i = self.find_slot(offset);
        let end = offset as u64 + len as u64;
        let fits_before = i == n || end <= self.blocks[i].offset as u64;
        let fits_after = i == 0 || self.blocks[i - 1].offset as u64 + self.blocks[i - 1].data.len() as u64 <= offset as u64;
        proof {
            lemma_free_iff(old(self).blocks(), i as int, offset as int, offset + data@.len());
        }
        if !(fits_before && fits_after) {
            return false;
        }
        let ghost before = self.blocks@;
        let ghost b = ReceivedBlock { offset, data };
        self.blocks.insert(i, ReceivedBlock { offset, data });
        proof {
            lemma_insert_sorted(before, i as int, b, self.piece_len as int);
            lemma_data_len_insert(before, i as int, b);
            lemma_data_len_bound(self.blocks@, self.piece_len as int);
        }
        self.received = self.received + len as u32;
        assert(self.blocks@ == before.insert(i as int, b));
        true
    }

    /// Whether every byte of the piece was received.
    pub fn is_complete(&self) -> (r: bool)
        requires
            self.wf(),
        ensures
            r == (self.received() == self.piece_len),
    {
        self.received == self.piece_len
    }

    /// The blocks' bytes in offset order.
    pub fn assemble(&self) -> (r: Vec<u8>)
        requires
            self.wf(),
        ensures
            r@ == joined(self.blocks()),
    {
        let mut out: Vec<u8> = Vec::new();
        let mut k: usize = 0;
        while k < self.blocks.len()
            invariant
                k <= self.blocks@.len(),
                out@ == joined(self.blocks@.take(k as int)),
            decreases self.blocks@.len() - k,
        {
            let data = &self.blocks[k].data;
            let ghost start = out@;
            let mut j: usize = 0;
            while j < data.len()
                invariant
                    j <= data@.len(),
                    out@ == start + data@.take(j as int),
                decreases data@.len() - j,
            {
                out.push(data[j]);
                j = j + 1;
                assert(out@ =~= start + data@.take(j as int));
            }
            assert(data@.take(j as int) =~= data@);
            assert(self.blocks@.take(k + 1).drop_last() =~= self.blocks@.take(k as int));
            k = k + 1;
        }
        assert(self.blocks@.take(k as int) =~= self.blocks@);
        out
    }
}

/// The SHA-1 digest of a byte string.
pub uninterp spec fn sha1_of(data: Seq<u8>) -> Seq<u8>;

/// Relies on sha1's `Sha1::digest`: the SHA-1 digest of the bytes.
#[verifier::external_body]
fn sha1_digest(data: &Vec<u8>) -> (r: [u8; 20])
    ensures
        r@ == sha1_of(data@),
{
    let out = Sha1::digest(data.as_slice());
    let mut r = [0u8; 20];
    r.copy_from_slice(&out);
    r
}

impl PieceBuffer {
    /// Assembles the piece, hashes it and records the outcome in the
    /// picker: the piece is had when its digest is `expected`, and may be
    /// picked again otherwise. Returns the outcome and the piece's bytes,
    /// which are written only when it completed.
    pub fn check(&self, picker: &mut PiecePicker, expected: &[u8; 20]) -> (r: (PieceCheck, Vec<u8>))
        requires
            self.wf(),
            old(picker).wf(),
            self.piece_index < old(picker).own().len(),
            !old(picker).own()[self.piece_index as int],
            old(picker).piece_meta()[self.piece_index as int].is_pending,
        ensures
            final(picker).wf(),
            r.1@ == joined(self.blocks()),
            (r.0 == PieceCheck::Completed(self.piece_index)) == (sha1_of(joined(self.blocks())) == expected@),
            (r.0 == PieceCheck::Invalid(self.piece_index)) == (sha1_of(joined(self.blocks())) != expected@),
            final(picker).own() == if r.0 == PieceCheck::Completed(self.piece_index) {
                old(picker).own().update(self.piece_index as int, true)
            } else {
                old(picker).own()
            },
            !final(picker).piece_meta()[self.piece_index as int].is_pending,
    {
        let bytes = self.assemble();
        let digest = sha1_digest(&bytes);
        let outcome = picker.piece_checked(self.piece_index, &digest, expected);
        (outcome, bytes)
    }
}

/// Whether a piece's computed digest is the one the metainfo lists.
pub fn piece_matches(computed: &[u8; 20], expected: &[u8; 20]) -> (r: bool)
    ensures
        r == (computed@ == expected@),
{
    let mut i: usize = 0;
    while i < 20
        invariant
            i <= 20,
            forall|j: int| 0 <= j < i ==> computed@[j] == expected@[j],
        decreases 20 - i,
    {
        if computed[i] != expected[i] {
            return false;
        }
        i = i + 1;
    }
    assert(computed@ =~= expected@);
    true
}

/// A block lies wholly before or wholly after the bytes `[start, end)`.
pub open spec fn disjoint(b: ReceivedBlock, start: int, end: int) -> bool {
    block_end(b) <= start || end <= b.offset
}

/// At the slot where a block would go, it overlaps no block exactly when it
/// ends before the next block and starts after the previous one ends.
proof fn lemma_free_iff(blocks: Seq<ReceivedBlock>, i: int, start: int, end: int)
    requires
        0 <= i <= blocks.len(),
        start < end,
        forall|k: int| 0 <= k < blocks.len() ==> #[trigger] blocks[k].data@.len() > 0,
        forall|k: int| 0 <= k < blocks.len() - 1 ==> block_end(#[trigger] blocks[k]) <= blocks[k + 1].offset,
        forall|k: int| 0 <= k < i ==> #[trigger] blocks[k].offset < start,
        i < blocks.len() ==> blocks[i].offset >= start,
    ensures
        (forall|k: int| 0 <= k < blocks.len() ==> disjoint(#[trigger] blocks[k], start, end)) == ((i
            == blocks.len() || end <= blocks[i].offset) && (i == 0 || block_end(blocks[i - 1]) <= start)),
{
    lemma_sorted_ends(blocks, i);
    if (i == blocks.len() || end <= blocks[i].offset) && (i == 0 || block_end(blocks[i - 1]) <= start) {
        assert forall|k: int| 0 <= k < blocks.len() implies disjoint(#[trigger] blocks[k], start, end) by {
            if k < i - 1 {
                assert(block_end(blocks[k]) <= blocks[i - 1].offset);
            } else if k > i {
                assert(block_end(blocks[i]) <= blocks[k].offset);
                assert(blocks[i].data@.len() > 0);
            }
        }
    } else {
        if !(i == blocks.len() || end <= blocks[i].offset) {
            assert(blocks[i].data@.len() > 0);
            assert(!disjoint(blocks[i], start, end));
        } else {
            assert(!disjoint(blocks[i - 1], start, end));
        }
    }
}

/// Inserting a non-empty block in the piece at a slot where it overlaps no
/// neighbour keeps the blocks in order without overlap.
proof fn lemma_insert_sorted(blocks: Seq<ReceivedBlock>, i: int, b: ReceivedBlock, piece_len: int)
    requires
        0 <= i <= blocks.len(),
        b.data@.len() > 0,
        block_end(b) <= piece_len,
        forall|k: int| 0 <= k < blocks.len() ==> {
            &&& #[trigger] blocks[k].data@.len() > 0
            &&& block_end(blocks[k]) <= piece_len
        },
        forall|k: int| 0 <= k < blocks.len() - 1 ==> block_end(#[trigger] blocks[k]) <= blocks[k + 1].offset,
        i < blocks.len() ==> block_end(b) <= blocks[i].offset,
        i > 0 ==> block_end(blocks[i - 1]) <= b.offset,
    ensures
        forall|k: int| 0 <= k < blocks.len() + 1 ==> {
            &&& #[trigger] blocks.insert(i, b)[k].data@.len() > 0
            &&& block_end(blocks.insert(i, b)[k]) <= piece_len
        },
        forall|k: int| 0 <= k < blocks.len() ==> block_end(#[trigger] blocks.insert(i, b)[k])
            <= blocks.insert(i, b)[k + 1].offset,
{
    let s = blocks.insert(i, b);
    assert forall|k: int| 0 <= k < blocks.len() + 1 implies {
        &&& #[trigger] s[k].data@.len() > 0
        &&& block_end(s[k]) <= piece_len
    } by {
        if k < i {
            assert(s[k] == blocks[k]);
        } else if k > i {
            assert(s[k] == blocks[k - 1]);
        }
    }
    assert forall|k: int| 0 <= k < blocks.len() implies block_end(#[trigger] s[k]) <= s[k + 1].offset by {
        if k < i - 1 {
            assert(s[k] == blocks[k]);
            assert(s[k + 1] == blocks[k + 1]);
        } else if k == i - 1 {
            assert(s[k] == blocks[k]);
        } else if k == i {
            assert(s[k + 1] == blocks[k]);
        } else {
            assert(s[k] == blocks[k - 1]);
            assert(s[k + 1] == blocks[k]);
        }
    }
}

/// Blocks in order end before the offsets of all later blocks.
proof fn lemma_sorted_ends(blocks: Seq<ReceivedBlock>, i: int)
    requires
        0 <= i <= blocks.len(),
        forall|k: int| 0 <= k < blocks.len() ==> #[trigger] blocks[k].data@.len() > 0,
        forall|k: int| 0 <= k < blocks.len() - 1 ==> block_end(#[trigger] blocks[k]) <= blocks[k + 1].offset,
    ensures
        forall|k: int, l: int| 0 <= k < l < blocks.len() ==> block_end(#[trigger] blocks[k]) <= #[trigger] blocks[l].offset,
{
    assert forall|k: int, l: int| 0 <= k < l < blocks.len() implies block_end(#[trigger] blocks[k]) <= #[trigger] blocks[l].offset by {
        lemma_sorted_pair(blocks, k, l);
    }
}

proof fn lemma_sorted_pair(blocks: Seq<ReceivedBlock>, k: int, l: int)
    requires
        0 <= k < l < blocks.len(),
        forall|m: int| 0 <= m < blocks.len() ==> #[trigger] blocks[m].data@.len() > 0,
        forall|m: int| 0 <= m < blocks.len() - 1 ==> block_end(#[trigger] blocks[m]) <= blocks[m + 1].offset,
    ensures
        block_end(blocks[k]) <= blocks[l].offset,
    decreases l - k,
{
    if l > k + 1 {
        lemma_sorted_pair(blocks, k + 1, l);
        assert(block_end(blocks[k]) <= blocks[k + 1].offset);
    }
}

/// The data of blocks within a piece, in order without overlap, fits the
/// piece.
proof fn lemma_data_len_bound(blocks: Seq<ReceivedBlock>, piece_len: int)
    requires
        piece_len >= 0,
        forall|k: int| 0 <= k < blocks.len() ==> {
            &&& #[trigger] blocks[k].data@.len() > 0
            &&& block_end(blocks[k]) <= piece_len
        },
        forall|k: int| 0 <= k < blocks.len() - 1 ==> block_end(#[trigger] blocks[k]) <= blocks[k + 1].offset,
    ensures
        data_len(blocks) <= if blocks.len() == 0 { 0 } else { block_end(blocks.last()) },
        data_len(blocks) <= piece_len,
        data_len(blocks) >= 0,
    decreases blocks.len(),
{
    if blocks.len() > 0 {
        let rest = blocks.drop_last();
        assert(blocks[blocks.len() - 1].data@.len() > 0);
        assert forall|k: int| 0 <= k < rest.len() implies {
            &&& #[trigger] rest[k].data@.len() > 0
            &&& block_end(rest[k]) <= piece_len
        } by {
            assert(rest[k] == blocks[k]);
            assert(blocks[k].data@.len() > 0);
        }
        assert forall|k: int| 0 <= k < rest.len() - 1 implies block_end(#[trigger] rest[k]) <= rest[k + 1].offset by {
            assert(rest[k] == blocks[k]);
            assert(block_end(blocks[k]) <= blocks[k + 1].offset);
        }
        lemma_data_len_bound(rest, piece_len);
        if rest.len() > 0 {
            assert(block_end(blocks[rest.len() - 1]) <= blocks[rest.len() as int].offset);
        }
        assert(block_end(blocks.last()) <= piece_len);
        assert(data_len(blocks) == data_len(rest) + blocks.last().data@.len());
    }
}

/// Inserting a block adds its length to the total.
proof fn lemma_data_len_insert(blocks: Seq<ReceivedBlock>, i: int, b: ReceivedBlock)
    requires
        0 <= i <= blocks.len(),
    ensures
        data_len(blocks.insert(i, b)) == data_len(blocks) + b.data@.len(),
    decreases blocks.len(),
{
    if i == blocks.len() {
        assert(blocks.insert(i, b).drop_last() =~= blocks);
    } else {
        assert(blocks.insert(i, b).drop_last() =~= blocks.drop_last().insert(i, b));
        lemma_data_len_insert(blocks.drop_last(), i, b);
    }
}

/// The joined data is as long as the blocks' data together.
proof fn lemma_joined_len(blocks: Seq<ReceivedBlock>)
    ensures
        joined(blocks).len() == data_len(blocks),
    decreases blocks.len(),
{
    if blocks.len() > 0 {
        lemma_joined_len(blocks.drop_last());
    }
}

/// The data of the first `m` blocks is a prefix of the data of all.
proof fn lemma_joined_prefix(blocks: Seq<ReceivedBlock>, m: int, i: int)
    requires
        0 <= m <= blocks.len(),
        0 <= i < data_len(blocks.take(m)),
    ensures
        joined(blocks)[i] == joined(blocks.take(m))[i],
    decreases blocks.len() - m,
{
    if m < blocks.len() {
        let t = blocks.take(m + 1);
        assert(t.drop_last() =~= blocks.take(m));
        lemma_joined_len(blocks.take(m));
        lemma_data_len_nonneg(t);
        lemma_joined_prefix(blocks, m + 1, i);
    } else {
        assert(blocks.take(m) =~= blocks);
    }
}

proof fn lemma_data_len_nonneg(blocks: Seq<ReceivedBlock>)
    ensures
        data_len(blocks) >= 0,
    decreases blocks.len(),
{
    if blocks.len() > 0 {
        lemma_data_len_nonneg(blocks.drop_last());
    }
}

/// Where block `k` would begin if the blocks before it left no gaps, it
/// begins no later than it does, and the shortfall only grows towards the
/// last block.
proof fn lemma_gaps(blocks: Seq<ReceivedBlock>, k: int)
    requires
        0 <= k < blocks.len(),
        forall|m: int| 0 <= m < blocks.len() - 1 ==> block_end(#[trigger] blocks[m]) <= blocks[m + 1].offset,
    ensures
        blocks[k].offset - data_len(blocks.take(k)) >= blocks[0].offset,
        blocks[k].offset - data_len(blocks.take(k)) <= block_end(blocks.last()) - data_len(blocks),
    decreases blocks.len() - k,
{
    if k == 0 {
        assert(blocks.take(0) =~= Seq::<ReceivedBlock>::empty());
    } else {
        lemma_gaps_up(blocks, k);
    }
    if k < blocks.len() - 1 {
        lemma_gaps(blocks, k + 1);
        assert(blocks.take(k + 1).drop_last() =~= blocks.take(k));
        assert(block_end(blocks[k]) <= blocks[k + 1].offset);
    } else {
        assert(blocks.take(k + 1) =~= blocks);
        assert(blocks.take(k + 1).drop_last() =~= blocks.take(k));
    }
}

proof fn lemma_gaps_up(blocks: Seq<ReceivedBlock>, k: int)
    requires
        0 <= k < blocks.len(),
        forall|m: int| 0 <= m < blocks.len() - 1 ==> block_end(#[trigger] blocks[m]) <= blocks[m + 1].offset,
    ensures
        blocks[k].offset - data_len(blocks.take(k)) >= blocks[0].offset,
    decreases k,
{
    if k == 0 {
        assert(blocks.take(0) =~= Seq::<ReceivedBlock>::empty());
    } else {
        lemma_gaps_up(blocks, k - 1);
        assert(blocks.take(k).drop_last() =~= blocks.take(k - 1));
        assert(block_end(blocks[k - 1]) <= blocks[k].offset);
    }
}

/// Once every byte of a piece is received, the blocks leave no gaps: the
/// assembled bytes are as long as the piece, and each block's bytes sit at
/// its offset.
pub proof fn lemma_complete_assembly(buf: PieceBuffer)
    requires
        buf.wf(),
        buf.received() == buf.piece_len,
    ensures
        joined(buf.blocks()).len() == buf.piece_len,
        forall|k: int, j: int| 0 <= k < buf.blocks().len() && 0 <= j < buf.blocks()[k].data@.len()
            ==> joined(buf.blocks())[buf.blocks()[k].offset + j] == #[trigger] buf.blocks()[k].data@[j],
{
    let blocks = buf.blocks();
    lemma_joined_len(blocks);
    assert forall|k: int, j: int| 0 <= k < blocks.len() && 0 <= j < blocks[k].data@.len()
        implies joined(blocks)[blocks[k].offset + j] == #[trigger] blocks[k].data@[j] by {
        lemma_gaps(blocks, k);
        assert(blocks[blocks.len() - 1].data@.len() > 0);
        assert(block_end(blocks.last()) <= buf.piece_len);
        assert(blocks[0].data@.len() > 0);
        let t = blocks.take(k + 1);
        assert(t.drop_last() =~= blocks.take(k));
        lemma_joined_len(blocks.take(k));
        lemma_data_len_nonneg(blocks.take(k));
        assert(joined(t) == joined(blocks.take(k)) + blocks[k].data@);
        lemma_joined_prefix(blocks, k + 1, blocks[k].offset + j);
    }
}

} // verus!
