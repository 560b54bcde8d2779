//! The decisions of a peer session: choke and interest flags, and the
//! pipeline of block requests kept outstanding while the peer lets us
//! download.
//!
//! The session performs no I/O. It is told what the peer sent and answers
//! with the requests to send.

use vstd::prelude::*;

use crate::bitfield::{bits, from_wire_bytes, wire_bit, MAX_BITFIELD_LEN};
use crate::piece_picker::PiecePicker;
use crate::storage::StorageInfo;
use crate::{BlockInfo, BLOCK_LEN};

verus! {

/// The number of block requests kept outstanding while unchoked.
pub const PIPELINE_TARGET: usize = 4;

/// The piece a session is downloading.
#[derive(Clone, Copy, Debug, PartialEq, Eq, Structural)]
pub struct Download {
    pub piece_index: usize,
    pub piece_len: u32,
    /// The offset of the first block not yet requested.
    pub next_offset: u32,
    /// The bytes of the piece received so far.
    pub received: u32,
}

/// What became of a block the peer sent.
#[derive(Clone, Copy, Debug, PartialEq, Eq, Structural)]
pub enum BlockOutcome {
    /// The block answers no outstanding request.
    Unexpected,
    /// The block answers a request; the piece is not complete yet.
    Accepted,
    /// The block completes the piece, which the session releases.
    PieceDone(usize),
}

/// The state of one connection after the handshake.
#[derive(Debug)]
pub struct PeerSession {
    pub am_choking: bool,
    pub am_interested: bool,
    pub peer_choking: bool,
    pub peer_interested: bool,
    /// Requests sent and not yet answered.
    pub pending: Vec<BlockInfo>,
    /// Requests that a choke cancelled, to be sent again.
    pub retry: Vec<BlockInfo>,
    /// The piece being downloaded.
    pub download: Option<Download>,
    /// Whether a typed message was received; a bitfield may only come
    /// before any.
    pub seen_message: bool,
    /// The peer's requests waiting for their blocks to be read from disk.
    pub to_serve: Vec<BlockInfo>,
}

/// The length of the block at `offset` of a piece of `piece_len` bytes.
pub open spec fn block_len(piece_len: u32, offset: u32) -> u32 {
    if piece_len - offset < BLOCK_LEN {
        (piece_len - offset) as u32
    } else {
        BLOCK_LEN
    }
}

/// The bytes of the piece counted once block `b` is received.
pub open spec fn counted(d: Download, b: BlockInfo) -> int {
    if b.len <= d.piece_len - d.received {
        d.received + b.len
    } else {
        d.received as int
    }
}

/// Room left in a pipeline holding `pending` requests.
pub open spec fn room(pending: Seq<BlockInfo>) -> nat {
    if pending.len() < PIPELINE_TARGET {
        (PIPELINE_TARGET - pending.len()) as nat
    } else {
        0
    }
}

/// The number of set-aside requests sent again into `room`.
pub open spec fn resent(retry_len: nat, room: nat) -> nat {
    if retry_len < room {
        retry_len
    } else {
        room
    }
}

/// The next `room` blocks of a piece from `offset`, in ascending order,
/// each of `BLOCK_LEN` bytes but the last of the piece.
pub open spec fn next_blocks(piece_index: usize, piece_len: u32, offset: u32, room: nat) -> Seq<BlockInfo>
    decreases room,
{
    if room == 0 || offset >= piece_len {
        Seq::empty()
    } else {
        let len = block_len(piece_len, offset);
        seq![BlockInfo { piece_index, offset, len }] + next_blocks(
            piece_index,
            piece_len,
            (offset + len) as u32,
            (room - 1) as nat,
        )
    }
}

/// The offset of the first block not requested after `next_blocks`.
pub open spec fn offset_after(piece_len: u32, offset: u32, room: nat) -> u32
    decreases room,
{
    if room == 0 || offset >= piece_len {
        offset
    } else {
        offset_after(piece_len, (offset + block_len(piece_len, offset)) as u32, (room - 1) as nat)
    }
}

/// `after` is `before` without the first occurrence of `x`, or `before`
/// itself when `x` does not occur.
pub open spec fn removed_first(before: Seq<BlockInfo>, after: Seq<BlockInfo>, x: BlockInfo) -> bool {
    if before.contains(x) {
        exists|k: int|
            0 <= k < before.len() && before[k] == x && (forall|j: int| 0 <= j < k ==> before[j] != x)
                && after == before.remove(k)
    } else {
        after == before
    }
}

/// Removes the first occurrence of `x`, and returns whether there was one.
fn remove_first(v: &mut Vec<BlockInfo>, x: BlockInfo) -> (r: bool)
    ensures
        r == old(v)@.contains(x),
        removed_first(old(v)@, final(v)@, x),
{
    let mut i: usize = 0;
    while i < v.len()
        invariant
            i <= v@.len(),
            v@ == old(v)@,
            forall|j: int| 0 <= j < i ==> v@[j] != x,
        decreases v@.len() - i,
    {
        if v[i] == x {
            let ghost before = v@;
            v.remove(i);
            assert(before[i as int] == x);
            assert(before.contains(x));
            assert(0 <= i < before.len() && before[i as int] == x && (forall|j: int| 0 <= j < i ==> before[j] != x)
                && v@ == before.remove(i as int));
            return true;
        }
        i = i + 1;
    }
    assert(!old(v)@.contains(x));
    false
}

/// The choke and interest flags of two sessions agree.
pub open spec fn same_flags(a: PeerSession, b: PeerSession) -> bool {
    &&& a.am_choking == b.am_choking
    &&& a.am_interested == b.am_interested
    &&& a.peer_choking == b.peer_choking
    &&& a.peer_interested == b.peer_interested
}

/// The piece a session fills its pipeline from: the current one, or else
/// piece `picked` from its start.
pub open spec fn working(s: PeerSession, picked: usize, info: StorageInfo) -> Download {
    match s.download {
        Some(d) => d,
        None => Download {
            piece_index: picked,
            piece_len: info.piece_length(picked as int) as u32,
            next_offset: 0,
            received: 0,
        },
    }
}

/// What filling the pipeline of `s` left, with `e` the download after it
/// and `r` the requests sent: a piece was picked only when there was none,
/// as the picker's lowest eligible piece; the set-aside requests came
/// first, then the next blocks of the piece, up to the pipeline target.
pub open spec fn filled(s: PeerSession, p: PiecePicker, info: StorageInfo, e: Download, r: Seq<BlockInfo>) -> bool {
    let d = working(s, e.piece_index, info);
    let k = resent(s.retry@.len(), room(s.pending@));
    &&& s.download is None ==> {
        &&& e.piece_index < p.own().len()
        &&& p.eligible(e.piece_index as int)
        &&& forall|j: int| 0 <= j < e.piece_index ==> !p.eligible(j)
    }
    &&& r == s.retry@.take(k as int) + next_blocks(d.piece_index, d.piece_len, d.next_offset, (room(s.pending@) - k) as nat)
    &&& e == (Download { next_offset: offset_after(d.piece_len, d.next_offset, (room(s.pending@) - k) as nat), ..d })
}

/// A request lies within the piece being downloaded.
pub open spec fn within(d: Download, b: BlockInfo) -> bool {
    &&& b.piece_index == d.piece_index
    &&& 0 < b.len <= BLOCK_LEN
    &&& b.offset + b.len <= d.piece_len
}

impl PeerSession {
    /// The requests outstanding.
    pub open spec fn outstanding(&self) -> Seq<BlockInfo> {
        self.pending@
    }

    /// The requests waiting to be sent again.
    pub open spec fn to_retry(&self) -> Seq<BlockInfo> {
        self.retry@
    }

    /// The piece being downloaded, if any.
    pub open spec fn current(&self) -> Option<Download> {
        self.download
    }

    /// Every request is for the piece being downloaded, and lies within it.
    pub open spec fn wf(&self) -> bool {
        &&& self.pending@.len() <= PIPELINE_TARGET
        &&& self.download is None ==> self.pending@.len() == 0 && self.retry@.len() == 0
        &&& self.download is Some ==> self.download_wf(self.download->Some_0)
    }

    /// The requests of a session that downloads `d` lie within it.
    pub open spec fn download_wf(&self, d: Download) -> bool {
        &&& d.next_offset <= d.piece_len
        &&& d.received <= d.piece_len
        &&& forall|i: int| 0 <= i < self.pending@.len() ==> within(d, #[trigger] self.pending@[i])
        &&& forall|i: int| 0 <= i < self.retry@.len() ==> within(d, #[trigger] self.retry@[i])
    }

    /// A new session: choking and choked, interested in nothing.
    pub fn new() -> (r: Self)
        ensures
            r.wf(),
            r.am_choking && !r.am_interested && r.peer_choking && !r.peer_interested,
            r.outstanding().len() == 0,
            r.current() is None,
            !r.seen_message,
            r.to_serve@.len() == 0,
    {
        PeerSession {
            am_choking: true,
            am_interested: false,
            peer_choking: true,
            peer_interested: false,
            pending: Vec::new(),
            retry: Vec::new(),
            download: None,
            seen_message: false,
            to_serve: Vec::new(),
        }
    }

    /// The number of requests outstanding.
    pub fn outstanding_count(&self) -> (r: usize)
        ensures
            r == self.outstanding().len(),
    {
        self.pending.len()
    }

    /// Records whether we are interested in the peer's pieces, and returns
    /// whether that changed, so that Interested or NotInterested is sent.
    pub fn set_interest(&mut self, interested: bool) -> (changed: bool)
        requires
            old(self).wf(),
        ensures
            final(self).wf(),
            final(self).am_interested == interested,
            changed == (old(self).am_interested != interested),
            final(self).peer_choking == old(self).peer_choking,
            final(self).outstanding() == old(self).outstanding(),
            final(self).current() == old(self).current(),
            final(self).seen_message == old(self).seen_message,
            final(self).to_serve == old(self).to_serve,
    {
        let changed = self.am_interested != interested;
        self.am_interested = interested;
        changed
    }

    /// The peer choked us: its outstanding requests will not be answered,
    /// so they are kept to be sent again, and none is outstanding. The
    /// session stays open.
    pub fn on_choke(&mut self)
        requires
            old(self).wf(),
        ensures
            final(self).wf(),
            final(self).peer_choking,
            final(self).outstanding().len() == 0,
            final(self).to_retry() == old(self).to_retry() + old(self).outstanding(),
            final(self).current() == old(self).current(),
            final(self).am_interested == old(self).am_interested,
            final(self).seen_message,
            final(self).to_serve == old(self).to_serve,
    {
        self.seen_message = true;
        self.peer_choking = true;
        let ghost before = self.retry@;
        let ghost out = self.pending@;
        let mut i: usize = 0;
        while i < self.pending.len()
            invariant
                i <= self.pending@.len(),
                self.pending@ == out,
                self.download == old(self).download,
                self.peer_choking,
                self.seen_message,
                self.to_serve == old(self).to_serve,
                self.am_interested == old(self).am_interested,
                self.retry@ == before + out.take(i as int),
            decreases self.pending@.len() - i,
        {
            let b = self.pending[i];
            self.retry.push(b);
            i = i + 1;
            assert(self.retry@ =~= before + out.take(i as int));
        }
        assert(out.take(i as int) =~= out);
        self.pending = Vec::new();
    }

    /// The peer unchoked us.
    pub fn on_unchoke(&mut self)
        requires
            old(self).wf(),
        ensures
            final(self).wf(),
            !final(self).peer_choking,
            final(self).outstanding() == old(self).outstanding(),
            final(self).to_retry() == old(self).to_retry(),
            final(self).current() == old(self).current(),
            final(self).am_interested == old(self).am_interested,
            final(self).seen_message,
            final(self).to_serve == old(self).to_serve,
    {
        self.seen_message = true;
        self.peer_choking = false;
    }

    /// Moves set-aside requests back to the outstanding ones, oldest first,
    /// while there is room in the pipeline.
    fn resend(&mut self, d: Download) -> (r: Vec<BlockInfo>)
        requires
            old(self).wf(),
            old(self).download == Some(d),
        ensures
            final(self).wf(),
            final(self).download == Some(d),
            same_flags(*final(self), *old(self)),
            r@ == old(self).to_retry().take(resent(old(self).to_retry().len(), room(old(self).outstanding())) as int),
            final(self).to_retry() == old(self).to_retry().skip(resent(old(self).to_retry().len(), room(old(self).outstanding())) as int),
            final(self).outstanding() == old(self).outstanding() + r@,
    {
        let ghost start = self.pending@;
        let ghost retry0 = self.retry@;
        let ghost k = resent(retry0.len(), room(start));
        let mut sent: Vec<BlockInfo> = Vec::new();
        while self.pending.len() < PIPELINE_TARGET && self.retry.len() > 0
            invariant
                self.wf(),
                self.download == Some(d),
                same_flags(*self, *old(self)),
                start == old(self).pending@,
                retry0 == old(self).retry@,
                k == resent(retry0.len(), room(start)),
                self.pending@ == start + sent@,
                sent@.len() <= k,
                sent@ == retry0.take(sent@.len() as int),
                self.retry@ == retry0.skip(sent@.len() as int),
            decreases self.retry@.len(),
        {
            let ghost t: int = sent@.len() as int;
            let b = self.retry.remove(0);
            self.pending.push(b);
            sent.push(b);
            assert(sent@ =~= retry0.take(t + 1));
            assert(self.retry@ =~= retry0.skip(t + 1));
        }
        sent
    }

    /// Requests the next blocks of the piece, in ascending order, while
    /// there is room in the pipeline and blocks are left.
    fn request_new(&mut self, d: Download) -> (r: Vec<BlockInfo>)
        requires
            old(self).wf(),
            old(self).download == Some(d),
        ensures
            final(self).wf(),
            same_flags(*final(self), *old(self)),
            r@ == next_blocks(d.piece_index, d.piece_len, d.next_offset, room(old(self).outstanding())),
            final(self).download == Some(Download {
                next_offset: offset_after(d.piece_len, d.next_offset, room(old(self).outstanding())),
                ..d
            }),
            final(self).outstanding() == old(self).outstanding() + r@,
            final(self).to_retry() == old(self).to_retry(),
    {
        let ghost start = self.pending@;
        let ghost room0 = room(start);
        let mut sent: Vec<BlockInfo> = Vec::new();
        let mut cur = d;
        while self.pending.len() < PIPELINE_TARGET && cur.next_offset < cur.piece_len
            invariant
                self.wf(),
                self.download == Some(d),
                same_flags(*self, *old(self)),
                self.retry@ == old(self).retry@,
                start == old(self).pending@,
                room0 == room(start),
                cur == (Download { next_offset: cur.next_offset, ..d }),
                cur.next_offset <= cur.piece_len,
                self.pending@ == start + sent@,
                sent@ + next_blocks(d.piece_index, d.piece_len, cur.next_offset, room(self.pending@))
                    == next_blocks(d.piece_index, d.piece_len, d.next_offset, room0),
                offset_after(d.piece_len, cur.next_offset, room(self.pending@)) == offset_after(
                    d.piece_len,
                    d.next_offset,
                    room0,
                ),
            decreases cur.piece_len - cur.next_offset,
        {
            let len = if cur.piece_len - cur.next_offset < BLOCK_LEN {
                cur.piece_len - cur.next_offset
            } else {
                BLOCK_LEN
            };
            let b = BlockInfo { piece_index: cur.piece_index, offset: cur.next_offset, len };
            let ghost before = sent@;
            let ghost rm = room(self.pending@);
            assert(next_blocks(d.piece_index, d.piece_len, cur.next_offset, rm) == seq![b]
                + next_blocks(d.piece_index, d.piece_len, (cur.next_offset + len) as u32, (rm - 1) as nat));
            self.pending.push(b);
            sent.push(b);
            cur.next_offset = cur.next_offset + len;
            assert(room(self.pending@) == rm - 1);
            assert(sent@ + next_blocks(d.piece_index, d.piece_len, cur.next_offset, room(self.pending@))
                =~= before + next_blocks(d.piece_index, d.piece_len, (cur.next_offset - len) as u32, rm));
        }
        self.download = Some(cur);
        sent
    }

    /// Issues requests until `PIPELINE_TARGET` are outstanding, when the
    /// peer lets us download and we want to: first those a choke set aside,
    /// oldest first, then the piece's next blocks in ascending order.
    /// Without a piece, the picker is asked for one; a piece is kept until
    /// it is complete. Returns the requests to send, which are now
    /// outstanding.
    pub fn fill_pipeline(&mut self, picker: &mut PiecePicker, info: &StorageInfo) -> (r: Vec<BlockInfo>)
        requires
            old(self).wf(),
            old(picker).wf(),
            info.wf(),
            old(picker).own().len() == info.piece_count,
        ensures
            final(self).wf(),
            final(picker).wf(),
            final(picker).own() == old(picker).own(),
            same_flags(*final(self), *old(self)),
            final(self).outstanding() == old(self).outstanding() + r@,
            old(self).peer_choking || !old(self).am_interested ==> {
                &&& r@.len() == 0
                &&& *final(self) == *old(self)
                &&& final(picker).piece_meta() == old(picker).piece_meta()
            },
            !old(self).peer_choking && old(self).am_interested ==> {
                &&& (final(self).current() is None) == (old(self).current() is None && forall|i: int|
                    0 <= i < old(picker).own().len() ==> !old(picker).eligible(i))
                &&& final(self).current() is None ==> r@.len() == 0 && final(picker).piece_meta()
                    == old(picker).piece_meta()
                &&& old(self).current() is Some ==> final(picker).piece_meta() == old(picker).piece_meta()
                &&& final(self).current() matches Some(e) ==> filled(*old(self), *old(picker), *info, e, r@)
            },
    {
        if self.peer_choking || !self.am_interested {
            return Vec::new();
        }
        if self.download.is_none() {
            match picker.pick_piece() {
                Some(index) => {
                    let (_, len) = info.piece_range(index);
                    self.download = Some(Download { piece_index: index, piece_len: len, next_offset: 0, received: 0 });
                },
                None => {
                    return Vec::new();
                },
            }
        }
        let d = self.download.unwrap();
        let ghost mid = *self;
        let mut sent = self.resend(d);
        let ghost after_resend = *self;
        let mut fresh = self.request_new(d);
        let ghost k = resent(mid.retry@.len(), room(mid.pending@));
        assert(room(after_resend.pending@) == room(mid.pending@) - k);
        sent.append(&mut fresh);
        sent
    }

    /// The peer sent its bitfield: its pieces are counted as available, and
    /// we become interested if it has a piece we lack. Returns whether our
    /// interest changed, so that Interested is sent, or `None` when the
    /// bytes do not cover every piece or a typed message came before.
    pub fn on_bitfield(&mut self, picker: &mut PiecePicker, bytes: &[u8]) -> (r: Option<bool>)
        requires
            old(self).wf(),
            old(picker).wf(),
            old(picker).own().len() <= MAX_BITFIELD_LEN,
        ensures
            final(self).wf(),
            final(picker).wf(),
            final(picker).own() == old(picker).own(),
            r is None == (old(self).seen_message || old(picker).own().len() > bytes@.len() * 8),
            r is Some ==> final(self).seen_message && final(self).to_serve == old(self).to_serve,
            r is None ==> *final(self) == *old(self) && *final(picker) == *old(picker),
            r matches Some(changed) ==> {
                &&& final(self).am_interested == (old(self).am_interested || exists|i: int|
                    0 <= i < old(picker).own().len() && wire_bit(bytes@, i) && !old(picker).own()[i])
                &&& changed == (final(self).am_interested != old(self).am_interested)
            },
            final(self).outstanding() == old(self).outstanding(),
            final(self).peer_choking == old(self).peer_choking,
    {
        if self.seen_message {
            return None;
        }
        let piece_count = picker.own_pieces().len();
        match from_wire_bytes(bytes, piece_count) {
            None => None,
            Some(bf) => {
                self.seen_message = true;
                let ghost own = picker.own();
                proof {
                    if exists|i: int| 0 <= i < own.len() && bits(bf)[i] && !own[i] {
                        let i = choose|i: int| 0 <= i < own.len() && bits(bf)[i] && !own[i];
                        assert(wire_bit(bytes@, i) && !own[i]);
                    }
                    if exists|i: int| 0 <= i < own.len() && wire_bit(bytes@, i) && !own[i] {
                        let i = choose|i: int| 0 <= i < own.len() && wire_bit(bytes@, i) && !own[i];
                        assert(bits(bf)[i] && !own[i]);
                    }
                }
                let wants = picker.register_peer_pieces(&bf);
                let interested = self.am_interested || wants;
                Some(self.set_interest(interested))
            },
        }
    }

    /// The peer announced piece `index`: it is counted as available, and
    /// we become interested if we lack it. Returns whether our interest
    /// changed, so that Interested is sent.
    pub fn on_have(&mut self, picker: &mut PiecePicker, index: usize) -> (changed: bool)
        requires
            old(self).wf(),
            old(picker).wf(),
            index < old(picker).own().len(),
        ensures
            final(self).wf(),
            final(picker).wf(),
            final(picker).own() == old(picker).own(),
            final(self).am_interested == (old(self).am_interested || !old(picker).own()[index as int]),
            changed == (final(self).am_interested != old(self).am_interested),
            final(self).outstanding() == old(self).outstanding(),
            final(self).peer_choking == old(self).peer_choking,
            final(self).seen_message,
            final(self).to_serve == old(self).to_serve,
    {
        self.seen_message = true;
        let wants = picker.register_peer_piece(index);
        let interested = self.am_interested || wants;
        self.set_interest(interested)
    }

    /// The peer says whether it is interested in our pieces.
    pub fn on_peer_interest(&mut self, interested: bool)
        requires
            old(self).wf(),
        ensures
            final(self).wf(),
            final(self).peer_interested == interested,
            final(self).seen_message,
            final(self).am_choking == old(self).am_choking,
            final(self).am_interested == old(self).am_interested,
            final(self).peer_choking == old(self).peer_choking,
            final(self).pending == old(self).pending,
            final(self).retry == old(self).retry,
            final(self).download == old(self).download,
            final(self).to_serve == old(self).to_serve,
    {
        self.seen_message = true;
        self.peer_interested = interested;
    }

    /// The peer requests a block. While we choke it the request is
    /// ignored; otherwise it waits for its block to be read from disk.
    /// Returns whether the read is to be started.
    pub fn on_request(&mut self, info: BlockInfo) -> (r: bool)
        requires
            old(self).wf(),
        ensures
            final(self).wf(),
            r == !old(self).am_choking,
            final(self).to_serve@ == if r {
                old(self).to_serve@.push(info)
            } else {
                old(self).to_serve@
            },
            final(self).seen_message,
            same_flags(*final(self), *old(self)),
            final(self).pending == old(self).pending,
            final(self).retry == old(self).retry,
            final(self).download == old(self).download,
    {
        self.seen_message = true;
        if self.am_choking {
            return false;
        }
        self.to_serve.push(info);
        true
    }

    /// The peer cancels a request: a block not yet served is not sent.
    /// Returns whether a waiting request was dropped.
    pub fn on_cancel(&mut self, info: BlockInfo) -> (r: bool)
        requires
            old(self).wf(),
        ensures
            final(self).wf(),
            r == old(self).to_serve@.contains(info),
            removed_first(old(self).to_serve@, final(self).to_serve@, info),
            final(self).seen_message,
            same_flags(*final(self), *old(self)),
            final(self).pending == old(self).pending,
            final(self).retry == old(self).retry,
            final(self).download == old(self).download,
    {
        self.seen_message = true;
        remove_first(&mut self.to_serve, info)
    }

    /// A block the peer requested was read from disk. Returns whether it is
    /// still wanted, and so is to be sent; a cancelled one is not.
    pub fn on_served(&mut self, info: BlockInfo) -> (r: bool)
        requires
            old(self).wf(),
        ensures
            final(self).wf(),
            r == old(self).to_serve@.contains(info),
            removed_first(old(self).to_serve@, final(self).to_serve@, info),
            final(self).seen_message == old(self).seen_message,
            same_flags(*final(self), *old(self)),
            final(self).pending == old(self).pending,
            final(self).retry == old(self).retry,
            final(self).download == old(self).download,
    {
        remove_first(&mut self.to_serve, info)
    }

    /// The peer sent a block. A block that answers an outstanding request
    /// is counted; the one that completes the piece releases it.
    pub fn on_block(&mut self, info: BlockInfo) -> (r: BlockOutcome)
        requires
            old(self).wf(),
        ensures
            final(self).wf(),
            same_flags(*final(self), *old(self)),
            final(self).to_retry() == old(self).to_retry(),
            (r == BlockOutcome::Unexpected) == !old(self).outstanding().contains(info),
            r == BlockOutcome::Unexpected ==> final(self).outstanding() == old(self).outstanding()
                && final(self).current() == old(self).current(),
            r != BlockOutcome::Unexpected ==> exists|k: int|
                0 <= k < old(self).outstanding().len() && old(self).outstanding()[k] == info && (forall|j: int|
                    0 <= j < k ==> old(self).outstanding()[j] != info) && final(self).outstanding()
                    == old(self).outstanding().remove(k),
            old(self).outstanding().contains(info) ==> ((r is PieceDone) == (counted(
                old(self).current()->Some_0,
                info,
            ) == old(self).current()->Some_0.piece_len && old(self).outstanding().len() == 1
                && old(self).to_retry().len() == 0)),
            r matches BlockOutcome::PieceDone(i) ==> old(self).current() matches Some(d) && d.piece_index == i
                && final(self).current() is None,
            r == BlockOutcome::Accepted ==> final(self).current() == Some(Download {
                received: counted(old(self).current()->Some_0, info) as u32,
                ..old(self).current()->Some_0
            }),
            final(self).seen_message,
            final(self).to_serve == old(self).to_serve,
    {
        self.seen_message = true;
        let mut i: usize = 0;
        while i < self.pending.len()
            invariant
                i <= self.pending@.len(),
                self.seen_message,
                self.to_serve == old(self).to_serve,
                self.wf(),
                self.pending@ == old(self).pending@,
                self.download == old(self).download,
                self.retry@ == old(self).retry@,
                same_flags(*self, *old(self)),
                forall|j: int| 0 <= j < i ==> self.pending@[j] != info,
            decreases self.pending@.len() - i,
        {
            if self.pending[i] == info {
                let ghost before = self.pending@;
                self.pending.remove(i);
                assert(before.contains(info)) by {
                    assert(before[i as int] == info);
                }
                assert(self.pending@ == before.remove(i as int));
                assert(0 <= i < before.len() && before[i as int] == info && (forall|j: int|
                    0 <= j < i ==> before[j] != info) && self.pending@ == before.remove(i as int));
                let mut d = self.download.unwrap();
                if info.len <= d.piece_len - d.received {
                    d.received = d.received + info.len;
                }
                if d.received == d.piece_len && self.pending.len() == 0 && self.retry.len() == 0 {
                    self.download = None;
                    assert(old(self).outstanding()[i as int] == info && final(self).outstanding() == old(self).outstanding().remove(i as int)) by {
                        assert(self.pending@ == before.remove(i as int));
                    }
                    return BlockOutcome::PieceDone(d.piece_index);
                }
                self.download = Some(d);
                assert(old(self).outstanding()[i as int] == info && final(self).outstanding() == old(self).outstanding().remove(i as int)) by {
                    assert(self.pending@ == before.remove(i as int));
                }
                return BlockOutcome::Accepted;
            }
            i = i + 1;
        }
        BlockOutcome::Unexpected
    }
}

} // verus!
