//! Choice of the next piece to download.
//!
//! The picker tracks which pieces are had, how many peers are known to have
//! each piece, and which pieces are being downloaded, so that a piece is
//! never handed out twice at once.

use vstd::prelude::*;

use crate::bitfield::{bits, count_false, lemma_count_false_all, Bitfield, MAX_BITFIELD_LEN};
use crate::piece_buffer::piece_matches;
use crate::PieceIndex;

verus! {

/// What the picker knows of a piece.
#[derive(Clone, Copy, Debug, PartialEq, Eq, Structural)]
pub struct Piece {
    /// The number of peers known to have the piece, saturating.
    pub frequency: usize,
    /// Whether the piece is being downloaded: set when it is picked, cleared
    /// when it is received or found invalid.
    pub is_pending: bool,
}

/// The number of set bits in `s`.
pub open spec fn count_true(s: Seq<bool>) -> nat
    decreases s.len(),
{
    if s.len() == 0 {
        0
    } else {
        count_true(s.drop_last()) + if s.last() {
            1nat
        } else {
            0nat
        }
    }
}

/// For each piece, whether it is out of reach of picking: had, or pending.
pub open spec fn taken(own: Seq<bool>, pieces: Seq<Piece>) -> Seq<bool> {
    Seq::new(own.len(), |i: int| own[i] || pieces[i].is_pending)
}

/// Every bit is either set or cleared.
pub proof fn lemma_count_true_false(s: Seq<bool>)
    ensures
        count_true(s) + count_false(s) == s.len(),
    decreases s.len(),
{
    if s.len() > 0 {
        lemma_count_true_false(s.drop_last());
    }
}

/// Writing one bit changes the number of cleared bits by at most one.
pub proof fn lemma_count_false_update(s: Seq<bool>, i: int, v: bool)
    requires
        0 <= i < s.len(),
    ensures
        count_false(s.update(i, v)) + (if s[i] {
            0int
        } else {
            1int
        }) == count_false(s) + (if v {
            0int
        } else {
            1int
        }),
    decreases s.len(),
{
    let u = s.update(i, v);
    if i == s.len() - 1 {
        assert(u.drop_last() =~= s.drop_last());
    } else {
        assert(u.drop_last() =~= s.drop_last().update(i, v));
        lemma_count_false_update(s.drop_last(), i, v);
    }
}

/// A sequence whose cleared bits are all cleared in another has no more of
/// them than the other.
pub proof fn lemma_count_false_mono(a: Seq<bool>, b: Seq<bool>)
    requires
        a.len() == b.len(),
        forall|i: int| 0 <= i < a.len() && !a[i] ==> !b[i],
    ensures
        count_false(a) <= count_false(b),
    decreases a.len(),
{
    if a.len() > 0 {
        lemma_count_false_mono(a.drop_last(), b.drop_last());
    }
}

/// What became of a downloaded piece once its digest was checked.
#[derive(Clone, Copy, Debug, PartialEq, Eq, Structural)]
pub enum PieceCheck {
    /// The digest matched: the piece is had, to be written and announced
    /// with Have.
    Completed(PieceIndex),
    /// The digest did not match: the piece is discarded and may be picked
    /// again; nothing is written or announced.
    Invalid(PieceIndex),
}

/// Chooses pieces to download, sequentially: the lowest piece that is not
/// had, is available from a peer and is not pending.
pub struct PiecePicker {
    /// The pieces we have.
    own_pieces: Bitfield,
    /// What is known of each piece.
    pieces: Vec<Piece>,
    /// The number of pieces not had, pending or not.
    missing_count: usize,
    /// The number of pieces neither had nor pending.
    free_count: usize,
}

impl PiecePicker {
    /// Which pieces are had.
    pub closed spec fn own(&self) -> Seq<bool> {
        bits(self.own_pieces)
    }

    /// What is known of each piece.
    pub closed spec fn piece_meta(&self) -> Seq<Piece> {
        self.pieces@
    }

    /// The number of pieces not had.
    pub closed spec fn missing(&self) -> nat {
        self.missing_count as nat
    }

    /// The number of pieces neither had nor pending.
    pub closed spec fn free(&self) -> nat {
        self.free_count as nat
    }

    /// Whether piece `i` may be picked now.
    pub open spec fn eligible(&self, i: int) -> bool {
        &&& !self.own()[i]
        &&& self.piece_meta()[i].frequency > 0
        &&& !self.piece_meta()[i].is_pending
    }

    /// One entry per piece; the counts match the pieces; a pending piece
    /// is not had.
    pub open spec fn wf(&self) -> bool {
        &&& self.own().len() >= 1
        &&& self.piece_meta().len() == self.own().len()
        &&& self.missing() == count_false(self.own())
        &&& self.free() == count_false(taken(self.own(), self.piece_meta()))
        &&& forall|i: int| 0 <= i < self.own().len() && #[trigger] self.piece_meta()[i].is_pending ==> !self.own()[i]
    }

    /// Creates a picker for the pieces had so far, with nothing known of
    /// peers.
    pub fn new(own_pieces: Bitfield) -> (r: Self)
        requires
            bits(own_pieces).len() >= 1,
        ensures
            r.wf(),
            r.own() == bits(own_pieces),
            r.piece_meta() == Seq::new(bits(own_pieces).len(), |_i: int| Piece { frequency: 0, is_pending: false }),
            r.missing() == count_false(bits(own_pieces)),
            r.free() == r.missing(),
    {
        let piece_count = own_pieces.len();
        let mut pieces: Vec<Piece> = Vec::new();
        let mut i: usize = 0;
        while i < piece_count
            invariant
                i <= piece_count,
                pieces@ == Seq::new(i as nat, |_i: int| Piece { frequency: 0, is_pending: false }),
            decreases piece_count - i,
        {
            pieces.push(Piece { frequency: 0, is_pending: false });
            i = i + 1;
            assert(pieces@ =~= Seq::new(i as nat, |_i: int| Piece { frequency: 0, is_pending: false }));
        }
        let missing_count = own_pieces.count_zeros();
        let r = PiecePicker { own_pieces, pieces, missing_count, free_count: missing_count };
        assert(taken(r.own(), r.piece_meta()) =~= r.own());
        r
    }

    /// Creates a picker for `piece_count` pieces, none of them had.
    pub fn empty(piece_count: usize) -> (r: Self)
        requires
            1 <= piece_count <= MAX_BITFIELD_LEN,
        ensures
            r.wf(),
            r.own() == Seq::new(piece_count as nat, |_i: int| false),
            r.piece_meta() == Seq::new(piece_count as nat, |_i: int| Piece { frequency: 0, is_pending: false }),
    {
        Self::new(Bitfield::repeat(false, piece_count))
    }

    /// The pieces we have.
    pub fn own_pieces(&self) -> (r: &Bitfield)
        ensures
            bits(*r) == self.own(),
    {
        &self.own_pieces
    }

    /// What is known of each piece.
    pub fn pieces(&self) -> (r: &[Piece])
        ensures
            r@ == self.piece_meta(),
    {
        self.pieces.as_slice()
    }

    /// The number of pieces still needed to complete the download.
    pub fn missing_piece_count(&self) -> (r: usize)
        requires
            self.wf(),
        ensures
            r == count_false(self.own()),
    {
        self.missing_count
    }

    /// The number of pieces neither had nor pending.
    pub fn free_count(&self) -> (r: usize)
        requires
            self.wf(),
        ensures
            r == count_false(taken(self.own(), self.piece_meta())),
    {
        self.free_count
    }

    /// Whether every piece is had or pending.
    pub fn all_pieces_picked(&self) -> (r: bool)
        requires
            self.wf(),
        ensures
            r == (forall|i: int| 0 <= i < self.own().len() ==> self.own()[i] || self.piece_meta()[i].is_pending),
    {
        proof {
            let t = taken(self.own(), self.piece_meta());
            lemma_count_false_all_set(t);
            if forall|i: int| 0 <= i < t.len() ==> t[i] {
                assert forall|i: int| 0 <= i < self.own().len() implies self.own()[i]
                    || self.piece_meta()[i].is_pending by {
                    assert(t[i]);
                }
            } else {
                let i = choose|i: int| 0 <= i < t.len() && !t[i];
                assert(!(self.own()[i] || self.piece_meta()[i].is_pending));
            }
        }
        self.free_count == 0
    }

    /// Picks the lowest piece that may be picked and marks it pending, or
    /// returns `None` when no piece may be picked.
    pub fn pick_piece(&mut self) -> (r: Option<PieceIndex>)
        requires
            old(self).wf(),
        ensures
            final(self).wf(),
            final(self).own() == old(self).own(),
            r is None ==> (forall|i: int| 0 <= i < old(self).own().len() ==> !old(self).eligible(i))
                && final(self).piece_meta() == old(self).piece_meta(),
            r matches Some(i) ==> {
                &&& i < old(self).own().len()
                &&& old(self).eligible(i as int)
                &&& forall|j: int| 0 <= j < i ==> !old(self).eligible(j)
                &&& final(self).piece_meta() == old(self).piece_meta().update(
                    i as int,
                    Piece { is_pending: true, ..old(self).piece_meta()[i as int] },
                )
            },
    {
        let n = self.own_pieces.len();
        let mut index: usize = 0;
        while index < n
            invariant
                *self == *old(self),
                self.wf(),
                n == self.own().len(),
                index <= n,
                forall|j: int| 0 <= j < index ==> !self.eligible(j),
            decreases n - index,
        {
            let piece = self.pieces[index];
            if !self.own_pieces.get(index) && piece.frequency > 0 && !piece.is_pending {
                let ghost t = taken(self.own(), self.piece_meta());
                self.pieces.set(index, Piece { is_pending: true, ..piece });
                proof {
                    lemma_count_false_update(t, index as int, true);
                    assert(taken(self.own(), self.piece_meta()) =~= t.update(index as int, true));
                }
                self.free_count = self.free_count - 1;
                return Some(index);
            }
            index = index + 1;
        }
        None
    }

    /// Counts the pieces of a peer's bitfield as available, and returns
    /// whether the peer has a piece we do not.
    pub fn register_peer_pieces(&mut self, pieces: &Bitfield) -> (r: bool)
        requires
            old(self).wf(),
            bits(*pieces).len() == old(self).own().len(),
        ensures
            final(self).wf(),
            final(self).own() == old(self).own(),
            final(self).piece_meta().len() == old(self).piece_meta().len(),
            forall|i: int| 0 <= i < old(self).own().len() ==> #[trigger] final(self).piece_meta()[i] == if bits(*pieces)[i] {
                Piece { frequency: saturating_inc(old(self).piece_meta()[i].frequency), ..old(self).piece_meta()[i] }
            } else {
                old(self).piece_meta()[i]
            },
            r == exists|i: int| 0 <= i < old(self).own().len() && bits(*pieces)[i] && !old(self).own()[i],
    {
        let n = pieces.len();
        let mut interested = false;
        let mut index: usize = 0;
        while index < n
            invariant
                self.wf(),
                n == self.own().len(),
                n == bits(*pieces).len(),
                self.own() == old(self).own(),
                self.piece_meta().len() == n,
                index <= n,
                forall|i: int| 0 <= i < index ==> #[trigger] self.piece_meta()[i] == if bits(*pieces)[i] {
                    Piece { frequency: saturating_inc(old(self).piece_meta()[i].frequency), ..old(self).piece_meta()[i] }
                } else {
                    old(self).piece_meta()[i]
                },
                forall|i: int| index <= i < n ==> #[trigger] self.piece_meta()[i] == old(self).piece_meta()[i],
                interested == exists|i: int| 0 <= i < index && bits(*pieces)[i] && !self.own()[i],
            decreases n - index,
        {
            if pieces.get(index) {
                let piece = self.pieces[index];
                let ghost t = taken(self.own(), self.piece_meta());
                self.pieces.set(index, Piece { frequency: inc_saturating(piece.frequency), ..piece });
                assert(taken(self.own(), self.piece_meta()) =~= t);
                if !self.own_pieces.get(index) {
                    interested = true;
                }
            }
            index = index + 1;
        }
        interested
    }

    /// Counts one more peer as having piece `index`, and returns whether we
    /// do not have it.
    pub fn register_peer_piece(&mut self, index: PieceIndex) -> (r: bool)
        requires
            old(self).wf(),
            index < old(self).own().len(),
        ensures
            final(self).wf(),
            final(self).own() == old(self).own(),
            final(self).piece_meta() == old(self).piece_meta().update(
                index as int,
                Piece { frequency: saturating_inc(old(self).piece_meta()[index as int].frequency), ..old(self).piece_meta()[index as int] },
            ),
            r == !old(self).own()[index as int],
    {
        let have_piece = self.own_pieces.get(index);
        let piece = self.pieces[index];
        let ghost t = taken(self.own(), self.piece_meta());
        self.pieces.set(index, Piece { frequency: inc_saturating(piece.frequency), ..piece });
        assert(taken(self.own(), self.piece_meta()) =~= t);
        !have_piece
    }

    /// Records that piece `index`, which we did not have, was received and
    /// verified. It is no longer pending.
    pub fn received_piece(&mut self, index: PieceIndex)
        requires
            old(self).wf(),
            index < old(self).own().len(),
            !old(self).own()[index as int],
        ensures
            final(self).wf(),
            final(self).own() == old(self).own().update(index as int, true),
            final(self).piece_meta() == old(self).piece_meta().update(
                index as int,
                Piece { is_pending: false, ..old(self).piece_meta()[index as int] },
            ),
            final(self).missing() == old(self).missing() - 1,
            final(self).free() == if old(self).piece_meta()[index as int].is_pending {
                old(self).free()
            } else {
                (old(self).free() - 1) as nat
            },
    {
        let ghost own0 = self.own();
        let ghost t = taken(self.own(), self.piece_meta());
        self.own_pieces.set(index, true);
        proof {
            lemma_count_false_update(own0, index as int, true);
        }
        self.missing_count = self.missing_count - 1;
        let piece = self.pieces[index];
        proof {
            lemma_count_false_update(t, index as int, true);
        }
        if !piece.is_pending {
            self.free_count = self.free_count - 1;
        }
        self.pieces.set(index, Piece { is_pending: false, ..piece });
        assert(taken(self.own(), self.piece_meta()) =~= t.update(index as int, true));
    }

    /// Records the check of pending piece `index` against the digest the
    /// metainfo lists: a match makes it had; a mismatch makes it pickable
    /// again and leaves it missing.
    pub fn piece_checked(&mut self, index: PieceIndex, computed: &[u8; 20], expected: &[u8; 20]) -> (r: PieceCheck)
        requires
            old(self).wf(),
            index < old(self).own().len(),
            !old(self).own()[index as int],
            old(self).piece_meta()[index as int].is_pending,
        ensures
            final(self).wf(),
            final(self).piece_meta() == old(self).piece_meta().update(
                index as int,
                Piece { is_pending: false, ..old(self).piece_meta()[index as int] },
            ),
            computed@ == expected@ ==> {
                &&& r == PieceCheck::Completed(index)
                &&& final(self).own() == old(self).own().update(index as int, true)
                &&& final(self).missing() == old(self).missing() - 1
            },
            computed@ != expected@ ==> {
                &&& r == PieceCheck::Invalid(index)
                &&& final(self).own() == old(self).own()
                &&& final(self).missing() == old(self).missing()
            },
    {
        if piece_matches(computed, expected) {
            self.received_piece(index);
            PieceCheck::Completed(index)
        } else {
            self.invalid_piece(index);
            PieceCheck::Invalid(index)
        }
    }

    /// Records that pending piece `index` failed verification: it is no
    /// longer pending and may be picked again.
    pub fn invalid_piece(&mut self, index: PieceIndex)
        requires
            old(self).wf(),
            index < old(self).own().len(),
            old(self).piece_meta()[index as int].is_pending,
        ensures
            final(self).wf(),
            final(self).own() == old(self).own(),
            final(self).piece_meta() == old(self).piece_meta().update(
                index as int,
                Piece { is_pending: false, ..old(self).piece_meta()[index as int] },
            ),
            final(self).free() == old(self).free() + 1,
    {
        let ghost t = taken(self.own(), self.piece_meta());
        let n = self.pieces.len();
        let piece = self.pieces[index];
        self.pieces.set(index, Piece { is_pending: false, ..piece });
        proof {
            lemma_count_false_update(t, index as int, false);
            assert(taken(self.own(), self.piece_meta()) =~= t.update(index as int, false));
            lemma_count_false_all(taken(self.own(), self.piece_meta()));
            assert(self.free_count + 1 <= n);
        }
        self.free_count = self.free_count + 1;
    }
}

/// Whatever operations a well-formed picker went through, its missing
/// count and its number of owned pieces add up to the piece count, and no
/// more pieces are free than missing.
pub proof fn lemma_picker_counts(p: PiecePicker)
    requires
        p.wf(),
    ensures
        p.missing() + count_true(p.own()) == p.own().len(),
        p.free() <= p.missing(),
{
    lemma_count_true_false(p.own());
    lemma_count_false_mono(taken(p.own(), p.piece_meta()), p.own());
}

/// A piece that `pick_piece` returned is pending, and a pending piece is
/// never eligible, so it is not returned again until `received_piece` (or
/// `invalid_piece`) clears the flag; registering peers' pieces keeps it.
pub proof fn lemma_pending_not_picked(p: PiecePicker, i: int)
    requires
        p.wf(),
        0 <= i < p.own().len(),
        p.piece_meta()[i].is_pending,
    ensures
        !p.eligible(i),
{
}

/// One more, unless already at the largest value.
pub open spec fn saturating_inc(x: usize) -> usize {
    if x < usize::MAX {
        (x + 1) as usize
    } else {
        x
    }
}

fn inc_saturating(x: usize) -> (r: usize)
    ensures
        r == saturating_inc(x),
{
    if x < usize::MAX {
        x + 1
    } else {
        x
    }
}

/// A sequence has no cleared bit exactly when its count of them is zero.
pub proof fn lemma_count_false_all_set(s: Seq<bool>)
    ensures
        (count_false(s) == 0) == (forall|i: int| 0 <= i < s.len() ==> s[i]),
    decreases s.len(),
{
    if s.len() > 0 {
        lemma_count_false_all_set(s.drop_last());
        if forall|i: int| 0 <= i < s.len() ==> s[i] {
            assert(s.last());
        }
        if count_false(s) == 0 {
            assert forall|i: int| 0 <= i < s.len() implies s[i] by {
                if i < s.len() - 1 {
                    assert(s[i] == s.drop_last()[i]);
                }
            }
        }
    }
}

} // verus!
