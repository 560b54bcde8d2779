//! Piece bitfields: one bit per piece, held in a `bitvec` bit-vector, and
//! their wire form of bytes with the most significant bit first.

use vstd::prelude::*;

use bitvec::order::Msb0;
use bitvec::vec::BitVec;

verus! {

/// A bitfield of pieces: bit `i` is set when piece `i` is had. The bits
/// live in a `bitvec` bit-vector, most significant bit first in each word.
#[verifier::external_body]
#[derive(Debug)]
pub struct Bitfield {
    inner: BitVec<usize, Msb0>,
}

/// The most bits a bit-vector can hold on any target.
pub const MAX_BITFIELD_LEN: usize = 536870911;

/// The bits of a bitfield, in order.
pub uninterp spec fn bits(b: Bitfield) -> Seq<bool>;

/// The number of cleared bits in `s`.
pub open spec fn count_false(s: Seq<bool>) -> nat
    decreases s.len(),
{
    if s.len() == 0 {
        0
    } else {
        count_false(s.drop_last()) + if s.last() {
            0nat
        } else {
            1nat
        }
    }
}

impl Bitfield {
    /// Relies on `BitVec::repeat`: `len` copies of `bit`; it panics beyond
    /// the largest encodable length.
    #[verifier::external_body]
    fn raw_repeat(bit: bool, len: usize) -> (r: Bitfield)
        requires
            len <= MAX_BITFIELD_LEN,
        ensures
            bits(r) == Seq::new(len as nat, |_i: int| bit),
    {
        Bitfield { inner: BitVec::repeat(bit, len) }
    }

    /// Relies on `BitVec::len`: the number of bits.
    #[verifier::external_body]
    fn raw_len(&self) -> (r: usize)
        ensures
            r == bits(*self).len(),
    {
        self.inner.len()
    }

    /// Relies on indexing a `BitSlice`: the bit at `i`, which must be in
    /// bounds.
    #[verifier::external_body]
    fn raw_get(&self, i: usize) -> (r: bool)
        requires
            i < bits(*self).len(),
        ensures
            r == bits(*self)[i as int],
    {
        self.inner[i]
    }

    /// Relies on `BitSlice::set`: writes the bit at `i`, which must be in
    /// bounds, and leaves the others.
    #[verifier::external_body]
    fn raw_set(&mut self, i: usize, value: bool)
        requires
            i < bits(*old(self)).len(),
        ensures
            bits(*final(self)) == bits(*old(self)).update(i as int, value),
    {
        self.inner.set(i, value)
    }

    /// Relies on `BitSlice::count_zeros`: the number of cleared bits.
    #[verifier::external_body]
    fn raw_count_zeros(&self) -> (r: usize)
        ensures
            r == count_false(bits(*self)),
    {
        self.inner.count_zeros()
    }

    /// `len` copies of `bit`.
    pub fn repeat(bit: bool, len: usize) -> (r: Bitfield)
        requires
            len <= MAX_BITFIELD_LEN,
        ensures
            bits(r) == Seq::new(len as nat, |_i: int| bit),
    {
        Self::raw_repeat(bit, len)
    }

    /// The number of bits.
    pub fn len(&self) -> (r: usize)
        ensures
            r == bits(*self).len(),
    {
        self.raw_len()
    }

    /// The bit at `i`.
    pub fn get(&self, i: usize) -> (r: bool)
        requires
            i < bits(*self).len(),
        ensures
            r == bits(*self)[i as int],
    {
        self.raw_get(i)
    }

    /// Writes the bit at `i`.
    pub fn set(&mut self, i: usize, value: bool)
        requires
            i < bits(*old(self)).len(),
        ensures
            bits(*final(self)) == bits(*old(self)).update(i as int, value),
    {
        self.raw_set(i, value)
    }

    /// The number of cleared bits.
    pub fn count_zeros(&self) -> (r: usize)
        ensures
            r == count_false(bits(*self)),
    {
        self.raw_count_zeros()
    }

    /// Whether no bit is set.
    pub fn not_any(&self) -> (r: bool)
        ensures
            r == (forall|i: int| 0 <= i < bits(*self).len() ==> !bits(*self)[i]),
    {
        proof {
            lemma_count_false_all(bits(*self));
        }
        self.count_zeros() == self.len()
    }
}

/// A sequence has as many cleared bits as elements exactly when no bit is
/// set.
pub proof fn lemma_count_false_all(s: Seq<bool>)
    ensures
        count_false(s) <= s.len(),
        (count_false(s) == s.len()) == (forall|i: int| 0 <= i < s.len() ==> !s[i]),
    decreases s.len(),
{
    if s.len() > 0 {
        lemma_count_false_all(s.drop_last());
        if count_false(s) == s.len() {
            assert forall|i: int| 0 <= i < s.len() implies !s[i] by {
                if i < s.len() - 1 {
                    assert(s[i] == s.drop_last()[i]);
                }
            }
        } else {
            if forall|i: int| 0 <= i < s.len() ==> !s[i] {
                assert forall|i: int| 0 <= i < s.drop_last().len() implies !s.drop_last()[i] by {
                    assert(s[i] == s.drop_last()[i]);
                }
                assert(!s.last());
            }
        }
    }
}

/// Bit `j` of `byte`, counting from the most significant bit.
pub open spec fn msb_bit(byte: u8, j: u8) -> bool {
    (byte >> (7 - j) as u8) & 1u8 == 1u8
}

/// Bit `i` of a byte string, most significant bit of each byte first.
pub open spec fn wire_bit(bytes: Seq<u8>, i: int) -> bool {
    msb_bit(bytes[i / 8], (i % 8) as u8)
}

/// Setting bit `j` of a byte sets that bit and keeps the others; a zero
/// byte has no bit set.
proof fn lemma_msb_bit_set(byte: u8, j: u8, k: u8)
    requires
        j < 8,
        k < 8,
    ensures
        msb_bit(byte | (128u8 >> j), k) == (k == j || msb_bit(byte, k)),
        !msb_bit(0u8, k),
{
    assert(((byte | (128u8 >> j)) >> (7 - k) as u8) & 1u8 == 1u8 <==> (k == j || (byte >> (7
        - k) as u8) & 1u8 == 1u8)) by (bit_vector)
        requires
            j < 8,
            k < 8,
    ;
    assert((0u8 >> (7 - k) as u8) & 1u8 != 1u8) by (bit_vector)
        requires
            k < 8,
    ;
}

/// The wire form of a bitfield: its bits, most significant bit of each byte
/// first, padded with cleared bits to a whole byte.
pub fn to_wire_bytes(b: &Bitfield) -> (r: Vec<u8>)
    ensures
        r@.len() == (bits(*b).len() + 7) / 8,
        forall|i: int| 0 <= i < r@.len() * 8 ==> wire_bit(r@, i) == (i < bits(*b).len() && bits(
            *b,
        )[i]),
{
    let n = b.len();
    let mut r: Vec<u8> = Vec::new();
    let mut byte: u8 = 0;
    let mut i: usize = 0;
    assert forall|j: u8| j < 8 implies !msb_bit(byte, j) by {
        lemma_msb_bit_set(0u8, 0u8, j);
    }
    while i < n
        invariant
            n == bits(*b).len(),
            i <= n,
            r@.len() == i / 8,
            forall|k: int| 0 <= k < (i / 8) * 8 ==> wire_bit(r@, k) == bits(*b)[k],
            forall|j: u8| j < 8 ==> (msb_bit(byte, j) <==> (j < i % 8 && bits(*b)[(i / 8) * 8 + j])),
        decreases n - i,
    {
        let j = (i % 8) as u8;
        let ghost old_byte = byte;
        if b.get(i) {
            byte = byte | (128u8 >> j);
        }
        proof {
            assert forall|k: u8| k < 8 implies (msb_bit(byte, k) <==> (k < j + 1 && bits(*b)[(i / 8) * 8 + k])) by {
                lemma_msb_bit_set(old_byte, j, k);
            }
        }
        if j == 7 {
            let ghost before = r@;
            r.push(byte);
            byte = 0;
            proof {
                assert forall|k: int| 0 <= k < ((i + 1) / 8) * 8 implies wire_bit(r@, k) == bits(*b)[k] by {
                    if k < (i / 8) * 8 {
                        assert(r@[k / 8] == before[k / 8]);
                    } else {
                        assert(k / 8 == i / 8);
                    }
                }
                assert forall|jj: u8| jj < 8 implies (msb_bit(byte, jj) <==> (jj < (i + 1) % 8 && bits(*b)[((i + 1) / 8) * 8 + jj])) by {
                    lemma_msb_bit_set(0u8, 0u8, jj);
                }
            }
        }
        i = i + 1;
    }
    if n % 8 != 0 {
        let ghost before = r@;
        r.push(byte);
        proof {
            assert forall|k: int| 0 <= k < r@.len() * 8 implies wire_bit(r@, k) == (k < bits(*b).len() && bits(*b)[k]) by {
                if k < (n / 8) * 8 {
                    assert(r@[k / 8] == before[k / 8]);
                }
            }
        }
    }
    r
}

/// The bitfield of `piece_count` pieces that wire bytes announce. Bits
/// beyond `piece_count` are ignored; bytes too few to cover every piece give
/// `None`.
pub fn from_wire_bytes(bytes: &[u8], piece_count: usize) -> (r: Option<Bitfield>)
    requires
        piece_count <= MAX_BITFIELD_LEN,
    ensures
        r is Some == (piece_count <= bytes@.len() * 8),
        r matches Some(b) ==> bits(b) == Seq::new(piece_count as nat, |i: int| wire_bit(bytes@, i)),
{
    if bytes.len() < piece_count / 8 + if piece_count % 8 == 0 { 0 } else { 1 } {
        return None;
    }
    let mut b = Bitfield::repeat(false, piece_count);
    let mut i: usize = 0;
    while i < piece_count
        invariant
            i <= piece_count,
            piece_count <= bytes@.len() * 8,
            bits(b).len() == piece_count,
            forall|k: int| 0 <= k < i ==> bits(b)[k] == wire_bit(bytes@, k),
            forall|k: int| i <= k < piece_count ==> !bits(b)[k],
        decreases piece_count - i,
    {
        let byte = bytes[i / 8];
        if (byte >> (7 - (i % 8) as u8)) & 1u8 == 1u8 {
            b.set(i, true);
        }
        i = i + 1;
    }
    assert(bits(b) =~= Seq::new(piece_count as nat, |i: int| wire_bit(bytes@, i)));
    Some(b)
}

} // verus!
