//! Framing of the peer-wire protocol: the handshake that opens a connection
//! and the length-prefixed messages that follow it.
//!
//! Numeric fields are big-endian. Decoding works on a byte buffer that may
//! hold a partial frame: an incomplete frame is reported as `None` and
//! nothing is consumed; a complete one is consumed exactly.

use vstd::prelude::*;

use crate::BlockInfo;

verus! {

/// The length of the protocol string of a handshake.
pub const PROTOCOL_LEN: u8 = 19;

/// The length of a whole handshake on the wire, its length byte included.
pub const HANDSHAKE_WIRE_LEN: usize = 68;

/// The largest length prefix a message may carry: a block of 16 MiB with
/// its header.
pub const MAX_MESSAGE_LEN: usize = 16777225;

/// Ways in which bytes fail to form a valid frame, or a message fails to
/// fit one.
#[derive(Clone, Copy, Debug, PartialEq, Eq, Structural)]
pub enum CodecError {
    /// The handshake's protocol string length is not 19.
    InvalidProtocolLength,
    /// A message carries an ID that is not part of the protocol.
    UnknownMessageId(u8),
    /// A message's length does not fit its ID.
    InvalidMessageLength,
    /// A length prefix exceeds `MAX_MESSAGE_LEN`.
    MessageTooLong,
    /// A piece index does not fit the 32 bits of the wire.
    PieceIndexTooLarge,
}

/// The big-endian bytes of `x`.
pub open spec fn u32_bytes(x: u32) -> Seq<u8> {
    seq![(x >> 24u32) as u8, (x >> 16u32) as u8, (x >> 8u32) as u8, x as u8]
}

/// The big-endian integer in `s[i..i + 4]`.
pub open spec fn read_u32(s: Seq<u8>, i: int) -> u32 {
    ((s[i] as u32) << 24u32) | ((s[i + 1] as u32) << 16u32) | ((s[i + 2] as u32) << 8u32) | (
    s[i + 3] as u32)
}

/// Reading back the bytes of an integer gives the integer.
pub proof fn lemma_u32_bytes_round_trip(x: u32)
    ensures
        read_u32(u32_bytes(x), 0) == x,
{
    assert(((((x >> 24u32) as u8) as u32) << 24u32) | ((((x >> 16u32) as u8) as u32) << 16u32) | ((
    ((x >> 8u32) as u8) as u32) << 8u32) | ((x as u8) as u32) == x) by (bit_vector);
}

/// Reads the big-endian integer at `i`.
fn get_u32(buf: &Vec<u8>, i: usize) -> (r: u32)
    requires
        i + 4 <= buf@.len(),
    ensures
        r == read_u32(buf@, i as int),
{
    let n = buf.len();
    assert(i + 4 <= n);
    ((buf[i] as u32) << 24u32) | ((buf[i + 1] as u32) << 16u32) | ((buf[i + 2] as u32) << 8u32) | (
    buf[i + 3] as u32)
}

/// Appends the big-endian bytes of `x`.
fn put_u32(buf: &mut Vec<u8>, x: u32)
    ensures
        final(buf)@ == old(buf)@ + u32_bytes(x),
{
    buf.push((x >> 24u32) as u8);
    buf.push((x >> 16u32) as u8);
    buf.push((x >> 8u32) as u8);
    buf.push(x as u8);
    assert(final(buf)@ =~= old(buf)@ + u32_bytes(x));
}

/// Appends the bytes of `src` in order.
fn put_slice(buf: &mut Vec<u8>, src: &[u8])
    ensures
        final(buf)@ == old(buf)@ + src@,
{
    let ghost start = buf@;
    let mut i: usize = 0;
    while i < src.len()
        invariant
            i <= src@.len(),
            buf@ == start + src@.take(i as int),
        decreases src@.len() - i,
    {
        buf.push(src[i]);
        i = i + 1;
        assert(buf@ =~= start + src@.take(i as int));
    }
    assert(src@.take(i as int) =~= src@);
}

/// Copies `buf[from..to]` into a new vector.
fn copy_range(buf: &Vec<u8>, from: usize, to: usize) -> (r: Vec<u8>)
    requires
        from <= to <= buf@.len(),
    ensures
        r@ == buf@.subrange(from as int, to as int),
{
    let mut r: Vec<u8> = Vec::new();
    let mut i: usize = from;
    while i < to
        invariant
            from <= i <= to,
            to <= buf@.len(),
            r@ == buf@.subrange(from as int, i as int),
        decreases to - i,
    {
        r.push(buf[i]);
        i = i + 1;
        assert(r@ =~= buf@.subrange(from as int, i as int));
    }
    r
}

/// Removes the first `n` bytes.
fn consume(buf: &mut Vec<u8>, n: usize)
    requires
        n <= old(buf)@.len(),
    ensures
        final(buf)@ == old(buf)@.skip(n as int),
{
    let len = buf.len();
    let rest = copy_range(buf, n, len);
    *buf = rest;
}

/// Copies `N` bytes starting at `at` into an array.
fn read_array<const N: usize>(buf: &Vec<u8>, at: usize) -> (r: [u8; N])
    requires
        at + N <= buf@.len(),
    ensures
        r@ == buf@.subrange(at as int, at + N),
{
    let n = buf.len();
    assert(at + N <= n);
    let mut r: [u8; N] = [0u8; N];
    let mut i: usize = 0;
    while i < N
        invariant
            i <= N,
            at + N <= buf@.len(),
            buf@.len() == n,
            r@.len() == N,
            forall|j: int| 0 <= j < i ==> r@[j] == buf@[at + j],
        decreases N - i,
    {
        r[i] = buf[at + i];
        i = i + 1;
    }
    assert(r@ =~= buf@.subrange(at as int, at + N));
    r
}

/// The bytes of "BitTorrent protocol".
pub open spec fn protocol_bytes() -> Seq<u8> {
    seq![66u8, 105, 116, 84, 111, 114, 114, 101, 110, 116, 32, 112, 114, 111, 116, 111, 99, 111, 108]
}

/// The handshake exchanged once when a connection opens.
#[derive(Clone, Copy, Debug, PartialEq, Eq)]
pub struct Handshake {
    pub prot: [u8; 19],
    pub reserved: [u8; 8],
    pub info_hash: [u8; 20],
    pub peer_id: [u8; 20],
}

/// The wire form of a handshake: the protocol string's length, then the
/// protocol string, the reserved bytes, the info hash and the peer id.
pub open spec fn handshake_bytes(h: Handshake) -> Seq<u8> {
    seq![PROTOCOL_LEN] + h.prot@ + h.reserved@ + h.info_hash@ + h.peer_id@
}

impl Handshake {
    /// Creates the handshake of this protocol for a torrent and a client.
    pub fn new(info_hash: [u8; 20], peer_id: [u8; 20]) -> (r: Self)
        ensures
            r.prot@ == protocol_bytes(),
            r.reserved@ == Seq::new(8, |_i: int| 0u8),
            r.info_hash == info_hash,
            r.peer_id == peer_id,
    {
        let prot: [u8; 19] = [
            66u8, 105, 116, 84, 111, 114, 114, 101, 110, 116, 32, 112, 114, 111, 116, 111, 99, 111,
            108,
        ];
        let reserved: [u8; 8] = [0u8; 8];
        assert(prot@ =~= protocol_bytes());
        assert(reserved@ =~= Seq::new(8, |_i: int| 0u8));
        Handshake { prot, reserved, info_hash, peer_id }
    }

    /// The length of a handshake after its length byte.
    pub fn len(&self) -> (r: u64)
        ensures
            r == 67,
    {
        19 + 8 + 20 + 20
    }
}

/// Encodes and decodes handshakes.
pub struct HandshakeCodec;

impl HandshakeCodec {
    /// Appends the wire form of `h`.
    pub fn encode(&mut self, h: Handshake, buf: &mut Vec<u8>)
        ensures
            final(buf)@ == old(buf)@ + handshake_bytes(h),
    {
        buf.push(PROTOCOL_LEN);
        put_slice(buf, h.prot.as_slice());
        put_slice(buf, h.reserved.as_slice());
        put_slice(buf, h.info_hash.as_slice());
        put_slice(buf, h.peer_id.as_slice());
        assert(final(buf)@ =~= old(buf)@ + handshake_bytes(h));
    }

    /// Decodes a handshake from the front of `buf`, consuming it.
    ///
    /// Nothing is decoded from an empty buffer or from fewer than 68 bytes;
    /// a first byte other than 19 is an error.
    pub fn decode(&mut self, buf: &mut Vec<u8>) -> (r: Result<Option<Handshake>, CodecError>)
        ensures
            old(buf)@.len() == 0 ==> r == Ok::<Option<Handshake>, CodecError>(None),
            old(buf)@.len() > 0 && old(buf)@[0] != PROTOCOL_LEN ==> r == Err::<
                Option<Handshake>,
                CodecError,
            >(CodecError::InvalidProtocolLength),
            old(buf)@.len() > 0 && old(buf)@[0] == PROTOCOL_LEN && old(buf)@.len()
                < HANDSHAKE_WIRE_LEN ==> r == Ok::<Option<Handshake>, CodecError>(None),
            old(buf)@.len() >= HANDSHAKE_WIRE_LEN && old(buf)@[0] == PROTOCOL_LEN ==> {
                &&& r matches Ok(Some(h))
                &&& handshake_bytes(r->Ok_0->Some_0) == old(buf)@.take(HANDSHAKE_WIRE_LEN as int)
                &&& final(buf)@ == old(buf)@.skip(HANDSHAKE_WIRE_LEN as int)
            },
            !(r matches Ok(Some(_))) ==> final(buf)@ == old(buf)@,
    {
        if buf.len() == 0 {
            return Ok(None);
        }
        if buf[0] != PROTOCOL_LEN {
            return Err(CodecError::InvalidProtocolLength);
        }
        if buf.len() < HANDSHAKE_WIRE_LEN {
            return Ok(None);
        }
        let prot: [u8; 19] = read_array(buf, 1);
        let reserved: [u8; 8] = read_array(buf, 20);
        let info_hash: [u8; 20] = read_array(buf, 28);
        let peer_id: [u8; 20] = read_array(buf, 48);
        let h = Handshake { prot, reserved, info_hash, peer_id };
        assert(handshake_bytes(h) =~= buf@.take(HANDSHAKE_WIRE_LEN as int));
        consume(buf, HANDSHAKE_WIRE_LEN);
        Ok(Some(h))
    }
}

/// The identifiers of the typed messages.
#[derive(Clone, Copy, Debug, PartialEq, Eq, Structural)]
pub enum MessageId {
    Choke,
    Unchoke,
    Interested,
    NotInterested,
    Have,
    Bitfield,
    Request,
    Block,
    Cancel,
}

/// The byte that stands for a message ID on the wire.
pub open spec fn id_byte(id: MessageId) -> u8 {
    match id {
        MessageId::Choke => 0,
        MessageId::Unchoke => 1,
        MessageId::Interested => 2,
        MessageId::NotInterested => 3,
        MessageId::Have => 4,
        MessageId::Bitfield => 5,
        MessageId::Request => 6,
        MessageId::Block => 7,
        MessageId::Cancel => 8,
    }
}

impl MessageId {
    /// Returns the ID that `v` stands for, or an error for a byte that
    /// stands for none.
    pub fn try_from(v: u8) -> (r: Result<MessageId, CodecError>)
        ensures
            v <= 8 ==> (r matches Ok(id) && id_byte(id) == v),
            v > 8 ==> r == Err::<MessageId, CodecError>(CodecError::UnknownMessageId(v)),
    {
        match v {
            0 => Ok(MessageId::Choke),
            1 => Ok(MessageId::Unchoke),
            2 => Ok(MessageId::Interested),
            3 => Ok(MessageId::NotInterested),
            4 => Ok(MessageId::Have),
            5 => Ok(MessageId::Bitfield),
            6 => Ok(MessageId::Request),
            7 => Ok(MessageId::Block),
            8 => Ok(MessageId::Cancel),
            _ => Err(CodecError::UnknownMessageId(v)),
        }
    }

    /// The byte that stands for this ID on the wire.
    pub fn to_byte(&self) -> (r: u8)
        ensures
            r == id_byte(*self),
    {
        match self {
            MessageId::Choke => 0,
            MessageId::Unchoke => 1,
            MessageId::Interested => 2,
            MessageId::NotInterested => 3,
            MessageId::Have => 4,
            MessageId::Bitfield => 5,
            MessageId::Request => 6,
            MessageId::Block => 7,
            MessageId::Cancel => 8,
        }
    }

    /// The length of a message's header: the length prefix, the ID byte and
    /// the fixed fields that follow it.
    pub fn header_len(&self) -> (r: u64)
        ensures
            r == match *self {
                MessageId::Have => 9u64,
                MessageId::Request | MessageId::Cancel => 17u64,
                MessageId::Block => 13u64,
                _ => 5u64,
            },
    {
        let base: u64 = 4 + 1;
        match self {
            MessageId::Have => base + 4,
            MessageId::Request => base + 3 * 4,
            MessageId::Block => base + 2 * 4,
            MessageId::Cancel => base + 3 * 4,
            _ => base,
        }
    }
}

/// A peer-wire message that follows the handshake.
#[derive(Clone, Debug, PartialEq, Eq)]
pub enum Message {
    KeepAlive,
    /// The sender's pieces, one bit each, most significant bit first,
    /// padded with zero bits to a whole byte.
    Bitfield(Vec<u8>),
    Choke,
    Unchoke,
    Interested,
    NotInterested,
    Have { piece_index: usize },
    Request(BlockInfo),
    Block { piece_index: usize, offset: u32, data: Vec<u8> },
    Cancel(BlockInfo),
}

/// What a message says, with its byte strings as sequences.
pub enum MessageModel {
    KeepAlive,
    Bitfield(Seq<u8>),
    Choke,
    Unchoke,
    Interested,
    NotInterested,
    Have(nat),
    Request(BlockInfo),
    Block(nat, u32, Seq<u8>),
    Cancel(BlockInfo),
}

impl View for Message {
    type V = MessageModel;

    open spec fn view(&self) -> MessageModel {
        match self {
            Message::KeepAlive => MessageModel::KeepAlive,
            Message::Bitfield(b) => MessageModel::Bitfield(b@),
            Message::Choke => MessageModel::Choke,
            Message::Unchoke => MessageModel::Unchoke,
            Message::Interested => MessageModel::Interested,
            Message::NotInterested => MessageModel::NotInterested,
            Message::Have { piece_index } => MessageModel::Have(*piece_index as nat),
            Message::Request(bi) => MessageModel::Request(*bi),
            Message::Block { piece_index, offset, data } => MessageModel::Block(
                *piece_index as nat,
                *offset,
                data@,
            ),
            Message::Cancel(bi) => MessageModel::Cancel(*bi),
        }
    }
}

/// The wire form of a block's piece index, offset and length.
pub open spec fn block_info_bytes(bi: BlockInfo) -> Seq<u8> {
    u32_bytes(bi.piece_index as u32) + u32_bytes(bi.offset) + u32_bytes(bi.len)
}

/// The frame of a message: its length prefix, then its ID and payload.
pub open spec fn frame(m: MessageModel) -> Seq<u8> {
    match m {
        MessageModel::KeepAlive => u32_bytes(0),
        MessageModel::Bitfield(b) => u32_bytes((1 + b.len()) as u32) + seq![5u8] + b,
        MessageModel::Choke => u32_bytes(1) + seq![0u8],
        MessageModel::Unchoke => u32_bytes(1) + seq![1u8],
        MessageModel::Interested => u32_bytes(1) + seq![2u8],
        MessageModel::NotInterested => u32_bytes(1) + seq![3u8],
        MessageModel::Have(p) => u32_bytes(5) + seq![4u8] + u32_bytes(p as u32),
        MessageModel::Request(bi) => u32_bytes(13) + seq![6u8] + block_info_bytes(bi),
        MessageModel::Block(p, offset, d) => u32_bytes((9 + d.len()) as u32) + seq![7u8] + u32_bytes(
            p as u32,
        ) + u32_bytes(offset) + d,
        MessageModel::Cancel(bi) => u32_bytes(13) + seq![8u8] + block_info_bytes(bi),
    }
}

/// Why a message cannot be framed, if it cannot: a piece index beyond 32
/// bits, or a payload beyond the largest length prefix.
pub open spec fn encode_error(m: MessageModel) -> Option<CodecError> {
    match m {
        MessageModel::Bitfield(b) => if 1 + b.len() > MAX_MESSAGE_LEN {
            Some(CodecError::MessageTooLong)
        } else {
            None
        },
        MessageModel::Have(p) => if p > u32::MAX {
            Some(CodecError::PieceIndexTooLarge)
        } else {
            None
        },
        MessageModel::Request(bi) | MessageModel::Cancel(bi) => if bi.piece_index > u32::MAX {
            Some(CodecError::PieceIndexTooLarge)
        } else {
            None
        },
        MessageModel::Block(p, _, d) => if p > u32::MAX {
            Some(CodecError::PieceIndexTooLarge)
        } else if 9 + d.len() > MAX_MESSAGE_LEN {
            Some(CodecError::MessageTooLong)
        } else {
            None
        },
        _ => None,
    }
}

/// The outcome of decoding the front of a buffer.
pub enum Decoded {
    /// The buffer does not yet hold a whole frame.
    Incomplete,
    /// The frame is not a valid message.
    Invalid(CodecError),
    /// A message, and the length of its frame.
    Message(MessageModel, int),
}

/// The message that an ID byte and the payload after it stand for.
pub open spec fn parse_payload(id: u8, p: Seq<u8>) -> Result<MessageModel, CodecError> {
    if id > 8 {
        Err(CodecError::UnknownMessageId(id))
    } else if id <= 3 {
        if p.len() != 0 {
            Err(CodecError::InvalidMessageLength)
        } else if id == 0 {
            Ok(MessageModel::Choke)
        } else if id == 1 {
            Ok(MessageModel::Unchoke)
        } else if id == 2 {
            Ok(MessageModel::Interested)
        } else {
            Ok(MessageModel::NotInterested)
        }
    } else if id == 4 {
        if p.len() != 4 {
            Err(CodecError::InvalidMessageLength)
        } else {
            Ok(MessageModel::Have(read_u32(p, 0) as nat))
        }
    } else if id == 5 {
        Ok(MessageModel::Bitfield(p))
    } else if id == 7 {
        if p.len() < 8 {
            Err(CodecError::InvalidMessageLength)
        } else {
            Ok(MessageModel::Block(read_u32(p, 0) as nat, read_u32(p, 4), p.skip(8)))
        }
    } else {
        if p.len() != 12 {
            Err(CodecError::InvalidMessageLength)
        } else {
            let bi = BlockInfo {
                piece_index: read_u32(p, 0) as usize,
                offset: read_u32(p, 4),
                len: read_u32(p, 8),
            };
            if id == 6 {
                Ok(MessageModel::Request(bi))
            } else {
                Ok(MessageModel::Cancel(bi))
            }
        }
    }
}

/// What the front of `s` decodes to: a length prefix of zero is a
/// keep-alive; otherwise the prefix counts the ID byte and the payload.
pub open spec fn parse_message(s: Seq<u8>) -> Decoded {
    if s.len() < 4 {
        Decoded::Incomplete
    } else {
        let len = read_u32(s, 0) as int;
        if len > MAX_MESSAGE_LEN {
            Decoded::Invalid(CodecError::MessageTooLong)
        } else if s.len() < 4 + len {
            Decoded::Incomplete
        } else if len == 0 {
            Decoded::Message(MessageModel::KeepAlive, 4)
        } else {
            match parse_payload(s[4], s.subrange(5, 4 + len)) {
                Ok(m) => Decoded::Message(m, 4 + len),
                Err(e) => Decoded::Invalid(e),
            }
        }
    }
}

impl Message {
    /// The ID of a typed message; a keep-alive has none.
    pub fn id(&self) -> (r: Option<MessageId>)
        ensures
            (r is None) == (*self is KeepAlive),
            r matches Some(id) ==> frame(self@)[4] == id_byte(id),
    {
        match self {
            Message::KeepAlive => None,
            Message::Bitfield(_) => Some(MessageId::Bitfield),
            Message::Choke => Some(MessageId::Choke),
            Message::Unchoke => Some(MessageId::Unchoke),
            Message::Interested => Some(MessageId::Interested),
            Message::NotInterested => Some(MessageId::NotInterested),
            Message::Have { .. } => Some(MessageId::Have),
            Message::Request(_) => Some(MessageId::Request),
            Message::Block { .. } => Some(MessageId::Block),
            Message::Cancel(_) => Some(MessageId::Cancel),
        }
    }

    /// The length of the message's header; a keep-alive counts 1.
    pub fn protocol_len(&self) -> (r: u64)
        ensures
            r == match *self {
                Message::KeepAlive => 1u64,
                Message::Have { .. } => 9u64,
                Message::Request(_) | Message::Cancel(_) => 17u64,
                Message::Block { .. } => 13u64,
                _ => 5u64,
            },
    {
        if let Some(id) = self.id() {
            id.header_len()
        } else {
            1
        }
    }
}

/// Appends the wire form of a block's piece index, offset and length.
fn put_block_info(buf: &mut Vec<u8>, bi: &BlockInfo) -> (r: Result<(), CodecError>)
    ensures
        bi.piece_index > u32::MAX ==> r == Err::<(), CodecError>(CodecError::PieceIndexTooLarge)
            && final(buf)@ == old(buf)@,
        bi.piece_index <= u32::MAX ==> r is Ok && final(buf)@ == old(buf)@ + block_info_bytes(*bi),
{
    if bi.piece_index as u64 > u32::MAX as u64 {
        return Err(CodecError::PieceIndexTooLarge);
    }
    put_u32(buf, bi.piece_index as u32);
    put_u32(buf, bi.offset);
    put_u32(buf, bi.len);
    assert(final(buf)@ =~= old(buf)@ + block_info_bytes(*bi));
    Ok(())
}

/// Encodes and decodes the messages that follow the handshake.
pub struct PeerCodec;

impl PeerCodec {
    /// Appends the frame of `msg`, or fails, appending nothing, when the
    /// message cannot be framed.
    pub fn encode(&mut self, msg: Message, buf: &mut Vec<u8>) -> (r: Result<(), CodecError>)
        ensures
            r == match encode_error(msg@) {
                Some(e) => Err::<(), CodecError>(e),
                None => Ok(()),
            },
            r is Ok ==> final(buf)@ == old(buf)@ + frame(msg@),
            r is Err ==> final(buf)@ == old(buf)@,
    {
        let ghost start = buf@;
        match msg {
            Message::KeepAlive => {
                put_u32(buf, 0);
            },
            Message::Bitfield(bits) => {
                if bits.len() >= MAX_MESSAGE_LEN {
                    return Err(CodecError::MessageTooLong);
                }
                put_u32(buf, (1 + bits.len()) as u32);
                buf.push(5);
                put_slice(buf, bits.as_slice());
                assert(buf@ =~= start + frame(msg@));
            },
            Message::Choke => {
                put_u32(buf, 1);
                buf.push(0);
            },
            Message::Unchoke => {
                put_u32(buf, 1);
                buf.push(1);
            },
            Message::Interested => {
                put_u32(buf, 1);
                buf.push(2);
            },
            Message::NotInterested => {
                put_u32(buf, 1);
                buf.push(3);
            },
            Message::Have { piece_index } => {
                if piece_index as u64 > u32::MAX as u64 {
                    return Err(CodecError::PieceIndexTooLarge);
                }
                put_u32(buf, 5);
                buf.push(4);
                put_u32(buf, piece_index as u32);
                assert(buf@ =~= start + frame(msg@));
            },
            Message::Request(info) => {
                if info.piece_index as u64 > u32::MAX as u64 {
                    return Err(CodecError::PieceIndexTooLarge);
                }
                put_u32(buf, 13);
                buf.push(6);
                let _ = put_block_info(buf, &info);
                assert(buf@ =~= start + frame(msg@));
            },
            Message::Block { piece_index, offset, data } => {
                if piece_index as u64 > u32::MAX as u64 {
                    return Err(CodecError::PieceIndexTooLarge);
                }
                if data.len() > MAX_MESSAGE_LEN - 9 {
                    return Err(CodecError::MessageTooLong);
                }
                put_u32(buf, (9 + data.len()) as u32);
                buf.push(7);
                put_u32(buf, piece_index as u32);
                put_u32(buf, offset);
                put_slice(buf, data.as_slice());
                assert(buf@ =~= start + frame(msg@));
            },
            Message::Cancel(info) => {
                if info.piece_index as u64 > u32::MAX as u64 {
                    return Err(CodecError::PieceIndexTooLarge);
                }
                put_u32(buf, 13);
                buf.push(8);
                let _ = put_block_info(buf, &info);
                assert(buf@ =~= start + frame(msg@));
            },
        }
        assert(buf@ =~= start + frame(msg@));
        Ok(())
    }

    /// Decodes a message from the front of `buf`, consuming its frame.
    ///
    /// Nothing is decoded, and nothing consumed, while the buffer holds no
    /// whole frame. A length prefix beyond `MAX_MESSAGE_LEN`, an unknown ID
    /// and a length that does not fit the ID are errors.
    pub fn decode(&mut self, buf: &mut Vec<u8>) -> (r: Result<Option<Message>, CodecError>)
        ensures
            match parse_message(old(buf)@) {
                Decoded::Incomplete => r == Ok::<Option<Message>, CodecError>(None) && final(buf)@
                    == old(buf)@,
                Decoded::Invalid(e) => r == Err::<Option<Message>, CodecError>(e),
                Decoded::Message(m, k) => {
                    &&& r matches Ok(Some(msg))
                    &&& r->Ok_0->Some_0@ == m
                    &&& final(buf)@ == old(buf)@.skip(k)
                },
            },
    {
        let n = buf.len();
        if n < 4 {
            return Ok(None);
        }
        let prefix = get_u32(buf, 0);
        if prefix as u64 > MAX_MESSAGE_LEN as u64 {
            return Err(CodecError::MessageTooLong);
        }
        let len = prefix as usize;
        if n - 4 < len {
            return Ok(None);
        }
        if len == 0 {
            consume(buf, 4);
            return Ok(Some(Message::KeepAlive));
        }
        let ghost s = buf@;
        let ghost p = s.subrange(5, 4 + len);
        let id = buf[4];
        let end = 4 + len;
        let msg = if id > 8 {
            return Err(CodecError::UnknownMessageId(id));
        } else if id <= 3 {
            if len != 1 {
                return Err(CodecError::InvalidMessageLength);
            }
            if id == 0 {
                Message::Choke
            } else if id == 1 {
                Message::Unchoke
            } else if id == 2 {
                Message::Interested
            } else {
                Message::NotInterested
            }
        } else if id == 4 {
            if len != 5 {
                return Err(CodecError::InvalidMessageLength);
            }
            let piece_index = get_u32(buf, 5);
            assert(read_u32(p, 0) == piece_index);
            Message::Have { piece_index: piece_index as usize }
        } else if id == 5 {
            Message::Bitfield(copy_range(buf, 5, end))
        } else if id == 7 {
            if len < 9 {
                return Err(CodecError::InvalidMessageLength);
            }
            let piece_index = get_u32(buf, 5);
            let offset = get_u32(buf, 9);
            let data = copy_range(buf, 13, end);
            assert(read_u32(p, 0) == piece_index);
            assert(read_u32(p, 4) == offset);
            assert(data@ =~= p.skip(8));
            Message::Block { piece_index: piece_index as usize, offset, data }
        } else {
            if len != 13 {
                return Err(CodecError::InvalidMessageLength);
            }
            let bi = BlockInfo {
                piece_index: get_u32(buf, 5) as usize,
                offset: get_u32(buf, 9),
                len: get_u32(buf, 13),
            };
            assert(read_u32(p, 0) as usize == bi.piece_index);
            assert(read_u32(p, 4) == bi.offset);
            assert(read_u32(p, 8) == bi.len);
            if id == 6 {
                Message::Request(bi)
            } else {
                Message::Cancel(bi)
            }
        };
        consume(buf, end);
        Ok(Some(msg))
    }
}

/// Decoding the frame of any message that can be framed gives back that
/// message and consumes exactly its frame, whatever bytes follow it.
pub proof fn lemma_message_round_trip(m: MessageModel, rest: Seq<u8>)
    requires
        encode_error(m) is None,
    ensures
        parse_message(frame(m) + rest) == Decoded::Message(m, frame(m).len() as int),
{
    let f = frame(m);
    let s = f + rest;
    let len: u32 = (f.len() - 4) as u32;
    assert(f.take(4) =~= u32_bytes(len));
    lemma_u32_bytes_round_trip(len);
    assert(read_u32(s, 0) == read_u32(u32_bytes(len), 0));
    match m {
        MessageModel::KeepAlive => {
            assert(f.len() == 4);
            assert(read_u32(s, 0) == 0);
            return;
        },
        _ => {},
    }
    let p = s.subrange(5, f.len() as int);
    assert(s[4] == f[4]);
    match m {
        MessageModel::Bitfield(b) => {
            assert(f[4] == 5u8);
            assert(len as int == 1 + b.len());
            assert(p =~= b);
        },
        MessageModel::Have(x) => {
            lemma_u32_bytes_round_trip(x as u32);
            assert(read_u32(p, 0) == read_u32(u32_bytes(x as u32), 0));
        },
        MessageModel::Request(bi) | MessageModel::Cancel(bi) => {
            lemma_u32_bytes_round_trip(bi.piece_index as u32);
            lemma_u32_bytes_round_trip(bi.offset);
            lemma_u32_bytes_round_trip(bi.len);
            assert(read_u32(p, 0) == read_u32(u32_bytes(bi.piece_index as u32), 0));
            assert(read_u32(p, 4) == read_u32(u32_bytes(bi.offset), 0));
            assert(read_u32(p, 8) == read_u32(u32_bytes(bi.len), 0));
        },
        MessageModel::Block(x, o, d) => {
            lemma_u32_bytes_round_trip(x as u32);
            lemma_u32_bytes_round_trip(o);
            assert(read_u32(p, 0) == read_u32(u32_bytes(x as u32), 0));
            assert(read_u32(p, 4) == read_u32(u32_bytes(o), 0));
            assert(p.skip(8) =~= d);
        },
        _ => {
            assert(f.len() == 5);
            assert(p.len() == 0);
        },
    }
}

/// The wire form of a handshake followed by any bytes is what the decoder
/// accepts as a whole handshake, and the wire form determines the
/// handshake, so decoding it gives back the same handshake.
pub proof fn lemma_handshake_round_trip(h: Handshake, h2: Handshake, rest: Seq<u8>)
    ensures
        (handshake_bytes(h) + rest).len() >= HANDSHAKE_WIRE_LEN,
        (handshake_bytes(h) + rest)[0] == PROTOCOL_LEN,
        (handshake_bytes(h) + rest).take(HANDSHAKE_WIRE_LEN as int) == handshake_bytes(h),
        handshake_bytes(h2) == handshake_bytes(h) ==> h2 == h,
{
    broadcast use vstd::array::axiom_array_ext_equal;

    let s = handshake_bytes(h) + rest;
    assert(s.take(HANDSHAKE_WIRE_LEN as int) =~= handshake_bytes(h));
    if handshake_bytes(h2) == handshake_bytes(h) {
        let a = handshake_bytes(h);
        let b = handshake_bytes(h2);
        assert(h2.prot@ =~= b.subrange(1, 20));
        assert(h.prot@ =~= a.subrange(1, 20));
        assert(h2.reserved@ =~= b.subrange(20, 28));
        assert(h.reserved@ =~= a.subrange(20, 28));
        assert(h2.info_hash@ =~= b.subrange(28, 48));
        assert(h.info_hash@ =~= a.subrange(28, 48));
        assert(h2.peer_id@ =~= b.subrange(48, 68));
        assert(h.peer_id@ =~= a.subrange(48, 68));
        assert(h2.prot =~= h.prot);
        assert(h2.reserved =~= h.reserved);
        assert(h2.info_hash =~= h.info_hash);
        assert(h2.peer_id =~= h.peer_id);
    }
}

} // verus!
