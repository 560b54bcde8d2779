use cratetorrent::bitfield::{from_wire_bytes, to_wire_bytes, Bitfield};
use cratetorrent::codec::{
    CodecError, Handshake, HandshakeCodec, Message, MessageId, PeerCodec,
};
use cratetorrent::BlockInfo;

fn round_trip(msg: Message) {
    let mut buf = Vec::new();
    PeerCodec.encode(msg.clone(), &mut buf).unwrap();
    buf.extend_from_slice(&[9, 9, 9]);
    let decoded = PeerCodec.decode(&mut buf).unwrap();
    assert_eq!(decoded, Some(msg));
    assert_eq!(buf, vec![9, 9, 9]);
}

#[test]
fn every_message_round_trips() {
    let info = BlockInfo { piece_index: 3, offset: 16384, len: 16384 };
    round_trip(Message::KeepAlive);
    round_trip(Message::Choke);
    round_trip(Message::Unchoke);
    round_trip(Message::Interested);
    round_trip(Message::NotInterested);
    round_trip(Message::Have { piece_index: 42 });
    round_trip(Message::Bitfield(Vec::new()));
    round_trip(Message::Bitfield(vec![0b1010_0000, 0xff]));
    round_trip(Message::Request(info));
    round_trip(Message::Cancel(info));
    round_trip(Message::Block { piece_index: 1, offset: 0, data: Vec::new() });
    round_trip(Message::Block { piece_index: 7, offset: 32768, data: vec![0xab; 16384] });
}

#[test]
fn have_is_framed_big_endian() {
    let mut buf = Vec::new();
    PeerCodec.encode(Message::Have { piece_index: 0x01020304 }, &mut buf).unwrap();
    assert_eq!(buf, vec![0, 0, 0, 5, 4, 1, 2, 3, 4]);
}

#[test]
fn keep_alive_is_four_zero_bytes() {
    let mut buf = Vec::new();
    PeerCodec.encode(Message::KeepAlive, &mut buf).unwrap();
    assert_eq!(buf, vec![0, 0, 0, 0]);
}

#[test]
fn request_is_framed_with_three_fields() {
    let mut buf = Vec::new();
    let info = BlockInfo { piece_index: 1, offset: 2, len: 3 };
    PeerCodec.encode(Message::Request(info), &mut buf).unwrap();
    assert_eq!(buf, vec![0, 0, 0, 13, 6, 0, 0, 0, 1, 0, 0, 0, 2, 0, 0, 0, 3]);
}

#[test]
fn incomplete_frames_are_left_in_place() {
    let mut buf = vec![0, 0, 0];
    assert_eq!(PeerCodec.decode(&mut buf), Ok(None));
    assert_eq!(buf, vec![0, 0, 0]);
    let mut buf = vec![0, 0, 0, 5, 4, 0, 0];
    assert_eq!(PeerCodec.decode(&mut buf), Ok(None));
    assert_eq!(buf.len(), 7);
}

#[test]
fn unknown_id_is_an_error() {
    let mut buf = vec![0, 0, 0, 1, 9];
    assert_eq!(PeerCodec.decode(&mut buf), Err(CodecError::UnknownMessageId(9)));
}

#[test]
fn wrong_length_for_id_is_an_error() {
    let mut buf = vec![0, 0, 0, 2, 0, 0];
    assert_eq!(PeerCodec.decode(&mut buf), Err(CodecError::InvalidMessageLength));
    let mut buf = vec![0, 0, 0, 3, 4, 0, 0];
    assert_eq!(PeerCodec.decode(&mut buf), Err(CodecError::InvalidMessageLength));
}

#[test]
fn oversized_prefix_is_an_error() {
    let mut buf = vec![0x01, 0x00, 0x00, 0x0a];
    assert_eq!(PeerCodec.decode(&mut buf), Err(CodecError::MessageTooLong));
}

#[test]
fn piece_index_beyond_32_bits_is_not_encoded() {
    if usize::MAX as u64 > u32::MAX as u64 {
        let mut buf = vec![1];
        let r = PeerCodec.encode(Message::Have { piece_index: (u32::MAX as usize) + 1 }, &mut buf);
        assert_eq!(r, Err(CodecError::PieceIndexTooLarge));
        assert_eq!(buf, vec![1]);
    }
}

#[test]
fn handshake_round_trips() {
    let h = Handshake::new([7u8; 20], [9u8; 20]);
    assert_eq!(&h.prot[..], b"BitTorrent protocol");
    assert_eq!(h.len(), 67);
    let mut buf = Vec::new();
    HandshakeCodec.encode(h, &mut buf);
    assert_eq!(buf.len(), 68);
    assert_eq!(buf[0], 19);
    buf.push(0xee);
    let decoded = HandshakeCodec.decode(&mut buf).unwrap();
    assert_eq!(decoded, Some(h));
    assert_eq!(buf, vec![0xee]);
}

#[test]
fn handshake_decoding_waits_and_rejects() {
    let mut empty = Vec::new();
    assert_eq!(HandshakeCodec.decode(&mut empty), Ok(None));
    let mut short = vec![19, 66, 105];
    assert_eq!(HandshakeCodec.decode(&mut short), Ok(None));
    assert_eq!(short.len(), 3);
    let mut wrong = vec![18, 0, 0];
    assert_eq!(HandshakeCodec.decode(&mut wrong), Err(CodecError::InvalidProtocolLength));
}

#[test]
fn message_ids_and_header_lengths() {
    assert_eq!(MessageId::try_from(4), Ok(MessageId::Have));
    assert_eq!(MessageId::try_from(8), Ok(MessageId::Cancel));
    assert_eq!(MessageId::try_from(200), Err(CodecError::UnknownMessageId(200)));
    assert_eq!(MessageId::Have.header_len(), 9);
    assert_eq!(MessageId::Request.header_len(), 17);
    assert_eq!(MessageId::Block.header_len(), 13);
    assert_eq!(MessageId::Choke.header_len(), 5);
    assert_eq!(Message::KeepAlive.id(), None);
    assert_eq!(Message::KeepAlive.protocol_len(), 1);
    assert_eq!(Message::Have { piece_index: 1 }.id(), Some(MessageId::Have));
    assert_eq!(Message::Cancel(BlockInfo { piece_index: 0, offset: 0, len: 1 }).protocol_len(), 17);
}

#[test]
fn bitfield_wire_bytes_are_msb_first_and_padded() {
    let mut b = Bitfield::repeat(false, 10);
    b.set(0, true);
    b.set(2, true);
    b.set(9, true);
    assert_eq!(to_wire_bytes(&b), vec![0b1010_0000, 0b0100_0000]);
    let empty = Bitfield::repeat(false, 0);
    assert_eq!(to_wire_bytes(&empty), Vec::<u8>::new());
}

#[test]
fn bitfield_from_wire_ignores_extra_bits() {
    let b = from_wire_bytes(&[0b1010_0000, 0b0111_1111], 10).unwrap();
    assert_eq!(b.len(), 10);
    let set: Vec<usize> = (0..10).filter(|i| b.get(*i)).collect();
    assert_eq!(set, vec![0, 2, 9]);
    assert!(from_wire_bytes(&[0xff], 9).is_none());
}
