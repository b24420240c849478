//! The peer wire protocol: the handshake, message frames written to a peer,
//! and the events decoded from the frames a peer sends.
use crate::action::{ActionModel, Message, MessageModel, PeerManagerAction};
use crate::bits::{
    bits_of_bytes, bitvec_from_bytes, bitvec_len, bitvec_to_bytes, bytes_for_bits, bytes_of_bits,
    lemma_bits_bytes_roundtrip, pad_to_bytes,
};
use vstd::prelude::*;

verus! {

/// The four bytes of a `u32`, most significant first.
pub open spec fn be_u32_bytes(x: u32) -> Seq<u8> {
    seq![(x >> 24u32) as u8, (x >> 16u32) as u8, (x >> 8u32) as u8, x as u8]
}

/// The two bytes of a `u16`, most significant first.
pub open spec fn be_u16_bytes(x: u16) -> Seq<u8> {
    seq![(x >> 8u16) as u8, x as u8]
}

/// The `u32` whose big-endian bytes start `s`.
pub open spec fn be_u32_value(s: Seq<u8>) -> u32 {
    ((s[0] as u32) << 24u32) | ((s[1] as u32) << 16u32) | ((s[2] as u32) << 8u32) | (s[3] as u32)
}

/// The `u16` whose big-endian bytes start `s`.
pub open spec fn be_u16_value(s: Seq<u8>) -> u16 {
    ((s[0] as u16) << 8u16) | (s[1] as u16)
}

/// A frame: its length (the identifier byte and the payload) as a
/// big-endian `u32`, the identifier, then the payload.
pub open spec fn frame(id: u8, payload: Seq<u8>) -> Seq<u8> {
    be_u32_bytes((payload.len() + 1) as u32) + seq![id] + payload
}

/// The bytes written to a peer for a message.
pub open spec fn encoding(m: MessageModel) -> Seq<u8> {
    match m {
        MessageModel::KeepAlive => be_u32_bytes(0),
        MessageModel::Choke => frame(0, seq![]),
        MessageModel::Unchoke => frame(1, seq![]),
        MessageModel::Interested => frame(2, seq![]),
        MessageModel::NotInterested => frame(3, seq![]),
        MessageModel::Have(i) => frame(4, be_u32_bytes(i)),
        MessageModel::Bitfield(bits) => frame(5, bytes_of_bits(bits)),
        MessageModel::Request(i, b, l) => frame(6, be_u32_bytes(i) + be_u32_bytes(b) + be_u32_bytes(l)),
        MessageModel::Piece(i, b, block) => frame(7, be_u32_bytes(i) + be_u32_bytes(b) + block),
        MessageModel::Cancel(i, b, l) => frame(8, be_u32_bytes(i) + be_u32_bytes(b) + be_u32_bytes(l)),
        MessageModel::Port(p) => frame(9, be_u16_bytes(p)),
    }
}

/// Messages whose frame length fits the `u32` length field.
pub open spec fn encodable(m: MessageModel) -> bool {
    match m {
        MessageModel::Bitfield(bits) => bits.len() <= u32::MAX,
        MessageModel::Piece(_, _, block) => block.len() + 9 <= u32::MAX,
        _ => true,
    }
}

/// How many payload bytes follow the identifier of a frame whose length,
/// less the identifier byte, is `length`; nothing for an unknown identifier.
pub open spec fn payload_size(id: u8, length: u32) -> Option<nat> {
    if id <= 3 {
        Some(0)
    } else if id == 4 {
        Some(4)
    } else if id == 5 {
        Some(length as nat)
    } else if id == 6 || id == 8 {
        Some(12)
    } else if id == 7 {
        Some(length as nat)
    } else if id == 9 {
        Some(2)
    } else {
        None
    }
}

/// The payloads that can be decoded for an identifier: long enough for
/// the fields, and a block measured over a positive time.
pub open spec fn decodable(id: u8, len: nat, elapsed_ms: u128) -> bool {
    &&& id <= 9
    &&& id == 4 ==> len >= 4
    &&& id == 5 ==> len * 8 <= usize::MAX
    &&& (id == 6 || id == 8) ==> len >= 12
    &&& id == 7 ==> len >= 8 && elapsed_ms > 0
    &&& id == 9 ==> len >= 2
}

/// The speed, in bytes per millisecond, at which a block arrived.
pub open spec fn block_speed(len: nat, elapsed_ms: u128) -> i64 {
    (len / (elapsed_ms as nat)) as i64
}

/// The event decoded from a frame with identifier `id` and this payload.
pub open spec fn decoded(id: u8, payload: Seq<u8>, elapsed_ms: u128) -> ActionModel {
    if id == 0 {
        ActionModel::MessageAction(MessageModel::Choke)
    } else if id == 1 {
        ActionModel::MessageAction(MessageModel::Unchoke)
    } else if id == 2 {
        ActionModel::MessageAction(MessageModel::Interested)
    } else if id == 3 {
        ActionModel::MessageAction(MessageModel::NotInterested)
    } else if id == 4 {
        ActionModel::MessageAction(MessageModel::Have(be_u32_value(payload)))
    } else if id == 5 {
        ActionModel::MessageAction(MessageModel::Bitfield(bits_of_bytes(payload)))
    } else if id == 6 {
        ActionModel::MessageAction(
            MessageModel::Request(
                be_u32_value(payload),
                be_u32_value(payload.skip(4)),
                be_u32_value(payload.skip(8)),
            ),
        )
    } else if id == 7 {
        ActionModel::Piece(
            be_u32_value(payload),
            be_u32_value(payload.skip(4)),
            payload.skip(8),
            block_speed((payload.len() - 8) as nat, elapsed_ms),
        )
    } else if id == 8 {
        ActionModel::MessageAction(
            MessageModel::Cancel(
                be_u32_value(payload),
                be_u32_value(payload.skip(4)),
                be_u32_value(payload.skip(8)),
            ),
        )
    } else {
        ActionModel::MessageAction(MessageModel::Port(be_u16_value(payload)))
    }
}

/// Appends the big-endian bytes of a `u32`.
fn push_be_u32(out: &mut Vec<u8>, x: u32)
    ensures
        final(out)@ == old(out)@ + be_u32_bytes(x),
{
    out.push((x >> 24u32) as u8);
    out.push((x >> 16u32) as u8);
    out.push((x >> 8u32) as u8);
    out.push(x as u8);
    assert(final(out)@ =~= old(out)@ + be_u32_bytes(x));
}

/// Appends the big-endian bytes of a `u16`.
fn push_be_u16(out: &mut Vec<u8>, x: u16)
    ensures
        final(out)@ == old(out)@ + be_u16_bytes(x),
{
    out.push((x >> 8u16) as u8);
    out.push(x as u8);
    assert(final(out)@ =~= old(out)@ + be_u16_bytes(x));
}

/// Appends a byte string.
fn push_bytes(out: &mut Vec<u8>, bytes: &[u8])
    ensures
        final(out)@ == old(out)@ + bytes@,
{
    let ghost start = out@;
    let mut i: usize = 0;
    while i < bytes.len()
        invariant
            i <= bytes@.len(),
            out@ == start + bytes@.take(i as int),
        decreases bytes@.len() - i,
    {
        out.push(bytes[i]);
        i = i + 1;
        assert(out@ =~= start + bytes@.take(i as int));
    }
    assert(bytes@.take(i as int) =~= bytes@);
}

/// The bytes `from .. to` of a byte string, as a new vector.
fn copy_range(bytes: &[u8], from: usize, to: usize) -> (out: Vec<u8>)
    requires
        from <= to <= bytes@.len(),
    ensures
        out@ == bytes@.subrange(from as int, to as int),
{
    let mut out: Vec<u8> = Vec::new();
    let mut i: usize = from;
    while i < to
        invariant
            from <= i <= to <= bytes@.len(),
            out@ == bytes@.subrange(from as int, i as int),
        decreases to - i,
    {
        out.push(bytes[i]);
        i = i + 1;
        assert(out@ =~= bytes@.subrange(from as int, i as int));
    }
    out
}

/// The `u32` whose big-endian bytes start at `at`.
fn read_be_u32(bytes: &[u8], at: usize) -> (x: u32)
    requires
        at + 4 <= bytes@.len(),
    ensures
        x == be_u32_value(bytes@.skip(at as int)),
{
    ((bytes[at] as u32) << 24u32) | ((bytes[at + 1] as u32) << 16u32) | ((bytes[at + 2] as u32) << 8u32)
        | (bytes[at + 3] as u32)
}

/// A frame header: the length field, then the identifier.
fn frame_header(out: &mut Vec<u8>, payload_len: u32, id: u8)
    requires
        payload_len < u32::MAX,
    ensures
        final(out)@ == old(out)@ + be_u32_bytes((payload_len + 1) as u32) + seq![id],
{
    push_be_u32(out, payload_len + 1);
    out.push(id);
}

/// The bytes to write to a peer for a message: its frame (a bare zero
/// length for a keep-alive).
pub fn encode_message(m: &Message) -> (bytes: Vec<u8>)
    requires
        encodable(m@),
    ensures
        bytes@ == encoding(m@),
{
    let mut out: Vec<u8> = Vec::new();
    match m {
        Message::KeepAlive => {
            push_be_u32(&mut out, 0);
        },
        Message::Choke => {
            frame_header(&mut out, 0, 0);
        },
        Message::Unchoke => {
            frame_header(&mut out, 0, 1);
        },
        Message::Interested => {
            frame_header(&mut out, 0, 2);
        },
        Message::NotInterested => {
            frame_header(&mut out, 0, 3);
        },
        Message::Have(index) => {
            frame_header(&mut out, 4, 4);
            push_be_u32(&mut out, *index);
        },
        Message::Bitfield(bitfield) => {
            let nbits = bitvec_len(bitfield) as u32;
            let nbytes: u32 = nbits / 8 + if nbits % 8 == 0 { 0 } else { 1 };
            let body = bitvec_to_bytes(bitfield);
            frame_header(&mut out, nbytes, 5);
            push_bytes(&mut out, body.as_slice());
        },
        Message::Request(index, begin, length) => {
            frame_header(&mut out, 12, 6);
            push_be_u32(&mut out, *index);
            push_be_u32(&mut out, *begin);
            push_be_u32(&mut out, *length);
        },
        Message::Piece(index, begin, block) => {
            frame_header(&mut out, 8 + block.len() as u32, 7);
            push_be_u32(&mut out, *index);
            push_be_u32(&mut out, *begin);
            push_bytes(&mut out, block.as_slice());
        },
        Message::Cancel(index, begin, length) => {
            frame_header(&mut out, 12, 8);
            push_be_u32(&mut out, *index);
            push_be_u32(&mut out, *begin);
            push_be_u32(&mut out, *length);
        },
        Message::Port(port) => {
            frame_header(&mut out, 2, 9);
            push_be_u16(&mut out, *port);
        },
    }
    assert(out@ =~= encoding(m@));
    out
}

/// How many payload bytes to read after the identifier of a frame whose
/// length less the identifier byte is `length`; `None` for an identifier
/// the protocol does not know.
pub fn payload_len(id: u8, length: u32) -> (n: Option<usize>)
    requires
        id == 7 ==> length >= 8,
    ensures
        n is Some <==> payload_size(id, length) is Some,
        n matches Some(k) ==> payload_size(id, length) == Some(k as nat),
{
    if id <= 3 {
        Some(0)
    } else if id == 4 {
        Some(4)
    } else if id == 5 || id == 7 {
        Some(length as usize)
    } else if id == 6 || id == 8 {
        Some(12)
    } else if id == 9 {
        Some(2)
    } else {
        None
    }
}

/// The event for a frame from a peer, given its identifier, its payload,
/// and, for a block, the milliseconds that reading the block took.
pub fn decode_action(id: u8, payload: &[u8], elapsed_ms: u128) -> (a: PeerManagerAction)
    requires
        decodable(id, payload@.len(), elapsed_ms),
    ensures
        a@ == decoded(id, payload@, elapsed_ms),
{
    if id == 0 {
        PeerManagerAction::MessageAction(Message::Choke)
    } else if id == 1 {
        PeerManagerAction::MessageAction(Message::Unchoke)
    } else if id == 2 {
        PeerManagerAction::MessageAction(Message::Interested)
    } else if id == 3 {
        PeerManagerAction::MessageAction(Message::NotInterested)
    } else if id == 4 {
        PeerManagerAction::MessageAction(Message::Have(read_be_u32(payload, 0)))
    } else if id == 5 {
        PeerManagerAction::MessageAction(Message::Bitfield(bitvec_from_bytes(payload)))
    } else if id == 6 {
        let index = read_be_u32(payload, 0);
        let begin = read_be_u32(payload, 4);
        let length = read_be_u32(payload, 8);
        PeerManagerAction::MessageAction(Message::Request(index, begin, length))
    } else if id == 7 {
        let index = read_be_u32(payload, 0);
        let begin = read_be_u32(payload, 4);
        let block = copy_range(payload, 8, payload.len());
        let speed = ((block.len() as u128) / elapsed_ms) as i64;
        assert(block@ =~= payload@.skip(8));
        PeerManagerAction::Piece(index, begin, block, speed)
    } else if id == 8 {
        let index = read_be_u32(payload, 0);
        let begin = read_be_u32(payload, 4);
        let length = read_be_u32(payload, 8);
        PeerManagerAction::MessageAction(Message::Cancel(index, begin, length))
    } else {
        let port = ((payload[0] as u16) << 8u16) | (payload[1] as u16);
        PeerManagerAction::MessageAction(Message::Port(port))
    }
}

/// The bytes of the protocol name, `BitTorrent protocol`.
pub open spec fn protocol_name() -> Seq<u8> {
    seq![66u8, 105, 116, 84, 111, 114, 114, 101, 110, 116, 32, 112, 114, 111, 116, 111, 99, 111, 108]
}

/// The handshake: the name's length, the name, eight zero bytes, the info
/// hash and the peer id.
pub open spec fn handshake_bytes(info_hash: Seq<u8>, peer_id: Seq<u8>) -> Seq<u8> {
    seq![19u8] + protocol_name() + Seq::new(8, |i: int| 0u8) + info_hash + peer_id
}

/// The handshake that opens a connection.
pub fn handshake(info_hash: &[u8], peer_id: &[u8]) -> (bytes: Vec<u8>)
    ensures
        bytes@ == handshake_bytes(info_hash@, peer_id@),
{
    let name: [u8; 19] = [66u8, 105, 116, 84, 111, 114, 114, 101, 110, 116, 32, 112, 114, 111, 116, 111, 99, 111, 108];
    let reserved: [u8; 8] = [0u8; 8];
    let mut out: Vec<u8> = Vec::new();
    out.push(19u8);
    push_bytes(&mut out, &name);
    push_bytes(&mut out, &reserved);
    push_bytes(&mut out, info_hash);
    push_bytes(&mut out, peer_id);
    assert(name@ =~= protocol_name());
    assert(reserved@ =~= Seq::new(8, |i: int| 0u8));
    assert(out@ =~= handshake_bytes(info_hash@, peer_id@));
    out
}

/// The fields of a handshake received from a peer.
pub struct Handshake {
    pub protocol: Vec<u8>,
    pub reserved: Vec<u8>,
    pub info_hash: Vec<u8>,
    pub peer_id: Vec<u8>,
}

/// The length of a handshake whose protocol name has `name_len` bytes.
pub open spec fn handshake_len(name_len: u8) -> nat {
    (1 + name_len + 48) as nat
}

/// Splits a received handshake into its fields: the name (as long as its
/// first byte says), eight reserved bytes, a 20-byte info hash and a
/// 20-byte peer id; `None` when the bytes are not exactly that long.
pub fn parse_handshake(bytes: &[u8]) -> (h: Option<Handshake>)
    ensures
        h is Some <==> (bytes@.len() > 0 && bytes@.len() == handshake_len(bytes@[0])),
        h matches Some(h) ==> {
            let p = bytes@[0] as int;
            &&& h.protocol@ == bytes@.subrange(1, 1 + p)
            &&& h.reserved@ == bytes@.subrange(1 + p, 9 + p)
            &&& h.info_hash@ == bytes@.subrange(9 + p, 29 + p)
            &&& h.peer_id@ == bytes@.subrange(29 + p, 49 + p)
        },
{
    if bytes.len() == 0 {
        return None;
    }
    let p: usize = bytes[0] as usize;
    if bytes.len() != 1 + p + 48 {
        return None;
    }
    Some(
        Handshake {
            protocol: copy_range(bytes, 1, 1 + p),
            reserved: copy_range(bytes, 1 + p, 9 + p),
            info_hash: copy_range(bytes, 9 + p, 29 + p),
            peer_id: copy_range(bytes, 29 + p, 49 + p),
        },
    )
}

/// Big-endian bytes read back give the `u32` they were written from.
pub proof fn lemma_be_u32_roundtrip(x: u32)
    ensures
        be_u32_value(be_u32_bytes(x)) == x,
{
    let b0 = (x >> 24u32) as u8;
    let b1 = (x >> 16u32) as u8;
    let b2 = (x >> 8u32) as u8;
    let b3 = x as u8;
    assert((((b0 as u32) << 24u32) | ((b1 as u32) << 16u32) | ((b2 as u32) << 8u32) | (b3 as u32)) == x)
        by (bit_vector)
        requires
            b0 == (x >> 24u32) as u8,
            b1 == (x >> 16u32) as u8,
            b2 == (x >> 8u32) as u8,
            b3 == x as u8,
    ;
}

/// Big-endian bytes read back give the `u16` they were written from.
pub proof fn lemma_be_u16_roundtrip(x: u16)
    ensures
        be_u16_value(be_u16_bytes(x)) == x,
{
    let b0 = (x >> 8u16) as u8;
    let b1 = x as u8;
    assert((((b0 as u16) << 8u16) | (b1 as u16)) == x) by (bit_vector)
        requires
            b0 == (x >> 8u16) as u8,
            b1 == x as u8,
    ;
}

/// The event that the frame of a message decodes to: the message itself,
/// except that a bitfield comes back padded with false bits to whole bytes
/// and a block comes back as a received block with its speed.
pub open spec fn received(m: MessageModel, elapsed_ms: u128) -> ActionModel {
    match m {
        MessageModel::Bitfield(bits) => ActionModel::MessageAction(MessageModel::Bitfield(pad_to_bytes(bits))),
        MessageModel::Piece(i, b, block) => ActionModel::Piece(i, b, block, block_speed(block.len(), elapsed_ms)),
        _ => ActionModel::MessageAction(m),
    }
}

/// Reading a written frame back: its length field counts the bytes after
/// it; a keep-alive is a bare zero length; any other message has an
/// identifier whose payload size is what follows, and decoding that
/// payload gives the message back (see `received`).
pub proof fn lemma_frame_roundtrip(m: MessageModel, elapsed_ms: u128)
    requires
        encodable(m),
        elapsed_ms > 0,
        match m {
            MessageModel::Bitfield(bits) => bits.len() * 8 <= usize::MAX,
            _ => true,
        },
    ensures
        ({
            let f = encoding(m);
            let len = be_u32_value(f);
            &&& f.len() >= 4
            &&& f.len() == 4 + len
            &&& (m is KeepAlive <==> len == 0)
            &&& len > 0 ==> {
                let id = f[4];
                let payload = f.skip(5);
                &&& payload_size(id, (len - 1) as u32) == Some(payload.len())
                &&& decodable(id, payload.len(), elapsed_ms)
                &&& decoded(id, payload, elapsed_ms) == received(m, elapsed_ms)
            }
        }),
{
    let f = encoding(m);
    lemma_be_u32_roundtrip(0);
    match m {
        MessageModel::KeepAlive => {},
        MessageModel::Have(i) => {
            lemma_be_u32_roundtrip(1);
            lemma_be_u32_roundtrip(5);
            lemma_be_u32_roundtrip(i);
            assert(f.skip(5) =~= be_u32_bytes(i));
        },
        MessageModel::Bitfield(bits) => {
            let body = bytes_of_bits(bits);
            let n = (body.len() + 1) as u32;
            lemma_be_u32_roundtrip(n);
            lemma_bits_bytes_roundtrip(bits);
            assert(body.len() == bytes_for_bits(bits.len() as int));
            assert(f.skip(5) =~= body);
        },
        MessageModel::Request(i, b, l) => {
            lemma_be_u32_roundtrip(13);
            lemma_be_u32_roundtrip(i);
            lemma_be_u32_roundtrip(b);
            lemma_be_u32_roundtrip(l);
            let p = f.skip(5);
            assert(p =~= be_u32_bytes(i) + be_u32_bytes(b) + be_u32_bytes(l));
            assert(p.skip(4) =~= be_u32_bytes(b) + be_u32_bytes(l));
            assert(p.skip(8) =~= be_u32_bytes(l));
        },
        MessageModel::Cancel(i, b, l) => {
            lemma_be_u32_roundtrip(13);
            lemma_be_u32_roundtrip(i);
            lemma_be_u32_roundtrip(b);
            lemma_be_u32_roundtrip(l);
            let p = f.skip(5);
            assert(p =~= be_u32_bytes(i) + be_u32_bytes(b) + be_u32_bytes(l));
            assert(p.skip(4) =~= be_u32_bytes(b) + be_u32_bytes(l));
            assert(p.skip(8) =~= be_u32_bytes(l));
        },
        MessageModel::Piece(i, b, block) => {
            let n = (block.len() + 9) as u32;
            lemma_be_u32_roundtrip(n);
            lemma_be_u32_roundtrip(i);
            lemma_be_u32_roundtrip(b);
            let p = f.skip(5);
            assert(p =~= be_u32_bytes(i) + be_u32_bytes(b) + block);
            assert(p.skip(4) =~= be_u32_bytes(b) + block);
            assert(p.skip(8) =~= block);
        },
        MessageModel::Port(port) => {
            lemma_be_u32_roundtrip(3);
            lemma_be_u16_roundtrip(port);
            assert(f.skip(5) =~= be_u16_bytes(port));
        },
        _ => {
            lemma_be_u32_roundtrip(1);
        },
    }
}

/// Parsing the handshake this side sends gives back the protocol name,
/// eight zero bytes, the info hash and the peer id.
pub proof fn lemma_handshake_roundtrip(info_hash: Seq<u8>, peer_id: Seq<u8>)
    requires
        info_hash.len() == 20,
        peer_id.len() == 20,
    ensures
        ({
            let b = handshake_bytes(info_hash, peer_id);
            &&& b.len() > 0
            &&& b.len() == handshake_len(b[0])
            &&& b.subrange(1, 20) == protocol_name()
            &&& b.subrange(20, 28) == Seq::new(8, |i: int| 0u8)
            &&& b.subrange(28, 48) == info_hash
            &&& b.subrange(48, 68) == peer_id
        }),
{
    let b = handshake_bytes(info_hash, peer_id);
    assert(b.subrange(1, 20) =~= protocol_name());
    assert(b.subrange(20, 28) =~= Seq::new(8, |i: int| 0u8));
    assert(b.subrange(28, 48) =~= info_hash);
    assert(b.subrange(48, 68) =~= peer_id);
}

} // verus!
