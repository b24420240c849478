use bit_vec::BitVec;
use torrent_client::action::{Message, PeerManagerAction};
use torrent_client::wire::{decode_action, encode_message, handshake, parse_handshake, payload_len};

fn frame_parts(bytes: &[u8]) -> (u32, u8, Vec<u8>) {
    let len = u32::from_be_bytes([bytes[0], bytes[1], bytes[2], bytes[3]]);
    assert_eq!(bytes.len(), 4 + len as usize);
    (len, bytes[4], bytes[5..].to_vec())
}

#[test]
fn keep_alive_is_a_zero_length() {
    assert_eq!(encode_message(&Message::KeepAlive), vec![0, 0, 0, 0]);
}

#[test]
fn state_messages_have_their_ids() {
    assert_eq!(encode_message(&Message::Choke), vec![0, 0, 0, 1, 0]);
    assert_eq!(encode_message(&Message::Unchoke), vec![0, 0, 0, 1, 1]);
    assert_eq!(encode_message(&Message::Interested), vec![0, 0, 0, 1, 2]);
    assert_eq!(encode_message(&Message::NotInterested), vec![0, 0, 0, 1, 3]);
}

#[test]
fn have_request_cancel_port_frames() {
    assert_eq!(encode_message(&Message::Have(0x01020304)), vec![0, 0, 0, 5, 4, 1, 2, 3, 4]);
    assert_eq!(
        encode_message(&Message::Request(1, 16384, 16384)),
        vec![0, 0, 0, 13, 6, 0, 0, 0, 1, 0, 0, 0x40, 0, 0, 0, 0x40, 0]
    );
    assert_eq!(
        encode_message(&Message::Cancel(2, 0, 5)),
        vec![0, 0, 0, 13, 8, 0, 0, 0, 2, 0, 0, 0, 0, 0, 0, 0, 5]
    );
    assert_eq!(encode_message(&Message::Port(6881)), vec![0, 0, 0, 3, 9, 0x1a, 0xe1]);
}

#[test]
fn piece_frame_carries_the_block() {
    assert_eq!(
        encode_message(&Message::Piece(3, 8, vec![9, 8, 7])),
        vec![0, 0, 0, 12, 7, 0, 0, 0, 3, 0, 0, 0, 8, 9, 8, 7]
    );
}

#[test]
fn bitfield_frame_pads_to_whole_bytes() {
    let bits: BitVec = vec![true, false, true, true, false, false, false, false, true, true]
        .into_iter()
        .collect();
    assert_eq!(encode_message(&Message::Bitfield(bits)), vec![0, 0, 0, 3, 5, 0b1011_0000, 0b1100_0000]);
}

#[test]
fn payload_lengths_follow_the_ids() {
    assert_eq!(payload_len(0, 0), Some(0));
    assert_eq!(payload_len(3, 0), Some(0));
    assert_eq!(payload_len(4, 4), Some(4));
    assert_eq!(payload_len(5, 7), Some(7));
    assert_eq!(payload_len(6, 12), Some(12));
    assert_eq!(payload_len(7, 20), Some(20));
    assert_eq!(payload_len(8, 12), Some(12));
    assert_eq!(payload_len(9, 2), Some(2));
    assert_eq!(payload_len(10, 0), None);
    assert_eq!(payload_len(255, 3), None);
}

#[test]
fn decoding_messages() {
    assert!(matches!(decode_action(0, &[], 1), PeerManagerAction::MessageAction(Message::Choke)));
    assert!(matches!(decode_action(1, &[], 1), PeerManagerAction::MessageAction(Message::Unchoke)));
    assert!(matches!(decode_action(2, &[], 1), PeerManagerAction::MessageAction(Message::Interested)));
    assert!(matches!(decode_action(3, &[], 1), PeerManagerAction::MessageAction(Message::NotInterested)));
    assert!(matches!(
        decode_action(4, &[0, 0, 1, 0], 1),
        PeerManagerAction::MessageAction(Message::Have(256))
    ));
    assert!(matches!(
        decode_action(6, &[0, 0, 0, 2, 0, 0, 0x40, 0, 0, 0, 0x40, 0], 1),
        PeerManagerAction::MessageAction(Message::Request(2, 16384, 16384))
    ));
    assert!(matches!(
        decode_action(8, &[0, 0, 0, 2, 0, 0, 0, 0, 0, 0, 0, 9], 1),
        PeerManagerAction::MessageAction(Message::Cancel(2, 0, 9))
    ));
    assert!(matches!(
        decode_action(9, &[0x1a, 0xe1], 1),
        PeerManagerAction::MessageAction(Message::Port(6881))
    ));
}

#[test]
fn decoding_a_bitfield() {
    match decode_action(5, &[0b1010_0000, 0b0000_0001], 1) {
        PeerManagerAction::MessageAction(Message::Bitfield(bits)) => {
            assert_eq!(bits.len(), 16);
            let expected = [
                true, false, true, false, false, false, false, false, false, false, false, false, false,
                false, false, true,
            ];
            assert!(bits.eq_vec(&expected));
        }
        _ => panic!("expected a bitfield"),
    }
}

#[test]
fn decoding_a_block_measures_its_speed() {
    let mut payload = vec![0, 0, 0, 5, 0, 0, 0x40, 0];
    payload.extend(std::iter::repeat(7u8).take(1000));
    match decode_action(7, &payload, 10) {
        PeerManagerAction::Piece(index, begin, block, speed) => {
            assert_eq!(index, 5);
            assert_eq!(begin, 16384);
            assert_eq!(block, vec![7u8; 1000]);
            assert_eq!(speed, 100);
        }
        _ => panic!("expected a block"),
    }
}

#[test]
fn frames_decode_back_to_their_messages() {
    let messages = vec![
        Message::Choke,
        Message::Unchoke,
        Message::Interested,
        Message::NotInterested,
        Message::Have(77),
        Message::Request(1, 2, 3),
        Message::Cancel(4, 5, 6),
        Message::Port(51413),
    ];
    for m in messages {
        let bytes = encode_message(&m);
        let (len, id, payload) = frame_parts(&bytes);
        assert_eq!(payload_len(id, len - 1), Some(payload.len()));
        let back = decode_action(id, &payload, 1);
        assert_eq!(encode_message(&match back {
            PeerManagerAction::MessageAction(m) => m,
            _ => panic!("expected a message"),
        }), bytes);
    }
}

#[test]
fn a_block_frame_decodes_to_a_received_block() {
    let bytes = encode_message(&Message::Piece(9, 32768, vec![1, 2, 3, 4]));
    let (len, id, payload) = frame_parts(&bytes);
    assert_eq!(payload_len(id, len - 1), Some(payload.len()));
    match decode_action(id, &payload, 2) {
        PeerManagerAction::Piece(index, begin, block, speed) => {
            assert_eq!((index, begin, block, speed), (9, 32768, vec![1, 2, 3, 4], 2));
        }
        _ => panic!("expected a block"),
    }
}

#[test]
fn handshake_layout() {
    let info_hash = [0xaau8; 20];
    let peer_id = [0x55u8; 20];
    let h = handshake(&info_hash, &peer_id);
    assert_eq!(h.len(), 68);
    assert_eq!(h[0], 19);
    assert_eq!(&h[1..20], b"BitTorrent protocol");
    assert_eq!(&h[20..28], &[0u8; 8]);
    assert_eq!(&h[28..48], &info_hash);
    assert_eq!(&h[48..68], &peer_id);
    let parsed = parse_handshake(&h).expect("a whole handshake");
    assert_eq!(parsed.protocol, b"BitTorrent protocol".to_vec());
    assert_eq!(parsed.reserved, vec![0u8; 8]);
    assert_eq!(parsed.info_hash, info_hash.to_vec());
    assert_eq!(parsed.peer_id, peer_id.to_vec());
}

#[test]
fn handshake_of_the_wrong_length_is_refused() {
    assert!(parse_handshake(&[]).is_none());
    let h = handshake(&[1u8; 20], &[2u8; 20]);
    assert!(parse_handshake(&h[..67]).is_none());
    let mut longer = h.clone();
    longer.push(0);
    assert!(parse_handshake(&longer).is_none());
    let short_name = [3u8, b'a', b'b', b'c'];
    let mut other = short_name.to_vec();
    other.extend([0u8; 48]);
    let parsed = parse_handshake(&other).expect("a handshake with a short name");
    assert_eq!(parsed.protocol, b"abc".to_vec());
}
