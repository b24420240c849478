use bit_vec::BitVec;
use torrent_client::action::{Message, PeerManagerAction};
use torrent_client::peer_manager::greeting_messages;
use torrent_client::wire::{decode_action, encode_message};

fn bitfield_bytes(bools: Vec<bool>) -> Vec<u8> {
    let bits: BitVec = bools.into_iter().collect();
    encode_message(&Message::Bitfield(bits))[5..].to_vec()
}

fn decoded_bits(bytes: &[u8]) -> Vec<bool> {
    match decode_action(5, bytes, 1) {
        PeerManagerAction::MessageAction(Message::Bitfield(bits)) => bits.iter().collect(),
        _ => panic!("expected a bitfield"),
    }
}

#[test]
fn bytes_to_bits_most_significant_first() {
    assert_eq!(decoded_bits(&[0b1000_0001]), vec![true, false, false, false, false, false, false, true]);
}

#[test]
fn bits_to_bytes_pads_with_false() {
    let bytes = bitfield_bytes(vec![true, true, false]);
    assert_eq!(bytes, vec![0b1100_0000]);
    assert_eq!(decoded_bits(&bytes), vec![true, true, false, false, false, false, false, false]);
}

#[test]
fn bytes_survive_a_round_trip() {
    let bytes = vec![0x00, 0xff, 0x5a, 0x81];
    assert_eq!(bitfield_bytes(decoded_bits(&bytes)), bytes);
}

#[test]
fn an_empty_bitfield_has_no_bytes() {
    assert_eq!(encode_message(&Message::Bitfield(BitVec::new())), vec![0, 0, 0, 1, 5]);
    assert!(decoded_bits(&[]).is_empty());
}

#[test]
fn greeting_sends_bitfield_then_interested() {
    let msgs = greeting_messages(&vec![true, false, true]);
    assert_eq!(msgs.len(), 2);
    match &msgs[0] {
        Message::Bitfield(bits) => {
            let expected: BitVec = vec![true, false, true].into_iter().collect();
            assert_eq!(*bits, expected);
        }
        _ => panic!("expected a bitfield first"),
    }
    assert!(matches!(msgs[1], Message::Interested));
}
