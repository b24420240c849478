use torrent_client::action::{FileAction, PeerManagerAction};
use torrent_client::file::{hash_matches, verify, BLOCK_SIZE};
use sha1::{Digest, Sha1};
use torrent_client::torrent::{Info, Torrent, TorrentFile};

fn torrent_for(content: &[u8], piece_length: i64, corrupt: Option<usize>) -> Torrent {
    let mut pieces = Vec::new();
    let mut start = 0usize;
    let mut p = 0usize;
    while start < content.len() {
        let end = std::cmp::min(start + piece_length as usize, content.len());
        let mut h = Sha1::digest(&content[start..end]).to_vec();
        if corrupt == Some(p) {
            h[0] ^= 1;
        }
        pieces.extend(h);
        start = end;
        p += 1;
    }
    let info = Info {
        name: "f".to_string(),
        pieces,
        piece_length,
        md5sum: None,
        length: content.len() as i64,
        private: None,
        path: None,
        root_hash: None,
    };
    let tf = TorrentFile {
        info,
        announce: String::new(),
        announce_list: None,
        encoding: None,
        creation_date: None,
        comment: None,
        created_by: None,
    };
    Torrent::new(tf, b"", 1, vec![])
}

#[test]
fn complete_content_verifies_every_piece() {
    let content: Vec<u8> = (0..100u8).collect();
    let t = torrent_for(&content, 32, None);
    assert_eq!(verify(&t, &Some(content.clone())), vec![true, true, true, true]);
}

#[test]
fn a_corrupt_piece_fails() {
    let content: Vec<u8> = (0..100u8).collect();
    let t = torrent_for(&content, 32, Some(2));
    assert_eq!(verify(&t, &Some(content)), vec![true, true, false, true]);
}

#[test]
fn short_content_fails_the_pieces_it_lacks() {
    let content: Vec<u8> = (0..100u8).collect();
    let t = torrent_for(&content, 32, None);
    assert_eq!(verify(&t, &Some(content[..70].to_vec())), vec![true, true, false, false]);
}

#[test]
fn missing_file_has_no_piece() {
    let content: Vec<u8> = (0..100u8).collect();
    let t = torrent_for(&content, 32, None);
    assert_eq!(verify(&t, &None), vec![false; 4]);
}

#[test]
fn hash_comparison_uses_the_indexed_slot() {
    let pieces: Vec<u8> = (0..60u8).collect();
    let slot: Vec<u8> = (20..40u8).collect();
    assert!(hash_matches(&slot, &pieces, 1));
    assert!(!hash_matches(&slot, &pieces, 0));
    assert!(!hash_matches(&slot[..19], &pieces, 1));
}

#[test]
fn file_offsets() {
    assert_eq!(FileAction::Read(3, 100, 16384).offset(262144), 3 * 262144 + 100);
    assert_eq!(FileAction::Write(0, 16384, vec![1]).offset(262144), 16384);
    assert_eq!(FileAction::Read(0, 5, 1).offset(-1), 5);
    assert_eq!(FileAction::Read(2, 7, 1).offset(100), 207);
}

#[test]
fn a_write_reports_its_block() {
    assert!(FileAction::Read(1, 0, 10).completion().is_none());
    let a = FileAction::Write(4, 3 * BLOCK_SIZE as u32 + 5, vec![0]).completion().expect("a write reports");
    assert_eq!(a.id, "123");
    assert!(matches!(a.message, PeerManagerAction::Download(4, 3)));
}

#[test]
fn empty_pieces_hash_the_empty_string() {
    let mut pieces = Sha1::digest(b"").to_vec();
    pieces.extend(vec![0u8; 20]);
    pieces.extend(Sha1::digest(b"abc").to_vec());
    let info = Info {
        name: "f".to_string(),
        pieces,
        piece_length: 0,
        md5sum: None,
        length: 3,
        private: None,
        path: None,
        root_hash: None,
    };
    let tf = TorrentFile {
        info,
        announce: String::new(),
        announce_list: None,
        encoding: None,
        creation_date: None,
        comment: None,
        created_by: None,
    };
    let t = Torrent::new(tf, b"", 1, vec![]);
    assert_eq!(verify(&t, &Some(b"abc".to_vec())), vec![true, false, true]);
    assert_eq!(verify(&t, &Some(b"ab".to_vec())), vec![true, false, false]);
}

fn torrent_with(pieces: Vec<u8>, piece_length: i64, length: i64) -> Torrent {
    let info = Info {
        name: "f".to_string(),
        pieces,
        piece_length,
        md5sum: None,
        length,
        private: None,
        path: None,
        root_hash: None,
    };
    let tf = TorrentFile {
        info,
        announce: String::new(),
        announce_list: None,
        encoding: None,
        creation_date: None,
        comment: None,
        created_by: None,
    };
    Torrent::new(tf, b"", 1, vec![])
}

#[test]
fn missing_file_has_no_piece_whatever_the_geometry() {
    let t = torrent_with(vec![0; 40], -1, 5);
    assert!(!t.pieces_readable());
    assert_eq!(verify(&t, &None), vec![false, false]);
}

#[test]
fn an_empty_last_piece_hashes_the_empty_string() {
    let mut pieces = Sha1::digest(b"abcd").to_vec();
    pieces.extend(Sha1::digest(b"").to_vec());
    let t = torrent_with(pieces, 4, 4);
    assert_eq!(verify(&t, &Some(b"abcd".to_vec())), vec![true, true]);
}

#[test]
fn after_a_short_read_the_next_digest_is_used() {
    // The first piece cannot be read, so the empty last piece is compared
    // with the first recorded digest.
    let mut pieces = Sha1::digest(b"").to_vec();
    pieces.extend(vec![9u8; 20]);
    let t = torrent_with(pieces, 4, 4);
    assert_eq!(verify(&t, &Some(b"ab".to_vec())), vec![false, true]);
}
