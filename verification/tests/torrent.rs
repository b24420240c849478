use torrent_client::torrent::{Info, Torrent, TorrentFile};
use torrent_client::tracker::{BencodeValue, PeerEntry, PeerIps, TrackerRequest, TrackerResponse};

fn info(pieces: Vec<u8>, piece_length: i64, length: i64) -> Info {
    Info {
        name: "file.bin".to_string(),
        pieces,
        piece_length,
        md5sum: None,
        length,
        private: None,
        path: None,
        root_hash: None,
    }
}

fn torrent_file(info: Info) -> TorrentFile {
    TorrentFile {
        info,
        announce: "http://tracker.example/announce".to_string(),
        announce_list: None,
        encoding: None,
        creation_date: None,
        comment: None,
        created_by: None,
    }
}

fn response(peers: PeerIps) -> TrackerResponse {
    TrackerResponse {
        failure_reason: None,
        interval: 1800,
        complete: None,
        warning_reason: None,
        tracker_id: None,
        incomplete: None,
        min_interval: None,
        peers,
    }
}

#[test]
fn info_hash_is_sha1_of_the_encoded_info() {
    let hash = TorrentFile::info_hash(b"abc");
    assert_eq!(
        hash,
        vec![
            0xa9, 0x99, 0x3e, 0x36, 0x47, 0x06, 0x81, 0x6a, 0xba, 0x3e, 0x25, 0x71, 0x78, 0x50, 0xc2, 0x6c, 0x9c,
            0xd0, 0xd8, 0x9d
        ]
    );
}

#[test]
fn new_torrent_keeps_its_parts() {
    let t = Torrent::new(torrent_file(info(vec![0; 20], 16, 10)), b"abc", 6881, b"-qB5000-000000000000".to_vec());
    assert_eq!(t.port, 6881);
    assert_eq!(t.peer_id, b"-qB5000-000000000000".to_vec());
    assert_eq!(t.info_hash, TorrentFile::info_hash(b"abc"));
    assert_eq!(t.torrent_file.info.length, 10);
}

#[test]
fn tracker_request_url_encodes_hash_and_id() {
    let t = Torrent::new(torrent_file(info(vec![0; 20], 16, 10)), b"abc", 6881, b"-qB5000-12 4/".to_vec());
    let r = t.gen_tracker_request(b"abc", 10, 20, 30, Some("started".to_string()));
    assert_eq!(r.announce_url, "http://tracker.example/announce");
    assert_eq!(r.compact, 1);
    assert_eq!(r.info_hash, "%A9%99%3E6G%06%81j%BA%3E%25qxP%C2l%9C%D0%D8%9D");
    assert_eq!(r.peer_id, "-qB5000-12+4%2F");
    assert_eq!((r.downloaded, r.uploaded, r.left, r.port), (10, 20, 30, 6881));
    assert_eq!(r.event, Some("started".to_string()));
}

#[test]
fn url_lists_every_parameter() {
    let r = TrackerRequest {
        announce_url: "http://t/a".to_string(),
        info_hash: "%AB".to_string(),
        peer_id: "id".to_string(),
        port: 6881,
        uploaded: 0,
        downloaded: -5,
        left: 1000,
        compact: 1,
        event: Some("started".to_string()),
    };
    assert_eq!(
        r.url(&None),
        "http://t/a?peer_id=id&port=6881&uploaded=0&downloaded=-5&left=1000&compact=1&info_hash=%AB&event=started"
    );
    assert_eq!(
        r.url(&Some("xyz".to_string())),
        "http://t/a?peer_id=id&port=6881&uploaded=0&downloaded=-5&left=1000&compact=1&info_hash=%AB&event=started&trackerid=xyz"
    );
    let quiet = TrackerRequest { event: None, ..r };
    assert_eq!(
        quiet.url(&None),
        "http://t/a?peer_id=id&port=6881&uploaded=0&downloaded=-5&left=1000&compact=1&info_hash=%AB"
    );
}

#[test]
fn dictionary_peers_become_addresses() {
    let peers = PeerIps::Dict(vec![
        PeerEntry { ip: BencodeValue::Bytes(b"10.0.0.1".to_vec()), port: BencodeValue::Int(6881) },
        PeerEntry { ip: BencodeValue::Int(3), port: BencodeValue::Bytes(b"x".to_vec()) },
        PeerEntry { ip: BencodeValue::List, port: BencodeValue::Dict },
    ]);
    assert_eq!(
        Torrent::handle_tracker_response(response(peers)),
        vec!["10.0.0.1:6881".to_string(), ":".to_string(), ":".to_string()]
    );
}

#[test]
fn compact_peers_give_the_first_address() {
    let peers = PeerIps::BinaryModel(vec![192, 168, 1, 20, 0x1a, 0xe1, 10, 0, 0, 2, 0, 80]);
    assert_eq!(Torrent::handle_tracker_response(response(peers)), vec!["192.168.1.20:6881".to_string()]);
}

#[test]
fn no_dictionary_peers_no_addresses() {
    assert!(Torrent::handle_tracker_response(response(PeerIps::Dict(vec![]))).is_empty());
}

#[test]
fn tracker_request_hashes_the_info_it_is_given() {
    let mut t = Torrent::new(torrent_file(info(vec![0; 20], 16, 10)), b"abc", 6881, b"id".to_vec());
    t.info_hash = vec![];
    let r = t.gen_tracker_request(b"abc", 0, 0, 0, None);
    assert_eq!(r.info_hash, "%A9%99%3E6G%06%81j%BA%3E%25qxP%C2l%9C%D0%D8%9D");
    let other = t.gen_tracker_request(b"abd", 0, 0, 0, None);
    assert_ne!(other.info_hash, r.info_hash);
}
