use bit_vec::BitVec;
use torrent_client::action::{Action, Message, PeerManagerAction};
use torrent_client::peer_manager::{ChokedState, Command, InterestedState, PeerManager};
use torrent_client::torrent::{Info, Torrent, TorrentFile};

fn torrent(count: usize, piece_length: i64, length: i64) -> Torrent {
    let info = Info {
        name: "f".to_string(),
        pieces: vec![0; 20 * count],
        piece_length,
        md5sum: None,
        length,
        private: None,
        path: None,
        root_hash: None,
    };
    let tf = TorrentFile {
        info,
        announce: "http://t/announce".to_string(),
        announce_list: None,
        encoding: None,
        creation_date: None,
        comment: None,
        created_by: None,
    };
    Torrent::new(tf, b"abc", 6881, b"me".to_vec())
}

fn act(m: &mut PeerManager, id: &str, a: PeerManagerAction) -> Vec<Command> {
    m.handle_action(Action { id: id.to_string(), message: a })
}

fn msg(m: &mut PeerManager, id: &str, message: Message) -> Vec<Command> {
    act(m, id, PeerManagerAction::MessageAction(message))
}

fn sends(cmds: &[Command]) -> Vec<(String, String)> {
    cmds.iter()
        .map(|c| match c {
            Command::Send(id, m) => (
                id.clone(),
                match m {
                    Message::Unchoke => "unchoke".to_string(),
                    Message::Choke => "choke".to_string(),
                    Message::KeepAlive => "keepalive".to_string(),
                    Message::Have(i) => format!("have {}", i),
                    Message::Request(i, b, l) => format!("request {} {} {}", i, b, l),
                    Message::Piece(i, b, blk) => format!("piece {} {} {}", i, b, blk.len()),
                    _ => "other".to_string(),
                },
            ),
            Command::Read(id, i, b, l) => (id.clone(), format!("read {} {} {}", i, b, l)),
            Command::Write(i, b, blk) => (String::new(), format!("write {} {} {}", i, b, blk.len())),
            Command::PieceDone(i) => (String::new(), format!("done {}", i)),
        })
        .collect()
}

fn pair(id: &str, what: &str) -> (String, String) {
    (id.to_string(), what.to_string())
}

#[test]
fn new_state_has_one_block_row_per_piece() {
    let m = PeerManager::new(torrent(3, 40000, 100000), vec![true, false, false]);
    assert_eq!(m.left.len(), 3);
    assert_eq!(m.left[0], vec![true; 3]);
    assert_eq!(m.left[1], vec![false; 3]);
    assert_eq!(m.left[2], vec![false; 2]);
    assert_eq!(m.bitfield, vec![0, 0, 0]);
    assert_eq!((m.downloaded, m.uploaded), (0, 0));
    assert!(m.peers.is_empty());
}

#[test]
fn peers_join_change_state_and_leave() {
    let mut m = PeerManager::new(torrent(1, 100, 100), vec![false]);
    assert!(act(&mut m, "a", PeerManagerAction::AddPeer).is_empty());
    act(&mut m, "b", PeerManagerAction::AddPeer);
    msg(&mut m, "a", Message::Unchoke);
    msg(&mut m, "b", Message::Interested);
    msg(&mut m, "ghost", Message::Unchoke);
    assert_eq!(m.peers.len(), 2);
    assert_eq!(m.peers[0].id, "a");
    assert_eq!(m.peers[0].choked, ChokedState::Unchoked);
    assert_eq!(m.peers[0].interested, InterestedState::NotInterested);
    assert_eq!(m.peers[1].choked, ChokedState::Choked);
    assert_eq!(m.peers[1].interested, InterestedState::Interested);
    msg(&mut m, "a", Message::Choke);
    msg(&mut m, "b", Message::NotInterested);
    assert_eq!(m.peers[0].choked, ChokedState::Choked);
    assert_eq!(m.peers[1].interested, InterestedState::NotInterested);
    act(&mut m, "a", PeerManagerAction::Piece(0, 0, vec![1], 50));
    assert_eq!(m.peers[0].speed, 50);
    act(&mut m, "a", PeerManagerAction::AddPeer);
    assert_eq!(m.peers.len(), 2);
    assert_eq!(m.peers[0].speed, 0);
    act(&mut m, "a", PeerManagerAction::RemovePeer);
    assert_eq!(m.peers.len(), 1);
    assert_eq!(m.peers[0].id, "b");
    act(&mut m, "b", PeerManagerAction::RemovePeer);
    act(&mut m, "b", PeerManagerAction::RemovePeer);
    assert!(m.peers.is_empty());
}

#[test]
fn bitfields_and_haves_count_availability() {
    let mut m = PeerManager::new(torrent(3, 100, 300), vec![false, false, false]);
    let bits: BitVec = vec![true, false, true, false, false, false, false, false].into_iter().collect();
    msg(&mut m, "a", Message::Bitfield(bits));
    msg(&mut m, "b", Message::Have(2));
    assert_eq!(m.bitfield, vec![1, 0, 2]);
}

#[test]
fn requests_are_served_only_for_pieces_held() {
    let mut m = PeerManager::new(torrent(2, 100, 200), vec![true, false]);
    act(&mut m, "a", PeerManagerAction::AddPeer);
    assert_eq!(sends(&msg(&mut m, "a", Message::Request(0, 10, 20))), vec![pair("a", "read 0 10 20")]);
    assert!(msg(&mut m, "a", Message::Request(1, 0, 20)).is_empty());
    let served = m.block_read(&"a".to_string(), 0, 10, 20, vec![5; 20]);
    assert_eq!(sends(&served), vec![pair("a", "piece 0 10 20")]);
    assert_eq!(m.uploaded, 20);
    assert!(m.block_read(&"gone".to_string(), 0, 10, 20, vec![5; 20]).is_empty());
    assert_eq!(m.uploaded, 20);
}

#[test]
fn written_blocks_complete_a_piece() {
    let mut m = PeerManager::new(torrent(2, 40000, 50000), vec![false, false]);
    assert!(act(&mut m, "123", PeerManagerAction::Download(0, 0)).is_empty());
    assert!(act(&mut m, "123", PeerManagerAction::Download(0, 2)).is_empty());
    assert_eq!(m.have_bitfield, vec![false, false]);
    assert_eq!(sends(&act(&mut m, "123", PeerManagerAction::Download(0, 1))), vec![pair("", "done 0")]);
    assert_eq!(m.have_bitfield, vec![true, false]);
    assert_eq!(sends(&act(&mut m, "123", PeerManagerAction::Download(0, 1))), vec![pair("", "done 0")]);
}

#[test]
fn a_received_block_is_announced_and_written() {
    let mut m = PeerManager::new(torrent(2, 100, 200), vec![true, false]);
    for i in 0..12 {
        act(&mut m, &format!("p{}", i), PeerManagerAction::AddPeer);
    }
    let cmds = act(&mut m, "p3", PeerManagerAction::Piece(1, 0, vec![0; 100], 7));
    let mut expected: Vec<(String, String)> = (0..10).map(|i| pair(&format!("p{}", i), "have 1")).collect();
    expected.push(pair("", "write 1 0 100"));
    assert_eq!(sends(&cmds), expected);
    assert_eq!(m.downloaded, 100);
    assert_eq!(m.peers[3].speed, 7);
    assert!(act(&mut m, "p3", PeerManagerAction::Piece(0, 0, vec![0; 100], 9)).is_empty());
    assert_eq!(m.downloaded, 100);
    assert_eq!(m.peers[3].speed, 9);
}

#[test]
fn choking_unchokes_the_three_fastest() {
    let mut m = PeerManager::new(torrent(1, 100, 100), vec![false]);
    let speeds = [5, 50, 20, 50, 1];
    for (i, s) in speeds.iter().enumerate() {
        let id = format!("p{}", i);
        act(&mut m, &id, PeerManagerAction::AddPeer);
        act(&mut m, &id, PeerManagerAction::Piece(0, 0, vec![], *s));
    }
    assert_eq!(m.speed_ranking(), vec![1, 3, 2, 0, 4]);
    let cmds = m.choke_commands(Some(1));
    assert_eq!(
        sends(&cmds),
        vec![
            pair("p1", "unchoke"),
            pair("p3", "unchoke"),
            pair("p2", "unchoke"),
            pair("p0", "choke"),
            pair("p4", "choke"),
            pair("p4", "unchoke"),
        ]
    );
    assert_eq!(sends(&m.choke_commands(None)).len(), 5);
    let round = sends(&m.choke_tick());
    assert_eq!(round.len(), 6);
    assert!(round[5] == pair("p0", "unchoke") || round[5] == pair("p4", "unchoke"));
}

#[test]
fn choking_few_peers_draws_nobody() {
    let mut m = PeerManager::new(torrent(1, 100, 100), vec![false]);
    act(&mut m, "a", PeerManagerAction::AddPeer);
    act(&mut m, "b", PeerManagerAction::AddPeer);
    assert_eq!(sends(&m.choke_tick()), vec![pair("a", "unchoke"), pair("b", "unchoke")]);
}

#[test]
fn requests_go_for_the_rarest_missing_piece() {
    let mut m = PeerManager::new(torrent(3, 40000, 90000), vec![false, false, false]);
    act(&mut m, "a", PeerManagerAction::AddPeer);
    act(&mut m, "b", PeerManagerAction::AddPeer);
    msg(&mut m, "a", Message::Have(0));
    msg(&mut m, "a", Message::Have(1));
    msg(&mut m, "b", Message::Have(1));
    assert_eq!(m.rarest(), 2);
    assert_eq!(
        sends(&m.request_tick()),
        vec![pair("a", "request 2 0 10000")]
    );
    msg(&mut m, "b", Message::Have(2));
    msg(&mut m, "b", Message::Have(2));
    assert_eq!(m.rarest(), 0);
    assert_eq!(
        sends(&m.request_tick()),
        vec![pair("a", "request 0 0 16384"), pair("a", "request 0 16384 16384"), pair("a", "request 0 32768 7232")]
    );
}

#[test]
fn no_requests_without_peers_or_when_complete() {
    let m = PeerManager::new(torrent(2, 100, 200), vec![false, false]);
    assert!(m.request_tick().is_empty());
    let mut done = PeerManager::new(torrent(2, 100, 200), vec![true, true]);
    act(&mut done, "a", PeerManagerAction::AddPeer);
    assert_eq!(done.rarest(), 0);
    assert!(done.request_tick().is_empty());
}

#[test]
fn keep_alive_goes_to_every_peer() {
    let mut m = PeerManager::new(torrent(1, 100, 100), vec![false]);
    act(&mut m, "a", PeerManagerAction::AddPeer);
    act(&mut m, "b", PeerManagerAction::AddPeer);
    assert_eq!(sends(&m.keep_alive_tick()), vec![pair("a", "keepalive"), pair("b", "keepalive")]);
}

#[test]
fn announce_reports_totals_and_room_for_peers() {
    let mut m = PeerManager::new(torrent(2, 100, 200), vec![false, false]);
    act(&mut m, "a", PeerManagerAction::AddPeer);
    act(&mut m, "a", PeerManagerAction::Piece(0, 0, vec![0; 100], 1));
    let (r, want) = m.announce(b"abc");
    assert_eq!(want, 29);
    assert_eq!((r.downloaded, r.uploaded, r.left), (100, 0, 100));
    assert_eq!(r.event, None);
    assert_eq!(r.port, 6881);
    assert_eq!(r.announce_url, "http://t/announce");
    assert_eq!(r.info_hash, "%A9%99%3E6G%06%81j%BA%3E%25qxP%C2l%9C%D0%D8%9D");
}

#[test]
fn a_requested_block_comes_back_as_its_own_block() {
    let mut m = PeerManager::new(torrent(2, 40000, 50000), vec![false, false]);
    act(&mut m, "a", PeerManagerAction::AddPeer);
    let requests = m.request_tick();
    for cmd in requests {
        match cmd {
            Command::Send(_, Message::Request(index, begin, _)) => {
                let done = torrent_client::action::FileAction::Write(index, begin, vec![]).completion().unwrap();
                assert!(m.accepts(&done));
                m.handle_action(done);
            }
            _ => panic!("expected requests only"),
        }
    }
    assert_eq!(m.have_bitfield, vec![true, false]);
}

#[test]
fn events_naming_missing_pieces_are_not_accepted() {
    let m = PeerManager::new(torrent(2, 100, 200), vec![false, false]);
    let have = Action { id: "a".to_string(), message: PeerManagerAction::MessageAction(Message::Have(2)) };
    assert!(!m.accepts(&have));
    let block = Action { id: "a".to_string(), message: PeerManagerAction::Download(0, 1) };
    assert!(!m.accepts(&block));
    let bits: BitVec = vec![false, false, true].into_iter().collect();
    let bitfield = Action { id: "a".to_string(), message: PeerManagerAction::MessageAction(Message::Bitfield(bits)) };
    assert!(!m.accepts(&bitfield));
    let fine = Action { id: "a".to_string(), message: PeerManagerAction::Download(1, 0) };
    assert!(m.accepts(&fine));
}

#[test]
fn managing_needs_one_flag_per_piece_of_positive_size() {
    assert!(PeerManager::can_manage(&torrent(2, 100, 200), &vec![false, false]));
    assert!(!PeerManager::can_manage(&torrent(2, 100, 200), &vec![false]));
    assert!(PeerManager::can_manage(&torrent(2, 100, 100), &vec![false, false]));
    assert!(!torrent(3, 100, 150).pieces_readable());
    assert!(torrent(3, 100, 200).pieces_readable());
    assert!(torrent(3, 0, 50).pieces_readable());
    assert!(PeerManager::can_manage(&torrent(3, 0, 50), &vec![false, false, false]));
    assert!(PeerManager::can_manage(&torrent(2, -5, 10), &vec![false, false]));
    assert!(!PeerManager::can_manage(&torrent(2, -40000, 10), &vec![false, false]));
    assert!(!PeerManager::can_manage(&torrent(2, i64::MAX, i64::MAX), &vec![false, false]));
    assert!(!PeerManager::can_manage(&torrent(2, i64::MAX - 16383, i64::MAX), &vec![false, false]));
}

#[test]
fn pieces_without_blocks_get_empty_rows() {
    let m = PeerManager::new(torrent(3, 0, 50), vec![false, true, false]);
    assert_eq!(m.left, vec![vec![], vec![], vec![false]]);
    let m = PeerManager::new(torrent(2, 10, 10), vec![true, false]);
    assert_eq!(m.left, vec![vec![true], vec![]]);
    let m = PeerManager::new(torrent(2, -5, 10), vec![false, false]);
    assert_eq!(m.left, vec![vec![], vec![false]]);
    let big = PeerManager::new(torrent(1, 1 << 33, 1 << 33), vec![false]);
    assert_eq!(big.left[0].len(), 1 << 19);
}

#[test]
fn requests_split_a_large_piece_by_truncating_casts() {
    let mut m = PeerManager::new(torrent(1, 1 << 33, (1 << 33) + 5), vec![false]);
    act(&mut m, "a", PeerManagerAction::AddPeer);
    let cmds = m.request_tick();
    assert_eq!(cmds.len(), (1 << 19) + 1);
    assert_eq!(sends(&cmds[..1]), vec![pair("a", "request 0 0 16384")]);
    assert_eq!(sends(&cmds[1 << 19..]), vec![pair("a", "request 0 0 5")]);
}
