//! The peer manager's decisions: what each event does to the download
//! state and which commands it gives, and what the periodic ticks (choking,
//! requesting, announcing, keeping alive) send.
use crate::action::{Action, ActionModel, Message, MessageModel, PeerManagerAction};
use crate::bits::{
    bit_or_false, bits_of_bytes, bitvec_bits, bitvec_from_bools, bitvec_to_bools, bytes_of_bits,
    lemma_bits_bytes_roundtrip,
};
use crate::file::BLOCK_SIZE;
use crate::hash::sha1_digest;
use crate::torrent::{form_urlencoded, piece_count, piece_size, Torrent};
use crate::tracker::TrackerRequest;
use vstd::prelude::*;

verus! {

/// Whether this client chokes a peer.
#[derive(Clone, Copy, Debug, PartialEq, Eq, Structural)]
pub enum ChokedState {
    Unchoked,
    Choked,
}

/// Whether a peer is interested in what this client has.
#[derive(Clone, Copy, Debug, PartialEq, Eq, Structural)]
pub enum InterestedState {
    Interested,
    NotInterested,
}

/// What the manager knows of a connected peer: its id, its states, and the
/// speed at which its last block came.
pub struct PeerState {
    pub id: String,
    pub choked: ChokedState,
    pub interested: InterestedState,
    pub speed: i64,
}

/// A peer's record as a mathematical value.
pub struct PeerModel {
    pub id: Seq<char>,
    pub choked: ChokedState,
    pub interested: InterestedState,
    pub speed: i64,
}

impl View for PeerState {
    type V = PeerModel;

    open spec fn view(&self) -> PeerModel {
        PeerModel { id: self.id@, choked: self.choked, interested: self.interested, speed: self.speed }
    }
}

/// The state of a download: the peers in the order they joined, how many
/// peers have each piece, which pieces and blocks this client has, the
/// content's geometry, the bytes moved each way, and the torrent.
pub struct PeerManager {
    pub peers: Vec<PeerState>,
    pub bitfield: Vec<i64>,
    pub have_bitfield: Vec<bool>,
    pub left: Vec<Vec<bool>>,
    pub length: i64,
    pub piece_length: i64,
    pub downloaded: i64,
    pub uploaded: i64,
    pub torrent: Torrent,
}

/// The download state as a mathematical value.
#[verifier::ext_equal]
pub struct ManagerModel {
    pub peers: Seq<PeerModel>,
    pub bitfield: Seq<i64>,
    pub have: Seq<bool>,
    pub left: Seq<Seq<bool>>,
    pub length: i64,
    pub piece_length: i64,
    pub downloaded: i64,
    pub uploaded: i64,
}

impl View for PeerManager {
    type V = ManagerModel;

    open spec fn view(&self) -> ManagerModel {
        ManagerModel {
            peers: self.peers@.map_values(|p: PeerState| p@),
            bitfield: self.bitfield@,
            have: self.have_bitfield@,
            left: self.left@.map_values(|v: Vec<bool>| v@),
            length: self.length,
            piece_length: self.piece_length,
            downloaded: self.downloaded,
            uploaded: self.uploaded,
        }
    }
}

/// Something the manager asks the rest of the client to do: send a message
/// to a peer, read a block from the file for a peer (and hand it back with
/// `block_read`), write a block to the file, or report a finished piece.
pub enum Command {
    Send(String, Message),
    Read(String, u32, u32, u32),
    Write(u32, u32, Vec<u8>),
    PieceDone(u32),
}

/// A command as a mathematical value.
pub enum CommandModel {
    Send(Seq<char>, MessageModel),
    Read(Seq<char>, u32, u32, u32),
    Write(u32, u32, Seq<u8>),
    PieceDone(u32),
}

impl View for Command {
    type V = CommandModel;

    open spec fn view(&self) -> CommandModel {
        match self {
            Command::Send(id, m) => CommandModel::Send(id@, m@),
            Command::Read(id, i, b, l) => CommandModel::Read(id@, *i, *b, *l),
            Command::Write(i, b, block) => CommandModel::Write(*i, *b, block@),
            Command::PieceDone(i) => CommandModel::PieceDone(*i),
        }
    }
}

/// A list of commands as mathematical values.
pub open spec fn commands_view(cmds: Seq<Command>) -> Seq<CommandModel> {
    cmds.map_values(|c: Command| c@)
}

proof fn lemma_commands_push(s: Seq<Command>, c: Command)
    ensures
        commands_view(s.push(c)) == commands_view(s).push(c@),
        commands_view(Seq::<Command>::empty()) == Seq::<CommandModel>::empty(),
{
    assert(commands_view(s.push(c)) =~= commands_view(s).push(c@));
    assert(commands_view(Seq::<Command>::empty()) =~= Seq::<CommandModel>::empty());
}

/// How many blocks a piece of `size` bytes has: `(size + BLOCK_SIZE - 1) /
/// BLOCK_SIZE`, none for a size of zero or less.
pub open spec fn block_count(size: int) -> int {
    if size + BLOCK_SIZE - 1 >= 0 {
        (size + BLOCK_SIZE - 1) / BLOCK_SIZE as int
    } else {
        0
    }
}

/// The sizes whose block count `(size + BLOCK_SIZE - 1) / BLOCK_SIZE`
/// computes in an `i64` without overflow (`size + BLOCK_SIZE` comes first),
/// is not negative (the division truncates toward zero, so a numerator above
/// `-BLOCK_SIZE` gives 0), and numbers a row that fits in memory.
pub open spec fn size_countable(size: int) -> bool {
    &&& -2 * BLOCK_SIZE + 2 <= size <= i64::MAX - BLOCK_SIZE
    &&& block_count(size) <= usize::MAX
}

/// The geometries for which every piece's size and block count compute in
/// an `i64`: the last piece's size `length - (count - 1) * piece_length`,
/// and the block count of every size.
pub open spec fn rows_buildable(count: int, piece_length: int, length: int) -> bool {
    &&& count >= 1 ==> i64::MIN <= (count - 1) * piece_length <= i64::MAX
    &&& count >= 1 ==> i64::MIN <= length - (count - 1) * piece_length <= i64::MAX
    &&& count >= 2 ==> size_countable(piece_length)
    &&& count >= 1 ==> size_countable(length - (count - 1) * piece_length)
}

/// Whether every bit is set.
pub open spec fn all_true(s: Seq<bool>) -> bool {
    forall|k: int| 0 <= k < s.len() ==> s[k]
}

/// No two peers share an id.
pub open spec fn ids_distinct(peers: Seq<PeerModel>) -> bool {
    forall|i: int, j: int| 0 <= i < peers.len() && 0 <= j < peers.len() && i != j ==> peers[i].id != peers[j].id
}

/// The record of a peer that has just joined.
pub open spec fn fresh_peer(id: Seq<char>) -> PeerModel {
    PeerModel { id, choked: ChokedState::Choked, interested: InterestedState::NotInterested, speed: 0 }
}

/// `Have` for a piece, sent to the first ten peers.
pub open spec fn have_announcements(peers: Seq<PeerModel>, index: u32) -> Seq<CommandModel> {
    Seq::new(
        if peers.len() < 10 { peers.len() } else { 10 },
        |k: int| CommandModel::Send(peers[k].id, MessageModel::Have(index)),
    )
}

impl ManagerModel {
    /// The number of pieces.
    pub open spec fn count(self) -> int {
        self.have.len() as int
    }

    /// The size of piece `i`.
    pub open spec fn size_of(self, i: int) -> int {
        piece_size(self.count(), self.piece_length as int, self.length as int, i)
    }

    /// Whether a peer with this id is connected.
    pub open spec fn has_peer(self, id: Seq<char>) -> bool {
        exists|i: int| 0 <= i < self.peers.len() && self.peers[i].id == id
    }

    /// The invariant of the download state: no more pieces than an `i64`
    /// counts; one count, one flag and one row of blocks per piece; sizes
    /// and block counts that compute; one flag per block in each row; a
    /// piece had only when all its blocks are; counts and transfer totals
    /// not negative; peer ids distinct.
    pub open spec fn wf(self) -> bool {
        let n = self.count();
        &&& n <= i64::MAX
        &&& self.bitfield.len() == n
        &&& self.left.len() == n
        &&& rows_buildable(n, self.piece_length as int, self.length as int)
        &&& forall|i: int| 0 <= i < n ==> #[trigger] self.left[i].len() == block_count(self.size_of(i))
        &&& forall|i: int| 0 <= i < n ==> #[trigger] self.have[i] ==> all_true(self.left[i])
        &&& forall|i: int| 0 <= i < n ==> #[trigger] self.bitfield[i] >= 0
        &&& ids_distinct(self.peers)
        &&& self.downloaded >= 0
        &&& self.uploaded >= 0
    }

    /// The state with the record of peer `id` (if connected) replaced by `f`.
    pub open spec fn with_peer(self, id: Seq<char>, f: spec_fn(PeerModel) -> PeerModel) -> ManagerModel {
        ManagerModel {
            peers: Seq::new(self.peers.len(), |i: int| if self.peers[i].id == id { f(self.peers[i]) } else { self.peers[i] }),
            ..self
        }
    }

    /// Peer `id` joins: a fresh record, in place of an old one if the id was
    /// connected, at the end otherwise.
    pub open spec fn added(self, id: Seq<char>) -> ManagerModel {
        if self.has_peer(id) {
            self.with_peer(id, |p: PeerModel| fresh_peer(id))
        } else {
            ManagerModel { peers: self.peers.push(fresh_peer(id)), ..self }
        }
    }

    /// Peer `id` leaves; the others keep their order.
    pub open spec fn removed(self, id: Seq<char>) -> ManagerModel {
        if self.has_peer(id) {
            let i = choose|i: int| 0 <= i < self.peers.len() && self.peers[i].id == id;
            ManagerModel { peers: self.peers.remove(i), ..self }
        } else {
            self
        }
    }

    /// The state after an event from peer `id`.
    pub open spec fn step(self, id: Seq<char>, a: ActionModel) -> ManagerModel {
        match a {
            ActionModel::MessageAction(msg) => match msg {
                MessageModel::Unchoke => self.with_peer(id, |p: PeerModel| PeerModel { choked: ChokedState::Unchoked, ..p }),
                MessageModel::Choke => self.with_peer(id, |p: PeerModel| PeerModel { choked: ChokedState::Choked, ..p }),
                MessageModel::Interested => self.with_peer(
                    id,
                    |p: PeerModel| PeerModel { interested: InterestedState::Interested, ..p },
                ),
                MessageModel::NotInterested => self.with_peer(
                    id,
                    |p: PeerModel| PeerModel { interested: InterestedState::NotInterested, ..p },
                ),
                MessageModel::Bitfield(bits) => ManagerModel {
                    bitfield: Seq::new(
                        self.bitfield.len(),
                        |i: int| (self.bitfield[i] + if bit_or_false(bits, i) { 1int } else { 0int }) as i64,
                    ),
                    ..self
                },
                MessageModel::Have(index) => ManagerModel {
                    bitfield: self.bitfield.update(index as int, (self.bitfield[index as int] + 1) as i64),
                    ..self
                },
                _ => self,
            },
            ActionModel::Download(index, block) => {
                let row = self.left[index as int].update(block as int, true);
                ManagerModel {
                    left: self.left.update(index as int, row),
                    have: self.have.update(index as int, all_true(row)),
                    ..self
                }
            },
            ActionModel::AddPeer => self.added(id),
            ActionModel::RemovePeer => self.removed(id),
            ActionModel::Piece(index, _, block, speed) => {
                let m = self.with_peer(id, |p: PeerModel| PeerModel { speed, ..p });
                if self.have[index as int] {
                    m
                } else {
                    ManagerModel { downloaded: (m.downloaded + block.len()) as i64, ..m }
                }
            },
        }
    }

    /// The commands an event from peer `id` gives: a requested block of a
    /// piece this client has is read for the peer; a block written that
    /// completes its piece reports the piece; a block of a piece not yet had
    /// is announced with `Have` to the first ten peers and written.
    pub open spec fn step_commands(self, id: Seq<char>, a: ActionModel) -> Seq<CommandModel> {
        match a {
            ActionModel::MessageAction(MessageModel::Request(index, begin, size)) => if self.have[index as int] {
                seq![CommandModel::Read(id, index, begin, size)]
            } else {
                Seq::empty()
            },
            ActionModel::Download(index, block) => if all_true(self.left[index as int].update(block as int, true)) {
                seq![CommandModel::PieceDone(index)]
            } else {
                Seq::empty()
            },
            ActionModel::Piece(index, begin, block, _) => if self.have[index as int] {
                Seq::empty()
            } else {
                have_announcements(self.peers, index) + seq![CommandModel::Write(index, begin, block)]
            },
            _ => Seq::empty(),
        }
    }

    /// Every piece a bitfield sets exists and can be counted once more.
    pub open spec fn can_count(self, bits: Seq<bool>) -> bool {
        forall|i: int| 0 <= i < bits.len() && #[trigger] bits[i] ==> i < self.count() && self.bitfield[i] < i64::MAX
    }

    /// The events the manager handles without failing: pieces named exist,
    /// a written block lies in its piece, and no count or total overflows.
    pub open spec fn step_allowed(self, id: Seq<char>, a: ActionModel) -> bool {
        match a {
            ActionModel::MessageAction(MessageModel::Bitfield(bits)) => self.can_count(bits),
            ActionModel::MessageAction(MessageModel::Have(index)) => index < self.count() && self.bitfield[index as int]
                < i64::MAX,
            ActionModel::MessageAction(MessageModel::Request(index, _, _)) => index < self.count(),
            ActionModel::Download(index, block) => index < self.count() && 0 <= block < self.left[index as int].len(),
            ActionModel::Piece(index, _, block, _) => index < self.count() && (!self.have[index as int]
                ==> self.downloaded + block.len() <= i64::MAX),
            _ => true,
        }
    }
}

impl PeerState {
    fn copy(&self) -> (p: PeerState)
        ensures
            p@ == self@,
    {
        PeerState { id: self.id.clone(), choked: self.choked, interested: self.interested, speed: self.speed }
    }
}

/// Whether all the flags are set.
fn all_set(row: &Vec<bool>) -> (r: bool)
    ensures
        r == all_true(row@),
{
    let mut k: usize = 0;
    while k < row.len()
        invariant
            k <= row@.len(),
            forall|j: int| 0 <= j < k ==> row@[j],
        decreases row@.len() - k,
    {
        if !row[k] {
            return false;
        }
        k = k + 1;
    }
    true
}

impl PeerManager {
    /// The invariant: the model's, and the geometry is the torrent's.
    pub open spec fn wf(&self) -> bool {
        &&& self@.wf()
        &&& self.length == self.torrent.torrent_file.info.length
        &&& self.piece_length == self.torrent.torrent_file.info.piece_length
    }

    /// The state at the start of a download, given which pieces are already
    /// on disk: no peers, no counts, every block of a piece marked as the
    /// piece is, nothing moved yet.
    pub fn new(torrent: Torrent, have_bitfield: Vec<bool>) -> (m: PeerManager)
        requires
            have_bitfield@.len() == piece_count(torrent.torrent_file.info),
            rows_buildable(
                have_bitfield@.len() as int,
                torrent.torrent_file.info.piece_length as int,
                torrent.torrent_file.info.length as int,
            ),
        ensures
            m.wf(),
            m.torrent == torrent,
            m@.peers.len() == 0,
            m@.have == have_bitfield@,
            m@.bitfield == Seq::new(have_bitfield@.len(), |i: int| 0i64),
            forall|i: int|
                0 <= i < have_bitfield@.len() ==> #[trigger] m@.left[i] == Seq::new(
                    block_count(m@.size_of(i)) as nat,
                    |k: int| have_bitfield@[i],
                ),
            m@.length == torrent.torrent_file.info.length,
            m@.piece_length == torrent.torrent_file.info.piece_length,
            m@.downloaded == 0,
            m@.uploaded == 0,
    {
        let n: usize = have_bitfield.len();
        let hash_bytes: usize = torrent.torrent_file.info.pieces.len();
        assert(n == hash_bytes / 20);
        assert(n <= i64::MAX);
        let piece_length = torrent.torrent_file.info.piece_length;
        let length = torrent.torrent_file.info.length;
        let mut left: Vec<Vec<bool>> = Vec::new();
        let mut bitfield: Vec<i64> = Vec::new();
        let mut p: usize = 0;
        while p < n
            invariant
                n == have_bitfield@.len(),
                n <= i64::MAX,
                p <= n,
                rows_buildable(n as int, piece_length as int, length as int),
                left@.len() == p,
                bitfield@.len() == p,
                forall|i: int| 0 <= i < p ==> #[trigger] bitfield@[i] == 0,
                forall|i: int|
                    0 <= i < p ==> #[trigger] left@[i]@ == Seq::new(
                        block_count(piece_size(n as int, piece_length as int, length as int, i)) as nat,
                        |k: int| have_bitfield@[i],
                    ),
            decreases n - p,
        {
            let size: i64 = if p == n - 1 {
                length - (n as i64 - 1) * piece_length
            } else {
                piece_length
            };
            assert(size == piece_size(n as int, piece_length as int, length as int, p as int));
            assert(size_countable(size as int));
            let numerator: i64 = size + BLOCK_SIZE - 1;
            let blocks: usize = if numerator >= 0 {
                ((numerator as u64) / (BLOCK_SIZE as u64)) as usize
            } else {
                0
            };
            let row: Vec<bool> = vec![have_bitfield[p]; blocks];
            left.push(row);
            bitfield.push(0);
            p = p + 1;
        }
        let m = PeerManager {
            peers: Vec::new(),
            bitfield,
            have_bitfield,
            left,
            length,
            piece_length,
            torrent,
            downloaded: 0,
            uploaded: 0,
        };
        assert(m@.bitfield =~= Seq::new(n as nat, |i: int| 0i64));
        assert forall|i: int| 0 <= i < n && #[trigger] m@.have[i] implies all_true(m@.left[i]) by {
            assert forall|k: int| 0 <= k < m@.left[i].len() implies m@.left[i][k] by {}
        }
        m
    }

    /// Whether a download can start from this torrent and these pieces on
    /// disk (what `new` requires): one flag per piece, and every piece's size
    /// and block count computable in an `i64`.
    pub fn can_manage(torrent: &Torrent, have_bitfield: &Vec<bool>) -> (ok: bool)
        ensures
            ok == {
                &&& have_bitfield@.len() == piece_count(torrent.torrent_file.info)
                &&& rows_buildable(
                    have_bitfield@.len() as int,
                    torrent.torrent_file.info.piece_length as int,
                    torrent.torrent_file.info.length as int,
                )
            },
    {
        let n = have_bitfield.len();
        if n != torrent.torrent_file.info.pieces.len() / 20 {
            return false;
        }
        if n == 0 {
            return true;
        }
        assert(n <= i64::MAX);
        let piece_length = torrent.torrent_file.info.piece_length;
        let length = torrent.torrent_file.info.length;
        let k: i128 = n as i128 - 1;
        proof {
            assert(-0x4000_0000_0000_0000_0000_0000_0000_0000 <= k * piece_length
                <= 0x4000_0000_0000_0000_0000_0000_0000_0000) by (nonlinear_arith)
                requires
                    0 <= k <= 0x8000_0000_0000_0000,
                    -0x8000_0000_0000_0000 <= piece_length <= 0x8000_0000_0000_0000,
            ;
        }
        let offset: i128 = k * (piece_length as i128);
        if offset < i64::MIN as i128 || offset > i64::MAX as i128 {
            return false;
        }
        let last: i128 = (length as i128) - offset;
        if last < i64::MIN as i128 || last > i64::MAX as i128 {
            return false;
        }
        if n >= 2 && !Self::size_fits(piece_length) {
            return false;
        }
        Self::size_fits(last as i64)
    }

    /// Whether a piece of this size has a block count that computes and
    /// fits in memory.
    fn size_fits(size: i64) -> (ok: bool)
        ensures
            ok == size_countable(size as int),
    {
        if size < -2 * BLOCK_SIZE + 2 || size > i64::MAX - BLOCK_SIZE {
            return false;
        }
        let numerator: i64 = size + BLOCK_SIZE - 1;
        if numerator < 0 {
            return true;
        }
        ((numerator as u64) / (BLOCK_SIZE as u64)) <= (usize::MAX as u64)
    }

    /// The position of the peer with this id, if connected.
    fn find_peer(&self, id: &String) -> (r: Option<usize>)
        ensures
            match r {
                Some(i) => i < self@.peers.len() && self@.peers[i as int].id == id@,
                None => !self@.has_peer(id@),
            },
    {
        let mut i: usize = 0;
        while i < self.peers.len()
            invariant
                i <= self.peers@.len(),
                forall|j: int| 0 <= j < i ==> self@.peers[j].id != id@,
            decreases self.peers@.len() - i,
        {
            if self.peers[i].id == *id {
                return Some(i);
            }
            i = i + 1;
        }
        None
    }
}

impl PeerManager {
    /// Replaces the record at position `i` by one with the same id.
    fn replace_peer(&mut self, i: usize, p: PeerState)
        requires
            old(self).wf(),
            i < old(self).peers@.len(),
            p@.id == old(self)@.peers[i as int].id,
        ensures
            final(self).wf(),
            final(self).torrent == old(self).torrent,
            final(self)@ == (ManagerModel { peers: old(self)@.peers.update(i as int, p@), ..old(self)@ }),
    {
        self.peers.set(i, p);
        assert(self@.peers =~= old(self)@.peers.update(i as int, p@));
        assert(self@ =~= (ManagerModel { peers: old(self)@.peers.update(i as int, p@), ..old(self)@ }));
    }

    /// Sets whether this client chokes peer `id`, if connected.
    fn set_choked(&mut self, id: &String, st: ChokedState)
        requires
            old(self).wf(),
        ensures
            final(self).wf(),
            final(self).torrent == old(self).torrent,
            final(self)@ == old(self)@.with_peer(id@, |p: PeerModel| PeerModel { choked: st, ..p }),
    {
        let ghost target = old(self)@.with_peer(id@, |p: PeerModel| PeerModel { choked: st, ..p });
        match self.find_peer(id) {
            Some(i) => {
                let mut p = self.peers[i].copy();
                p.choked = st;
                self.replace_peer(i, p);
                assert(self@.peers =~= target.peers);
            },
            None => {
                assert(self@.peers =~= target.peers);
            },
        }
        assert(self@ =~= target);
    }

    /// Sets whether peer `id` is interested, if connected.
    fn set_interested(&mut self, id: &String, st: InterestedState)
        requires
            old(self).wf(),
        ensures
            final(self).wf(),
            final(self).torrent == old(self).torrent,
            final(self)@ == old(self)@.with_peer(id@, |p: PeerModel| PeerModel { interested: st, ..p }),
    {
        let ghost target = old(self)@.with_peer(id@, |p: PeerModel| PeerModel { interested: st, ..p });
        match self.find_peer(id) {
            Some(i) => {
                let mut p = self.peers[i].copy();
                p.interested = st;
                self.replace_peer(i, p);
                assert(self@.peers =~= target.peers);
            },
            None => {
                assert(self@.peers =~= target.peers);
            },
        }
        assert(self@ =~= target);
    }

    /// Records the speed of peer `id`, if connected.
    fn set_speed(&mut self, id: &String, speed: i64)
        requires
            old(self).wf(),
        ensures
            final(self).wf(),
            final(self).torrent == old(self).torrent,
            final(self)@ == old(self)@.with_peer(id@, |p: PeerModel| PeerModel { speed, ..p }),
    {
        let ghost target = old(self)@.with_peer(id@, |p: PeerModel| PeerModel { speed, ..p });
        match self.find_peer(id) {
            Some(i) => {
                let mut p = self.peers[i].copy();
                p.speed = speed;
                self.replace_peer(i, p);
                assert(self@.peers =~= target.peers);
            },
            None => {
                assert(self@.peers =~= target.peers);
            },
        }
        assert(self@ =~= target);
    }

    /// Peer `id` joins.
    fn add_peer(&mut self, id: String)
        requires
            old(self).wf(),
        ensures
            final(self).wf(),
            final(self).torrent == old(self).torrent,
            final(self)@ == old(self)@.added(id@),
    {
        let ghost target = old(self)@.added(id@);
        let found = self.find_peer(&id);
        let fresh = PeerState {
            id,
            choked: ChokedState::Choked,
            interested: InterestedState::NotInterested,
            speed: 0,
        };
        match found {
            Some(i) => {
                self.replace_peer(i, fresh);
                assert(self@.peers =~= target.peers);
            },
            None => {
                self.peers.push(fresh);
                assert(self@.peers =~= target.peers);
            },
        }
        assert(self@ =~= target);
    }

    /// Peer `id` leaves.
    fn remove_peer(&mut self, id: &String)
        requires
            old(self).wf(),
        ensures
            final(self).wf(),
            final(self).torrent == old(self).torrent,
            final(self)@ == old(self)@.removed(id@),
    {
        let ghost target = old(self)@.removed(id@);
        match self.find_peer(id) {
            Some(i) => {
                let ghost j = choose|j: int| 0 <= j < old(self)@.peers.len() && old(self)@.peers[j].id == id@;
                assert(j == i);
                self.peers.remove(i);
                assert(self@.peers =~= target.peers);
            },
            None => {},
        }
        assert(self@ =~= target);
    }

    /// Counts the pieces that a peer's bitfield says it has.
    fn count_bitfield(&mut self, bits: &Vec<bool>)
        requires
            old(self).wf(),
            forall|i: int|
                0 <= i < bits@.len() && #[trigger] bits@[i] ==> i < old(self)@.count() && old(self)@.bitfield[i]
                    < i64::MAX,
        ensures
            final(self).wf(),
            final(self).torrent == old(self).torrent,
            final(self)@ == (ManagerModel {
                bitfield: Seq::new(
                    old(self)@.bitfield.len(),
                    |i: int| (old(self)@.bitfield[i] + if bit_or_false(bits@, i) { 1int } else { 0int }) as i64,
                ),
                ..old(self)@
            }),
    {
        let ghost start = old(self)@.bitfield;
        let mut idx: usize = 0;
        while idx < bits.len()
            invariant
                idx <= bits@.len(),
                self.wf(),
                self.torrent == old(self).torrent,
                self@ == (ManagerModel { bitfield: self@.bitfield, ..old(self)@ }),
                start == old(self)@.bitfield,
                forall|i: int|
                    0 <= i < bits@.len() && #[trigger] bits@[i] ==> i < old(self)@.count() && start[i] < i64::MAX,
                self@.bitfield.len() == start.len(),
                forall|i: int|
                    0 <= i < start.len() ==> #[trigger] self@.bitfield[i] == start[i] + if i < idx && bits@[i] {
                        1int
                    } else {
                        0int
                    },
            decreases bits@.len() - idx,
        {
            if bits[idx] {
                let c = self.bitfield[idx];
                self.bitfield.set(idx, c + 1);
            }
            idx = idx + 1;
        }
        assert(self@.bitfield =~= Seq::new(
            start.len(),
            |i: int| (start[i] + if bit_or_false(bits@, i) { 1int } else { 0int }) as i64,
        ));
        assert(self@ =~= (ManagerModel {
            bitfield: Seq::new(
                old(self)@.bitfield.len(),
                |i: int| (old(self)@.bitfield[i] + if bit_or_false(bits@, i) { 1int } else { 0int }) as i64,
            ),
            ..old(self)@
        }));
    }

    /// Marks a block written and the piece had if all its blocks are;
    /// returns whether the piece is complete.
    fn mark_block(&mut self, index: u32, block: i64) -> (complete: bool)
        requires
            old(self).wf(),
            index < old(self)@.count(),
            0 <= block < old(self)@.left[index as int].len(),
        ensures
            final(self).wf(),
            final(self).torrent == old(self).torrent,
            complete == all_true(old(self)@.left[index as int].update(block as int, true)),
            final(self)@ == old(self)@.step(Seq::empty(), ActionModel::Download(index, block)),
    {
        let i = index as usize;
        let b = block as usize;
        let mut row: Vec<bool> = Vec::new();
        self.left.set_and_swap(i, &mut row);
        assert(row@ == old(self)@.left[index as int]);
        row.set(b, true);
        let complete = all_set(&row);
        let ghost new_row = row@;
        self.left.set_and_swap(i, &mut row);
        self.have_bitfield.set(i, complete);
        let ghost target = old(self)@.step(Seq::empty(), ActionModel::Download(index, block));
        assert(new_row == old(self)@.left[index as int].update(block as int, true));
        assert(self@.left =~= target.left);
        assert(self@.have =~= target.have);
        assert(self@ =~= target);
        complete
    }
}

impl PeerManager {
    /// Appends `Have(index)` for the first ten peers.
    fn announce_have(&self, cmds: &mut Vec<Command>, index: u32)
        ensures
            commands_view(final(cmds)@) == commands_view(old(cmds)@) + have_announcements(self@.peers, index),
    {
        let ghost start = commands_view(old(cmds)@);
        let limit: usize = if self.peers.len() < 10 {
            self.peers.len()
        } else {
            10
        };
        let mut k: usize = 0;
        while k < limit
            invariant
                k <= limit,
                limit <= self.peers@.len(),
                limit == (if self@.peers.len() < 10 { self@.peers.len() } else { 10 }),
                commands_view(cmds@) == start + have_announcements(self@.peers, index).take(k as int),
            decreases limit - k,
        {
            let cmd = Command::Send(self.peers[k].id.clone(), Message::Have(index));
            let ghost before = cmds@;
            proof {
                lemma_commands_push(before, cmd);
            }
            cmds.push(cmd);
            k = k + 1;
            assert(commands_view(cmds@) =~= start + have_announcements(self@.peers, index).take(k as int));
        }
        assert(have_announcements(self@.peers, index).take(k as int) =~= have_announcements(self@.peers, index));
    }

    /// Handles an event from a peer (or, for a written block, from the file
    /// store): updates the download state and returns the commands it gives.
    pub fn handle_action(&mut self, action: Action) -> (cmds: Vec<Command>)
        requires
            old(self).wf(),
            old(self)@.step_allowed(action.id@, action.message@),
        ensures
            final(self).wf(),
            final(self).torrent == old(self).torrent,
            final(self)@ == old(self)@.step(action.id@, action.message@),
            commands_view(cmds@) == old(self)@.step_commands(action.id@, action.message@),
    {
        let ghost id_view = action.id@;
        let ghost a = action.message@;
        let Action { id, message } = action;
        let mut cmds: Vec<Command> = Vec::new();
        proof {
            lemma_commands_push(cmds@, Command::PieceDone(0));
        }
        match message {
            PeerManagerAction::MessageAction(msg) => match msg {
                Message::Unchoke => self.set_choked(&id, ChokedState::Unchoked),
                Message::Choke => self.set_choked(&id, ChokedState::Choked),
                Message::Interested => self.set_interested(&id, InterestedState::Interested),
                Message::NotInterested => self.set_interested(&id, InterestedState::NotInterested),
                Message::Bitfield(bitfield) => {
                    let bits = bitvec_to_bools(&bitfield);
                    self.count_bitfield(&bits);
                },
                Message::Have(index) => {
                    let c = self.bitfield[index as usize];
                    self.bitfield.set(index as usize, c + 1);
                    assert(self@ =~= old(self)@.step(id_view, a));
                },
                Message::Request(index, begin, size) => {
                    if self.have_bitfield[index as usize] {
                        let cmd = Command::Read(id, index, begin, size);
                        proof {
                            lemma_commands_push(cmds@, cmd);
                        }
                        cmds.push(cmd);
                    }
                },
                _ => {},
            },
            PeerManagerAction::Download(index, block) => {
                if self.mark_block(index, block) {
                    proof {
                        lemma_commands_push(cmds@, Command::PieceDone(index));
                    }
                    cmds.push(Command::PieceDone(index));
                }
            },
            PeerManagerAction::AddPeer => {
                self.add_peer(id);
            },
            PeerManagerAction::RemovePeer => {
                self.remove_peer(&id);
            },
            PeerManagerAction::Piece(index, begin, block, speed) => {
                let had = self.have_bitfield[index as usize];
                self.set_speed(&id, speed);
                if !had {
                    self.downloaded = self.downloaded + block.len() as i64;
                    self.announce_have(&mut cmds, index);
                    let cmd = Command::Write(index, begin, block);
                    proof {
                        lemma_commands_push(cmds@, cmd);
                    }
                    cmds.push(cmd);
                }
                assert(self@ =~= old(self)@.step(id_view, a));
            },
        }
        assert(commands_view(cmds@) =~= old(self)@.step_commands(id_view, a));
        cmds
    }

    /// A block read from the file for peer `id`: sent to the peer as a
    /// `Piece`, and counted as uploaded, if the peer is still connected.
    pub fn block_read(&mut self, id: &String, index: u32, begin: u32, size: u32, block: Vec<u8>) -> (cmds: Vec<
        Command,
    >)
        requires
            old(self).wf(),
            old(self)@.uploaded + size <= i64::MAX,
        ensures
            final(self).wf(),
            final(self).torrent == old(self).torrent,
            old(self)@.has_peer(id@) ==> final(self)@ == (ManagerModel {
                uploaded: (old(self)@.uploaded + size) as i64,
                ..old(self)@
            }) && commands_view(cmds@) == seq![CommandModel::Send(id@, MessageModel::Piece(index, begin, block@))],
            !old(self)@.has_peer(id@) ==> final(self)@ == old(self)@ && cmds@.len() == 0,
    {
        let mut cmds: Vec<Command> = Vec::new();
        match self.find_peer(id) {
            Some(_) => {
                let ghost b = block@;
                cmds.push(Command::Send(id.clone(), Message::Piece(index, begin, block)));
                self.uploaded = self.uploaded + size as i64;
                assert(commands_view(cmds@) =~= seq![CommandModel::Send(id@, MessageModel::Piece(index, begin, b))]);
            },
            None => {},
        }
        cmds
    }
}

/// Whether peer `a` ranks before peer `b` when choking: a faster last block,
/// or the same speed and an earlier join.
pub open spec fn ranks_before(peers: Seq<PeerModel>, a: int, b: int) -> bool {
    peers[a].speed > peers[b].speed || (peers[a].speed == peers[b].speed && a < b)
}

/// `order` lists every peer position once, fastest first, ties in join
/// order.
pub open spec fn is_speed_order(peers: Seq<PeerModel>, order: Seq<usize>) -> bool {
    &&& order.len() == peers.len()
    &&& forall|k: int| 0 <= k < order.len() ==> #[trigger] order[k] < peers.len()
    &&& forall|j: int| 0 <= j < peers.len() ==> #[trigger] order.contains(j as usize)
    &&& forall|k: int, l: int|
        0 <= k < l < order.len() ==> #[trigger] ranks_before(peers, order[k] as int, order[l] as int)
}

/// The peers' positions ordered by speed (the one order with
/// `is_speed_order`).
pub open spec fn speed_order(peers: Seq<PeerModel>) -> Seq<usize> {
    choose|o: Seq<usize>| is_speed_order(peers, o)
}

/// What a choke round sends: `Unchoke` to the three fastest peers, `Choke`
/// to the others, fastest first, then `Unchoke` to the peer drawn among the
/// others, if any.
pub open spec fn choke_plan(peers: Seq<PeerModel>, order: Seq<usize>, drawn: Option<usize>) -> Seq<CommandModel> {
    Seq::new(
        order.len(),
        |k: int|
            CommandModel::Send(
                peers[order[k] as int].id,
                if k < 3 {
                    MessageModel::Unchoke
                } else {
                    MessageModel::Choke
                },
            ),
    ) + match drawn {
        Some(r) => seq![CommandModel::Send(peers[order[3 + r] as int].id, MessageModel::Unchoke)],
        None => Seq::empty(),
    }
}

proof fn lemma_positions_agree(peers: Seq<PeerModel>, o1: Seq<usize>, o2: Seq<usize>, k: int)
    requires
        is_speed_order(peers, o1),
        is_speed_order(peers, o2),
        0 <= k < o1.len(),
    ensures
        o1[k] == o2[k],
    decreases k,
{
    assert forall|q: int| 0 <= q < k implies o1[q] == o2[q] by {
        lemma_positions_agree(peers, o1, o2, q);
    }
    if o1[k] != o2[k] {
        let x = o1[k];
        let y = o2[k];
        assert(y < peers.len());
        assert(x < peers.len());
        assert(o1.contains((y as int) as usize));
        assert(o2.contains((x as int) as usize));
        let l = choose|l: int| 0 <= l < o1.len() && o1[l] == y;
        let m = choose|m: int| 0 <= m < o2.len() && o2[m] == x;
        if l < k {
            assert(o1[l] == o2[l]);
            assert(ranks_before(peers, o2[l] as int, o2[k] as int));
        }
        if m < k {
            assert(o1[m] == o2[m]);
            assert(ranks_before(peers, o1[m] as int, o1[k] as int));
        }
        assert(ranks_before(peers, o1[k] as int, o1[l] as int));
        assert(ranks_before(peers, o2[k] as int, o2[m] as int));
    }
}

/// There is at most one speed order of a list of peers.
pub proof fn lemma_speed_order_unique(peers: Seq<PeerModel>, o1: Seq<usize>, o2: Seq<usize>)
    requires
        is_speed_order(peers, o1),
        is_speed_order(peers, o2),
    ensures
        o1 == o2,
{
    assert forall|k: int| 0 <= k < o1.len() implies o1[k] == o2[k] by {
        lemma_positions_agree(peers, o1, o2, k);
    }
    assert(o1 =~= o2);
}

/// A piece the request round may pick: not had, and counted fewer than
/// `i64::MAX` times.
pub open spec fn is_candidate(m: ManagerModel, i: int) -> bool {
    0 <= i < m.count() && !m.have[i] && m.bitfield[i] < i64::MAX
}

/// The piece a request round picks: the first of the rarest candidates,
/// or piece 0 when there is none.
pub open spec fn is_rarest(m: ManagerModel, b: int) -> bool {
    if exists|i: int| is_candidate(m, i) {
        &&& is_candidate(m, b)
        &&& forall|j: int| #[trigger] is_candidate(m, j) ==> m.bitfield[b] <= m.bitfield[j]
        &&& forall|j: int| 0 <= j < b && #[trigger] is_candidate(m, j) ==> m.bitfield[j] > m.bitfield[b]
    } else {
        b == 0
    }
}

/// The piece that a request round picks.
pub open spec fn rarest_piece(m: ManagerModel) -> int {
    choose|b: int| is_rarest(m, b)
}

/// Block `k` of a piece of `size` bytes: from `k * BLOCK_SIZE`, at most
/// `BLOCK_SIZE` bytes.
pub open spec fn block_request(index: u32, size: int, k: int) -> MessageModel {
    let begin = k * BLOCK_SIZE;
    let len = if size - begin < BLOCK_SIZE { size - begin } else { BLOCK_SIZE as int };
    MessageModel::Request(index, begin as u32, len as u32)
}

/// What a request round sends for piece `b`: if this client lacks it and a
/// peer is connected, a request for each of its blocks, in order, to the
/// first peer.
pub open spec fn request_plan(m: ManagerModel, b: int) -> Seq<CommandModel> {
    if !m.have[b] && m.peers.len() > 0 {
        Seq::new(
            block_count(m.size_of(b)) as nat,
            |k: int| CommandModel::Send(m.peers[0].id, block_request(b as u32, m.size_of(b), k)),
        )
    } else {
        Seq::empty()
    }
}

/// The block requests of a piece tile it: each block starts where the one
/// before it ends, none is empty or longer than `BLOCK_SIZE`, the first
/// starts at 0 and the last ends at the piece's end.
pub proof fn lemma_requests_tile(index: u32, size: int)
    requires
        0 < size,
    ensures
        forall|k: int|
            0 <= k < block_count(size) ==> {
                let begin = k * BLOCK_SIZE;
                let len = if size - begin < BLOCK_SIZE { size - begin } else { BLOCK_SIZE as int };
                &&& 0 < len <= BLOCK_SIZE
                &&& begin + len <= size
                &&& (k + 1 < block_count(size) ==> begin + len == (k + 1) * BLOCK_SIZE)
                &&& (k + 1 == block_count(size) ==> begin + len == size)
                &&& #[trigger] block_request(index, size, k) == MessageModel::Request(index, begin as u32, len as u32)
            },
{
}

/// `Random::choose` over `0..n`: a position drawn uniformly below `n`, or
/// nothing when `n` is 0.
#[verifier::external_body]
fn draw_index(n: usize) -> (r: Option<usize>)
    ensures
        r is None <==> n == 0,
        r matches Some(i) ==> i < n,
{
    rand::seq::IteratorRandom::choose(0..n, &mut rand::thread_rng())
}

impl PeerManager {
    fn ranks(&self, a: usize, b: usize) -> (r: bool)
        requires
            a < self.peers@.len(),
            b < self.peers@.len(),
        ensures
            r == ranks_before(self@.peers, a as int, b as int),
    {
        let sa = self.peers[a].speed;
        let sb = self.peers[b].speed;
        sa > sb || (sa == sb && a < b)
    }

    /// The peers' positions ordered by speed, fastest first, ties in join
    /// order.
    pub fn speed_ranking(&self) -> (order: Vec<usize>)
        ensures
            is_speed_order(self@.peers, order@),
            order@ == speed_order(self@.peers),
    {
        let ghost peers = self@.peers;
        let n = self.peers.len();
        let mut order: Vec<usize> = Vec::new();
        let mut i: usize = 0;
        while i < n
            invariant
                n == peers.len(),
                peers == self@.peers,
                i <= n,
                order@.len() == i,
                forall|k: int| 0 <= k < order@.len() ==> #[trigger] order@[k] < i,
                forall|j: int| 0 <= j < i ==> #[trigger] order@.contains(j as usize),
                forall|k: int, l: int|
                    0 <= k < l < order@.len() ==> #[trigger] ranks_before(peers, order@[k] as int, order@[l] as int),
            decreases n - i,
        {
            let mut pos: usize = order.len();
            while pos > 0 && !self.ranks(order[pos - 1], i)
                invariant
                    n == peers.len(),
                    peers == self@.peers,
                    i < n,
                    pos <= order@.len(),
                    order@.len() == i,
                    forall|k: int| 0 <= k < order@.len() ==> #[trigger] order@[k] < i,
                    forall|q: int| pos <= q < order@.len() ==> ranks_before(peers, i as int, #[trigger] order@[q] as int),
                decreases pos,
            {
                pos = pos - 1;
            }
            let ghost before = order@;
            proof {
                if pos > 0 {
                    assert(ranks_before(peers, before[pos - 1] as int, i as int));
                    assert forall|q: int| 0 <= q < pos implies ranks_before(peers, #[trigger] before[q] as int, i as int) by {
                        if q < pos - 1 {
                            assert(ranks_before(peers, before[q] as int, before[pos - 1] as int));
                        }
                    }
                }
            }
            order.insert(pos, i);
            assert(order@ == before.insert(pos as int, i));
            assert forall|j: int| 0 <= j < i + 1 implies #[trigger] order@.contains(j as usize) by {
                if j == i {
                    assert(order@[pos as int] == i);
                } else {
                    assert(before.contains(j as usize));
                    let q = choose|q: int| 0 <= q < before.len() && before[q] == j as usize;
                    if q < pos {
                        assert(order@[q] == j as usize);
                    } else {
                        assert(order@[q + 1] == j as usize);
                    }
                }
            }
            assert forall|k: int, l: int|
                0 <= k < l < order@.len() implies #[trigger] ranks_before(peers, order@[k] as int, order@[l] as int) by {
                if k < pos && l < pos {
                    assert(ranks_before(peers, before[k] as int, before[l] as int));
                } else if k < pos && l == pos {
                } else if k < pos && l > pos {
                    assert(ranks_before(peers, before[k] as int, before[l - 1] as int));
                } else if k == pos {
                } else {
                    assert(ranks_before(peers, before[k - 1] as int, before[l - 1] as int));
                }
            }
            i = i + 1;
        }
        proof {
            lemma_speed_order_unique(peers, order@, speed_order(peers));
        }
        order
    }
}

impl PeerManager {
    /// The commands of a choke round in which the peer drawn among those
    /// past the three fastest is the `r`-th of them (`drawn` is `Some(r)`),
    /// or in which none is drawn.
    pub fn choke_commands(&self, drawn: Option<usize>) -> (cmds: Vec<Command>)
        requires
            drawn matches Some(r) ==> 3 + r < self@.peers.len(),
        ensures
            commands_view(cmds@) == choke_plan(self@.peers, speed_order(self@.peers), drawn),
    {
        let ghost peers = self@.peers;
        let order = self.speed_ranking();
        let ghost plan = choke_plan(peers, order@, drawn);
        let mut cmds: Vec<Command> = Vec::new();
        let mut k: usize = 0;
        while k < order.len()
            invariant
                peers == self@.peers,
                is_speed_order(peers, order@),
                plan == choke_plan(peers, order@, drawn),
                k <= order@.len(),
                commands_view(cmds@) == plan.take(k as int),
            decreases order@.len() - k,
        {
            let p = order[k];
            let msg = if k < 3 {
                Message::Unchoke
            } else {
                Message::Choke
            };
            let cmd = Command::Send(self.peers[p].id.clone(), msg);
            proof {
                lemma_commands_push(cmds@, cmd);
            }
            cmds.push(cmd);
            k = k + 1;
            assert(commands_view(cmds@) =~= plan.take(k as int));
        }
        match drawn {
            Some(r) => {
                let p = order[3 + r];
                let cmd = Command::Send(self.peers[p].id.clone(), Message::Unchoke);
                proof {
                    lemma_commands_push(cmds@, cmd);
                }
                cmds.push(cmd);
            },
            None => {},
        }
        assert(commands_view(cmds@) =~= plan);
        cmds
    }

    /// A choke round: `Unchoke` to the three fastest peers, `Choke` to the
    /// others, and `Unchoke` to one of the others drawn at random.
    pub fn choke_tick(&self) -> (cmds: Vec<Command>)
        ensures
            exists|drawn: Option<usize>|
                {
                    &&& (drawn is Some <==> self@.peers.len() > 3)
                    &&& (drawn matches Some(r) ==> 3 + r < self@.peers.len())
                    &&& commands_view(cmds@) == choke_plan(self@.peers, speed_order(self@.peers), drawn)
                },
    {
        let n = self.peers.len();
        let others: usize = if n > 3 {
            n - 3
        } else {
            0
        };
        let drawn = draw_index(others);
        self.choke_commands(drawn)
    }

    /// The piece a request round picks: the first of the pieces with the
    /// fewest peers among those this client lacks, or piece 0.
    pub fn rarest(&self) -> (best: usize)
        requires
            self.wf(),
        ensures
            best == rarest_piece(self@),
            is_rarest(self@, best as int),
    {
        let ghost m = self@;
        let n = self.bitfield.len();
        let mut lowest: i64 = i64::MAX;
        let mut best: usize = 0;
        let mut idx: usize = 0;
        while idx < n
            invariant
                m == self@,
                m.wf(),
                n == m.count(),
                idx <= n,
                lowest == i64::MAX ==> best == 0,
                lowest == i64::MAX ==> forall|j: int| 0 <= j < idx ==> !#[trigger] is_candidate(m, j),
                lowest < i64::MAX ==> {
                    &&& best < idx
                    &&& is_candidate(m, best as int)
                    &&& lowest == m.bitfield[best as int]
                    &&& forall|j: int| 0 <= j < idx && #[trigger] is_candidate(m, j) ==> lowest <= m.bitfield[j]
                    &&& forall|j: int| 0 <= j < best && #[trigger] is_candidate(m, j) ==> m.bitfield[j] > lowest
                },
            decreases n - idx,
        {
            let b = self.bitfield[idx];
            if b < lowest && !self.have_bitfield[idx] {
                lowest = b;
                best = idx;
            }
            idx = idx + 1;
        }
        proof {
            assert(is_rarest(m, best as int));
            let c = rarest_piece(m);
            assert(is_rarest(m, c));
            if exists|i: int| is_candidate(m, i) {
                if c < best {
                    assert(m.bitfield[c] > m.bitfield[best as int]);
                } else if c > best {
                    assert(m.bitfield[best as int] > m.bitfield[c]);
                }
            }
        }
        best
    }

    /// A request round: requests for every block of the rarest piece this
    /// client lacks, in order, to the first peer.
    pub fn request_tick(&self) -> (cmds: Vec<Command>)
        requires
            self.wf(),
            self@.count() >= 1,
        ensures
            commands_view(cmds@) == request_plan(self@, rarest_piece(self@)),
    {
        let ghost m = self@;
        let best = self.rarest();
        let mut cmds: Vec<Command> = Vec::new();
        proof {
            lemma_commands_push(cmds@, Command::PieceDone(0));
        }
        if !self.have_bitfield[best] {
            let n = self.have_bitfield.len();
            let mut size: i64 = self.piece_length;
            if best == n - 1 {
                size = self.length - (self.bitfield.len() as i64 - 1) * size;
            }
            assert(size == m.size_of(best as int));
            assert(size_countable(size as int));
            if self.peers.len() > 0 {
                let ghost plan = request_plan(m, best as int);
                let ghost bc = block_count(size as int);
                let mut downloaded: i64 = 0;
                let mut k: u64 = 0;
                while downloaded < size
                    invariant
                        m == self@,
                        self@.peers.len() > 0,
                        size_countable(size as int),
                        size == m.size_of(best as int),
                        best < m.count(),
                        !m.have[best as int],
                        bc == block_count(size as int),
                        plan == request_plan(m, best as int),
                        plan.len() == bc,
                        0 <= downloaded,
                        size > 0 ==> downloaded <= size,
                        downloaded < size ==> downloaded == k * BLOCK_SIZE,
                        downloaded >= size ==> k == bc,
                        downloaded < size ==> k < bc,
                        commands_view(cmds@) == plan.take(k as int),
                    decreases size - downloaded,
                {
                    let block = if size < BLOCK_SIZE {
                        size
                    } else {
                        BLOCK_SIZE
                    };
                    let actual_size = if block < size - downloaded {
                        block
                    } else {
                        size - downloaded
                    };
                    let cmd = Command::Send(
                        self.peers[0].id.clone(),
                        Message::Request(best as u32, downloaded as u32, actual_size as u32),
                    );
                    proof {
                        lemma_commands_push(cmds@, cmd);
                    }
                    cmds.push(cmd);
                    downloaded = downloaded + actual_size;
                    k = k + 1;
                    assert(commands_view(cmds@) =~= plan.take(k as int));
                }
                assert(plan.take(k as int) =~= plan);
            }
        }
        assert(commands_view(cmds@) =~= request_plan(m, best as int));
        cmds
    }

    /// A keep-alive round: `KeepAlive` to every peer.
    pub fn keep_alive_tick(&self) -> (cmds: Vec<Command>)
        ensures
            commands_view(cmds@) == Seq::new(
                self@.peers.len(),
                |k: int| CommandModel::Send(self@.peers[k].id, MessageModel::KeepAlive),
            ),
    {
        let ghost plan = Seq::new(
            self@.peers.len(),
            |k: int| CommandModel::Send(self@.peers[k].id, MessageModel::KeepAlive),
        );
        let mut cmds: Vec<Command> = Vec::new();
        let mut k: usize = 0;
        while k < self.peers.len()
            invariant
                k <= self@.peers.len(),
                plan == Seq::new(
                    self@.peers.len(),
                    |k: int| CommandModel::Send(self@.peers[k].id, MessageModel::KeepAlive),
                ),
                commands_view(cmds@) == plan.take(k as int),
            decreases self@.peers.len() - k,
        {
            let cmd = Command::Send(self.peers[k].id.clone(), Message::KeepAlive);
            proof {
                lemma_commands_push(cmds@, cmd);
            }
            cmds.push(cmd);
            k = k + 1;
            assert(commands_view(cmds@) =~= plan.take(k as int));
        }
        assert(plan.take(k as int) =~= plan);
        cmds
    }

    /// An announce round: the tracker request for the bytes moved so far
    /// and left to download, and how many new peers to take (up to thirty
    /// connected in all); `encoded_info` is the torrent file's info
    /// dictionary bencoded, whose SHA-1 the request carries.
    pub fn announce(&self, encoded_info: &[u8]) -> (r: (TrackerRequest, usize))
        requires
            self.wf(),
            self@.peers.len() <= 30,
            self.torrent.torrent_file.info.length - self.downloaded >= i64::MIN,
        ensures
            r.0.announce_url@ == self.torrent.torrent_file.announce@,
            r.0.compact == 1,
            r.0.info_hash@ == form_urlencoded(sha1_digest(encoded_info@)),
            r.0.peer_id@ == form_urlencoded(self.torrent.peer_id@),
            r.0.port == self.torrent.port as i64,
            r.0.downloaded == self.downloaded,
            r.0.uploaded == self.uploaded,
            r.0.left == self.torrent.torrent_file.info.length - self.downloaded,
            r.0.event is None,
            r.1 == 30 - self@.peers.len(),
    {
        let peer_cnt = self.peers.len();
        let size = self.torrent.torrent_file.info.length;
        let request = self.torrent.gen_tracker_request(encoded_info, self.downloaded, self.uploaded, size - self.downloaded, None);
        (request, 30 - peer_cnt)
    }
}

/// The messages sent to a peer once connected: the pieces this client has,
/// then `Interested`.
pub fn greeting_messages(have_bitfield: &Vec<bool>) -> (msgs: Vec<Message>)
    ensures
        msgs@.len() == 2,
        msgs@[0]@ == MessageModel::Bitfield(have_bitfield@),
        msgs@[1]@ == MessageModel::Interested,
{
    let bits = bitvec_from_bools(have_bitfield.clone());
    let mut msgs: Vec<Message> = Vec::new();
    msgs.push(Message::Bitfield(bits));
    msgs.push(Message::Interested);
    msgs
}


impl PeerManager {
    /// Whether an event is one the manager handles (see `step_allowed`):
    /// it names existing pieces and blocks and overflows no count.
    pub fn accepts(&self, action: &Action) -> (ok: bool)
        requires
            self.wf(),
        ensures
            ok == self@.step_allowed(action.id@, action.message@),
    {
        let n = self.have_bitfield.len();
        match &action.message {
            PeerManagerAction::MessageAction(Message::Bitfield(bitfield)) => {
                let bits = bitvec_to_bools(bitfield);
                let mut i: usize = 0;
                while i < bits.len()
                    invariant
                        n == self@.count(),
                        self.wf(),
                        bits@ == bitvec_bits(*bitfield),
                        action.message@ == ActionModel::MessageAction(MessageModel::Bitfield(bits@)),
                        i <= bits@.len(),
                        forall|j: int|
                            0 <= j < i && #[trigger] bits@[j] ==> j < self@.count() && self@.bitfield[j] < i64::MAX,
                    decreases bits@.len() - i,
                {
                    if bits[i] && (i >= n || self.bitfield[i] == i64::MAX) {
                        assert(bits@[i as int]);
                        return false;
                    }
                    i = i + 1;
                }
                true
            },
            PeerManagerAction::MessageAction(Message::Have(index)) => (*index as usize) < n
                && self.bitfield[*index as usize] < i64::MAX,
            PeerManagerAction::MessageAction(Message::Request(index, _, _)) => (*index as usize) < n,
            PeerManagerAction::Download(index, block) => (*index as usize) < n && 0 <= *block && (*block as u64)
                < (self.left[*index as usize].len() as u64),
            PeerManagerAction::Piece(index, _, block, _) => {
                if (*index as usize) >= n {
                    false
                } else if self.have_bitfield[*index as usize] {
                    true
                } else {
                    (block.len() as u64) <= ((i64::MAX - self.downloaded) as u64)
                }
            },
            _ => true,
        }
    }
}

/// No event lowers the bytes downloaded, and none changes the bytes
/// uploaded (only a block served to a peer does, see `block_read`).
pub proof fn lemma_totals_never_decrease(m: ManagerModel, id: Seq<char>, a: ActionModel)
    requires
        m.wf(),
        m.step_allowed(id, a),
    ensures
        m.step(id, a).downloaded >= m.downloaded,
        m.step(id, a).uploaded == m.uploaded,
{
}

/// A piece once had stays had, whatever event comes.
pub proof fn lemma_have_kept(m: ManagerModel, id: Seq<char>, a: ActionModel)
    requires
        m.wf(),
        m.step_allowed(id, a),
    ensures
        m.step(id, a).have.len() == m.have.len(),
        forall|i: int| 0 <= i < m.count() && #[trigger] m.have[i] ==> m.step(id, a).have[i],
{
    if let ActionModel::Download(index, block) = a {
        let row = m.left[index as int].update(block as int, true);
        if m.have[index as int] {
            assert forall|k: int| 0 <= k < row.len() implies row[k] by {
                assert(m.left[index as int][k]);
            }
        }
    }
}

/// A peer that joins and then leaves leaves the peers as they were.
pub proof fn lemma_join_then_leave(m: ManagerModel, id: Seq<char>)
    requires
        m.wf(),
        !m.has_peer(id),
    ensures
        m.added(id).removed(id) == m,
{
    let a = m.added(id);
    let n = m.peers.len() as int;
    assert(a.peers[n].id == id);
    assert(a.has_peer(id));
    let i = choose|i: int| 0 <= i < a.peers.len() && a.peers[i].id == id;
    if i < n {
        assert(m.peers[i].id == id);
    }
    assert(i == n);
    assert(a.removed(id).peers =~= m.peers);
    assert(a.removed(id) =~= m);
}

/// Every event keeps the invariant of the download state.
pub proof fn lemma_step_keeps_invariant(m: ManagerModel, id: Seq<char>, a: ActionModel)
    requires
        m.wf(),
        m.step_allowed(id, a),
    ensures
        m.step(id, a).wf(),
{
    let m2 = m.step(id, a);
    match a {
        ActionModel::MessageAction(msg) => {
            match msg {
                MessageModel::Bitfield(bits) => {
                    assert forall|i: int| 0 <= i < m2.count() implies #[trigger] m2.bitfield[i] >= 0 by {
                        if bit_or_false(bits, i) {
                            assert(bits[i]);
                        }
                    }
                },
                _ => {},
            }
        },
        ActionModel::Download(index, block) => {
            assert forall|i: int| 0 <= i < m2.count() implies #[trigger] m2.left[i].len() == block_count(m2.size_of(i)) by {
                assert(m2.size_of(i) == m.size_of(i));
            }
        },
        ActionModel::AddPeer => {
            if !m.has_peer(id) {
                assert forall|i: int, j: int|
                    0 <= i < m2.peers.len() && 0 <= j < m2.peers.len() && i != j implies m2.peers[i].id
                    != m2.peers[j].id by {
                    if i == m.peers.len() {
                        assert(m.peers[j].id != id);
                    }
                    if j == m.peers.len() {
                        assert(m.peers[i].id != id);
                    }
                }
            }
        },
        ActionModel::RemovePeer => {
            if m.has_peer(id) {
                let k = choose|k: int| 0 <= k < m.peers.len() && m.peers[k].id == id;
                assert forall|i: int, j: int|
                    0 <= i < m2.peers.len() && 0 <= j < m2.peers.len() && i != j implies m2.peers[i].id
                    != m2.peers[j].id by {
                    let oi = if i < k { i } else { i + 1 };
                    let oj = if j < k { j } else { j + 1 };
                    assert(m2.peers[i] == m.peers[oi]);
                    assert(m2.peers[j] == m.peers[oj]);
                }
            }
        },
        _ => {},
    }
}

/// The block a request asks for is the block its write reports: a block
/// requested from `begin` comes back written at `begin`, whose completion
/// (`FileAction::completion`) names block `begin / BLOCK_SIZE` of the same
/// piece, which is the requested block and one the state accepts (for
/// pieces whose number and size fit the `u32` fields of a request).
pub proof fn lemma_requested_block_reported(m: ManagerModel, id: Seq<char>, b: int, k: int)
    requires
        m.wf(),
        0 <= b < m.count(),
        0 <= k < block_count(m.size_of(b)),
        b <= u32::MAX,
        m.size_of(b) <= u32::MAX,
    ensures
        block_request(b as u32, m.size_of(b), k) matches MessageModel::Request(index, begin, _) && index == b
            && begin as int / BLOCK_SIZE as int == k && m.step_allowed(id, ActionModel::Download(index, k as i64)),
{
    assert(m.size_of(b) > 0);
    assert(k * BLOCK_SIZE < m.size_of(b));
}

/// A choke round (for the speed order of the peers) addresses every peer
/// once before the drawn one: peers unchoked in that pass are at least as
/// fast as every peer choked, and the drawn peer, if any, is one of the
/// choked ones.
pub proof fn lemma_choke_round(peers: Seq<PeerModel>, order: Seq<usize>, drawn: Option<usize>)
    requires
        drawn matches Some(r) ==> 3 + r < peers.len(),
        peers.len() <= usize::MAX,
        is_speed_order(peers, order),
    ensures
        ({
            let plan = choke_plan(peers, order, drawn);
            &&& plan.len() == peers.len() + if drawn is Some { 1int } else { 0int }
            &&& forall|j: int|
                #![trigger peers[j]]
                0 <= j < peers.len() ==> exists|k: int|
                    0 <= k < peers.len() && #[trigger] order[k] == j && plan[k] == CommandModel::Send(
                        peers[j].id,
                        if k < 3 {
                            MessageModel::Unchoke
                        } else {
                            MessageModel::Choke
                        },
                    )
            &&& forall|k: int, l: int|
                0 <= k < 3 && 3 <= l < peers.len() ==> peers[#[trigger] order[k] as int].speed >= peers[#[trigger] order[
                    l] as int].speed
            &&& drawn matches Some(r) ==> plan[peers.len() as int] == CommandModel::Send(
                peers[order[3 + r] as int].id,
                MessageModel::Unchoke,
            ) && 3 <= 3 + r < peers.len()
        }),
{
    let plan = choke_plan(peers, order, drawn);
    assert forall|j: int| #![trigger peers[j]] 0 <= j < peers.len() implies exists|k: int|
        0 <= k < peers.len() && #[trigger] order[k] == j && plan[k] == CommandModel::Send(
            peers[j].id,
            if k < 3 {
                MessageModel::Unchoke
            } else {
                MessageModel::Choke
            },
        ) by {
        assert(order.contains(j as usize));
        let k = choose|k: int| 0 <= k < order.len() && order[k] == j as usize;
        let pass = Seq::new(
            order.len(),
            |k: int|
                CommandModel::Send(
                    peers[order[k] as int].id,
                    if k < 3 {
                        MessageModel::Unchoke
                    } else {
                        MessageModel::Choke
                    },
                ),
        );
        assert(plan[k] == pass[k]);
        assert(plan[k] == CommandModel::Send(
            peers[j].id,
            if k < 3 {
                MessageModel::Unchoke
            } else {
                MessageModel::Choke
            },
        ));
    }
    assert forall|k: int, l: int|
        0 <= k < 3 && 3 <= l < peers.len() implies peers[#[trigger] order[k] as int].speed >= peers[#[trigger] order[
        l] as int].speed by {
        assert(ranks_before(peers, order[k] as int, order[l] as int));
    }
}

/// What an event never undoes: the numbers of pieces, counts, flags and
/// blocks stay the same; a written block stays written, a piece had stays
/// had, no count and no transfer total goes down; and a piece is still had
/// only when all its blocks are (the invariant holds after the event).
pub proof fn lemma_step_monotone(m: ManagerModel, id: Seq<char>, a: ActionModel)
    requires
        m.wf(),
        m.step_allowed(id, a),
    ensures
        ({
            let m2 = m.step(id, a);
            &&& m2.count() == m.count()
            &&& m2.bitfield.len() == m.bitfield.len()
            &&& m2.left.len() == m.left.len()
            &&& forall|i: int| 0 <= i < m.count() ==> #[trigger] m2.left[i].len() == m.left[i].len()
            &&& forall|i: int, j: int|
                0 <= i < m.count() && 0 <= j < m.left[i].len() && #[trigger] m.left[i][j] ==> m2.left[i][j]
            &&& forall|i: int| 0 <= i < m.count() && #[trigger] m.have[i] ==> m2.have[i]
            &&& forall|i: int| 0 <= i < m.count() ==> #[trigger] m2.bitfield[i] >= m.bitfield[i]
            &&& m2.downloaded >= m.downloaded
            &&& m2.uploaded >= m.uploaded
            &&& forall|i: int| 0 <= i < m2.count() && #[trigger] m2.have[i] ==> all_true(m2.left[i])
        }),
{
    lemma_have_kept(m, id, a);
    lemma_step_keeps_invariant(m, id, a);
    let m2 = m.step(id, a);
    match a {
        ActionModel::MessageAction(msg) => {
            match msg {
                MessageModel::Bitfield(bits) => {
                    assert forall|i: int| 0 <= i < m.count() implies #[trigger] m2.bitfield[i] >= m.bitfield[i] by {
                        if bit_or_false(bits, i) {
                            assert(bits[i]);
                        }
                    }
                },
                _ => {},
            }
        },
        _ => {},
    }
}

/// A block of a piece this client does not have yet is announced with
/// `Have` to each of the first ten connected peers, in the order they
/// joined (so to every peer while fewer than ten are connected), and then
/// written; a block of a piece it already has gives no command.
pub proof fn lemma_block_announced_then_written(
    m: ManagerModel,
    id: Seq<char>,
    index: u32,
    begin: u32,
    block: Seq<u8>,
    speed: i64,
)
    requires
        m.wf(),
        index < m.count(),
    ensures
        m.have[index as int] ==> m.step_commands(id, ActionModel::Piece(index, begin, block, speed)).len() == 0,
        !m.have[index as int] && m.peers.len() < 10 ==> m.step_commands(
            id,
            ActionModel::Piece(index, begin, block, speed),
        ).len() == m.peers.len() + 1,
        !m.have[index as int] && m.peers.len() >= 10 ==> m.step_commands(
            id,
            ActionModel::Piece(index, begin, block, speed),
        ).len() == 11,
        forall|k: int|
            0 <= k < m.peers.len() && k < 10 && !m.have[index as int] ==> #[trigger] m.step_commands(
                id,
                ActionModel::Piece(index, begin, block, speed),
            )[k] == CommandModel::Send(m.peers[k].id, MessageModel::Have(index)),
        !m.have[index as int] ==> m.step_commands(id, ActionModel::Piece(index, begin, block, speed)).last()
            == CommandModel::Write(index, begin, block),
{
}

/// A bitfield is handled exactly when every piece it sets exists and has
/// been counted fewer than `i64::MAX` times; clear bits, wherever they
/// stand, never make it refused.
pub proof fn lemma_bitfield_accepted(m: ManagerModel, id: Seq<char>, bits: Seq<bool>)
    ensures
        m.step_allowed(id, ActionModel::MessageAction(MessageModel::Bitfield(bits))) <==> (forall|i: int|
            0 <= i < bits.len() && #[trigger] bits[i] ==> i < m.have.len() && m.bitfield[i] < i64::MAX),
{
}

/// Clear bits after the last one of a bitfield change nothing: the longer
/// bitfield is handled exactly when the shorter one is, leaves the same
/// state and gives the same commands.
pub proof fn lemma_bitfield_padding_ignored(m: ManagerModel, id: Seq<char>, bits: Seq<bool>, pad: Seq<bool>)
    requires
        forall|i: int| 0 <= i < pad.len() ==> !#[trigger] pad[i],
    ensures
        m.step_allowed(id, ActionModel::MessageAction(MessageModel::Bitfield(bits + pad))) == m.step_allowed(
            id,
            ActionModel::MessageAction(MessageModel::Bitfield(bits)),
        ),
        m.step(id, ActionModel::MessageAction(MessageModel::Bitfield(bits + pad))) == m.step(
            id,
            ActionModel::MessageAction(MessageModel::Bitfield(bits)),
        ),
        m.step_commands(id, ActionModel::MessageAction(MessageModel::Bitfield(bits + pad))) == m.step_commands(
            id,
            ActionModel::MessageAction(MessageModel::Bitfield(bits)),
        ),
{
    let long = bits + pad;
    assert forall|i: int| 0 <= i < long.len() && #[trigger] long[i] implies i < bits.len() && long[i] == bits[i] by {
        if i >= bits.len() {
            assert(long[i] == pad[i - bits.len()]);
        }
    }
    assert forall|i: int| 0 <= i < bits.len() implies #[trigger] bits[i] == long[i] by {}
    let a = m.step(id, ActionModel::MessageAction(MessageModel::Bitfield(long)));
    let b = m.step(id, ActionModel::MessageAction(MessageModel::Bitfield(bits)));
    assert forall|i: int| 0 <= i < m.bitfield.len() implies #[trigger] bit_or_false(long, i) == bit_or_false(bits, i) by {
        if 0 <= i < long.len() && long[i] {
            assert(i < bits.len());
        }
        if 0 <= i < bits.len() {
            assert(long[i] == bits[i]);
        }
    }
    assert(a.bitfield =~= b.bitfield);
    assert(a =~= b);
}

/// The bitfield of any set of existing pieces, as a peer sends it (packed
/// into whole bytes, the last byte filled with clear bits) and as it is
/// unpacked again, is handled while no piece's count is at `i64::MAX`.
pub proof fn lemma_sent_bitfield_accepted(m: ManagerModel, id: Seq<char>, bits: Seq<bool>)
    requires
        bits.len() <= m.count(),
        m.bitfield.len() == m.count(),
        forall|i: int| 0 <= i < m.count() ==> #[trigger] m.bitfield[i] < i64::MAX,
    ensures
        m.step_allowed(id, ActionModel::MessageAction(MessageModel::Bitfield(bits_of_bytes(bytes_of_bits(bits))))),
{
    lemma_bits_bytes_roundtrip(bits);
    let sent = bits_of_bytes(bytes_of_bits(bits));
    assert forall|i: int| 0 <= i < sent.len() && #[trigger] sent[i] implies i < m.count() && m.bitfield[i]
        < i64::MAX by {
        assert(sent[i] == bit_or_false(bits, i));
    }
}

} // verus!
