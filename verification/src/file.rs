//! The downloaded file: checking the pieces already on disk, and where the
//! file store reads and writes blocks.
use crate::action::{Action, ActionModel, FileAction, PeerManagerAction};
use crate::hash::sha1;
use crate::torrent::{
    failed_before, piece_count, piece_data, piece_read_ok, piece_size, piece_span, piece_start, piece_verified,
    pieces_readable, Torrent,
};
use vstd::prelude::*;

verus! {

/// The size of the blocks in which pieces are requested and written.
pub const BLOCK_SIZE: i64 = 16384;

/// Whether a digest equals the 20-byte hash of piece `index` in the
/// concatenated piece hashes.
pub fn hash_matches(digest: &[u8], pieces: &[u8], index: usize) -> (ok: bool)
    requires
        20 * index + 20 <= pieces@.len(),
    ensures
        ok == (digest@ == pieces@.subrange(20 * index, 20 * index + 20)),
{
    let total = pieces.len();
    if digest.len() != 20 {
        return false;
    }
    let base: usize = 20 * index;
    let mut k: usize = 0;
    while k < 20
        invariant
            k <= 20,
            total == pieces@.len(),
            digest@.len() == 20,
            base == 20 * index,
            base + 20 <= pieces@.len(),
            forall|j: int| 0 <= j < k ==> digest@[j] == pieces@[base + j],
        decreases 20 - k,
    {
        if digest[k] != pieces[base + k] {
            assert(digest@[k as int] != pieces@.subrange(20 * index, 20 * index + 20)[k as int]);
            return false;
        }
        k = k + 1;
    }
    assert(digest@ =~= pieces@.subrange(20 * index, 20 * index + 20));
    true
}

proof fn lemma_start_bound(p: int, count: int, piece_length: int)
    requires
        0 <= p < count,
        piece_length >= 0 || count == 1,
    ensures
        0 <= p * piece_length <= (count - 1) * piece_length,
{
    if count == 1 {
        assert(p == 0);
    } else {
        assert(0 <= p * piece_length <= (count - 1) * piece_length) by (nonlinear_arith)
            requires
                0 <= p <= count - 1,
                piece_length >= 0,
        ;
    }
}

/// Which pieces of the torrent the content on disk already holds. With no
/// content, none. Otherwise the pieces are read one after the other: piece
/// `p` counts when its read fills its buffer and the bytes hash to the next
/// recorded digest not yet used (see `piece_verified`).
pub fn verify(torrent: &Torrent, content: &Option<Vec<u8>>) -> (have: Vec<bool>)
    requires
        content is Some ==> pieces_readable(
            piece_count(torrent.torrent_file.info),
            torrent.torrent_file.info.piece_length as int,
            torrent.torrent_file.info.length as int,
        ),
    ensures
        have@.len() == piece_count(torrent.torrent_file.info),
        forall|p: int|
            0 <= p < have@.len() ==> #[trigger] have@[p] == (content matches Some(c) && piece_verified(
                torrent.torrent_file.info,
                c@,
                p,
            )),
{
    let info = &torrent.torrent_file.info;
    let count: usize = info.pieces.len() / 20;
    assert(count <= i64::MAX);
    let ghost n = piece_count(*info);
    let mut have: Vec<bool> = Vec::new();
    match content {
        None => {
            let mut p: usize = 0;
            while p < count
                invariant
                    p <= count,
                    have@.len() == p,
                    content is None,
                    forall|q: int| 0 <= q < p ==> !#[trigger] have@[q],
                decreases count - p,
            {
                have.push(false);
                p = p + 1;
            }
        },
        Some(c) => {
            let piece_length = info.piece_length;
            let length = info.length;
            let mut failed: usize = 0;
            let mut p: usize = 0;
            while p < count
                invariant
                    info == &torrent.torrent_file.info,
                    content == Some(*c),
                    count == n,
                    n == piece_count(*info),
                    count <= i64::MAX,
                    20 * count <= info.pieces@.len(),
                    piece_length == info.piece_length,
                    length == info.length,
                    pieces_readable(n, piece_length as int, length as int),
                    p <= count,
                    failed <= p,
                    failed == failed_before(*info, c@, p as int),
                    have@.len() == p,
                    forall|q: int| 0 <= q < p ==> #[trigger] have@[q] == piece_verified(*info, c@, q),
                decreases count - p,
            {
                proof {
                    lemma_start_bound(p as int, n, piece_length as int);
                    if p + 1 < count {
                        lemma_start_bound(p as int + 1, n, piece_length as int);
                        assert((p as int + 1) * piece_length == p as int * piece_length + piece_length)
                            by (nonlinear_arith);
                    }
                }
                assert(p < i64::MAX);
                let start: i64 = (p as i64) * piece_length;
                let size: i64 = if p == count - 1 {
                    length - start
                } else {
                    piece_length
                };
                let end: i64 = start + size;
                assert(piece_span(*info, p as int) == (start as int, size as int));
                let read_ok: bool = size == 0 || (end as u64) <= (c.len() as u64);
                assert(read_ok == piece_read_ok(*info, c@, p as int));
                let ok = if read_ok {
                    let empty: Vec<u8> = Vec::new();
                    let data: &[u8] = if size == 0 {
                        empty.as_slice()
                    } else {
                        &c.as_slice()[start as usize..end as usize]
                    };
                    assert(data@ =~= piece_data(*info, c@, p as int));
                    let digest = sha1(data);
                    assert(digest@ == crate::hash::sha1_digest(piece_data(*info, c@, p as int)));
                    hash_matches(digest.as_slice(), info.pieces.as_slice(), p - failed)
                } else {
                    failed = failed + 1;
                    false
                };
                have.push(ok);
                p = p + 1;
            }
        },
    }
    have
}

impl FileAction {
    /// Where in the file the block starts: `index` whole pieces of
    /// `piece_size` bytes, then `begin` bytes, with the piece size taken as
    /// a `u64` (a negative size wraps, as the cast does; for piece 0 it does
    /// not matter).
    pub fn offset(&self, piece_size: i64) -> (off: u64)
        requires
            match self {
                FileAction::Read(index, begin, _) => *index * (piece_size as u64) + *begin <= u64::MAX,
                FileAction::Write(index, begin, _) => *index * (piece_size as u64) + *begin <= u64::MAX,
            },
        ensures
            match self {
                FileAction::Read(index, begin, _) => off == *index * (piece_size as u64) + *begin,
                FileAction::Write(index, begin, _) => off == *index * (piece_size as u64) + *begin,
            },
    {
        let (index, begin) = match self {
            FileAction::Read(index, begin, _) => (*index, *begin),
            FileAction::Write(index, begin, _) => (*index, *begin),
        };
        let size: u64 = piece_size as u64;
        assert(0 <= index * size <= u64::MAX) by (nonlinear_arith)
            requires
                index * size + begin <= u64::MAX,
                index >= 0,
                size >= 0,
                begin >= 0,
        ;
        (index as u64) * size + (begin as u64)
    }

    /// The event the file store sends once a write is done: block
    /// `begin / BLOCK_SIZE` of the piece is downloaded (sent under the id
    /// `123`); nothing for a read.
    pub fn completion(&self) -> (a: Option<Action>)
        ensures
            match self {
                FileAction::Read(..) => a is None,
                FileAction::Write(index, begin, _) => a matches Some(a) && a.id@ == "123"@ && a.message@
                    == ActionModel::Download(*index, (*begin as int / BLOCK_SIZE as int) as i64),
            },
    {
        match self {
            FileAction::Read(..) => None,
            FileAction::Write(index, begin, _) => {
                let block_index: i64 = (*begin as i64) / BLOCK_SIZE;
                Some(Action { id: String::from_str("123"), message: PeerManagerAction::Download(*index, block_index) })
            },
        }
    }
}

} // verus!
