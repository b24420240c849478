//! A torrent: its metainfo, how its content splits into pieces, its info
//! hash, and the announces made for it.
use crate::hash::{sha1, sha1_digest};
use crate::text::{int_decimal, latin1, nat_decimal, push_char, push_decimal, push_latin1, push_signed_decimal};
use crate::tracker::{BencodeValue, PeerEntry, PeerIps, TrackerRequest, TrackerResponse};
use crate::wire::be_u16_bytes;
use vstd::prelude::*;

verus! {

/// The info dictionary of a torrent.
pub struct Info {
    pub name: String,
    pub pieces: Vec<u8>,
    pub piece_length: i64,
    pub md5sum: Option<String>,
    pub length: i64,
    pub private: Option<u8>,
    pub path: Option<Vec<String>>,
    pub root_hash: Option<String>,
}

/// A torrent file.
pub struct TorrentFile {
    pub info: Info,
    pub announce: String,
    pub announce_list: Option<Vec<Vec<String>>>,
    pub encoding: Option<String>,
    pub creation_date: Option<i64>,
    pub comment: Option<String>,
    pub created_by: Option<String>,
}

/// A torrent being shared: its file, this client's peer id and port, and
/// the info hash.
pub struct Torrent {
    pub peer_id: Vec<u8>,
    pub torrent_file: TorrentFile,
    pub info_hash: Vec<u8>,
    pub port: u32,
}

/// The number of pieces: one per 20-byte hash.
pub open spec fn piece_count(info: Info) -> int {
    info.pieces@.len() as int / 20
}

/// The size of piece `i` of `count` pieces of `piece_length` bytes: the last
/// piece holds what is left of `length`.
pub open spec fn piece_size(count: int, piece_length: int, length: int, i: int) -> int {
    if i == count - 1 {
        length - (count - 1) * piece_length
    } else {
        piece_length
    }
}

/// Where piece `i` starts in the content.
pub open spec fn piece_start(piece_length: int, i: int) -> int {
    i * piece_length
}

/// No piece has a negative size (what reading the pieces from disk needs:
/// a buffer the size of each piece).
pub open spec fn pieces_readable(count: int, piece_length: int, length: int) -> bool {
    &&& count >= 2 ==> piece_length >= 0
    &&& count >= 1 ==> length - (count - 1) * piece_length >= 0
}

/// The pieces tile the content: each starts where the one before it ends,
/// and the last ends at the content's length.
pub proof fn lemma_pieces_tile(count: int, piece_length: int, length: int)
    requires
        count >= 1,
    ensures
        forall|i: int|
            0 <= i < count - 1 ==> #[trigger] piece_start(piece_length, i) + piece_size(count, piece_length, length, i)
                == piece_start(piece_length, i + 1),
        piece_start(piece_length, count - 1) + piece_size(count, piece_length, length, count - 1) == length,
        piece_start(piece_length, 0) == 0,
{
    assert forall|i: int|
        0 <= i < count - 1 implies #[trigger] piece_start(piece_length, i) + piece_size(count, piece_length, length, i)
            == piece_start(piece_length, i + 1) by {
        assert((i + 1) * piece_length == i * piece_length + piece_length) by (nonlinear_arith);
    }
}

/// Where piece `p` starts, and its size.
pub open spec fn piece_span(info: Info, p: int) -> (int, int) {
    (
        piece_start(info.piece_length as int, p),
        piece_size(piece_count(info), info.piece_length as int, info.length as int, p),
    )
}

/// Whether reading piece `p` from the content, piece after piece, fills its
/// buffer: an empty piece always does, any other when the content reaches
/// the piece's end (once a read falls short, the content is used up, so
/// no later non-empty read succeeds).
pub open spec fn piece_read_ok(info: Info, content: Seq<u8>, p: int) -> bool {
    let (start, size) = piece_span(info, p);
    size == 0 || start + size <= content.len()
}

/// The bytes read for piece `p` when its read succeeds.
pub open spec fn piece_data(info: Info, content: Seq<u8>, p: int) -> Seq<u8> {
    let (start, size) = piece_span(info, p);
    if size == 0 {
        Seq::empty()
    } else {
        content.subrange(start, start + size)
    }
}

/// How many of the pieces before `p` could not be read.
pub open spec fn failed_before(info: Info, content: Seq<u8>, p: int) -> int
    decreases p,
{
    if p <= 0 {
        0
    } else {
        failed_before(info, content, p - 1) + if piece_read_ok(info, content, p - 1) {
            0int
        } else {
            1int
        }
    }
}

/// Whether piece `p` is read and hashes to the next unused recorded digest:
/// the digests are taken in order, one per piece read, none for a piece
/// whose read fell short.
pub open spec fn piece_verified(info: Info, content: Seq<u8>, p: int) -> bool {
    let slot = p - failed_before(info, content, p);
    &&& piece_read_ok(info, content, p)
    &&& sha1_digest(piece_data(info, content, p)) == info.pieces@.subrange(20 * slot, 20 * slot + 20)
}

/// `form_urlencoded::byte_serialize` leaves these bytes as they are.
pub open spec fn form_unchanged(b: u8) -> bool {
    b == 42 || b == 45 || b == 46 || (48 <= b <= 57) || (65 <= b <= 90) || b == 95 || (97 <= b <= 122)
}

/// An upper-case hexadecimal digit.
pub open spec fn hex_digit(d: int) -> char {
    if d < 10 {
        (d + 48) as char
    } else {
        (d + 55) as char
    }
}

/// How `application/x-www-form-urlencoded` writes one byte.
pub open spec fn form_encode_byte(b: u8) -> Seq<char> {
    if form_unchanged(b) {
        seq![b as char]
    } else if b == 32 {
        seq!['+']
    } else {
        seq!['%', hex_digit(b as int / 16), hex_digit(b as int % 16)]
    }
}

/// A byte string in `application/x-www-form-urlencoded` form.
pub open spec fn form_urlencoded(bytes: Seq<u8>) -> Seq<char>
    decreases bytes.len(),
{
    if bytes.len() == 0 {
        Seq::empty()
    } else {
        form_urlencoded(bytes.drop_last()) + form_encode_byte(bytes.last())
    }
}

/// `url::form_urlencoded::byte_serialize`, collected: the bytes with
/// `*-._`, digits and ASCII letters kept, a space written `+`, and every
/// other byte written `%XX` in upper-case hexadecimal.
#[verifier::external_body]
fn form_urlencode(bytes: &[u8]) -> (s: String)
    ensures
        s@ == form_urlencoded(bytes@),
{
    url::form_urlencoded::byte_serialize(bytes).collect()
}

/// How a peer's `ip` entry reads: a byte string as Latin-1 text, anything
/// else as nothing.
pub open spec fn ip_text(v: BencodeValue) -> Seq<char> {
    match v {
        BencodeValue::Bytes(b) => latin1(b@),
        _ => Seq::empty(),
    }
}

/// How a peer's `port` entry reads: an integer in decimal, anything else
/// as nothing.
pub open spec fn port_text(v: BencodeValue) -> Seq<char> {
    match v {
        BencodeValue::Int(x) => int_decimal(x as int),
        _ => Seq::empty(),
    }
}

/// `ip:port` for a peer of the dictionary model.
pub open spec fn entry_address(e: PeerEntry) -> Seq<char> {
    ip_text(e.ip) + seq![':'] + port_text(e.port)
}

/// `a.b.c.d:port` for the first six bytes of the binary model.
pub open spec fn compact_address(s: Seq<u8>) -> Seq<char> {
    nat_decimal(s[0] as nat) + seq!['.'] + nat_decimal(s[1] as nat) + seq!['.'] + nat_decimal(s[2] as nat)
        + seq!['.'] + nat_decimal(s[3] as nat) + seq![':'] + nat_decimal((s[4] as nat) * 256 + s[5] as nat)
}

/// The peer addresses of a tracker response: one per dictionary, or the
/// first one of the binary model.
pub open spec fn peer_addresses(peers: PeerIps) -> Seq<Seq<char>> {
    match peers {
        PeerIps::Dict(entries) => Seq::new(entries@.len(), |i: int| entry_address(entries@[i])),
        PeerIps::BinaryModel(s) => seq![compact_address(s@)],
    }
}

/// The text of a value, as `ip_text` reads it.
fn push_ip_text(s: &mut String, v: &BencodeValue)
    ensures
        final(s)@ == old(s)@ + ip_text(*v),
{
    match v {
        BencodeValue::Bytes(b) => {
            push_latin1(s, b.as_slice());
        },
        _ => {
            assert(final(s)@ =~= old(s)@ + ip_text(*v));
        },
    }
}

/// The text of a value, as `port_text` reads it.
fn push_port_text(s: &mut String, v: &BencodeValue)
    ensures
        final(s)@ == old(s)@ + port_text(*v),
{
    match v {
        BencodeValue::Int(x) => {
            push_signed_decimal(s, *x);
        },
        _ => {
            assert(final(s)@ =~= old(s)@ + port_text(*v));
        },
    }
}

/// `a.b.c.d:port` from the first six bytes of a compact peer list.
fn compact_peer(s: &[u8]) -> (a: String)
    requires
        s@.len() >= 6,
    ensures
        a@ == compact_address(s@),
{
    let mut a = String::new();
    push_decimal(&mut a, s[0] as u64);
    push_char(&mut a, '.');
    push_decimal(&mut a, s[1] as u64);
    push_char(&mut a, '.');
    push_decimal(&mut a, s[2] as u64);
    push_char(&mut a, '.');
    push_decimal(&mut a, s[3] as u64);
    push_char(&mut a, ':');
    let port: u16 = (s[4] as u16) * 256 + (s[5] as u16);
    push_decimal(&mut a, port as u64);
    assert(a@ =~= compact_address(s@));
    a
}

impl TorrentFile {
    /// The info hash: the SHA-1 digest of the bencoded info dictionary.
    pub fn info_hash(encoded_info: &[u8]) -> (hash: Vec<u8>)
        ensures
            hash@ == sha1_digest(encoded_info@),
            hash@.len() == 20,
    {
        sha1(encoded_info)
    }
}

impl Torrent {
    /// Whether no piece of the torrent has a negative size (what `verify`
    /// requires to read the pieces from disk).
    pub fn pieces_readable(&self) -> (ok: bool)
        ensures
            ok == pieces_readable(
                piece_count(self.torrent_file.info),
                self.torrent_file.info.piece_length as int,
                self.torrent_file.info.length as int,
            ),
    {
        let n: usize = self.torrent_file.info.pieces.len() / 20;
        let piece_length = self.torrent_file.info.piece_length;
        let length = self.torrent_file.info.length;
        if n == 0 {
            return true;
        }
        if n >= 2 && piece_length < 0 {
            return false;
        }
        assert(n <= i64::MAX);
        let k: i128 = n as i128 - 1;
        proof {
            if n >= 2 {
                assert(0 <= k * piece_length <= k * i64::MAX) by (nonlinear_arith)
                    requires k >= 1, 0 <= piece_length <= i64::MAX;
                assert(k * i64::MAX <= i64::MAX * i64::MAX) by (nonlinear_arith)
                    requires 0 <= k <= i64::MAX;
            } else {
                assert(k * piece_length == 0) by (nonlinear_arith)
                    requires k == 0;
            }
        }
        (length as i128) - k * (piece_length as i128) >= 0
    }

    /// The torrent for a torrent file whose info dictionary bencodes to
    /// `encoded_info`, shared as `peer_id` on `port`.
    pub fn new(torrent_file: TorrentFile, encoded_info: &[u8], port: u32, peer_id: Vec<u8>) -> (t: Torrent)
        ensures
            t.torrent_file == torrent_file,
            t.info_hash@ == sha1_digest(encoded_info@),
            t.info_hash@.len() == 20,
            t.port == port,
            t.peer_id@ == peer_id@,
    {
        let info_hash = TorrentFile::info_hash(encoded_info);
        Torrent { port, torrent_file, info_hash, peer_id }
    }

    /// The announce for the given transfer counts and event, where
    /// `encoded_info` is the torrent file's info dictionary bencoded: the
    /// info hash (the SHA-1 of those bytes, computed afresh) and the peer id
    /// URL-encoded, the compact peer list asked for.
    pub fn gen_tracker_request(
        &self,
        encoded_info: &[u8],
        downloaded: i64,
        uploaded: i64,
        left: i64,
        event: Option<String>,
    ) -> (r: TrackerRequest)
        ensures
            r.announce_url@ == self.torrent_file.announce@,
            r.compact == 1,
            r.info_hash@ == form_urlencoded(sha1_digest(encoded_info@)),
            r.downloaded == downloaded,
            r.uploaded == uploaded,
            r.left == left,
            r.peer_id@ == form_urlencoded(self.peer_id@),
            r.port == self.port as i64,
            r.event == event,
    {
        let info_hash = TorrentFile::info_hash(encoded_info);
        TrackerRequest {
            announce_url: self.torrent_file.announce.clone(),
            compact: 1,
            info_hash: form_urlencode(info_hash.as_slice()),
            downloaded,
            uploaded,
            left,
            peer_id: form_urlencode(self.peer_id.as_slice()),
            port: self.port as i64,
            event,
        }
    }

    /// The `ip:port` addresses of the peers in a tracker response.
    pub fn handle_tracker_response(tracker_response: TrackerResponse) -> (peer_ips: Vec<String>)
        requires
            tracker_response.peers matches PeerIps::BinaryModel(s) ==> s@.len() >= 6,
        ensures
            peer_ips@.len() == peer_addresses(tracker_response.peers).len(),
            forall|i: int|
                0 <= i < peer_ips@.len() ==> #[trigger] peer_ips@[i]@ == peer_addresses(tracker_response.peers)[i],
    {
        let mut peer_ips: Vec<String> = Vec::new();
        match &tracker_response.peers {
            PeerIps::Dict(entries) => {
                let mut i: usize = 0;
                while i < entries.len()
                    invariant
                        i <= entries@.len(),
                        tracker_response.peers == PeerIps::Dict(*entries),
                        peer_ips@.len() == i,
                        forall|j: int| 0 <= j < i ==> #[trigger] peer_ips@[j]@ == entry_address(entries@[j]),
                    decreases entries@.len() - i,
                {
                    let entry = &entries[i];
                    let mut a = String::new();
                    push_ip_text(&mut a, &entry.ip);
                    push_char(&mut a, ':');
                    push_port_text(&mut a, &entry.port);
                    assert(a@ =~= entry_address(entries@[i as int]));
                    peer_ips.push(a);
                    i = i + 1;
                }
            },
            PeerIps::BinaryModel(s) => {
                peer_ips.push(compact_peer(s.as_slice()));
            },
        }
        peer_ips
    }
}

/// In the dictionary model every entry gives one address, in the order of
/// the entries: its `ip` byte string read as Latin-1 text, a colon, and its
/// `port` integer in decimal (a value of another kind reads as nothing).
pub proof fn lemma_dict_addresses(entries: Vec<PeerEntry>)
    ensures
        peer_addresses(PeerIps::Dict(entries)).len() == entries@.len(),
        forall|i: int|
            0 <= i < entries@.len() ==> #[trigger] peer_addresses(PeerIps::Dict(entries))[i] == ip_text(
                entries@[i].ip,
            ) + seq![':'] + port_text(entries@[i].port),
        forall|i: int|
            0 <= i < entries@.len() && entries@[i].ip is Bytes && entries@[i].port is Int
                ==> #[trigger] peer_addresses(PeerIps::Dict(entries))[i] == latin1(entries@[i].ip->Bytes_0@)
                + seq![':'] + int_decimal(entries@[i].port->Int_0 as int),
{
}

/// In the binary model the one address is the first four bytes as a dotted
/// quad and, after a colon, the port whose big-endian bytes are the next two.
pub proof fn lemma_binary_address(s: Vec<u8>, port: u16)
    requires
        s@.len() >= 6,
        s@.subrange(4, 6) == be_u16_bytes(port),
    ensures
        peer_addresses(PeerIps::BinaryModel(s)) == seq![
            nat_decimal(s@[0] as nat) + seq!['.'] + nat_decimal(s@[1] as nat) + seq!['.'] + nat_decimal(s@[2] as nat)
                + seq!['.'] + nat_decimal(s@[3] as nat) + seq![':'] + nat_decimal(port as nat),
        ],
{
    let hi = s@[4];
    let lo = s@[5];
    assert(hi == be_u16_bytes(port)[0] && lo == be_u16_bytes(port)[1]) by {
        assert(s@.subrange(4, 6)[0] == hi && s@.subrange(4, 6)[1] == lo);
    }
    assert(hi as int * 256 + lo as int == port as int) by (bit_vector)
        requires
            hi == (port >> 8u16) as u8,
            lo == port as u8,
    ;
}

} // verus!
