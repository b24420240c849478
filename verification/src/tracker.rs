//! Announcing to the tracker: the request, its URL, and the response.
use crate::text::{int_decimal, nat_decimal, push_decimal, push_signed_decimal};
use vstd::prelude::*;

verus! {

/// What a tracker answers.
pub struct TrackerResponse {
    pub failure_reason: Option<String>,
    pub interval: i64,
    pub complete: Option<i64>,
    pub warning_reason: Option<String>,
    pub tracker_id: Option<String>,
    pub incomplete: Option<i64>,
    pub min_interval: Option<i64>,
    pub peers: PeerIps,
}

/// A value of a peer's dictionary in a tracker response, as far as the
/// client reads it: a byte string, an integer, or something else.
pub enum BencodeValue {
    Bytes(Vec<u8>),
    Int(i64),
    List,
    Dict,
}

/// A peer in the dictionary model: its `ip` and `port` entries.
pub struct PeerEntry {
    pub ip: BencodeValue,
    pub port: BencodeValue,
}

/// The peers of a tracker response: a list of dictionaries, or the compact
/// binary model (six bytes per peer: address, then port, big-endian).
pub enum PeerIps {
    Dict(Vec<PeerEntry>),
    BinaryModel(Vec<u8>),
}

/// An announce to the tracker.
pub struct TrackerRequest {
    pub announce_url: String,
    pub info_hash: String,
    pub peer_id: String,
    pub port: i64,
    pub uploaded: i64,
    pub downloaded: i64,
    pub left: i64,
    pub compact: u8,
    pub event: Option<String>,
}

/// `&name=value` for a present optional value, nothing otherwise.
pub open spec fn optional_param(key: Seq<char>, value: Option<String>) -> Seq<char> {
    match value {
        Some(v) => key + v@,
        None => Seq::empty(),
    }
}

/// The announce URL: the tracker's URL and the query, in a fixed order.
pub open spec fn request_url(r: TrackerRequest, trackerid: Option<String>) -> Seq<char> {
    r.announce_url@ + "?peer_id="@ + r.peer_id@ + "&port="@ + int_decimal(r.port as int) + "&uploaded="@
        + int_decimal(r.uploaded as int) + "&downloaded="@ + int_decimal(r.downloaded as int) + "&left="@
        + int_decimal(r.left as int) + "&compact="@ + nat_decimal(r.compact as nat) + "&info_hash="@
        + r.info_hash@ + optional_param("&event="@, r.event) + optional_param("&trackerid="@, trackerid)
}

/// Appends `key` and the value when the value is present.
fn push_optional_param(s: &mut String, key: &str, value: &Option<String>)
    ensures
        final(s)@ == old(s)@ + optional_param(key@, *value),
{
    match value {
        Some(v) => {
            s.append(key);
            s.append(v.as_str());
        },
        None => {},
    }
    assert(final(s)@ =~= old(s)@ + optional_param(key@, *value));
}

impl TrackerRequest {
    /// The URL to announce with, naming the tracker id when there is one.
    pub fn url(&self, trackerid: &Option<String>) -> (u: String)
        ensures
            u@ == request_url(*self, *trackerid),
    {
        let mut s = self.announce_url.clone();
        s.append("?peer_id=");
        s.append(self.peer_id.as_str());
        s.append("&port=");
        push_signed_decimal(&mut s, self.port);
        s.append("&uploaded=");
        push_signed_decimal(&mut s, self.uploaded);
        s.append("&downloaded=");
        push_signed_decimal(&mut s, self.downloaded);
        s.append("&left=");
        push_signed_decimal(&mut s, self.left);
        s.append("&compact=");
        push_decimal(&mut s, self.compact as u64);
        s.append("&info_hash=");
        s.append(self.info_hash.as_str());
        push_optional_param(&mut s, "&event=", &self.event);
        push_optional_param(&mut s, "&trackerid=", trackerid);
        s
    }
}

/// Naming a tracker id appends `&trackerid=` and the id to the URL
/// announced without one, whatever the request's event.
pub proof fn lemma_trackerid_appended(r: TrackerRequest, t: String)
    ensures
        request_url(r, Some(t)) == request_url(r, None) + "&trackerid="@ + t@,
{
    assert(request_url(r, Some(t)) =~= request_url(r, None) + "&trackerid="@ + t@);
}

/// An event, when there is one, comes as `&event=` and its name right
/// after the info hash, before any tracker id.
pub proof fn lemma_event_before_trackerid(r: TrackerRequest, e: String, trackerid: Option<String>)
    requires
        r.event == Some(e),
    ensures
        request_url(r, trackerid) == request_url(TrackerRequest { event: None, ..r }, None) + "&event="@ + e@
            + optional_param("&trackerid="@, trackerid),
{
    assert(request_url(r, trackerid) =~= request_url(TrackerRequest { event: None, ..r }, None) + "&event="@
        + e@ + optional_param("&trackerid="@, trackerid));
}

} // verus!
