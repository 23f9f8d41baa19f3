//! What a client needs to ask a tracker about a torrent: the request URLs it
//! sends, and the pieces of the answers it keeps.
use vstd::prelude::*;
use vstd::string::StringExecFns;

use crate::error::{Error, Result};
use crate::meta::{Sha1Digest, Torrent};

verus! {

/// A byte that form encoding leaves as it is: `*`, `-`, `.`, `_`, a digit or
/// an ASCII letter.
pub open spec fn form_unchanged(b: u8) -> bool {
    b == 0x2a || b == 0x2d || b == 0x2e || b == 0x5f || (0x30 <= b <= 0x39) || (0x41 <= b <= 0x5a) || (
    0x61 <= b <= 0x7a)
}

/// An upper-case hexadecimal digit.
pub open spec fn hex_digit(v: u8) -> char {
    if v < 10 {
        (0x30 + v) as char
    } else {
        (0x41 + v - 10) as char
    }
}

/// The form encoding of one byte: itself, `+` for a space, or `%` and two
/// upper-case hexadecimal digits.
pub open spec fn form_byte(b: u8) -> Seq<char> {
    if form_unchanged(b) {
        seq![b as char]
    } else if b == 0x20 {
        seq!['+']
    } else {
        seq!['%', hex_digit(b / 16), hex_digit(b % 16)]
    }
}

/// The `application/x-www-form-urlencoded` form of some bytes.
pub open spec fn form_encode(b: Seq<u8>) -> Seq<char>
    decreases b.len(),
{
    if b.len() == 0 {
        Seq::empty()
    } else {
        form_encode(b.drop_last()) + form_byte(b.last())
    }
}

/// Relies on `url::form_urlencoded::byte_serialize`: each byte becomes
/// itself, `+` or `%XX`, as `form_byte` states.
#[verifier::external_body]
fn form_urlencode(b: &[u8]) -> (r: String)
    ensures
        r@ == form_encode(b@),
{
    url::form_urlencoded::byte_serialize(b).collect()
}

/// `s` holds `pat` at `i`.
pub open spec fn occurs_at(s: Seq<char>, pat: Seq<char>, i: int) -> bool {
    0 <= i && i + pat.len() <= s.len() && s.subrange(i, i + pat.len()) == pat
}

/// `s` with its first `from` replaced by `to`; `s` itself when it holds none.
pub open spec fn replace_first(s: Seq<char>, from: Seq<char>, to: Seq<char>) -> Seq<char> {
    if exists|i: int| occurs_at(s, from, i) {
        let i = choose|i: int| occurs_at(s, from, i) && forall|j: int| 0 <= j < i ==> !occurs_at(s, from, j);
        s.subrange(0, i) + to + s.subrange(i + from.len(), s.len() as int)
    } else {
        s
    }
}

/// Relies on `str::replacen` with a count of 1: the first match of `from` is
/// replaced by `to`.
#[verifier::external_body]
fn replace_once(s: &str, from: &str, to: &str) -> (r: String)
    requires
        from@.len() > 0,
    ensures
        r@ == replace_first(s@, from@, to@),
{
    s.replacen(from, to, 1)
}

/// The URL of an announce request: the tracker's URL, the torrent's info hash,
/// this client's peer id, and a request for the compact list of peers.
pub open spec fn announce_url_of(announce: Seq<char>, info_hash: Seq<u8>, peer_id: Seq<u8>) -> Seq<char> {
    announce + "?info_hash="@ + form_encode(info_hash) + "&peer_id="@ + form_encode(peer_id)
        + "&compact=1"@
}

/// The URL of a scrape request for one torrent at the tracker whose announce
/// URL is `announce`.
pub open spec fn scrape_url_of(announce: Seq<char>, info_hash: Seq<u8>) -> Seq<char> {
    replace_first(announce, "announce"@, "scrape"@) + "?info_hash="@ + form_encode(info_hash)
}

/// The URL of an announce request.
pub fn announce_url(announce: &str, info_hash: &Sha1Digest, peer_id: &[u8; 20]) -> (r: String)
    ensures
        r@ == announce_url_of(announce@, info_hash.0@, peer_id@),
{
    let mut url = String::from_str(announce);
    url.append("?info_hash=");
    url.append(form_urlencode(info_hash.as_bytes()).as_str());
    url.append("&peer_id=");
    url.append(form_urlencode(peer_id.as_slice()).as_str());
    url.append("&compact=1");
    url
}

/// The URL of a scrape request: the announce URL with its first `announce`
/// turned into `scrape`, and the torrent's info hash.
pub fn scrape_url(announce: &str, info_hash: &Sha1Digest) -> (r: String)
    ensures
        r@ == scrape_url_of(announce@, info_hash.0@),
{
    proof {
        reveal_strlit("announce");
    }
    let mut url = replace_once(announce, "announce", "scrape");
    url.append("?info_hash=");
    url.append(form_urlencode(info_hash.as_bytes()).as_str());
    url
}

/// A client of the trackers of one torrent.
pub struct Client {
    pub torrent: Torrent,
}

impl Client {
    pub fn new(torrent: Torrent) -> (r: Self)
        ensures
            r.torrent == torrent,
    {
        Client { torrent }
    }

    /// The URL of an announce request with the peer id `peer_id`; `None` when
    /// the torrent names no tracker.
    pub fn announce_request(&self, peer_id: &[u8; 20]) -> (r: Option<String>)
        ensures
            match self.torrent.meta_info.announce {
                Some(a) => r matches Some(u) && u@ == announce_url_of(a@, self.torrent.info_hash.0@, peer_id@),
                None => r is None,
            },
    {
        match &self.torrent.meta_info.announce {
            Some(a) => Some(announce_url(a.as_str(), &self.torrent.info_hash, peer_id)),
            None => None,
        }
    }

    /// The URL of a scrape request; `None` when the torrent names no tracker.
    pub fn scrape_request(&self) -> (r: Option<String>)
        ensures
            match self.torrent.meta_info.announce {
                Some(a) => r matches Some(u) && u@ == scrape_url_of(a@, self.torrent.info_hash.0@),
                None => r is None,
            },
    {
        match &self.torrent.meta_info.announce {
            Some(a) => Some(scrape_url(a.as_str(), &self.torrent.info_hash)),
            None => None,
        }
    }
}

/// What a tracker knows of one torrent.
#[derive(Debug, Clone, Copy, PartialEq, Eq, Structural)]
pub struct ScrapeFile {
    pub complete: i64,
    pub downloaded: i64,
    pub incomplete: i64,
}

/// A tracker's answer to a scrape request: what it knows of each torrent, by
/// info hash. Well formed (`wf`) when each hash stands once, as in the map a
/// tracker sends.
#[derive(Debug)]
pub struct ScrapeResponse {
    pub files: Vec<(Sha1Digest, ScrapeFile)>,
}

/// Two digests are the same bytes.
pub fn same_digest(a: &Sha1Digest, b: &Sha1Digest) -> (r: bool)
    ensures
        r == (a.0@ == b.0@),
{
    let mut i: usize = 0;
    while i < 20
        invariant
            i <= 20,
            forall|j: int| 0 <= j < i ==> a.0@[j] == b.0@[j],
        decreases 20 - i,
    {
        if a.0[i] != b.0[i] {
            return false;
        }
        i = i + 1;
    }
    assert(a.0@ =~= b.0@);
    true
}

impl ScrapeResponse {
    /// Each info hash stands once.
    pub open spec fn wf(&self) -> bool {
        forall|i: int, j: int|
            0 <= i < j < self.files@.len() ==> #[trigger] self.files@[i].0.0@ != #[trigger] self.files@[j].0.0@
    }

    /// Takes out what the tracker knows of the torrent `info_hash`.
    pub fn take_file(&mut self, info_hash: &Sha1Digest) -> (r: Result<ScrapeFile>)
        ensures
            (exists|i: int| 0 <= i < old(self).files@.len() && old(self).files@[i].0.0@ == info_hash.0@)
                <==> r is Ok,
            r matches Ok(f) ==> exists|i: int|
                {
                    &&& 0 <= i < old(self).files@.len()
                    &&& old(self).files@[i].0.0@ == info_hash.0@
                    &&& old(self).files@[i].1 == f
                    &&& final(self).files@ == old(self).files@.remove(i)
                    &&& forall|j: int| 0 <= j < i ==> old(self).files@[j].0.0@ != info_hash.0@
                },
            r is Err ==> final(self).files@ == old(self).files@ && r matches Err(Error::Request(_)),
            old(self).wf() ==> final(self).wf(),
            old(self).wf() && r is Ok ==> forall|j: int|
                0 <= j < final(self).files@.len() ==> (#[trigger] final(self).files@[j]).0.0@ != info_hash.0@,
    {
        let mut i: usize = 0;
        while i < self.files.len()
            invariant
                self.files@ == old(self).files@,
                i <= self.files@.len(),
                forall|j: int| 0 <= j < i ==> self.files@[j].0.0@ != info_hash.0@,
            decreases self.files@.len() - i,
        {
            if same_digest(&self.files[i].0, info_hash) {
                let ghost before = self.files@;
                let (_, file) = self.files.remove(i);
                proof {
                    assert forall|j: int| 0 <= j < self.files@.len() implies
                        #[trigger] self.files@[j] == if j < i { before[j] } else { before[j + 1] } by {}
                    if old(self).wf() {
                        assert forall|a: int, b: int| 0 <= a < b < self.files@.len() implies
                            #[trigger] self.files@[a].0.0@ != #[trigger] self.files@[b].0.0@ by {
                            let a2 = if a < i { a } else { a + 1 };
                            let b2 = if b < i { b } else { b + 1 };
                            assert(before[a2].0.0@ != before[b2].0.0@);
                        }
                        assert forall|j: int| 0 <= j < self.files@.len() implies
                            (#[trigger] self.files@[j]).0.0@ != info_hash.0@ by {
                            let j2 = if j < i { j } else { j + 1 };
                            if j2 < i {
                                assert(before[j2].0.0@ != before[i as int].0.0@);
                            } else {
                                assert(before[i as int].0.0@ != before[j2].0.0@);
                            }
                        }
                    }
                }
                return Ok(file);
            }
            i = i + 1;
        }
        Err(Error::Request("Failed to fetch file info".to_owned()))
    }
}

/// A peer as a tracker lists it in compact form: an IPv4 address and a port.
#[derive(Debug, Clone, Copy, PartialEq, Eq)]
pub struct Peer {
    pub ip: [u8; 4],
    pub port: u16,
}

/// The peers of a compact peer list: six bytes each, the address then the
/// port in big-endian order.
pub struct CompactPeers(pub Vec<Peer>);

impl CompactPeers {
    /// Cuts `bytes` into peers of six bytes each; `None` when its length is not
    /// a multiple of six.
    pub fn from_bytes(bytes: &[u8]) -> (r: Option<CompactPeers>)
        ensures
            r is Some <==> bytes@.len() % 6 == 0,
            r matches Some(peers) ==> {
                &&& peers.0@.len() * 6 == bytes@.len()
                &&& forall|i: int|
                    0 <= i < peers.0@.len() ==> {
                        &&& (#[trigger] peers.0@[i]).ip@ == bytes@.subrange(6 * i, 6 * i + 4)
                        &&& peers.0@[i].port == bytes@[6 * i + 4] * 256 + bytes@[6 * i + 5]
                    }
            },
    {
        if bytes.len() % 6 != 0 {
            return None;
        }
        let count = bytes.len() / 6;
        assert(bytes@.len() == bytes.len());
        let mut peers: Vec<Peer> = Vec::new();
        let mut i: usize = 0;
        while i < count
            invariant
                count * 6 == bytes@.len(),
                bytes@.len() <= usize::MAX,
                i <= count,
                peers@.len() == i,
                forall|k: int|
                    0 <= k < i ==> {
                        &&& (#[trigger] peers@[k]).ip@ == bytes@.subrange(6 * k, 6 * k + 4)
                        &&& peers@[k].port == bytes@[6 * k + 4] * 256 + bytes@[6 * k + 5]
                    },
            decreases count - i,
        {
            assert(i * 6 + 6 <= count * 6) by (nonlinear_arith)
                requires
                    i < count,
            ;
            let base = i * 6;
            let ip = [bytes[base], bytes[base + 1], bytes[base + 2], bytes[base + 3]];
            assert(ip@ =~= bytes@.subrange(6 * i, 6 * i + 4));
            let port = (bytes[base + 4] as u16) * 256 + (bytes[base + 5] as u16);
            peers.push(Peer { ip, port });
            i = i + 1;
        }
        Some(CompactPeers(peers))
    }
}

/// A tracker's answer to an announce request, with the peers in compact form.
pub struct TrackerResponseCompat {
    pub complete: Option<u64>,
    pub incomplete: Option<u64>,
    /// Seconds to wait between announce requests.
    pub interval: u64,
    pub peers: CompactPeers,
}

} // verus!
