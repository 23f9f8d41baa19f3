//! The records of a torrent file, and the hash that names a torrent.
use vstd::prelude::*;

use crate::error::{is_mismatch, Error, Expected, Result};
use crate::object::Object;
use crate::parser::{drain, lemma_drain_wf, lemma_step_wf, step, BencodeParser, ParserState};
use crate::token::Token;

verus! {

/// The number of bytes in a SHA-1 digest.
pub const DIGEST_LENGTH: usize = 20;

/// The SHA-1 digest of some bytes.
pub uninterp spec fn sha1_of(data: Seq<u8>) -> Seq<u8>;

/// A SHA-1 digest.
#[derive(Debug, PartialEq, Eq, Hash, Clone, Copy)]
pub struct Sha1Digest(pub [u8; 20]);

impl Sha1Digest {
    pub fn new(bytes: [u8; 20]) -> (r: Self)
        ensures
            r.0 == bytes,
    {
        Sha1Digest(bytes)
    }

    /// The digest of `data`.
    pub fn digest(data: &[u8]) -> (r: Self)
        ensures
            r.0@ == sha1_of(data@),
    {
        Sha1Digest(sha1_bytes(data))
    }

    /// The digest's bytes.
    pub fn as_bytes(&self) -> (r: &[u8])
        ensures
            r@ == self.0@,
    {
        self.0.as_slice()
    }
}

/// Relies on `sha1_smol::Sha1::from(..).digest().bytes()`: the SHA-1 digest of
/// the bytes, which depends on them alone.
#[verifier::external_body]
fn sha1_bytes(data: &[u8]) -> (r: [u8; 20])
    ensures
        r@ == sha1_of(data@),
{
    sha1_smol::Sha1::from(data).digest().bytes()
}

/// The digests of the pieces of a torrent's content, in order.
#[derive(Debug, PartialEq)]
pub struct PieceList(pub Vec<Sha1Digest>);

impl PieceList {
    /// Cuts `bytes` into digests of 20 bytes each; `None` when its length is
    /// not a multiple of 20.
    pub fn from_bytes(bytes: &[u8]) -> (r: Option<PieceList>)
        ensures
            r is Some <==> bytes@.len() % 20 == 0,
            r matches Some(list) ==> {
                &&& list.0@.len() * 20 == bytes@.len()
                &&& forall|i: int|
                    0 <= i < list.0@.len() ==> (#[trigger] list.0@[i]).0@ == bytes@.subrange(
                        20 * i,
                        20 * i + 20,
                    )
            },
    {
        if bytes.len() % DIGEST_LENGTH != 0 {
            return None;
        }
        let count = bytes.len() / DIGEST_LENGTH;
        assert(bytes@.len() == bytes.len());
        let mut digests: Vec<Sha1Digest> = Vec::new();
        let mut i: usize = 0;
        while i < count
            invariant
                count * 20 == bytes@.len(),
                bytes@.len() <= usize::MAX,
                i <= count,
                digests@.len() == i,
                forall|k: int|
                    0 <= k < i ==> (#[trigger] digests@[k]).0@ == bytes@.subrange(20 * k, 20 * k + 20),
            decreases count - i,
        {
            assert(i * 20 + 20 <= count * 20) by (nonlinear_arith)
                requires
                    i < count,
            ;
            let base = i * DIGEST_LENGTH;
            let mut chunk = [0u8; 20];
            let mut j: usize = 0;
            while j < DIGEST_LENGTH
                invariant
                    count * 20 == bytes@.len(),
                    bytes@.len() <= usize::MAX,
                    i < count,
                    base == 20 * i,
                    base + 20 <= bytes@.len(),
                    j <= 20,
                    forall|m: int| 0 <= m < j ==> chunk@[m] == bytes@[base + m],
                decreases 20 - j,
            {
                chunk[j] = bytes[base + j];
                j = j + 1;
            }
            assert(chunk@ =~= bytes@.subrange(20 * i, 20 * i + 20));
            digests.push(Sha1Digest::new(chunk));
            i = i + 1;
        }
        Some(PieceList(digests))
    }
}

/// Whether the files of a torrent are one file or several.
#[derive(Debug, PartialEq)]
pub enum FileMode {
    Single { length: u64 },
    Multiple { files: Vec<FileInfo> },
}

/// One file of a torrent with several files.
#[derive(Debug, PartialEq)]
pub struct FileInfo {
    pub length: u64,
    pub path: Vec<String>,
}

/// A node of the distributed hash table: a host and a port.
#[derive(Debug, PartialEq, Clone)]
pub struct Node {
    pub host: String,
    pub port: u16,
}

impl Node {
    pub fn new(host: String, port: u16) -> (r: Self)
        ensures
            r.host == host,
            r.port == port,
    {
        Node { host, port }
    }
}

/// The `info` dictionary of a torrent file.
#[derive(Debug)]
pub struct Info {
    /// One file or several.
    pub mode: FileMode,
    /// The suggested name to save the content as.
    pub name: Option<String>,
    /// The number of bytes in each piece.
    pub piece_length: u64,
    /// The digest of each piece.
    pub pieces: PieceList,
    /// Whether the torrent is private.
    pub private: Option<bool>,
}

/// The contents of a torrent file.
#[derive(Debug)]
pub struct MetaInfo {
    /// The tracker's URL.
    pub announce: Option<String>,
    /// Tiers of tracker URLs.
    pub announce_list: Option<Vec<Vec<String>>>,
    pub comment: Option<String>,
    pub created_by: Option<String>,
    pub creation_date: Option<u64>,
    pub info: Info,
    /// Nodes of the distributed hash table.
    pub nodes: Option<Vec<Node>>,
    /// Web seeds.
    pub url_list: Option<Vec<String>>,
}

/// A torrent: its contents and the hash of its `info` dictionary.
#[derive(Debug)]
pub struct Torrent {
    pub meta_info: MetaInfo,
    pub info_hash: Sha1Digest,
}

/// How the search of a torrent file for its `info` dictionary ends.
pub ghost enum InfoSearch {
    /// Found: the span of the dictionary in the input.
    Found(int, int),
    /// The value under `info` is not a dictionary: the offset just past the
    /// token that begins it, where the search stopped.
    NotDict(int),
    /// The file is not a dictionary, or has no key `info`: the offset where
    /// the search stopped (the start of the file's value, or just past the
    /// dictionary's end).
    Missing(int),
    /// A key that is not a byte string: where it begins, and its token.
    BadKey(int, Token),
    /// The input breaks the grammar at this offset.
    Failed(int),
}

/// The key `info`.
pub open spec fn is_info_key(k: Seq<u8>) -> bool {
    k == seq![0x69u8, 0x6eu8, 0x66u8, 0x6fu8]
}

/// Reads the pairs of the outermost dictionary, from state `s`, up to the
/// first with the key `info`.
pub open spec fn search_info(s: ParserState) -> InfoSearch
    decreases s.data.len() - s.offset,
    when s.wf()
    via search_info_decreases
{
    match drain(s, 1) {
        Err(e) => InfoSearch::Failed(e),
        Ok(s1) => if s1.depth < 1 {
            InfoSearch::Missing(s1.pos())
        } else {
            match step(s1) {
                Err(e) => InfoSearch::Failed(e),
                Ok((t, p, s2)) => match t {
                    Token::End => InfoSearch::Missing(s2.pos()),
                    Token::String(a, b) => match step(s2) {
                        Err(e) => InfoSearch::Failed(e),
                        Ok((t2, p2, s3)) => if t2 is End {
                            InfoSearch::Failed(p2)
                        } else if is_info_key(s.data.subrange(a as int, b as int)) {
                            if t2 is Dict {
                                match drain(s3, 1) {
                                    Ok(s4) => InfoSearch::Found(p2, s4.offset),
                                    Err(e) => InfoSearch::Failed(e),
                                }
                            } else {
                                InfoSearch::NotDict(s3.pos())
                            }
                        } else {
                            search_info(s3)
                        },
                    },
                    _ => InfoSearch::BadKey(p, t),
                },
            }
        },
    }
}

#[via_fn]
proof fn search_info_decreases(s: ParserState) {
    lemma_drain_wf(s, 1);
    if let Ok(s1) = drain(s, 1) {
        lemma_step_wf(s1);
        if let Ok((_, _, s2)) = step(s1) {
            lemma_step_wf(s2);
        }
    }
}

/// Where the `info` dictionary of the torrent file `data` stands.
pub open spec fn torrent_info(data: Seq<u8>) -> InfoSearch {
    match step(ParserState { data, offset: 0, peeked: None, depth: 0 }) {
        Err(e) => InfoSearch::Failed(e),
        Ok((t, p, s1)) => if t is Dict {
            search_info(s1)
        } else {
            InfoSearch::Missing(p)
        },
    }
}

/// The hash that names a torrent: the SHA-1 digest of the exact bytes of the
/// `info` dictionary in its file.
pub fn info_hash(data: &[u8]) -> (r: Result<Sha1Digest>)
    ensures
        match torrent_info(data@) {
            InfoSearch::Found(p, e) => r matches Ok(d) && d.0@ == sha1_of(data@.subrange(p, e)),
            InfoSearch::NotDict(q) => r matches Err(Error::BencodeDecode(x)) && x == q,
            InfoSearch::Missing(q) => r matches Err(Error::BencodeDecode(x)) && x == q,
            InfoSearch::BadKey(p, t) => is_mismatch(r, p, Expected::Bytes, t),
            InfoSearch::Failed(e) => r matches Err(Error::BencodeDecode(x)) && x == e,
        },
{
    let mut parser = BencodeParser::new(data);
    proof {
        lemma_step_wf(parser@);
        lemma_drain_wf(parser@, 0);
    }
    let top = parser.parse()?;
    if let Some(Object::Dict(mut meta)) = top {
        loop
            invariant
                !meta.is_finished(),
                search_info(meta.state()) == torrent_info(data@),
                meta.wf(),
                meta.level() == 1,
                meta.state().data == data@,
            decreases data@.len() - meta.state().offset,
        {
            proof {
                lemma_drain_wf(meta.state(), 1);
                if let Ok(s1) = drain(meta.state(), 1) {
                    lemma_step_wf(s1);
                    if let Ok((_, _, s2)) = step(s1) {
                        lemma_step_wf(s2);
                    }
                }
            }
            match meta.next_pair()? {
                None => {
                    return Err(Error::BencodeDecode(meta.position()));
                },
                Some((name, value)) => {
                    if is_info(name) {
                        return match value {
                            Object::Dict(info) => {
                                proof {
                                    lemma_drain_wf(info.state(), 1);
                                }
                                let raw = info.into_raw_bytes()?;
                                Ok(Sha1Digest::digest(raw))
                            },
                            other => {
                                other.release();
                                Err(Error::BencodeDecode(meta.position()))
                            },
                        };
                    }
                    value.release();
                },
            }
        }
    }
    Err(Error::BencodeDecode(0))
}

/// Whether `name` is the key `info`.
fn is_info(name: &[u8]) -> (r: bool)
    ensures
        r == is_info_key(name@),
{
    if name.len() == 4 && name[0] == 0x69 && name[1] == 0x6e && name[2] == 0x66 && name[3] == 0x6f {
        assert(name@ =~= seq![0x69u8, 0x6eu8, 0x66u8, 0x6fu8]);
        true
    } else {
        false
    }
}

} // verus!
