//! The two fingerprinting strategies. The fast strategy hashes a file's
//! name, modified time and size without reading its content. The checksum
//! strategy hashes part of the content: for files larger than 2048 bytes the
//! first and the last 1024 bytes together with the little-endian encoding of
//! the length, and for smaller files the whole content. Equal fingerprints
//! mean "possibly identical", not proven byte-equality: the partial read is
//! a deliberate trade of certainty for speed.

use vstd::prelude::*;
use vstd::bytes::{spec_u64_to_le_bytes, spec_u64_to_le_bytes_open, spec_u64_to_le_bytes_to_open};
use std::hash::{Hash, Hasher};

verus! {

/// The fields the fast strategy hashes.
#[derive(Hash, Debug, Clone)]
pub struct FileMetaData {
    pub file_name: String,
    pub modified_date: u64,
    pub file_size: u64,
}

/// What hashing a file's name, modified time and size with `FxHasher64`
/// gives. The result depends on the three fields alone on any one machine
/// (the hasher consumes its input in native byte order); a fast fingerprint
/// never leaves the run that computed it, so nothing more is relied on.
pub uninterp spec fn meta_hash_of(name: Seq<char>, modified: u64, size: u64) -> u64;

/// Relies on fxhash::FxHasher64: an unseeded hasher, so the digest of the
/// three fields depends on their values alone.
#[verifier::external_body]
fn fx_hash_meta(m: &FileMetaData) -> (r: u64)
    ensures
        r == meta_hash_of(m.file_name@, m.modified_date, m.file_size),
{
    let mut hasher = fxhash::FxHasher64::default();
    m.hash(&mut hasher);
    hasher.finish()
}

/// What `md5::compute` gives: a 16-byte digest depending on the input bytes
/// alone.
pub uninterp spec fn md5_digest_of(data: Seq<u8>) -> Seq<u8>;

/// Relies on md5::compute: a 128-bit digest of the handed bytes.
#[verifier::external_body]
fn md5_digest(data: &Vec<u8>) -> (r: Vec<u8>)
    ensures
        r@ == md5_digest_of(data@),
        r@.len() == 16,
{
    md5::compute(data.as_slice()).0.to_vec()
}

/// How the checksum strategy reads a file of a given size: small files
/// whole, larger ones by their front and back blocks.
#[derive(Clone, Copy, Debug, PartialEq, Eq, Structural)]
pub enum ReadPlan {
    WholeFile,
    FrontBack,
}

/// The block the checksum strategy reads from each end of a large file,
/// in bytes.
pub const PARTIAL_BLOCK: usize = 1024;

/// Files of at most this many bytes are hashed whole by the checksum
/// strategy.
pub const WHOLE_FILE_LIMIT: u64 = 2048;

/// Decides how the checksum strategy reads a file: a file of at most 2048
/// bytes is read and hashed whole, a larger one by its first and last 1024
/// bytes.
pub fn content_plan(size: u64) -> (r: ReadPlan)
    ensures
        r is WholeFile <==> size <= WHOLE_FILE_LIMIT,
{
    if size <= WHOLE_FILE_LIMIT {
        ReadPlan::WholeFile
    } else {
        ReadPlan::FrontBack
    }
}

/// The content handed to the checksum strategy, read as its plan asks.
#[derive(Debug, Clone)]
pub enum FileContent {
    Whole(Vec<u8>),
    FrontBack { front: Vec<u8>, back: Vec<u8> },
}

/// Whether a content value matches the read plan of its size: whole content
/// for a small file, two full blocks for a large one.
pub open spec fn spec_content_wf(size: u64, c: FileContent) -> bool {
    match c {
        FileContent::Whole(data) => size <= WHOLE_FILE_LIMIT && data@.len() == size,
        FileContent::FrontBack { front, back } => size > WHOLE_FILE_LIMIT && front@.len()
            == PARTIAL_BLOCK && back@.len() == PARTIAL_BLOCK,
    }
}

/// The bytes the checksum strategy hashes: the whole content of a small
/// file, or front block, back block and the little-endian length of a large
/// one.
pub open spec fn spec_payload(size: u64, c: FileContent) -> Seq<u8> {
    match c {
        FileContent::Whole(data) => data@,
        FileContent::FrontBack { front, back } => front@ + back@ + spec_u64_to_le_bytes(size),
    }
}

/// The digest bytes read as one big-endian unsigned number, which gives the
/// fingerprints a total order.
pub open spec fn spec_u128_of_digest(s: Seq<u8>) -> int
    decreases s.len(),
{
    if s.len() == 0 {
        0
    } else {
        spec_u128_of_digest(s.drop_last()) * 256 + s.last()
    }
}

/// 256 to the power `n`.
pub open spec fn pow256(n: nat) -> int
    decreases n,
{
    if n == 0 {
        1
    } else {
        256 * pow256((n - 1) as nat)
    }
}

pub proof fn lemma_u128_of_digest_bound(s: Seq<u8>)
    ensures
        0 <= spec_u128_of_digest(s) < pow256(s.len()),
    decreases s.len(),
{
    if s.len() > 0 {
        lemma_u128_of_digest_bound(s.drop_last());
    }
}

/// The little-endian bytes of a 64-bit number.
pub fn u64_le_bytes(x: u64) -> (r: Vec<u8>)
    ensures
        r@ == spec_u64_to_le_bytes(x),
{
    proof {
        spec_u64_to_le_bytes_to_open(x);
        assert(((x >> 0) & 0xff < 256) && ((x >> 8) & 0xff < 256) && ((x >> 16) & 0xff < 256) && (
        (x >> 24) & 0xff < 256) && ((x >> 32) & 0xff < 256) && ((x >> 40) & 0xff < 256) && ((x
            >> 48) & 0xff < 256) && ((x >> 56) & 0xff < 256)) by (bit_vector);
    }
    let mut r: Vec<u8> = Vec::new();
    r.push((x & 0xff) as u8);
    r.push(((x >> 8) & 0xff) as u8);
    r.push(((x >> 16) & 0xff) as u8);
    r.push(((x >> 24) & 0xff) as u8);
    r.push(((x >> 32) & 0xff) as u8);
    r.push(((x >> 40) & 0xff) as u8);
    r.push(((x >> 48) & 0xff) as u8);
    r.push(((x >> 56) & 0xff) as u8);
    proof {
        assert(r@ =~= spec_u64_to_le_bytes_open(x));
    }
    r
}

/// Reads a 16-byte digest as a big-endian `u128`.
fn digest_to_u128(d: &Vec<u8>) -> (r: u128)
    requires
        d@.len() == 16,
    ensures
        r as int == spec_u128_of_digest(d@),
{
    let mut r: u128 = 0;
    let mut i: usize = 0;
    proof {
        assert(d@.subrange(0, 0) =~= Seq::<u8>::empty());
        reveal_with_fuel(pow256, 17);
    }
    while i < 16
        invariant
            0 <= i <= 16,
            d@.len() == 16,
            r as int == spec_u128_of_digest(d@.subrange(0, i as int)),
            (r as int) < pow256(i as nat),
            pow256(16) == 0x1_0000_0000_0000_0000_0000_0000_0000_0000,
            forall|n: nat| #![trigger pow256(n)] n < 16 ==> pow256(n) <= pow256(15),
        decreases 16 - i,
    {
        proof {
            let pre = d@.subrange(0, i as int);
            let post = d@.subrange(0, i + 1);
            assert(post.drop_last() =~= pre);
            assert(pow256(15) * 256 == pow256(16));
            lemma_u128_of_digest_bound(pre);
        }
        r = r * 256 + (d[i] as u128);
        i = i + 1;
    }
    proof {
        assert(d@.subrange(0, 16) =~= d@);
    }
    r
}

/// The fingerprint of the fast strategy: the metadata hash, widened to the
/// shared fingerprint type.
pub open spec fn spec_fast_fingerprint(m: FileMetaData) -> u128 {
    meta_hash_of(m.file_name@, m.modified_date, m.file_size) as u128
}

/// Fingerprints a file from its metadata alone.
pub fn fast_fingerprint(m: &FileMetaData) -> (r: u128)
    ensures
        r == spec_fast_fingerprint(*m),
{
    fx_hash_meta(m) as u128
}

/// The fingerprint of the checksum strategy: the md5 digest of the payload,
/// read as one number.
pub open spec fn spec_checksum_fingerprint(size: u64, c: FileContent) -> int {
    spec_u128_of_digest(md5_digest_of(spec_payload(size, c)))
}

/// Files whose checksum strategy hashed the same bytes get the same
/// fingerprint: byte-identical content of one length is always grouped
/// together. (Distinct content giving distinct fingerprints is the digest's
/// affair and is never promised.)
pub proof fn lemma_equal_payload_equal_fingerprint(size: u64, c1: FileContent, c2: FileContent)
    requires
        spec_payload(size, c1) == spec_payload(size, c2),
    ensures
        spec_checksum_fingerprint(size, c1) == spec_checksum_fingerprint(size, c2),
{
}

/// Fingerprints a file from its partially read content and exact length.
pub fn checksum_fingerprint(size: u64, content: &FileContent) -> (r: u128)
    requires
        spec_content_wf(size, *content),
    ensures
        r as int == spec_checksum_fingerprint(size, *content),
{
    let digest = match content {
        FileContent::Whole(data) => md5_digest(data),
        FileContent::FrontBack { front, back } => {
            let mut payload: Vec<u8> = Vec::new();
            payload.extend_from_slice(front.as_slice());
            payload.extend_from_slice(back.as_slice());
            let mut len_bytes = u64_le_bytes(size);
            payload.append(&mut len_bytes);
            proof {
                assert(payload@ =~= front@ + back@ + spec_u64_to_le_bytes(size));
            }
            md5_digest(&payload)
        },
    };
    digest_to_u128(&digest)
}

/// One file offered to the hunt: its path together with what its strategy
/// read about it.
#[derive(Debug, Clone)]
pub enum FileInput {
    /// The fast strategy: name, modified time and size were read.
    Fast { path: String, meta: FileMetaData },
    /// The checksum strategy: the exact length and part of the content were
    /// read.
    Checksum { path: String, size: u64, content: FileContent },
}

impl FileInput {
    /// Whether the carried content matches its size's read plan. The fast
    /// strategy carries no content and is always well formed.
    pub open spec fn wf(self) -> bool {
        match self {
            FileInput::Fast { .. } => true,
            FileInput::Checksum { size, ref content, .. } => spec_content_wf(size, *content),
        }
    }

    /// The path of the file.
    pub open spec fn spec_path(self) -> Seq<char> {
        match self {
            FileInput::Fast { path, .. } => path@,
            FileInput::Checksum { path, .. } => path@,
        }
    }

    /// The declared size of the file's bucket: the metadata size under the
    /// fast strategy, the exact length under the checksum strategy.
    pub open spec fn spec_size(self) -> u64 {
        match self {
            FileInput::Fast { meta, .. } => meta.file_size,
            FileInput::Checksum { size, .. } => size,
        }
    }

    /// The fingerprint its strategy assigns.
    pub open spec fn spec_fingerprint(self) -> int {
        match self {
            FileInput::Fast { meta, .. } => spec_fast_fingerprint(meta) as int,
            FileInput::Checksum { size, ref content, .. } => spec_checksum_fingerprint(
                size,
                *content,
            ),
        }
    }
}

/// Fingerprints one file with the strategy its input carries.
pub fn fingerprint_input(inp: &FileInput) -> (r: u128)
    requires
        inp.wf(),
    ensures
        r as int == inp.spec_fingerprint(),
{
    match inp {
        FileInput::Fast { meta, .. } => fast_fingerprint(meta),
        FileInput::Checksum { size, content, .. } => checksum_fingerprint(*size, content),
    }
}

} // verus!
