//! Content identifiers, held in their binary form.

use vstd::prelude::*;

verus! {

/// The codec number of DAG-CBOR blocks.
pub const DAG_CBOR: u64 = 0x71;

/// The multihash number of BLAKE2b with a 256-bit digest.
pub const BLAKE2B_256: u64 = 0xb220;

/// The number of bytes in a 256-bit digest.
pub const DIGEST_LEN: usize = 32;

/// The most bytes a digest inside an identifier may have.
pub const MAX_DIGEST_LEN: usize = 64;

/// The binary form of the identifier that `bytes` begins with, or `None` where
/// `bytes` begins with none. What follows the identifier is not looked at.
pub uninterp spec fn cid_prefix(bytes: Seq<u8>) -> Option<Seq<u8>>;

/// A number as an unsigned varint: seven bits to a byte, the lowest first,
/// with the high bit set in every byte but the last.
pub open spec fn varint(n: nat) -> Seq<u8>
    decreases n,
{
    if n < 128 {
        seq![n as u8]
    } else {
        seq![(n % 128 + 128) as u8] + varint(n / 128)
    }
}

/// The binary form of the version 1 identifier with this codec and a multihash
/// made of `hash_code` and `digest`: the version, the codec, the hash code and
/// the length of the digest, each as a varint, and then the digest.
pub open spec fn cid_v1_bytes(codec: u64, hash_code: u64, digest: Seq<u8>) -> Seq<u8> {
    varint(1) + varint(codec as nat) + varint(hash_code as nat) + varint(digest.len()) + digest
}

/// The BLAKE2b digest of `data`, `len` bytes long.
pub uninterp spec fn blake2b_digest(len: usize, data: Seq<u8>) -> Seq<u8>;

/// The binary form of the identifier of a DAG-CBOR block that holds `data`.
pub open spec fn block_cid(data: Seq<u8>) -> Seq<u8> {
    cid_v1_bytes(DAG_CBOR, BLAKE2B_256, blake2b_digest(DIGEST_LEN, data))
}

/// `bytes` is the binary form of an identifier, with nothing behind it.
pub open spec fn is_cid(bytes: Seq<u8>) -> bool {
    cid_prefix(bytes) == Some(bytes)
}

/// Reads an identifier with `Cid::read_bytes` of the `cid` crate and writes it
/// back with `Cid::to_bytes`. The result is named by `cid_prefix`; read once
/// more, what was written back gives itself.
#[verifier::external_body]
fn read_prefix(bytes: &[u8]) -> (r: Option<Vec<u8>>)
    ensures
        r is None <==> cid_prefix(bytes@) is None,
        r matches Some(c) ==> cid_prefix(bytes@) == Some(c@) && is_cid(c@),
{
    match cid::Cid::read_bytes(bytes) {
        Ok(c) => Some(c.to_bytes()),
        Err(_) => None,
    }
}

/// Wraps a digest with `Multihash::wrap`, makes a version 1 identifier of it with
/// `Cid::new_v1` and writes it with `Cid::to_bytes`. The result is what
/// `cid_v1_bytes` spells out; read by `Cid::read_bytes`, it gives itself.
#[verifier::external_body]
fn write_v1(codec: u64, hash_code: u64, digest: &[u8]) -> (r: Vec<u8>)
    requires
        digest@.len() <= MAX_DIGEST_LEN,
    ensures
        r@ == cid_v1_bytes(codec, hash_code, digest@),
        is_cid(r@),
{
    match cid::multihash::Multihash::<64>::wrap(hash_code, digest) {
        Ok(hash) => cid::Cid::new_v1(codec, hash).to_bytes(),
        Err(_) => Vec::new(),
    }
}

/// Hashes with `Params::hash` of the `blake2b_simd` crate, at the digest length
/// set by `Params::hash_length`. The digest has that length.
#[verifier::external_body]
fn blake2b(len: usize, data: &[u8]) -> (r: Vec<u8>)
    requires
        1 <= len <= MAX_DIGEST_LEN,
    ensures
        r@ == blake2b_digest(len, data@),
        r@.len() == len,
{
    blake2b_simd::Params::new().hash_length(len).hash(data).as_bytes().to_vec()
}

/// A content identifier.
#[derive(Debug, PartialEq, Eq, PartialOrd, Ord, Hash)]
pub struct Cid {
    bytes: Vec<u8>,
}

impl View for Cid {
    type V = Seq<u8>;

    /// The binary form of the identifier.
    closed spec fn view(&self) -> Seq<u8> {
        self.bytes@
    }
}

impl Clone for Cid {
    fn clone(&self) -> (r: Self)
        ensures
            r@ == self@,
    {
        Cid { bytes: self.bytes.clone() }
    }
}

impl Cid {
    /// The bytes held are the binary form of an identifier.
    pub open spec fn wf(&self) -> bool {
        is_cid(self@)
    }

    /// The identifier that `bytes` begins with.
    pub fn read_bytes(bytes: &[u8]) -> (r: Option<Cid>)
        ensures
            r is Some <==> cid_prefix(bytes@) is Some,
            r matches Some(c) ==> Some(c@) == cid_prefix(bytes@) && c.wf(),
    {
        match read_prefix(bytes) {
            Some(c) => Some(Cid { bytes: c }),
            None => None,
        }
    }

    /// The identifier with this binary form.
    pub(crate) fn from_canonical(bytes: Vec<u8>) -> (r: Cid)
        requires
            is_cid(bytes@),
        ensures
            r@ == bytes@,
            r.wf(),
    {
        Cid { bytes }
    }

    /// The identifier of a DAG-CBOR block that holds `data`.
    pub fn of_block(data: &[u8]) -> (r: Cid)
        ensures
            r@ == block_cid(data@),
            r.wf(),
    {
        let digest = blake2b(DIGEST_LEN, data);
        Cid { bytes: write_v1(DAG_CBOR, BLAKE2B_256, digest.as_slice()) }
    }

    /// The binary form.
    pub fn to_bytes(&self) -> (r: Vec<u8>)
        ensures
            r@ == self@,
    {
        self.bytes.clone()
    }

    /// The binary form, borrowed.
    pub fn as_bytes(&self) -> (r: &[u8])
        ensures
            r@ == self@,
    {
        self.bytes.as_slice()
    }

    /// Whether two identifiers are the same.
    pub fn same(&self, other: &Cid) -> (r: bool)
        ensures
            r == (self@ == other@),
    {
        bytes_eq(self.bytes.as_slice(), other.bytes.as_slice())
    }
}

/// Whether two byte strings are equal.
pub fn bytes_eq(a: &[u8], b: &[u8]) -> (r: bool)
    ensures
        r == (a@ == b@),
{
    if a.len() != b.len() {
        return false;
    }
    let mut i: usize = 0;
    while i < a.len()
        invariant
            i <= a@.len(),
            a@.len() == b@.len(),
            a@.subrange(0, i as int) == b@.subrange(0, i as int),
        decreases a@.len() - i,
    {
        if a[i] != b[i] {
            return false;
        }
        proof {
            assert(a@.subrange(0, i + 1) =~= a@.subrange(0, i as int).push(a@[i as int]));
            assert(b@.subrange(0, i + 1) =~= b@.subrange(0, i as int).push(b@[i as int]));
        }
        i += 1;
    }
    proof {
        assert(a@ =~= a@.subrange(0, i as int));
        assert(b@ =~= b@.subrange(0, i as int));
    }
    true
}

} // verus!
