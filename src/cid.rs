//! Content identifiers.
use vstd::prelude::*;

verus! {

/// A content identifier: version, codec code, multihash code and digest.
#[derive(Clone, Debug, PartialEq, Eq)]
pub struct Cid {
    pub version: u64,
    pub codec: u64,
    pub hash_code: u64,
    pub digest: Vec<u8>,
}

} // verus!

verus! {

/// Multihash code of SHA2-256.
pub const SHA2_256: u64 = 0x12;

/// Multihash code of SHA2-512.
pub const SHA2_512: u64 = 0x13;

/// Codec code of dag-pb, the only codec of a version 0 identifier.
pub const DAG_PB: u64 = 0x70;

impl Cid {
    /// An identifier that can be written out: a known version, a digest that a
    /// multihash can hold, and for version 0 the fixed codec and hash.
    pub open spec fn wf(&self) -> bool {
        &&& self.digest@.len() <= 64
        &&& (self.version == 1 || (self.version == 0 && self.codec == DAG_PB && self.hash_code
            == SHA2_256))
    }

    /// A version 1 identifier.
    pub fn new_v1(codec: u64, hash_code: u64, digest: Vec<u8>) -> (r: Cid)
        ensures
            r.version == 1,
            r.codec == codec,
            r.hash_code == hash_code,
            r.digest@ == digest@,
    {
        Cid { version: 1, codec, hash_code, digest }
    }
}

/// The canonical bytes of an identifier.
pub uninterp spec fn cid_bytes_of(version: u64, codec: u64, hash_code: u64, digest: Seq<u8>) -> Seq<u8>;

/// What the identifier parser reads from bytes: version, codec, hash code and
/// digest, or the message of its error where the bytes are no identifier.
pub uninterp spec fn cid_parsed(b: Seq<u8>) -> Result<(u64, u64, u64, Seq<u8>), Seq<char>>;

/// Relies on cid::Cid::to_bytes (with multihash::Multihash::wrap and
/// cid::Cid::new to build it): the canonical bytes of the identifier, which
/// `TryFrom<&[u8]>` reads back (`write_bytes` and `read_bytes`), except a
/// version 0 identifier whose digest is not 32 bytes.
#[verifier::external_body]
pub(crate) fn cid_to_bytes(c: &Cid) -> (r: Vec<u8>)
    requires
        c.wf(),
    ensures
        r@ == cid_bytes_of(c.version, c.codec, c.hash_code, c.digest@),
        (c.version == 1 || c.digest@.len() == 32) ==> cid_parsed(r@) is Ok && cid_parsed(r@)->Ok_0
            == (c.version, c.codec, c.hash_code, c.digest@),
{
    let hash = multihash::Multihash::wrap(c.hash_code, &c.digest).unwrap();
    let version = cid::Version::try_from(c.version).unwrap();
    cid::Cid::new(version, c.codec, hash).unwrap().to_bytes()
}

/// Relies on `TryFrom<&[u8]>` for cid::Cid: reads an identifier from its
/// canonical bytes, or gives cid::Error's message. What it reads has a known
/// version, a digest of at most 64 bytes, and for version 0 the fixed codec
/// and hash.
#[verifier::external_body]
pub(crate) fn cid_from_bytes(b: &[u8]) -> (r: Result<Cid, String>)
    ensures
        match r {
            Ok(c) => c.wf() && cid_parsed(b@) == Ok::<(u64, u64, u64, Seq<u8>), Seq<char>>(
                (c.version, c.codec, c.hash_code, c.digest@),
            ),
            Err(m) => cid_parsed(b@) == Err::<(u64, u64, u64, Seq<u8>), Seq<char>>(m@),
        },
{
    match cid::Cid::try_from(b) {
        Ok(c) => Ok(Cid {
            version: u64::from(c.version()),
            codec: c.codec(),
            hash_code: c.hash().code(),
            digest: c.hash().digest().to_vec(),
        }),
        Err(e) => Err(e.to_string()),
    }
}

/// The digest that a multihash algorithm gives of some bytes.
pub uninterp spec fn multihash_digest(code: u64, data: Seq<u8>) -> Seq<u8>;

/// Relies on multihash::MultihashDigest::digest for multihash::Code: hashes
/// the bytes with the algorithm of that code (SHA2-256: 32 bytes; SHA2-512: 64).
#[verifier::external_body]
pub(crate) fn digest_with(code: u64, data: &[u8]) -> (r: Vec<u8>)
    requires
        code == SHA2_256 || code == SHA2_512,
    ensures
        r@ == multihash_digest(code, data@),
        code == SHA2_256 ==> r@.len() == 32,
        code == SHA2_512 ==> r@.len() == 64,
{
    let alg = multihash::Code::try_from(code).unwrap();
    multihash::MultihashDigest::digest(&alg, data).digest().to_vec()
}

} // verus!
