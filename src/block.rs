//! Blocks: a content identifier paired with the bytes it names.
use vstd::prelude::*;
use crate::cid::{Cid, digest_with, multihash_digest, SHA2_256, SHA2_512};
use crate::codec::{
    DAG_JSON, DecodeError, EncodeError, decode, decode_error, decodes_to, encode, encode_error,
    encode_value, json_parsed, links_read_back,
};
use crate::ipld::Ipld;

verus! {

/// An identifier and bytes, taken as they come.
#[derive(Clone, Debug, PartialEq, Eq)]
pub struct RawBlock {
    cid: Cid,
    data: Vec<u8>,
}

impl RawBlock {
    pub closed spec fn cid_spec(&self) -> Cid {
        self.cid
    }

    pub closed spec fn data_spec(&self) -> Seq<u8> {
        self.data@
    }

    /// Pairs an identifier with bytes.
    pub fn new(cid: Cid, data: Vec<u8>) -> (r: RawBlock)
        ensures
            r.cid_spec() == cid,
            r.data_spec() == data@,
    {
        RawBlock { cid, data }
    }

    /// The identifier.
    pub fn cid(&self) -> (r: &Cid)
        ensures
            *r == self.cid_spec(),
    {
        &self.cid
    }

    /// The bytes.
    pub fn data(&self) -> (r: &Vec<u8>)
        ensures
            r@ == self.data_spec(),
    {
        &self.data
    }

    /// Takes the block apart.
    pub fn into(self) -> (r: (Cid, Vec<u8>))
        ensures
            r.0 == self.cid_spec(),
            r.1@ == self.data_spec(),
    {
        (self.cid, self.data)
    }
}

/// A multihash algorithm that blocks can be hashed with.
#[derive(Clone, Copy, Debug, PartialEq, Eq, Structural)]
pub enum HashAlg {
    Sha2_256,
    Sha2_512,
}

impl HashAlg {
    pub open spec fn spec_code(self) -> u64 {
        match self {
            HashAlg::Sha2_256 => SHA2_256,
            HashAlg::Sha2_512 => SHA2_512,
        }
    }

    /// The algorithm's multihash code.
    #[verifier::when_used_as_spec(spec_code)]
    pub fn code(self) -> (r: u64)
        ensures
            r == self.spec_code(),
    {
        match self {
            HashAlg::Sha2_256 => SHA2_256,
            HashAlg::Sha2_512 => SHA2_512,
        }
    }
}

/// Why an identifier and bytes do not make a block.
#[derive(Clone, Debug, PartialEq, Eq)]
pub enum VerifyError {
    /// The identifier names another codec than DAG-JSON.
    CodecMismatch,
    /// The identifier names another hash algorithm.
    HashMismatch,
    /// The identifier's digest is not the digest of the bytes.
    DigestMismatch,
}

/// The first check, in the order codec, hash, digest, that an identifier
/// with these parts and some bytes fail as a DAG-JSON block hashed with `h`.
pub open spec fn verify_error(codec: u64, hash_code: u64, digest: Seq<u8>, data: Seq<u8>, h: HashAlg) -> Option<VerifyError> {
    if codec != DAG_JSON {
        Some(VerifyError::CodecMismatch)
    } else if hash_code != h.code() {
        Some(VerifyError::HashMismatch)
    } else if digest != multihash_digest(h.code(), data) {
        Some(VerifyError::DigestMismatch)
    } else {
        None
    }
}

/// A DAG-JSON block hashed with a known algorithm: its identifier names
/// DAG-JSON and that algorithm, and holds the digest of its bytes.
#[derive(Debug, PartialEq, Eq)]
pub struct Block {
    raw: RawBlock,
    hash: HashAlg,
}

impl Block {
    #[verifier::type_invariant]
    spec fn verified(self) -> bool {
        verify_error(self.raw.cid.codec, self.raw.cid.hash_code, self.raw.cid.digest@, self.raw.data@, self.hash) is None
    }

    pub closed spec fn raw_spec(&self) -> RawBlock {
        self.raw
    }

    pub closed spec fn hash_spec(&self) -> HashAlg {
        self.hash
    }

    /// What every block holds: its identifier names DAG-JSON and its hash
    /// algorithm, and its digest is that of its bytes.
    pub open spec fn holds_checks(&self) -> bool {
        verify_error(
            self.raw_spec().cid_spec().codec,
            self.raw_spec().cid_spec().hash_code,
            self.raw_spec().cid_spec().digest@,
            self.raw_spec().data_spec(),
            self.hash_spec(),
        ) is None
    }

    /// Encodes a value and names the bytes by a fresh version 1 identifier.
    /// Fails only where the value cannot be encoded.
    pub fn from_ipld(ipld: &Ipld, hash: HashAlg) -> (r: Result<Block, EncodeError>)
        ensures
            match r {
                Ok(b) => {
                    &&& encode_error(*ipld) is None
                    &&& links_read_back(*ipld)
                    &&& b.raw_spec().data_spec() == encode_value(*ipld)
                    &&& b.raw_spec().cid_spec().version == 1
                    &&& b.raw_spec().cid_spec().codec == DAG_JSON
                    &&& b.raw_spec().cid_spec().hash_code == hash.code()
                    &&& b.raw_spec().cid_spec().digest@ == multihash_digest(hash.code(), encode_value(*ipld))
                    &&& b.hash_spec() == hash
                },
                Err(e) => encode_error(*ipld) == Some(e),
            },
    {
        let data = encode(ipld)?;
        let digest = digest_with(hash.code(), data.as_slice());
        let cid = Cid::new_v1(DAG_JSON, hash.code(), digest);
        Ok(Block { raw: RawBlock { cid, data }, hash })
    }

    /// Makes a block of an identifier and bytes from elsewhere, after checking
    /// the codec, the hash algorithm and the digest, in that order.
    pub fn try_from_raw(raw: RawBlock, hash: HashAlg) -> (r: Result<Block, VerifyError>)
        ensures
            match r {
                Ok(b) => verify_error(raw.cid_spec().codec, raw.cid_spec().hash_code, raw.cid_spec().digest@, raw.data_spec(), hash) is None
                    && b.raw_spec() == raw && b.hash_spec() == hash,
                Err(e) => verify_error(raw.cid_spec().codec, raw.cid_spec().hash_code, raw.cid_spec().digest@, raw.data_spec(), hash) == Some(e),
            },
    {
        if raw.cid.codec != DAG_JSON {
            return Err(VerifyError::CodecMismatch);
        }
        if raw.cid.hash_code != hash.code() {
            return Err(VerifyError::HashMismatch);
        }
        let digest = digest_with(hash.code(), raw.data.as_slice());
        if !bytes_eq(digest.as_slice(), raw.cid.digest.as_slice()) {
            return Err(VerifyError::DigestMismatch);
        }
        Ok(Block { raw, hash })
    }

    /// The identifier and bytes.
    pub fn raw(&self) -> (r: &RawBlock)
        ensures
            *r == self.raw_spec(),
            self.holds_checks(),
    {
        proof {
            use_type_invariant(self);
        }
        &self.raw
    }

    /// The identifier.
    pub fn cid(&self) -> (r: &Cid)
        ensures
            *r == self.raw_spec().cid_spec(),
            self.holds_checks(),
    {
        proof {
            use_type_invariant(self);
        }
        &self.raw.cid
    }

    /// The bytes.
    pub fn data(&self) -> (r: &Vec<u8>)
        ensures
            r@ == self.raw_spec().data_spec(),
            self.holds_checks(),
    {
        proof {
            use_type_invariant(self);
        }
        &self.raw.data
    }

    /// The algorithm the block is hashed with.
    pub fn hash(&self) -> (r: HashAlg)
        ensures
            r == self.hash_spec(),
    {
        self.hash
    }

    /// Takes the block apart.
    pub fn split(self) -> (r: (Cid, Vec<u8>))
        ensures
            r.0 == self.raw_spec().cid_spec(),
            r.1@ == self.raw_spec().data_spec(),
    {
        (self.raw.cid, self.raw.data)
    }

    /// Gives up the checked status: the identifier and bytes alone.
    pub fn to_raw(self) -> (r: RawBlock)
        ensures
            r == self.raw_spec(),
            verify_error(r.cid_spec().codec, r.cid_spec().hash_code, r.cid_spec().digest@, r.data_spec(), self.hash_spec()) is None,
    {
        proof {
            use_type_invariant(&self);
        }
        self.raw
    }

    /// Decodes the block's bytes.
    pub fn ipld(&self) -> (r: Result<Ipld, DecodeError>)
        ensures
            match json_parsed(self.raw_spec().data_spec()) {
                Err((line, column)) => r == Err::<Ipld, DecodeError>(
                    DecodeError::Syntax { line, column },
                ),
                Ok(j) => match r {
                    Ok(v) => decode_error(j) is None && decodes_to(j, v),
                    Err(e) => decode_error(j) == Some(e@),
                },
            },
    {
        decode(self.raw.data.as_slice())
    }
}

impl Clone for Block {
    fn clone(&self) -> (r: Block)
        ensures
            r.hash_spec() == self.hash_spec(),
            r.raw_spec().cid_spec().version == self.raw_spec().cid_spec().version,
            r.raw_spec().cid_spec().codec == self.raw_spec().cid_spec().codec,
            r.raw_spec().cid_spec().hash_code == self.raw_spec().cid_spec().hash_code,
            r.raw_spec().cid_spec().digest@ == self.raw_spec().cid_spec().digest@,
            r.raw_spec().data_spec() == self.raw_spec().data_spec(),
    {
        proof {
            use_type_invariant(self);
        }
        let c = &self.raw.cid;
        let cid = Cid {
            version: c.version,
            codec: c.codec,
            hash_code: c.hash_code,
            digest: copy_bytes(&c.digest),
        };
        Block { raw: RawBlock { cid, data: copy_bytes(&self.raw.data) }, hash: self.hash }
    }
}

fn copy_bytes(v: &Vec<u8>) -> (r: Vec<u8>)
    ensures
        r@ == v@,
{
    let mut r: Vec<u8> = Vec::new();
    let mut i: usize = 0;
    while i < v.len()
        invariant
            0 <= i <= v@.len(),
            r@ == v@.subrange(0, i as int),
        decreases v@.len() - i,
    {
        r.push(v[i]);
        i = i + 1;
        assert(r@ =~= v@.subrange(0, i as int));
    }
    assert(r@ =~= v@);
    r
}

fn bytes_eq(a: &[u8], b: &[u8]) -> (r: bool)
    ensures
        r == (a@ == b@),
{
    if a.len() != b.len() {
        return false;
    }
    let mut i: usize = 0;
    while i < a.len()
        invariant
            0 <= i <= a@.len(),
            a@.len() == b@.len(),
            a@.subrange(0, i as int) == b@.subrange(0, i as int),
        decreases a@.len() - i,
    {
        if a[i] != b[i] {
            assert(a@[i as int] != b@[i as int]);
            return false;
        }
        i = i + 1;
        assert(a@.subrange(0, i as int) =~= b@.subrange(0, i as int)) by {
            assert(a@.subrange(0, i as int) =~= a@.subrange(0, i - 1).push(a@[i - 1]));
            assert(b@.subrange(0, i as int) =~= b@.subrange(0, i - 1).push(b@[i - 1]));
        }
    }
    assert(a@ =~= a@.subrange(0, i as int));
    assert(b@ =~= b@.subrange(0, i as int));
    true
}

} // verus!

verus! {

/// A block built from an encodable value passes every check that a block
/// built from its identifier and bytes is held to.
pub proof fn lemma_block_from_value_verifies(v: Ipld, h: HashAlg)
    requires
        encode_error(v) is None,
    ensures
        verify_error(DAG_JSON, h.code(), multihash_digest(h.code(), encode_value(v)), encode_value(v), h) is None,
{
}

} // verus!
