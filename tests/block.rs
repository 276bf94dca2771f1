use dag_json::block::{Block, HashAlg, RawBlock, VerifyError};
use dag_json::cid::{Cid, SHA2_256, SHA2_512};
use dag_json::codec::DAG_JSON;
use dag_json::ipld::Ipld;
use multihash::MultihashDigest;

fn s(x: &str) -> String {
    x.to_string()
}

fn dict(entries: Vec<(&str, Ipld)>) -> Ipld {
    let mut m = Vec::new();
    for (k, v) in entries {
        Ipld::insert(&mut m, s(k), v);
    }
    Ipld::Dict(m)
}

fn children_value(link: &Cid) -> Ipld {
    dict(vec![
        (
            "metadata",
            dict(vec![
                ("type", Ipld::String(s("directory"))),
                ("name", Ipld::String(s("folder"))),
                ("size", Ipld::Integer(1)),
            ]),
        ),
        ("children", Ipld::List(vec![Ipld::Link(link.clone())])),
    ])
}

#[test]
fn test_block_from_ipld() {
    let block1 = Block::from_ipld(
        &dict(vec![
            (
                "metadata",
                dict(vec![
                    ("type", Ipld::String(s("file"))),
                    ("name", Ipld::String(s("hello_world.txt"))),
                    ("size", Ipld::Integer(11)),
                ]),
            ),
            ("content", Ipld::String(s("hello world"))),
        ]),
        HashAlg::Sha2_256,
    )
    .unwrap();
    let block2 = Block::from_ipld(&children_value(block1.cid()), HashAlg::Sha2_256).unwrap();
    let block3 = Block::try_from_raw(block2.clone().to_raw(), HashAlg::Sha2_256).unwrap();
    assert_eq!(block2, block3);

    let ipld = block3.ipld().unwrap();
    assert_eq!(ipld, children_value(block1.cid()));
}

#[test]
fn block_cid_names_codec_hash_and_digest() {
    let block = Block::from_ipld(&Ipld::Integer(5), HashAlg::Sha2_256).unwrap();
    assert_eq!(block.data(), &b"5".to_vec());
    let cid = block.cid();
    assert_eq!(cid.version, 1);
    assert_eq!(cid.codec, DAG_JSON);
    assert_eq!(cid.hash_code, SHA2_256);
    let expected = multihash::Code::Sha2_256.digest(b"5");
    assert_eq!(cid.digest, expected.digest().to_vec());
}

#[test]
fn sha2_512_blocks_verify() {
    let block = Block::from_ipld(&Ipld::Bool(true), HashAlg::Sha2_512).unwrap();
    assert_eq!(block.cid().hash_code, SHA2_512);
    assert_eq!(block.cid().digest.len(), 64);
    let again = Block::try_from_raw(block.clone().to_raw(), HashAlg::Sha2_512).unwrap();
    assert_eq!(again, block);
}

#[test]
fn tampered_bytes_fail_digest_check() {
    let block = Block::from_ipld(&Ipld::Integer(5), HashAlg::Sha2_256).unwrap();
    let (cid, _) = block.split();
    let raw = RawBlock::new(cid, b"6".to_vec());
    assert_eq!(
        Block::try_from_raw(raw, HashAlg::Sha2_256),
        Err(VerifyError::DigestMismatch)
    );
}

#[test]
fn other_codec_fails_codec_check() {
    let block = Block::from_ipld(&Ipld::Integer(5), HashAlg::Sha2_256).unwrap();
    let (mut cid, data) = block.split();
    cid.codec = 0x71;
    assert_eq!(
        Block::try_from_raw(RawBlock::new(cid, data), HashAlg::Sha2_256),
        Err(VerifyError::CodecMismatch)
    );
}

#[test]
fn other_hash_fails_hash_check() {
    let block = Block::from_ipld(&Ipld::Integer(5), HashAlg::Sha2_256).unwrap();
    let raw = block.to_raw();
    assert_eq!(
        Block::try_from_raw(raw, HashAlg::Sha2_512),
        Err(VerifyError::HashMismatch)
    );
}

#[test]
fn raw_block_parts() {
    let c = Cid { version: 1, codec: DAG_JSON, hash_code: SHA2_256, digest: vec![1, 2] };
    let raw = RawBlock::new(c.clone(), vec![9]);
    assert_eq!(raw.cid(), &c);
    assert_eq!(raw.data(), &vec![9]);
    assert_eq!(raw.into(), (c, vec![9]));
}
