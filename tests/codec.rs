use dag_json::block::{Block, HashAlg};
use dag_json::cid::{Cid, DAG_PB, SHA2_256};
use dag_json::codec::{decode, encode, DecodeError, EncodeError};
use dag_json::ipld::Ipld;
use multihash::MultihashDigest;

fn v0_cid(data: &[u8]) -> (Cid, Vec<u8>) {
    let hash = multihash::Code::Sha2_256.digest(data);
    let bytes = cid::Cid::new_v0(hash).unwrap().to_bytes();
    let cid = Cid {
        version: 0,
        codec: DAG_PB,
        hash_code: SHA2_256,
        digest: hash.digest().to_vec(),
    };
    (cid, bytes)
}

fn s(x: &str) -> String {
    x.to_string()
}

#[test]
fn encode_struct() {
    let (cid, cid_bytes) = v0_cid(b"block");

    let mut map = Vec::new();
    Ipld::insert(&mut map, s("name"), Ipld::String(s("Hello World!")));
    Ipld::insert(&mut map, s("details"), Ipld::Link(cid.clone()));
    let contact = Ipld::Dict(map);

    let contact_encoded = encode(&contact).unwrap();
    assert_eq!(
        std::str::from_utf8(&contact_encoded).unwrap(),
        format!(
            r#"{{"details":{{"/":"{}"}},"name":"Hello World!"}}"#,
            base64::encode(cid_bytes),
        )
    );

    let contact_decoded: Ipld = decode(&contact_encoded).unwrap();
    assert_eq!(contact_decoded, contact);
}

#[test]
fn decode_invalid() {
    let input = r#"{ "/": "invalidcid" }"#;
    decode(input.as_bytes()).unwrap_err();
}

#[test]
fn invalid_base64_link_is_encoding_error() {
    let input = r#"{ "/": "invalidcid" }"#;
    match decode(input.as_bytes()) {
        Err(DecodeError::InvalidLinkEncoding { link, cause }) => {
            assert_eq!(link, s("invalidcid"));
            assert!(!cause.is_empty());
        }
        other => panic!("unexpected {:?}", other),
    }
}

#[test]
fn valid_base64_that_is_no_cid_is_identifier_error() {
    let text = base64::encode([0xffu8, 0xff, 0xff]);
    let input = format!(r#"{{"/":"{}"}}"#, text);
    match decode(input.as_bytes()) {
        Err(DecodeError::InvalidLinkIdentifier { link, cause }) => {
            assert_eq!(link, text);
            assert!(!cause.is_empty());
        }
        other => panic!("unexpected {:?}", other),
    }
}

#[test]
fn slash_key_with_other_keys_is_a_map() {
    let (_, cid_bytes) = v0_cid(b"block");
    let input = format!(r#"{{"/":"{}","x":1}}"#, base64::encode(&cid_bytes));
    let v = decode(input.as_bytes()).unwrap();
    let mut expected = Vec::new();
    Ipld::insert(&mut expected, s("/"), Ipld::String(base64::encode(&cid_bytes)));
    Ipld::insert(&mut expected, s("x"), Ipld::Integer(1));
    assert_eq!(v, Ipld::Dict(expected));
}

#[test]
fn slash_key_with_non_string_value_is_a_map() {
    let v = decode(br#"{"/":5}"#).unwrap();
    assert_eq!(v, Ipld::Dict(vec![(s("/"), Ipld::Integer(5))]));
}

#[test]
fn empty_object_is_an_empty_map() {
    assert_eq!(decode(b"{}").unwrap(), Ipld::Dict(vec![]));
}

#[test]
fn single_slash_entry_decodes_as_link() {
    let (cid, cid_bytes) = v0_cid(b"hello");
    let input = format!(r#"{{"/":"{}"}}"#, base64::encode(&cid_bytes));
    assert_eq!(decode(input.as_bytes()).unwrap(), Ipld::Link(cid));
}

#[test]
fn scalars_round_trip() {
    let values = vec![
        Ipld::Null,
        Ipld::Bool(true),
        Ipld::Bool(false),
        Ipld::Integer(0),
        Ipld::Integer(-42),
        Ipld::Integer(i128::MAX),
        Ipld::Integer(i128::MIN),
        Ipld::Float(s("1.5")),
        Ipld::Float(s("-2.5e+10")),
        Ipld::Float(s("3e-7")),
        Ipld::String(s("quote \" and \\ and \n")),
    ];
    for v in values {
        let bytes = encode(&v).unwrap();
        assert_eq!(decode(&bytes).unwrap(), v);
    }
}

#[test]
fn nested_value_round_trips() {
    let (cid, _) = v0_cid(b"nested");
    let mut inner = Vec::new();
    Ipld::insert(&mut inner, s("b"), Ipld::List(vec![Ipld::Integer(1), Ipld::Null]));
    Ipld::insert(&mut inner, s("a"), Ipld::Link(cid));
    let v = Ipld::List(vec![Ipld::Dict(inner), Ipld::List(vec![]), Ipld::String(s("x"))]);
    let bytes = encode(&v).unwrap();
    assert_eq!(decode(&bytes).unwrap(), v);
}

#[test]
fn bytes_come_back_as_base64_string() {
    let v = Ipld::Bytes(vec![1, 2, 3, 255]);
    let bytes = encode(&v).unwrap();
    assert_eq!(std::str::from_utf8(&bytes).unwrap(), "\"AQID/w==\"");
    assert_eq!(decode(&bytes).unwrap(), Ipld::String(s("AQID/w==")));
}

#[test]
fn exact_encodings() {
    assert_eq!(encode(&Ipld::Null).unwrap(), b"null".to_vec());
    assert_eq!(encode(&Ipld::Bool(true)).unwrap(), b"true".to_vec());
    assert_eq!(encode(&Ipld::Bool(false)).unwrap(), b"false".to_vec());
    assert_eq!(encode(&Ipld::Integer(-1207)).unwrap(), b"-1207".to_vec());
    assert_eq!(
        encode(&Ipld::Integer(i128::MIN)).unwrap(),
        b"-170141183460469231731687303715884105728".to_vec()
    );
    assert_eq!(encode(&Ipld::String(s("a\"b"))).unwrap(), b"\"a\\\"b\"".to_vec());
    assert_eq!(
        encode(&Ipld::List(vec![Ipld::Integer(1), Ipld::Integer(2)])).unwrap(),
        b"[1,2]".to_vec()
    );
}

#[test]
fn map_order_does_not_depend_on_insertion_order() {
    let mut a = Vec::new();
    Ipld::insert(&mut a, s("zeta"), Ipld::Integer(1));
    Ipld::insert(&mut a, s("alpha"), Ipld::Integer(2));
    Ipld::insert(&mut a, s("mid"), Ipld::Integer(3));
    let mut b = Vec::new();
    Ipld::insert(&mut b, s("mid"), Ipld::Integer(3));
    Ipld::insert(&mut b, s("zeta"), Ipld::Integer(1));
    Ipld::insert(&mut b, s("alpha"), Ipld::Integer(2));
    let ea = encode(&Ipld::Dict(a)).unwrap();
    let eb = encode(&Ipld::Dict(b)).unwrap();
    assert_eq!(ea, eb);
    assert_eq!(std::str::from_utf8(&ea).unwrap(), r#"{"alpha":2,"mid":3,"zeta":1}"#);
}

#[test]
fn insert_replaces_equal_key() {
    let mut a = Vec::new();
    Ipld::insert(&mut a, s("k"), Ipld::Integer(1));
    Ipld::insert(&mut a, s("k"), Ipld::Integer(2));
    assert_eq!(a, vec![(s("k"), Ipld::Integer(2))]);
}

#[test]
fn unordered_map_is_refused() {
    let v = Ipld::Dict(vec![(s("b"), Ipld::Null), (s("a"), Ipld::Null)]);
    assert_eq!(encode(&v), Err(EncodeError::UnorderedKeys));
}

#[test]
fn invalid_float_is_refused() {
    assert_eq!(
        encode(&Ipld::Float(s("NaN"))),
        Err(EncodeError::InvalidFloat(s("NaN")))
    );
    assert_eq!(
        encode(&Ipld::Float(s("12"))),
        Err(EncodeError::InvalidFloat(s("12")))
    );
    assert_eq!(
        encode(&Ipld::Float(s("1e3"))),
        Err(EncodeError::InvalidFloat(s("1e3")))
    );
    assert_eq!(
        encode(&Ipld::Float(s("1E+3"))),
        Err(EncodeError::InvalidFloat(s("1E+3")))
    );
}

#[test]
fn invalid_link_is_refused() {
    let c = Cid { version: 2, codec: 0x71, hash_code: SHA2_256, digest: vec![0; 32] };
    assert_eq!(encode(&Ipld::Link(c)), Err(EncodeError::InvalidLink));
}

#[test]
fn syntax_error_has_position() {
    match decode(b"[1, 2") {
        Err(DecodeError::Syntax { line, column }) => {
            assert_eq!(line, 1);
            assert!(column > 0);
        }
        other => panic!("unexpected {:?}", other),
    }
}

#[test]
fn integer_out_of_range_is_refused() {
    assert_eq!(
        decode(b"170141183460469231731687303715884105728"),
        Err(DecodeError::IntegerOutOfRange(s("170141183460469231731687303715884105728")))
    );
    assert_eq!(
        decode(b"-170141183460469231731687303715884105728").unwrap(),
        Ipld::Integer(i128::MIN)
    );
}

#[test]
fn numbers_decode_by_form() {
    assert_eq!(decode(b"7").unwrap(), Ipld::Integer(7));
    assert_eq!(decode(b"7.0").unwrap(), Ipld::Float(s("7.0")));
    assert_eq!(decode(b"7e2").unwrap(), Ipld::Float(s("7e+2")));
}

#[test]
fn block_value_decodes_to_itself() {
    let mut m = Vec::new();
    Ipld::insert(&mut m, s("n"), Ipld::Integer(3));
    let v = Ipld::Dict(m);
    let block = Block::from_ipld(&v, HashAlg::Sha2_256).unwrap();
    assert_eq!(block.ipld().unwrap(), v);
}
