//! The DAG-JSON codec: IPLD values to JSON bytes and back.
use vstd::prelude::*;
use vstd::string::StrSliceExecFns;
use crate::cid::{Cid, cid_bytes_of, cid_to_bytes, cid_parsed, cid_from_bytes};
use crate::ipld::{Ipld, key_bytes, keys_ascending, key_lt, bytes_lt};
use crate::number::{
    int_text, is_float_text, write_int, check_float_text, number_int, check_int_text, int_of_text,
};

verus! {

broadcast use vstd::std_specs::vec::axiom_vec_index_decreases;

/// Multicodec code of DAG-JSON.
pub const DAG_JSON: u64 = 0x0129;

/// Why a value cannot be encoded.
#[derive(Clone, Debug, PartialEq, Eq)]
pub enum EncodeError {
    /// A float whose text is no JSON number with a fraction or an exponent
    /// (NaN and the infinities among them).
    InvalidFloat(String),
    /// A map whose keys do not ascend strictly.
    UnorderedKeys,
    /// A link whose identifier cannot be written out.
    InvalidLink,
}

/// The JSON string literal of some text, quoted and escaped.
pub uninterp spec fn json_quoted(s: Seq<char>) -> Seq<u8>;

/// The standard padded base64 text of some bytes.
pub uninterp spec fn base64_of(b: Seq<u8>) -> Seq<char>;

/// Relies on serde_json::to_vec on a `str`: the JSON string literal of the text.
#[verifier::external_body]
fn quote(s: &str) -> (r: Vec<u8>)
    ensures
        r@ == json_quoted(s@),
{
    serde_json::to_vec(s).unwrap()
}

/// Relies on base64::encode: standard padded base64, which base64::decode
/// reads back to the same bytes.
#[verifier::external_body]
fn base64_encode(b: &[u8]) -> (r: String)
    ensures
        r@ == base64_of(b@),
        base64_decoded(r@) is Ok && base64_decoded(r@)->Ok_0 == b@,
{
    base64::encode(b)
}

/// The key of the one entry of the object that encodes a link.
pub open spec fn link_key() -> Seq<char> {
    seq!['/']
}

/// The JSON object that encodes a link to the identifier with these bytes.
pub open spec fn link_json(cid_bytes: Seq<u8>) -> Seq<u8> {
    seq![123u8] + json_quoted(link_key()) + seq![58u8] + json_quoted(base64_of(cid_bytes))
        + seq![125u8]
}

/// The DAG-JSON bytes of a value.
pub open spec fn encode_value(v: Ipld) -> Seq<u8>
    decreases v, 0nat,
{
    match v {
        Ipld::Null => seq![110u8, 117, 108, 108],
        Ipld::Bool(b) => if b {
            seq![116u8, 114, 117, 101]
        } else {
            seq![102u8, 97, 108, 115, 101]
        },
        Ipld::Integer(i) => int_text(i as int),
        Ipld::Float(t) => key_bytes(t@),
        Ipld::String(s) => json_quoted(s@),
        Ipld::Bytes(b) => json_quoted(base64_of(b@)),
        Ipld::List(l) => seq![91u8] + encode_items(l, l.len() as nat) + seq![93u8],
        Ipld::Dict(m) => seq![123u8] + encode_entries(m, m.len() as nat) + seq![125u8],
        Ipld::Link(c) => link_json(cid_bytes_of(c.version, c.codec, c.hash_code, c.digest@)),
    }
}

/// The first `n` items of a list, separated by commas.
pub open spec fn encode_items(l: Vec<Ipld>, n: nat) -> Seq<u8>
    decreases l, n,
{
    if n == 0 || n > l.len() {
        seq![]
    } else if n == 1 {
        encode_value(l[0])
    } else {
        encode_items(l, (n - 1) as nat) + seq![44u8] + encode_value(l[n - 1])
    }
}

/// The first `n` entries of a map, as `"key":value`, separated by commas.
pub open spec fn encode_entries(m: Vec<(String, Ipld)>, n: nat) -> Seq<u8>
    decreases m, n,
{
    if n == 0 || n > m.len() {
        seq![]
    } else if n == 1 {
        encode_entry(m[0].0@, m[0].1)
    } else {
        encode_entries(m, (n - 1) as nat) + seq![44u8] + encode_entry(m[n - 1].0@, m[n - 1].1)
    }
}

pub open spec fn encode_entry(k: Seq<char>, v: Ipld) -> Seq<u8>
    decreases v, 1nat,
{
    json_quoted(k) + seq![58u8] + encode_value(v)
}

/// The first reason, in document order, why a value cannot be encoded.
pub open spec fn encode_error(v: Ipld) -> Option<EncodeError>
    decreases v, 0nat,
{
    match v {
        Ipld::Float(t) => if is_float_text(key_bytes(t@)) {
            None
        } else {
            Some(EncodeError::InvalidFloat(t))
        },
        Ipld::List(l) => items_error(l, l.len() as nat),
        Ipld::Dict(m) => if keys_ascending(m@) {
            entries_error(m, m.len() as nat)
        } else {
            Some(EncodeError::UnorderedKeys)
        },
        Ipld::Link(c) => if c.wf() {
            None
        } else {
            Some(EncodeError::InvalidLink)
        },
        _ => None,
    }
}

pub open spec fn items_error(l: Vec<Ipld>, n: nat) -> Option<EncodeError>
    decreases l, n,
{
    if n == 0 || n > l.len() {
        None
    } else if let Some(e) = items_error(l, (n - 1) as nat) {
        Some(e)
    } else {
        encode_error(l[n - 1])
    }
}

pub open spec fn entries_error(m: Vec<(String, Ipld)>, n: nat) -> Option<EncodeError>
    decreases m, n,
{
    if n == 0 || n > m.len() {
        None
    } else if let Some(e) = entries_error(m, (n - 1) as nat) {
        Some(e)
    } else {
        encode_error(m[n - 1].1)
    }
}

} // verus!

verus! {

/// Every link in a value reads back: the base64 text written for it decodes
/// to the identifier's bytes, and those bytes parse to the identifier (for
/// version 0, where its digest is 32 bytes). `encode` ensures it.
pub open spec fn links_read_back(v: Ipld) -> bool
    decreases v, 0nat,
{
    match v {
        Ipld::List(l) => forall|i: int| 0 <= i < l.len() ==> links_read_back(#[trigger] l[i]),
        Ipld::Dict(m) => forall|i: int| 0 <= i < m.len() ==> links_read_back((#[trigger] m[i]).1),
        Ipld::Link(c) => {
            let b = cid_bytes_of(c.version, c.codec, c.hash_code, c.digest@);
            &&& base64_decoded(base64_of(b)) == Ok::<Seq<u8>, Seq<char>>(b)
            &&& (c.version == 1 || c.digest@.len() == 32) ==> cid_parsed(b) == Ok::<
                (u64, u64, u64, Seq<u8>),
                Seq<char>,
            >((c.version, c.codec, c.hash_code, c.digest@))
        },
        _ => true,
    }
}

proof fn lemma_items_error_stays(l: Vec<Ipld>, n: nat, k: nat)
    requires
        n <= k <= l.len(),
        items_error(l, n) is Some,
    ensures
        items_error(l, k) == items_error(l, n),
    decreases k - n,
{
    if k > n {
        lemma_items_error_stays(l, n, (k - 1) as nat);
    }
}

proof fn lemma_entries_error_stays(m: Vec<(String, Ipld)>, n: nat, k: nat)
    requires
        n <= k <= m.len(),
        entries_error(m, n) is Some,
    ensures
        entries_error(m, k) == entries_error(m, n),
    decreases k - n,
{
    if k > n {
        lemma_entries_error_stays(m, n, (k - 1) as nat);
    }
}

fn append(out: &mut Vec<u8>, b: &[u8])
    ensures
        final(out)@ == old(out)@ + b@,
{
    let mut i: usize = 0;
    while i < b.len()
        invariant
            0 <= i <= b@.len(),
            out@ == old(out)@ + b@.subrange(0, i as int),
        decreases b@.len() - i,
    {
        out.push(b[i]);
        i = i + 1;
        assert(out@ =~= old(out)@ + b@.subrange(0, i as int));
    }
    assert(b@.subrange(0, b@.len() as int) =~= b@);
}

fn check_cid(c: &Cid) -> (r: bool)
    ensures
        r == c.wf(),
{
    c.digest.len() <= 64 && (c.version == 1 || (c.version == 0 && c.codec == crate::cid::DAG_PB
        && c.hash_code == crate::cid::SHA2_256))
}

fn write_value(v: &Ipld, out: &mut Vec<u8>) -> (r: Result<(), EncodeError>)
    ensures
        match r {
            Ok(()) => encode_error(*v) is None && final(out)@ == old(out)@ + encode_value(*v)
                && links_read_back(*v),
            Err(e) => encode_error(*v) == Some(e),
        },
    decreases v,
{
    match v {
        Ipld::Null => {
            append(out, &[110u8, 117, 108, 108]);
            assert(final(out)@ =~= old(out)@ + encode_value(*v));
        },
        Ipld::Bool(b) => {
            if *b {
                append(out, &[116u8, 114, 117, 101]);
            } else {
                append(out, &[102u8, 97, 108, 115, 101]);
            }
            assert(final(out)@ =~= old(out)@ + encode_value(*v));
        },
        Ipld::Integer(i) => {
            write_int(*i, out);
        },
        Ipld::Float(t) => {
            let b = t.as_str().as_bytes();
            if !check_float_text(b) {
                return Err(EncodeError::InvalidFloat(t.clone()));
            }
            append(out, b);
        },
        Ipld::String(s) => {
            let q = quote(s.as_str());
            append(out, q.as_slice());
        },
        Ipld::Bytes(b) => {
            let t = base64_encode(b.as_slice());
            let q = quote(t.as_str());
            append(out, q.as_slice());
        },
        Ipld::List(l) => {
            out.push(91);
            let ghost start = out@;
            let mut i: usize = 0;
            while i < l.len()
                invariant
                    0 <= i <= l@.len(),
                    *v == Ipld::List(*l),
                    out@ == start + encode_items(*l, i as nat),
                    items_error(*l, i as nat) is None,
                    forall|k: int| 0 <= k < i ==> links_read_back(#[trigger] l@[k]),
                    start == old(out)@.push(91u8),
                decreases l@.len() - i,
            {
                if i > 0 {
                    out.push(44);
                }
                let res = write_value(&l[i], out);
                if let Err(e) = res {
                    proof {
                        lemma_items_error_stays(*l, (i + 1) as nat, l.len() as nat);
                    }
                    return Err(e);
                }
                i = i + 1;
                assert(out@ =~= start + encode_items(*l, i as nat));
            }
            out.push(93);
            assert(final(out)@ =~= old(out)@ + encode_value(*v));
            assert forall|k: int| 0 <= k < l.len() implies links_read_back(#[trigger] l[k]) by {
                assert(l[k] == l@[k]);
            }
        },
        Ipld::Dict(m) => {
            let mut j: usize = 1;
            while j < m.len()
                invariant
                    1 <= j,
                    *v == Ipld::Dict(*m),
                    forall|k: int|
                        0 < k < j && k < m@.len() ==> bytes_lt(
                            key_bytes(#[trigger] m@[k - 1].0@),
                            key_bytes(m@[k].0@),
                        ),
                decreases m@.len() - j,
            {
                if !key_lt(&m[j - 1].0, &m[j].0) {
                    assert(!keys_ascending(m@) && *v == Ipld::Dict(*m)) by {
                        let a: int = j - 1;
                        let b: int = j as int;
                        assert(!bytes_lt(key_bytes(m@[a].0@), key_bytes(m@[b].0@)));
                    }
                    return Err(EncodeError::UnorderedKeys);
                }
                j = j + 1;
            }
            proof {
                crate::ipld::lemma_neighbours_ascending(m@);
            }
            out.push(123);
            let ghost start = out@;
            let mut i: usize = 0;
            while i < m.len()
                invariant
                    0 <= i <= m@.len(),
                    *v == Ipld::Dict(*m),
                    keys_ascending(m@),
                    out@ == start + encode_entries(*m, i as nat),
                    entries_error(*m, i as nat) is None,
                    forall|k: int| 0 <= k < i ==> links_read_back((#[trigger] m@[k]).1),
                    start == old(out)@.push(123u8),
                decreases m@.len() - i,
            {
                if i > 0 {
                    out.push(44);
                }
                let q = quote(m[i].0.as_str());
                append(out, q.as_slice());
                out.push(58);
                let res = write_value(&m[i].1, out);
                if let Err(e) = res {
                    proof {
                        lemma_entries_error_stays(*m, (i + 1) as nat, m.len() as nat);
                    }
                    return Err(e);
                }
                assert(encode_entry(m@[i as int].0@, m@[i as int].1) == json_quoted(m@[i as int].0@)
                    + seq![58u8] + encode_value(m@[i as int].1));
                i = i + 1;
                assert(out@ =~= start + encode_entries(*m, i as nat));
            }
            out.push(125);
            assert(final(out)@ =~= old(out)@ + encode_value(*v));
            assert forall|k: int| 0 <= k < m.len() implies links_read_back((#[trigger] m[k]).1) by {
                assert(m[k] == m@[k]);
            }
        },
        Ipld::Link(c) => {
            if !check_cid(c) {
                return Err(EncodeError::InvalidLink);
            }
            let bytes = cid_to_bytes(c);
            let t = base64_encode(bytes.as_slice());
            out.push(123);
            proof {
                reveal_strlit("/");
                assert("/"@ =~= link_key());
            }
            let k = quote("/");
            append(out, k.as_slice());
            out.push(58);
            let q = quote(t.as_str());
            append(out, q.as_slice());
            out.push(125);
            assert(final(out)@ =~= old(out)@ + encode_value(*v));
        },
    }
    Ok(())
}

/// Encodes a value as DAG-JSON: maps as objects in their (ascending) key
/// order, bytes as base64 strings, links as `{"/": "<base64 of the identifier>"}`.
/// Fails on the first part, in document order, that cannot be encoded.
pub fn encode(ipld: &Ipld) -> (r: Result<Vec<u8>, EncodeError>)
    ensures
        match r {
            Ok(b) => encode_error(*ipld) is None && b@ == encode_value(*ipld) && links_read_back(
                *ipld,
            ) && maps_ascending(*ipld),
            Err(e) => encode_error(*ipld) == Some(e),
        },
{
    let mut out: Vec<u8> = Vec::new();
    match write_value(ipld, &mut out) {
        Ok(()) => {
            proof {
                lemma_encoded_maps_ascend(*ipld);
            }
            assert(out@ =~= encode_value(*ipld));
            Ok(out)
        },
        Err(e) => Err(e),
    }
}

} // verus!

verus! {

/// A parsed JSON document. A number keeps its text.
#[derive(Debug)]
pub enum Json {
    Null,
    Bool(bool),
    Number(String),
    Str(String),
    Array(Vec<Json>),
    Object(Vec<(String, Json)>),
}

#[verifier::external_type_specification]
#[verifier::external_body]
pub struct ExJsonValue(serde_json::Value);

/// What the JSON parser makes of some bytes: the document, or the line and
/// column of a syntax error.
pub uninterp spec fn json_parsed(b: Seq<u8>) -> Result<Json, (usize, usize)>;

/// Relies on serde_json::from_slice into serde_json::Value, built with
/// arbitrary_precision so that a number keeps its digits (an exponent comes
/// back as `e` and a sign); on failure, serde_json::Error::line and
/// serde_json::Error::column. With arbitrary_precision the parser also reads
/// an object whose first key is its private number token
/// (`$serde_json::private::Number`) as a number.
#[verifier::external_body]
fn parse_json(data: &[u8]) -> (r: Result<Json, (usize, usize)>)
    ensures
        r == json_parsed(data@),
{
    match serde_json::from_slice::<serde_json::Value>(data) {
        Ok(v) => Ok(json_of_value(v)),
        Err(e) => Err((e.line(), e.column())),
    }
}

/// Moves a serde_json::Value into the same tree of `Json`.
#[verifier::external_body]
fn json_of_value(v: serde_json::Value) -> Json {
    match v {
        serde_json::Value::Null => Json::Null,
        serde_json::Value::Bool(b) => Json::Bool(b),
        serde_json::Value::Number(n) => Json::Number(n.as_str().to_owned()),
        serde_json::Value::String(s) => Json::Str(s),
        serde_json::Value::Array(a) => Json::Array(a.into_iter().map(json_of_value).collect()),
        serde_json::Value::Object(m) => Json::Object(
            m.into_iter().map(|(k, x)| (k, json_of_value(x))).collect(),
        ),
    }
}

/// The bytes that some base64 text stands for, or the message of the
/// decoder's error where it is not valid.
pub uninterp spec fn base64_decoded(s: Seq<char>) -> Result<Seq<u8>, Seq<char>>;

/// Relies on base64::decode: standard padded base64; on failure,
/// base64::DecodeError's message.
#[verifier::external_body]
fn base64_decode(s: &str) -> (r: Result<Vec<u8>, String>)
    ensures
        match r {
            Ok(b) => base64_decoded(s@) == Ok::<Seq<u8>, Seq<char>>(b@),
            Err(m) => base64_decoded(s@) == Err::<Seq<u8>, Seq<char>>(m@),
        },
{
    match base64::decode(s) {
        Ok(b) => Ok(b),
        Err(e) => Err(e.to_string()),
    }
}

/// Why bytes do not decode.
#[derive(Clone, Debug, PartialEq, Eq)]
pub enum DecodeError {
    /// Malformed JSON, at this line and column.
    Syntax { line: usize, column: usize },
    /// A link whose text is not valid base64, with the decoder's message.
    InvalidLinkEncoding { link: String, cause: String },
    /// A link whose bytes are no content identifier, with the parser's message.
    InvalidLinkIdentifier { link: String, cause: String },
    /// An integer outside the range of a signed 128-bit integer.
    IntegerOutOfRange(String),
    /// A number that is neither an integer nor a float literal.
    InvalidNumber(String),
}

/// A decoding failure, with its texts as character sequences.
pub ghost enum DecodeFailure {
    Syntax { line: usize, column: usize },
    InvalidLinkEncoding { link: Seq<char>, cause: Seq<char> },
    InvalidLinkIdentifier { link: Seq<char>, cause: Seq<char> },
    IntegerOutOfRange(Seq<char>),
    InvalidNumber(Seq<char>),
}

impl View for DecodeError {
    type V = DecodeFailure;

    open spec fn view(&self) -> DecodeFailure {
        match self {
            DecodeError::Syntax { line, column } => DecodeFailure::Syntax {
                line: *line,
                column: *column,
            },
            DecodeError::InvalidLinkEncoding { link, cause } => DecodeFailure::InvalidLinkEncoding {
                link: link@,
                cause: cause@,
            },
            DecodeError::InvalidLinkIdentifier { link, cause } => DecodeFailure::InvalidLinkIdentifier {
                link: link@,
                cause: cause@,
            },
            DecodeError::IntegerOutOfRange(t) => DecodeFailure::IntegerOutOfRange(t@),
            DecodeError::InvalidNumber(t) => DecodeFailure::InvalidNumber(t@),
        }
    }
}

/// An object that encodes a link: one entry, keyed `/`, whose value is a string.
pub open spec fn link_text(m: Vec<(String, Json)>) -> Option<String> {
    if m.len() == 1 && m[0].0@ == link_key() && m[0].1 is Str {
        Some(m[0].1->Str_0)
    } else {
        None
    }
}

/// The value that a JSON document decodes to, where it decodes.
pub open spec fn decodes_to(j: Json, v: Ipld) -> bool
    decreases j,
{
    match j {
        Json::Null => v == Ipld::Null,
        Json::Bool(b) => v == Ipld::Bool(b),
        Json::Number(t) => match number_int(key_bytes(t@)) {
            Some(n) => v matches Ipld::Integer(x) && x as int == n,
            None => v == Ipld::Float(t),
        },
        Json::Str(s) => v == Ipld::String(s),
        Json::Array(a) => v matches Ipld::List(l) && l.len() == a.len() && forall|i: int|
            0 <= i < a.len() ==> decodes_to(#[trigger] a[i], l[i]),
        Json::Object(m) => match link_text(m) {
            Some(s) => v matches Ipld::Link(c) && base64_decoded(s@) matches Ok(b) && cid_parsed(b)
                == Ok::<(u64, u64, u64, Seq<u8>), Seq<char>>(
                (c.version, c.codec, c.hash_code, c.digest@),
            ),
            None => v matches Ipld::Dict(d) && d.len() == m.len() && forall|i: int|
                0 <= i < m.len() ==> d[i].0 == (#[trigger] m[i]).0 && decodes_to(m[i].1, d[i].1),
        },
    }
}

/// The first reason, in document order, why a JSON document does not decode.
pub open spec fn decode_error(j: Json) -> Option<DecodeFailure>
    decreases j, 0nat,
{
    match j {
        Json::Number(t) => match number_int(key_bytes(t@)) {
            Some(n) => if i128::MIN <= n <= i128::MAX {
                None
            } else {
                Some(DecodeFailure::IntegerOutOfRange(t@))
            },
            None => if is_float_text(key_bytes(t@)) {
                None
            } else {
                Some(DecodeFailure::InvalidNumber(t@))
            },
        },
        Json::Array(a) => array_error(a, a.len() as nat),
        Json::Object(m) => match link_text(m) {
            Some(s) => match base64_decoded(s@) {
                Err(cause) => Some(DecodeFailure::InvalidLinkEncoding { link: s@, cause }),
                Ok(b) => match cid_parsed(b) {
                    Err(cause) => Some(DecodeFailure::InvalidLinkIdentifier { link: s@, cause }),
                    Ok(_) => None,
                },
            },
            None => object_error(m, m.len() as nat),
        },
        _ => None,
    }
}

pub open spec fn array_error(a: Vec<Json>, n: nat) -> Option<DecodeFailure>
    decreases a, n,
{
    if n == 0 || n > a.len() {
        None
    } else if let Some(e) = array_error(a, (n - 1) as nat) {
        Some(e)
    } else {
        decode_error(a[n - 1])
    }
}

pub open spec fn object_error(m: Vec<(String, Json)>, n: nat) -> Option<DecodeFailure>
    decreases m, n,
{
    if n == 0 || n > m.len() {
        None
    } else if let Some(e) = object_error(m, (n - 1) as nat) {
        Some(e)
    } else {
        decode_error(m[n - 1].1)
    }
}

proof fn lemma_array_error_stays(a: Vec<Json>, n: nat, k: nat)
    requires
        n <= k <= a.len(),
        array_error(a, n) is Some,
    ensures
        array_error(a, k) == array_error(a, n),
    decreases k - n,
{
    if k > n {
        lemma_array_error_stays(a, n, (k - 1) as nat);
    }
}

proof fn lemma_object_error_stays(m: Vec<(String, Json)>, n: nat, k: nat)
    requires
        n <= k <= m.len(),
        object_error(m, n) is Some,
    ensures
        object_error(m, k) == object_error(m, n),
    decreases k - n,
{
    if k > n {
        lemma_object_error_stays(m, n, (k - 1) as nat);
    }
}

fn is_link_key(k: &String) -> (r: bool)
    ensures
        r == (k@ == link_key()),
{
    let s = k.as_str();
    if s.unicode_len() == 1 {
        let c = s.get_char(0);
        assert(s@ == link_key() <==> s@ =~= seq![c] && c == '/');
        c == '/'
    } else {
        false
    }
}

/// Decodes a parsed JSON document: an object of one entry keyed `/` whose
/// value is a string is a link; every other object is a map; an integer
/// literal is an integer, a number with a fraction or an exponent a float.
pub fn decode_json(j: &Json) -> (r: Result<Ipld, DecodeError>)
    ensures
        match r {
            Ok(v) => decode_error(*j) is None && decodes_to(*j, v),
            Err(e) => decode_error(*j) == Some(e@),
        },
    decreases j,
{
    match j {
        Json::Null => Ok(Ipld::Null),
        Json::Bool(b) => Ok(Ipld::Bool(*b)),
        Json::Number(t) => {
            let b = t.as_str().as_bytes();
            if check_int_text(b) {
                match int_of_text(b) {
                    Some(x) => Ok(Ipld::Integer(x)),
                    None => Err(DecodeError::IntegerOutOfRange(t.clone())),
                }
            } else if check_float_text(b) {
                Ok(Ipld::Float(t.clone()))
            } else {
                Err(DecodeError::InvalidNumber(t.clone()))
            }
        },
        Json::Str(s) => Ok(Ipld::String(s.clone())),
        Json::Array(a) => {
            let mut l: Vec<Ipld> = Vec::new();
            let mut i: usize = 0;
            while i < a.len()
                invariant
                    0 <= i <= a@.len(),
                    *j == Json::Array(*a),
                    l@.len() == i,
                    array_error(*a, i as nat) is None,
                    forall|k: int| 0 <= k < i ==> decodes_to(#[trigger] a@[k], l@[k]),
                decreases a@.len() - i,
            {
                match decode_json(&a[i]) {
                    Ok(v) => {
                        l.push(v);
                    },
                    Err(e) => {
                        proof {
                            lemma_array_error_stays(*a, (i + 1) as nat, a.len() as nat);
                        }
                        return Err(e);
                    },
                }
                i = i + 1;
            }
            proof {
                assert forall|k: int| 0 <= k < a.len() implies decodes_to(#[trigger] a[k], l[k]) by {
                    assert(a[k] == a@[k]);
                }
            }
            Ok(Ipld::List(l))
        },
        Json::Object(m) => {
            if m.len() == 1 && is_link_key(&m[0].0) {
                if let Json::Str(s) = &m[0].1 {
                    match base64_decode(s.as_str()) {
                        Err(cause) => {
                            return Err(DecodeError::InvalidLinkEncoding { link: s.clone(), cause });
                        },
                        Ok(bytes) => match cid_from_bytes(bytes.as_slice()) {
                            Err(cause) => {
                                return Err(
                                    DecodeError::InvalidLinkIdentifier { link: s.clone(), cause },
                                );
                            },
                            Ok(c) => {
                                return Ok(Ipld::Link(c));
                            },
                        },
                    }
                }
            }
            let mut d: Vec<(String, Ipld)> = Vec::new();
            let mut i: usize = 0;
            while i < m.len()
                invariant
                    0 <= i <= m@.len(),
                    *j == Json::Object(*m),
                    link_text(*m) is None,
                    d@.len() == i,
                    object_error(*m, i as nat) is None,
                    forall|k: int|
                        0 <= k < i ==> d@[k].0 == (#[trigger] m@[k]).0 && decodes_to(m@[k].1, d@[k].1),
                decreases m@.len() - i,
            {
                match decode_json(&m[i].1) {
                    Ok(v) => {
                        d.push((m[i].0.clone(), v));
                    },
                    Err(e) => {
                        proof {
                            lemma_object_error_stays(*m, (i + 1) as nat, m.len() as nat);
                        }
                        return Err(e);
                    },
                }
                i = i + 1;
            }
            proof {
                assert forall|k: int| 0 <= k < m.len() implies d[k].0 == (#[trigger] m[k]).0
                    && decodes_to(m[k].1, d[k].1) by {
                    assert(m[k] == m@[k]);
                }
            }
            Ok(Ipld::Dict(d))
        },
    }
}

/// Decodes DAG-JSON bytes: the JSON parser's syntax errors, then the first
/// part of the document, in document order, that does not decode. An object
/// keyed by the parser's private number token reaches the library as a number
/// (see `parse_json`).
pub fn decode(data: &[u8]) -> (r: Result<Ipld, DecodeError>)
    ensures
        match json_parsed(data@) {
            Err((line, column)) => r == Err::<Ipld, DecodeError>(
                DecodeError::Syntax { line, column },
            ),
            Ok(j) => match r {
                Ok(v) => decode_error(j) is None && decodes_to(j, v),
                Err(e) => decode_error(j) == Some(e@),
            },
        },
{
    match parse_json(data) {
        Err((line, column)) => Err(DecodeError::Syntax { line, column }),
        Ok(j) => decode_json(&j),
    }
}

} // verus!

verus! {

proof fn lemma_entries_same_encoding(a: Vec<(String, Ipld)>, b: Vec<(String, Ipld)>, n: nat)
    requires
        a@ == b@,
    ensures
        encode_entries(a, n) == encode_entries(b, n),
    decreases n,
{
    if n > 1 {
        lemma_entries_same_encoding(a, b, (n - 1) as nat);
    }
    if n >= 1 && n <= a.len() {
        assert(a[n - 1] == b[n - 1]);
        assert(a[0] == b[0]);
    }
}

/// Two maps that hold the same entries, however they were built, encode to
/// the same bytes.
pub proof fn lemma_same_entries_same_encoding(a: Vec<(String, Ipld)>, b: Vec<(String, Ipld)>)
    requires
        keys_ascending(a@),
        keys_ascending(b@),
        forall|e: (String, Ipld)| a@.contains(e) <==> b@.contains(e),
    ensures
        encode_value(Ipld::Dict(a)) == encode_value(Ipld::Dict(b)),
{
    crate::ipld::lemma_entries_canonical(a@, b@);
    lemma_entries_same_encoding(a, b, a.len() as nat);
}

/// An object decodes to a link exactly when it has one entry, keyed `/`, whose
/// value is a string; every other object that decodes is a map. A link whose
/// text is not base64, or whose bytes are no identifier, is an error, never a map.
pub proof fn lemma_link_exclusive(m: Vec<(String, Json)>, v: Ipld)
    ensures
        link_text(m) is Some <==> (m.len() == 1 && m[0].0@ == link_key() && m[0].1 is Str),
        decodes_to(Json::Object(m), v) ==> (v is Link <==> link_text(m) is Some),
        decodes_to(Json::Object(m), v) ==> (v is Dict <==> link_text(m) is None),
        link_text(m) matches Some(s) ==> (base64_decoded(s@) matches Err(cause) ==> decode_error(
            Json::Object(m),
        ) == Some(DecodeFailure::InvalidLinkEncoding { link: s@, cause })),
        link_text(m) matches Some(s) ==> (base64_decoded(s@) matches Ok(b) ==> (cid_parsed(
            b,
        ) matches Err(cause) ==> decode_error(Json::Object(m)) == Some(
            DecodeFailure::InvalidLinkIdentifier { link: s@, cause },
        ))),
{
}

} // verus!

verus! {

/// `j` is the JSON document that encoding `v` writes: the tree whose text
/// `encode_value(v)` is.
pub open spec fn encodes_as(v: Ipld, j: Json) -> bool
    decreases v, 0nat,
{
    match v {
        Ipld::Null => j == Json::Null,
        Ipld::Bool(b) => j == Json::Bool(b),
        Ipld::Integer(i) => j matches Json::Number(t) && key_bytes(t@) == int_text(i as int),
        Ipld::Float(t) => j == Json::Number(t),
        Ipld::String(s) => j == Json::Str(s),
        Ipld::Bytes(b) => j matches Json::Str(s) && s@ == base64_of(b@),
        Ipld::List(l) => j matches Json::Array(a) && a.len() == l.len() && forall|i: int|
            0 <= i < l.len() ==> encodes_as(#[trigger] l[i], a[i]),
        Ipld::Dict(m) => j matches Json::Object(o) && o.len() == m.len() && forall|i: int|
            0 <= i < m.len() ==> o[i].0 == (#[trigger] m[i]).0 && encodes_as(m[i].1, o[i].1),
        Ipld::Link(c) => j matches Json::Object(o) && o.len() == 1 && o[0].0@ == link_key() && (
        o[0].1 matches Json::Str(s) && s@ == base64_of(
            cid_bytes_of(c.version, c.codec, c.hash_code, c.digest@),
        )),
    }
}

/// A value none of whose maps is a single `/` entry holding a string or bytes
/// (which reads back as a link), and whose version 0 links have 32-byte
/// digests (the only ones the identifier parser reads as version 0).
pub open spec fn plain(v: Ipld) -> bool
    decreases v, 0nat,
{
    match v {
        Ipld::Link(c) => c.version == 1 || c.digest@.len() == 32,
        Ipld::List(l) => forall|i: int| 0 <= i < l.len() ==> plain(#[trigger] l[i]),
        Ipld::Dict(m) => !(m.len() == 1 && m[0].0@ == link_key() && (m[0].1 is String
            || m[0].1 is Bytes)) && forall|i: int| 0 <= i < m.len() ==> plain((#[trigger] m[i]).1),
        _ => true,
    }
}

/// `w` is what decoding gives for `v`: the same value, but for bytes, which
/// come back as the string of their base64 text.
pub open spec fn reads_back(v: Ipld, w: Ipld) -> bool
    decreases v, 0nat,
{
    match v {
        Ipld::Bytes(b) => w matches Ipld::String(t) && t@ == base64_of(b@),
        Ipld::List(l) => w matches Ipld::List(l2) && l2.len() == l.len() && forall|i: int|
            0 <= i < l.len() ==> reads_back(#[trigger] l[i], l2[i]),
        Ipld::Dict(m) => w matches Ipld::Dict(d) && d.len() == m.len() && forall|i: int|
            0 <= i < m.len() ==> d[i].0 == (#[trigger] m[i]).0 && reads_back(m[i].1, d[i].1),
        Ipld::Link(c) => w matches Ipld::Link(c2) && c2.version == c.version && c2.codec == c.codec
            && c2.hash_code == c.hash_code && c2.digest@ == c.digest@,
        _ => w == v,
    }
}

/// Every map in a value has strictly ascending keys.
pub open spec fn maps_ascending(v: Ipld) -> bool
    decreases v, 0nat,
{
    match v {
        Ipld::List(l) => forall|i: int| 0 <= i < l.len() ==> maps_ascending(#[trigger] l[i]),
        Ipld::Dict(m) => keys_ascending(m@) && forall|i: int|
            0 <= i < m.len() ==> maps_ascending((#[trigger] m[i]).1),
        _ => true,
    }
}

/// A value that encodes has strictly ascending keys in every map at every
/// depth, and `encode_value` writes each map's entries in that order.
pub proof fn lemma_encoded_maps_ascend(v: Ipld)
    requires
        encode_error(v) is None,
    ensures
        maps_ascending(v),
    decreases v,
{
    match v {
        Ipld::List(l) => {
            assert forall|i: int| 0 <= i < l.len() implies maps_ascending(#[trigger] l[i]) by {
                lemma_items_error_none(l, l.len() as nat, i);
                lemma_encoded_maps_ascend(l[i]);
            }
        },
        Ipld::Dict(m) => {
            assert forall|i: int| 0 <= i < m.len() implies maps_ascending((#[trigger] m[i]).1) by {
                lemma_entries_error_none(m, m.len() as nat, i);
                lemma_encoded_maps_ascend(m[i].1);
            }
        },
        _ => {},
    }
}

proof fn lemma_items_error_none(l: Vec<Ipld>, n: nat, i: int)
    requires
        n <= l.len(),
        items_error(l, n) is None,
        0 <= i < n,
    ensures
        encode_error(l[i]) is None,
    decreases n,
{
    if i < n - 1 {
        lemma_items_error_none(l, (n - 1) as nat, i);
    }
}

proof fn lemma_entries_error_none(m: Vec<(String, Ipld)>, n: nat, i: int)
    requires
        n <= m.len(),
        entries_error(m, n) is None,
        0 <= i < n,
    ensures
        encode_error(m[i].1) is None,
    decreases n,
{
    if i < n - 1 {
        lemma_entries_error_none(m, (n - 1) as nat, i);
    }
}

proof fn lemma_array_error_none(a: Vec<Json>, n: nat)
    requires
        n <= a.len(),
        forall|i: int| 0 <= i < n ==> decode_error(#[trigger] a[i]) is None,
    ensures
        array_error(a, n) is None,
    decreases n,
{
    if n > 0 {
        lemma_array_error_none(a, (n - 1) as nat);
    }
}

proof fn lemma_object_error_none(o: Vec<(String, Json)>, n: nat)
    requires
        n <= o.len(),
        forall|i: int| 0 <= i < n ==> decode_error((#[trigger] o[i]).1) is None,
    ensures
        object_error(o, n) is None,
    decreases n,
{
    if n > 0 {
        lemma_object_error_none(o, (n - 1) as nat);
    }
}

/// Decoding the JSON document that an encoded value is written as gives the
/// value back, with bytes as the string of their base64 text, for values none
/// of whose maps is a single `/` entry holding a string or bytes and whose
/// version 0 links have 32-byte digests. (`encode` ensures `links_read_back`.)
pub proof fn lemma_decode_inverts_encode(v: Ipld, j: Json)
    requires
        encodes_as(v, j),
        encode_error(v) is None,
        links_read_back(v),
        plain(v),
    ensures
        decode_error(j) is None,
        forall|w: Ipld| decodes_to(j, w) ==> reads_back(v, w),
    decreases v,
{
    match v {
        Ipld::Integer(i) => {
            crate::number::lemma_int_text_reads_back(i as int);
        },
        Ipld::Float(t) => {
            crate::number::lemma_float_text_is_no_int(key_bytes(t@));
        },
        Ipld::List(l) => {
            let a = j->Array_0;
            assert forall|i: int| 0 <= i < a.len() implies decode_error(#[trigger] a[i]) is None
                && (forall|w: Ipld| decodes_to(a[i], w) ==> reads_back(l[i], w)) by {
                assert(encodes_as(l[i], a[i]));
                assert(links_read_back(l[i]) && plain(l[i]));
                lemma_items_error_none(l, l.len() as nat, i);
                lemma_decode_inverts_encode(l[i], a[i]);
            }
            lemma_array_error_none(a, a.len() as nat);
            assert forall|w: Ipld| decodes_to(j, w) implies reads_back(v, w) by {
                let l2 = w->List_0;
                assert forall|i: int| 0 <= i < l.len() implies reads_back(#[trigger] l[i], l2[i]) by {
                    assert(decodes_to(a[i], l2[i]));
                }
            }
        },
        Ipld::Dict(m) => {
            let o = j->Object_0;
            assert forall|i: int| 0 <= i < o.len() implies decode_error((#[trigger] o[i]).1) is None
                && m[i].0 == o[i].0 && (forall|w: Ipld| decodes_to(o[i].1, w) ==> reads_back(m[i].1, w)) by {
                assert(o[i].0 == m[i].0 && encodes_as(m[i].1, o[i].1));
                assert(plain(m[i].1) && links_read_back(m[i].1));
                lemma_entries_error_none(m, m.len() as nat, i);
                lemma_decode_inverts_encode(m[i].1, o[i].1);
            }
            if o.len() == 1 && o[0].0@ == link_key() && o[0].1 is Str {
                assert(encodes_as(m[0].1, o[0].1));
                assert(m[0].1 is String || m[0].1 is Bytes);
            }
            assert(link_text(o) is None);
            lemma_object_error_none(o, o.len() as nat);
            assert forall|w: Ipld| decodes_to(j, w) implies reads_back(v, w) by {
                let d = w->Dict_0;
                assert forall|i: int| 0 <= i < m.len() implies d[i].0 == (#[trigger] m[i]).0
                    && reads_back(m[i].1, d[i].1) by {
                    assert(d[i].0 == o[i].0 && decodes_to(o[i].1, d[i].1));
                }
            }
        },
        Ipld::Link(c) => {
            let o = j->Object_0;
            assert(link_text(o) is Some);
        },
        _ => {},
    }
}

} // verus!
