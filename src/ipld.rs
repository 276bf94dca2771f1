//! The IPLD data model.
use vstd::prelude::*;
use crate::cid::Cid;

verus! {

/// An IPLD value.
///
/// A float is held as its JSON number text (it has a fraction or an exponent).
/// A map holds its entries in strictly ascending order of the keys' UTF-8 bytes,
/// which `Ipld::insert` keeps.
#[derive(Debug, PartialEq, Eq)]
pub enum Ipld {
    Null,
    Bool(bool),
    Integer(i128),
    Float(String),
    String(String),
    Bytes(Vec<u8>),
    List(Vec<Ipld>),
    Dict(Vec<(String, Ipld)>),
    Link(Cid),
}

/// The UTF-8 bytes of a key: maps are ordered by them.
pub open spec fn key_bytes(k: Seq<char>) -> Seq<u8> {
    vstd::utf8::encode_utf8(k)
}

/// Strict lexicographic order on byte strings.
pub open spec fn bytes_lt(a: Seq<u8>, b: Seq<u8>) -> bool
    decreases a.len(),
{
    if a.len() == 0 {
        b.len() > 0
    } else if b.len() == 0 {
        false
    } else if a[0] != b[0] {
        a[0] < b[0]
    } else {
        bytes_lt(a.drop_first(), b.drop_first())
    }
}

/// Entries whose keys ascend strictly.
pub open spec fn keys_ascending(m: Seq<(String, Ipld)>) -> bool {
    forall|i: int, j: int|
        0 <= i < j < m.len() ==> bytes_lt(key_bytes(#[trigger] m[i].0@), key_bytes(#[trigger] m[j].0@))
}

proof fn lemma_lt_irreflexive(a: Seq<u8>)
    ensures
        !bytes_lt(a, a),
    decreases a.len(),
{
    if a.len() > 0 {
        lemma_lt_irreflexive(a.drop_first());
    }
}

proof fn lemma_lt_asymmetric(a: Seq<u8>, b: Seq<u8>)
    ensures
        bytes_lt(a, b) ==> !bytes_lt(b, a),
    decreases a.len(),
{
    if a.len() > 0 && b.len() > 0 && a[0] == b[0] {
        lemma_lt_asymmetric(a.drop_first(), b.drop_first());
    }
}

proof fn lemma_lt_transitive(a: Seq<u8>, b: Seq<u8>, c: Seq<u8>)
    requires
        bytes_lt(a, b),
        bytes_lt(b, c),
    ensures
        bytes_lt(a, c),
    decreases a.len(),
{
    if a.len() > 0 && b.len() > 0 && c.len() > 0 && a[0] == b[0] && b[0] == c[0] {
        lemma_lt_transitive(a.drop_first(), b.drop_first(), c.drop_first());
    }
}

proof fn lemma_lt_total(a: Seq<u8>, b: Seq<u8>)
    requires
        a != b,
    ensures
        bytes_lt(a, b) || bytes_lt(b, a),
    decreases a.len(),
{
    if a.len() > 0 && b.len() > 0 && a[0] == b[0] {
        if a.drop_first() == b.drop_first() {
            assert(a =~= seq![a[0]] + a.drop_first());
            assert(b =~= seq![b[0]] + b.drop_first());
        }
        lemma_lt_total(a.drop_first(), b.drop_first());
    } else if a.len() == 0 && b.len() == 0 {
        assert(a =~= b);
    }
}

/// Distinct keys have distinct bytes.
proof fn lemma_key_bytes_injective(a: Seq<char>, b: Seq<char>)
    ensures
        key_bytes(a) == key_bytes(b) ==> a == b,
{
    vstd::utf8::encode_utf8_decode_utf8(a);
    vstd::utf8::encode_utf8_decode_utf8(b);
}

/// Two keys are ordered one way or the other, unless they are equal.
proof fn lemma_keys_total(a: Seq<char>, b: Seq<char>)
    ensures
        a == b || bytes_lt(key_bytes(a), key_bytes(b)) || bytes_lt(key_bytes(b), key_bytes(a)),
        !(bytes_lt(key_bytes(a), key_bytes(b)) && bytes_lt(key_bytes(b), key_bytes(a))),
        !bytes_lt(key_bytes(a), key_bytes(a)),
{
    lemma_key_bytes_injective(a, b);
    lemma_lt_irreflexive(key_bytes(a));
    lemma_lt_asymmetric(key_bytes(a), key_bytes(b));
    if a != b {
        lemma_lt_total(key_bytes(a), key_bytes(b));
    }
}

/// Compares two keys by their UTF-8 bytes.
pub fn key_lt(a: &String, b: &String) -> (r: bool)
    ensures
        r == bytes_lt(key_bytes(a@), key_bytes(b@)),
{
    let x = a.as_str().as_bytes();
    let y = b.as_str().as_bytes();
    let mut i: usize = 0;
    assert(x@.subrange(0, x@.len() as int) =~= x@);
    assert(y@.subrange(0, y@.len() as int) =~= y@);
    while i < x.len() && i < y.len()
        invariant
            0 <= i <= x@.len(),
            i <= y@.len(),
            x@ == key_bytes(a@),
            y@ == key_bytes(b@),
            bytes_lt(x@, y@) == bytes_lt(x@.subrange(i as int, x@.len() as int), y@.subrange(i as int, y@.len() as int)),
        decreases x@.len() - i,
    {
        assert(x@.subrange(i as int, x@.len() as int).drop_first() =~= x@.subrange(i + 1, x@.len() as int));
        assert(y@.subrange(i as int, y@.len() as int).drop_first() =~= y@.subrange(i + 1, y@.len() as int));
        if x[i] != y[i] {
            return x[i] < y[i];
        }
        i = i + 1;
    }
    i < y.len()
}

/// The value that a map's entries give a key, if any.
pub open spec fn lookup(m: Seq<(String, Ipld)>, k: Seq<char>) -> Option<Ipld> {
    if exists|i: int| 0 <= i < m.len() && (#[trigger] m[i]).0@ == k {
        Some(m[choose|i: int| 0 <= i < m.len() && (#[trigger] m[i]).0@ == k].1)
    } else {
        None
    }
}

impl Ipld {
    /// Sets `key` to `value` in the entries of a map, in place of any value
    /// that the key had; the entries stay in ascending key order.
    pub fn insert(entries: &mut Vec<(String, Ipld)>, key: String, value: Ipld)
        requires
            keys_ascending(old(entries)@),
        ensures
            keys_ascending(final(entries)@),
            final(entries)@.contains((key, value)),
            forall|e: (String, Ipld)|
                old(entries)@.contains(e) && e.0@ != key@ ==> final(entries)@.contains(e),
            forall|e: (String, Ipld)| #[trigger]
                final(entries)@.contains(e) ==> e == (key, value) || (old(entries)@.contains(e)
                    && e.0@ != key@),
            final(entries)@.len() == old(entries)@.len() + if lookup(old(entries)@, key@) is Some {
                0int
            } else {
                1int
            },
    {
        let ghost old_m = entries@;
        let mut i: usize = 0;
        while i < entries.len() && key_lt(&entries[i].0, &key)
            invariant
                0 <= i <= entries@.len(),
                entries@ == old_m,
                forall|j: int| 0 <= j < i ==> bytes_lt(key_bytes((#[trigger] old_m[j]).0@), key_bytes(key@)),
            decreases entries@.len() - i,
        {
            i = i + 1;
        }
        if i < entries.len() && entries[i].0 == key {
            proof {
                assert forall|j: int| 0 <= j < old_m.len() && j != i implies (#[trigger] old_m[j]).0@ != key@ by {
                    lemma_keys_total(old_m[j].0@, key@);
                    if j < i {
                    } else {
                        assert(bytes_lt(key_bytes(old_m[i as int].0@), key_bytes(old_m[j].0@)));
                    }
                }
            }
            entries.set(i, (key, value));
            proof {
                let m = entries@;
                assert(m[i as int] == (key, value));
                assert forall|e: (String, Ipld)|
                    old_m.contains(e) && e.0@ != key@ implies m.contains(e) by {
                    let j = choose|j: int| 0 <= j < old_m.len() && old_m[j] == e;
                    assert(m[j] == e);
                }
                assert forall|e: (String, Ipld)| #[trigger] m.contains(e) implies e == (key, value)
                    || (old_m.contains(e) && e.0@ != key@) by {
                    let j = choose|j: int| 0 <= j < m.len() && m[j] == e;
                    if j != i {
                        assert(old_m[j] == e);
                    }
                }
            }
        } else {
            proof {
                if i < old_m.len() {
                    lemma_keys_total(old_m[i as int].0@, key@);
                }
                assert forall|j: int| 0 <= j < old_m.len() implies (#[trigger] old_m[j]).0@ != key@ by {
                    lemma_keys_total(old_m[j].0@, key@);
                    if j > i {
                        assert(bytes_lt(key_bytes(old_m[i as int].0@), key_bytes(old_m[j].0@)));
                        lemma_lt_transitive(key_bytes(key@), key_bytes(old_m[i as int].0@), key_bytes(old_m[j].0@));
                    }
                }
            }
            entries.insert(i, (key, value));
            proof {
                let m = entries@;
                assert(m[i as int] == (key, value));
                assert forall|a: int, b: int| 0 <= a < b < m.len() implies bytes_lt(
                    key_bytes(#[trigger] m[a].0@), key_bytes(#[trigger] m[b].0@)) by {
                    if b == i {
                    } else if a == i {
                        if b > i + 1 {
                            lemma_lt_transitive(key_bytes(key@), key_bytes(old_m[i as int].0@), key_bytes(old_m[b - 1].0@));
                        }
                    } else if a < i && b > i {
                        assert(bytes_lt(key_bytes(old_m[a].0@), key_bytes(old_m[b - 1].0@)));
                    } else if a > i {
                        assert(bytes_lt(key_bytes(old_m[a - 1].0@), key_bytes(old_m[b - 1].0@)));
                    }
                }
                assert forall|e: (String, Ipld)|
                    old_m.contains(e) && e.0@ != key@ implies m.contains(e) by {
                    let j = choose|j: int| 0 <= j < old_m.len() && old_m[j] == e;
                    if j < i {
                        assert(m[j] == e);
                    } else {
                        assert(m[j + 1] == e);
                    }
                }
                assert forall|e: (String, Ipld)| #[trigger] m.contains(e) implies e == (key, value)
                    || (old_m.contains(e) && e.0@ != key@) by {
                    let j = choose|j: int| 0 <= j < m.len() && m[j] == e;
                    if j < i {
                        assert(old_m[j] == e);
                        lemma_keys_total(e.0@, key@);
                    } else if j > i {
                        assert(old_m[j - 1] == e);
                        lemma_keys_total(e.0@, key@);
                        if j - 1 > i {
                            lemma_lt_transitive(key_bytes(key@), key_bytes(old_m[i as int].0@), key_bytes(e.0@));
                        }
                    }
                }
            }
        }
    }
}

/// A map's entries are determined by what they hold: two sequences of entries
/// in ascending key order that hold the same entries are the same sequence, so
/// the order in which a map was built does not show in it or in its encoding.
pub proof fn lemma_entries_canonical(a: Seq<(String, Ipld)>, b: Seq<(String, Ipld)>)
    requires
        keys_ascending(a),
        keys_ascending(b),
        forall|e: (String, Ipld)| a.contains(e) <==> b.contains(e),
    ensures
        a == b,
    decreases a.len(),
{
    if a.len() == 0 {
        if b.len() > 0 {
            assert(b.contains(b[0]));
        }
        assert(a =~= b);
    } else {
        assert(a.contains(a[0]));
        assert(b.len() > 0);
        assert(b.contains(b[0]));
        let j = choose|j: int| 0 <= j < b.len() && b[j] == a[0];
        let k = choose|k: int| 0 <= k < a.len() && a[k] == b[0];
        lemma_keys_total(a[0].0@, b[0].0@);
        if j > 0 {
            assert(bytes_lt(key_bytes(b[0].0@), key_bytes(b[j].0@)));
            if k > 0 {
                assert(bytes_lt(key_bytes(a[0].0@), key_bytes(a[k].0@)));
            }
        }
        assert(a[0] == b[0]);
        let a1 = a.drop_first();
        let b1 = b.drop_first();
        assert forall|e: (String, Ipld)| a1.contains(e) <==> b1.contains(e) by {
            if a1.contains(e) {
                let m = choose|m: int| 0 <= m < a1.len() && a1[m] == e;
                assert(a[m + 1] == e);
                assert(bytes_lt(key_bytes(a[0].0@), key_bytes(a[m + 1].0@)));
                lemma_keys_total(a[0].0@, e.0@);
                assert(b.contains(e));
                let n = choose|n: int| 0 <= n < b.len() && b[n] == e;
                assert(n != 0);
                assert(b1[n - 1] == e);
            }
            if b1.contains(e) {
                let m = choose|m: int| 0 <= m < b1.len() && b1[m] == e;
                assert(b[m + 1] == e);
                assert(bytes_lt(key_bytes(b[0].0@), key_bytes(b[m + 1].0@)));
                lemma_keys_total(b[0].0@, e.0@);
                assert(a.contains(e));
                let n = choose|n: int| 0 <= n < a.len() && a[n] == e;
                assert(n != 0);
                assert(a1[n - 1] == e);
            }
        }
        assert forall|x: int, y: int| 0 <= x < y < a1.len() implies bytes_lt(
            key_bytes(#[trigger] a1[x].0@), key_bytes(#[trigger] a1[y].0@)) by {
            assert(a1[x] == a[x + 1] && a1[y] == a[y + 1]);
        }
        assert forall|x: int, y: int| 0 <= x < y < b1.len() implies bytes_lt(
            key_bytes(#[trigger] b1[x].0@), key_bytes(#[trigger] b1[y].0@)) by {
            assert(b1[x] == b[x + 1] && b1[y] == b[y + 1]);
        }
        lemma_entries_canonical(a1, b1);
        assert(a =~= seq![a[0]] + a1);
        assert(b =~= seq![b[0]] + b1);
    }
}

} // verus!

verus! {

/// Entries whose neighbouring keys ascend are in ascending key order.
pub proof fn lemma_neighbours_ascending(m: Seq<(String, Ipld)>)
    requires
        forall|j: int|
            0 < j < m.len() ==> bytes_lt(key_bytes(#[trigger] m[j - 1].0@), key_bytes(m[j].0@)),
    ensures
        keys_ascending(m),
{
    assert forall|i: int, j: int| 0 <= i < j < m.len() implies bytes_lt(
        key_bytes(#[trigger] m[i].0@), key_bytes(#[trigger] m[j].0@)) by {
        lemma_neighbours_reach(m, i, j);
    }
}

proof fn lemma_neighbours_reach(m: Seq<(String, Ipld)>, i: int, j: int)
    requires
        0 <= i < j < m.len(),
        forall|j: int|
            0 < j < m.len() ==> bytes_lt(key_bytes(#[trigger] m[j - 1].0@), key_bytes(m[j].0@)),
    ensures
        bytes_lt(key_bytes(m[i].0@), key_bytes(m[j].0@)),
    decreases j - i,
{
    assert(bytes_lt(key_bytes(m[j - 1].0@), key_bytes(m[j].0@)));
    if j > i + 1 {
        lemma_neighbours_reach(m, i, j - 1);
        lemma_lt_transitive(key_bytes(m[i].0@), key_bytes(m[j - 1].0@), key_bytes(m[j].0@));
    }
}

} // verus!
