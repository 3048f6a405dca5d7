//! Canonical serialization of a tree for content hashing.
//!
//! Each node contributes its canonical (path, type, value) tuple and
//! nothing else; children order is fixed by the canonical path order of
//! the flat tree. Strings are length-prefixed with an eight-byte
//! big-endian length and node types carry explicit tags, so an empty
//! container and a leaf with an empty value serialize differently.

use vstd::prelude::*;

use crate::model::ConfigNodeType;
use crate::tree::{entry_key, ConfigEntry};
use vstd::utf8::encode_utf8;

verus! {

/// The canonical (path, type, value) tuple sequence of a tree: the part
/// of the tree its content hash is computed over.
pub open spec fn canon(s: Seq<ConfigEntry>) -> Seq<(Seq<char>, ConfigNodeType, Option<Seq<char>>)> {
    s.map_values(|e: ConfigEntry| entry_key(e))
}

/// Eight big-endian bytes of a 64-bit length.
pub open spec fn enc_u64(n: u64) -> Seq<u8> {
    seq![
        (n >> 56) as u8,
        (n >> 48) as u8,
        (n >> 40) as u8,
        (n >> 32) as u8,
        (n >> 24) as u8,
        (n >> 16) as u8,
        (n >> 8) as u8,
        n as u8,
    ]
}

/// A string, as its length-prefixed UTF-8 bytes.
pub open spec fn enc_str(s: Seq<char>) -> Seq<u8> {
    enc_u64(encode_utf8(s).len() as u64) + encode_utf8(s)
}

/// Tag byte of a node type.
pub open spec fn type_tag(t: ConfigNodeType) -> u8 {
    match t {
        ConfigNodeType::Leaf => 76,
        ConfigNodeType::Container => 67,
        ConfigNodeType::Tag => 84,
        ConfigNodeType::List => 83,
    }
}

/// One canonical tuple.
pub open spec fn enc_key(k: (Seq<char>, ConfigNodeType, Option<Seq<char>>)) -> Seq<u8> {
    enc_str(k.0) + seq![type_tag(k.1)] + match k.2 {
        Some(v) => seq![1u8] + enc_str(v),
        None => seq![0u8],
    }
}

/// A whole canonical tuple sequence.
pub open spec fn enc_keys(c: Seq<(Seq<char>, ConfigNodeType, Option<Seq<char>>)>) -> Seq<u8>
    decreases c.len(),
{
    if c.len() == 0 {
        Seq::empty()
    } else {
        enc_key(c[0]) + enc_keys(c.drop_first())
    }
}

/// The canonical serialization of a tree.
pub open spec fn enc_tree(s: Seq<ConfigEntry>) -> Seq<u8> {
    enc_keys(canon(s))
}

/// A string whose UTF-8 image fits the length prefix. Every string a
/// program can hold does.
pub open spec fn str_fits(s: Seq<char>) -> bool {
    encode_utf8(s).len() < 0x10000000000000000
}

/// A canonical tuple whose strings fit the length prefixes.
pub open spec fn key_fits(k: (Seq<char>, ConfigNodeType, Option<Seq<char>>)) -> bool {
    &&& str_fits(k.0)
    &&& match k.2 {
        Some(v) => str_fits(v),
        None => true,
    }
}

/// Equal big-endian images come from equal numbers.
pub proof fn lemma_enc_u64_injective(a: u64, b: u64)
    requires
        enc_u64(a) == enc_u64(b),
    ensures
        a == b,
{
    assert(enc_u64(a)[0] == enc_u64(b)[0]);
    assert(enc_u64(a)[1] == enc_u64(b)[1]);
    assert(enc_u64(a)[2] == enc_u64(b)[2]);
    assert(enc_u64(a)[3] == enc_u64(b)[3]);
    assert(enc_u64(a)[4] == enc_u64(b)[4]);
    assert(enc_u64(a)[5] == enc_u64(b)[5]);
    assert(enc_u64(a)[6] == enc_u64(b)[6]);
    assert(enc_u64(a)[7] == enc_u64(b)[7]);
    assert((a >> 56) as u8 == (b >> 56) as u8 && (a >> 48) as u8 == (b >> 48) as u8 && (a >> 40)
        as u8 == (b >> 40) as u8 && (a >> 32) as u8 == (b >> 32) as u8 && (a >> 24) as u8 == (b
        >> 24) as u8 && (a >> 16) as u8 == (b >> 16) as u8 && (a >> 8) as u8 == (b >> 8) as u8
        && a as u8 == b as u8 ==> a == b) by (bit_vector);
}

/// Equal leading parts of equal concatenations leave equal rests.
pub proof fn lemma_concat_cancel(a: Seq<u8>, b: Seq<u8>, r1: Seq<u8>, r2: Seq<u8>)
    requires
        a + r1 == b + r2,
        a == b,
    ensures
        r1 == r2,
{
    assert((a + r1).len() == a.len() + r1.len());
    assert((b + r2).len() == b.len() + r2.len());
    assert(r1.len() == r2.len());
    assert forall|i: int| 0 <= i < r1.len() implies r1[i] == r2[i] by {
        assert((a + r1)[a.len() + i] == r1[i]);
        assert((b + r2)[b.len() + i] == r2[i]);
    }
    assert(r1 =~= r2);
}

/// A length-prefixed string at the front of a byte stream determines
/// itself: equal streams parse into equal strings and equal rests.
pub proof fn lemma_enc_str_prefix(s1: Seq<char>, s2: Seq<char>, r1: Seq<u8>, r2: Seq<u8>)
    requires
        enc_str(s1) + r1 == enc_str(s2) + r2,
        str_fits(s1),
        str_fits(s2),
    ensures
        s1 == s2,
        r1 == r2,
{
    let b1 = encode_utf8(s1);
    let b2 = encode_utf8(s2);
    let l1 = enc_u64(b1.len() as u64);
    let l2 = enc_u64(b2.len() as u64);
    let w1 = enc_str(s1) + r1;
    let w2 = enc_str(s2) + r2;
    assert(w1 =~= l1 + (b1 + r1));
    assert(w2 =~= l2 + (b2 + r2));
    assert(l1 =~= l2) by {
        assert forall|i: int| 0 <= i < 8 implies l1[i] == l2[i] by {
            assert((l1 + (b1 + r1))[i] == l1[i]);
            assert((l2 + (b2 + r2))[i] == l2[i]);
        }
    }
    lemma_enc_u64_injective(b1.len() as u64, b2.len() as u64);
    assert(b1.len() == b2.len());
    assert(b1 =~= b2) by {
        assert forall|i: int| 0 <= i < b1.len() implies b1[i] == b2[i] by {
            assert((b1 + r1)[i] == b1[i]);
            assert((b2 + r2)[i] == b2[i]);
            assert((l1 + (b1 + r1))[8 + i] == (b1 + r1)[i]);
            assert((l2 + (b2 + r2))[8 + i] == (b2 + r2)[i]);
        }
    }
    vstd::utf8::encode_utf8_decode_utf8(s1);
    vstd::utf8::encode_utf8_decode_utf8(s2);
    assert(s1 == s2);
    lemma_concat_cancel(enc_str(s1), enc_str(s2), r1, r2);
}

/// Node-type tags are distinct.
pub proof fn lemma_type_tag_injective(t1: ConfigNodeType, t2: ConfigNodeType)
    requires
        type_tag(t1) == type_tag(t2),
    ensures
        t1 == t2,
{
}

/// A canonical tuple at the front of a byte stream determines itself.
pub proof fn lemma_enc_key_prefix(
    k1: (Seq<char>, ConfigNodeType, Option<Seq<char>>),
    k2: (Seq<char>, ConfigNodeType, Option<Seq<char>>),
    r1: Seq<u8>,
    r2: Seq<u8>,
)
    requires
        enc_key(k1) + r1 == enc_key(k2) + r2,
        key_fits(k1),
        key_fits(k2),
    ensures
        k1 == k2,
        r1 == r2,
{
    let tail1 = seq![type_tag(k1.1)] + (match k1.2 {
        Some(v) => seq![1u8] + enc_str(v),
        None => seq![0u8],
    }) + r1;
    let tail2 = seq![type_tag(k2.1)] + (match k2.2 {
        Some(v) => seq![1u8] + enc_str(v),
        None => seq![0u8],
    }) + r2;
    assert(enc_str(k1.0) + tail1 =~= enc_key(k1) + r1);
    assert(enc_str(k2.0) + tail2 =~= enc_key(k2) + r2);
    lemma_enc_str_prefix(k1.0, k2.0, tail1, tail2);
    assert(tail1[0] == type_tag(k1.1));
    assert(tail2[0] == type_tag(k2.1));
    lemma_type_tag_injective(k1.1, k2.1);
    match (k1.2, k2.2) {
        (None, None) => {
            assert(r1 =~= r2) by {
                assert(tail1.len() == tail2.len());
                assert forall|i: int| 0 <= i < r1.len() implies r1[i] == r2[i] by {
                    assert(tail1[2 + i] == r1[i]);
                    assert(tail2[2 + i] == r2[i]);
                }
            }
        },
        (Some(v1), Some(v2)) => {
            assert(tail1[1] == 1u8);
            let vtail1 = enc_str(v1) + r1;
            let vtail2 = enc_str(v2) + r2;
            assert(vtail1 =~= tail1.skip(2));
            assert(vtail2 =~= tail2.skip(2));
            assert(vtail1 =~= vtail2) by {
                assert(tail1 == tail2);
            }
            lemma_enc_str_prefix(v1, v2, r1, r2);
        },
        (Some(v1), None) => {
            assert(tail1[1] == 1u8);
            assert(tail2[1] == 0u8);
            assert(false);
        },
        (None, Some(v2)) => {
            assert(tail1[1] == 0u8);
            assert(tail2[1] == 1u8);
            assert(false);
        },
    }
    assert(k1 == k2);
}

/// An encoded tuple is never empty.
pub proof fn lemma_enc_key_len(k: (Seq<char>, ConfigNodeType, Option<Seq<char>>))
    ensures
        enc_key(k).len() >= 10,
{
}

/// The canonical serialization is injective: two tuple sequences with
/// the same bytes are the same sequences. Equal content hashes can
/// therefore differ structurally only through a collision of the digest
/// itself.
pub proof fn lemma_enc_keys_injective(
    c1: Seq<(Seq<char>, ConfigNodeType, Option<Seq<char>>)>,
    c2: Seq<(Seq<char>, ConfigNodeType, Option<Seq<char>>)>,
)
    requires
        enc_keys(c1) == enc_keys(c2),
        forall|i: int| 0 <= i < c1.len() ==> key_fits(#[trigger] c1[i]),
        forall|i: int| 0 <= i < c2.len() ==> key_fits(#[trigger] c2[i]),
    ensures
        c1 == c2,
    decreases c1.len(),
{
    if c1.len() == 0 && c2.len() == 0 {
        assert(c1 =~= c2);
    } else if c1.len() == 0 {
        lemma_enc_key_len(c2[0]);
        assert(enc_keys(c2).len() >= 10);
        assert(false);
    } else if c2.len() == 0 {
        lemma_enc_key_len(c1[0]);
        assert(enc_keys(c1).len() >= 10);
        assert(false);
    } else {
        assert(key_fits(c1[0]));
        assert(key_fits(c2[0]));
        lemma_enc_key_prefix(c1[0], c2[0], enc_keys(c1.drop_first()), enc_keys(c2.drop_first()));
        assert forall|i: int| 0 <= i < c1.drop_first().len() implies key_fits(
            #[trigger] c1.drop_first()[i],
        ) by {
            assert(c1.drop_first()[i] == c1[i + 1]);
        }
        assert forall|i: int| 0 <= i < c2.drop_first().len() implies key_fits(
            #[trigger] c2.drop_first()[i],
        ) by {
            assert(c2.drop_first()[i] == c2[i + 1]);
        }
        lemma_enc_keys_injective(c1.drop_first(), c2.drop_first());
        assert(c1 =~= seq![c1[0]] + c1.drop_first());
        assert(c2 =~= seq![c2[0]] + c2.drop_first());
    }
}

/// Append the eight big-endian bytes of `n`.
fn push_u64(out: &mut Vec<u8>, n: u64)
    ensures
        final(out)@ == old(out)@ + enc_u64(n),
{
    let ghost pre = out@;
    out.push((n >> 56) as u8);
    out.push((n >> 48) as u8);
    out.push((n >> 40) as u8);
    out.push((n >> 32) as u8);
    out.push((n >> 24) as u8);
    out.push((n >> 16) as u8);
    out.push((n >> 8) as u8);
    out.push(n as u8);
    proof {
        assert(out@ =~= pre + enc_u64(n));
    }
}

/// Append the length-prefixed UTF-8 bytes of `s`.
fn push_str(out: &mut Vec<u8>, s: &str)
    ensures
        final(out)@ == old(out)@ + enc_str(s@),
{
    let ghost pre = out@;
    let bytes = s.as_bytes_vec();
    push_u64(out, bytes.len() as u64);
    let ghost mid = out@;
    out.append(&mut { bytes });
    proof {
        assert(out@ =~= pre + enc_str(s@));
    }
}

/// Serialize a tree canonically, for hashing.
pub fn encode_tree(t: &crate::tree::ConfigTree) -> (r: Vec<u8>)
    ensures
        r@ == enc_tree(t@),
{
    let mut out: Vec<u8> = Vec::new();
    let n = t.len();
    let mut i: usize = 0;
    proof {
        assert(canon(t@).skip(0) =~= canon(t@));
        assert(out@ + enc_keys(canon(t@)) =~= enc_keys(canon(t@)));
    }
    while i < n
        invariant
            i <= n,
            n == t@.len(),
            canon(t@).len() == n,
            enc_tree(t@) == out@ + enc_keys(canon(t@).skip(i as int)),
        decreases n - i,
    {
        let e = t.entry_at(i);
        let ghost pre = out@;
        proof {
            assert(canon(t@)[i as int] == entry_key(t@[i as int]));
            assert(canon(t@).skip(i as int)[0] == canon(t@)[i as int]);
            assert(canon(t@).skip(i as int).drop_first() =~= canon(t@).skip(i + 1));
        }
        push_str(&mut out, e.path.as_str());
        let tag: u8 = match e.node_type {
            ConfigNodeType::Leaf => 76,
            ConfigNodeType::Container => 67,
            ConfigNodeType::Tag => 84,
            ConfigNodeType::List => 83,
        };
        out.push(tag);
        match &e.value {
            Some(v) => {
                out.push(1);
                push_str(&mut out, v.as_str());
            },
            None => {
                out.push(0);
            },
        }
        proof {
            assert(out@ =~= pre + enc_key(canon(t@)[i as int]));
            assert(enc_key(canon(t@)[i as int]) + enc_keys(canon(t@).skip(i + 1)) == enc_keys(
                canon(t@).skip(i as int),
            ));
            assert(out@ + enc_keys(canon(t@).skip(i + 1)) =~= pre + enc_keys(
                canon(t@).skip(i as int),
            ));
        }
        i = i + 1;
    }
    proof {
        assert(canon(t@).skip(n as int) =~= Seq::<
            (Seq<char>, ConfigNodeType, Option<Seq<char>>),
        >::empty());
        assert(out@ + Seq::<u8>::empty() =~= out@);
    }
    out
}

} // verus!
