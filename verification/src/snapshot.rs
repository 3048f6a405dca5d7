//! Content-addressed snapshots.
//!
//! A snapshot is an immutable tree together with the hex digest of its
//! canonical serialization; its identity is that hash. The store keeps
//! at most one snapshot per hash: committing a tree whose hash is
//! already present hands back the existing entry.

use vstd::prelude::*;

use sha2::Digest;

use crate::encode::{canon, enc_tree, encode_tree};
use crate::model::ConfigNodeType;
use crate::tree::{entry_like, tree_wf, ConfigEntry, ConfigTree};

verus! {

/// Digest of the SHA-256 function, as sha2 computes it.
pub uninterp spec fn sha256_of(data: Seq<u8>) -> Seq<u8>;

/// Relies on sha2's Sha256: the digest depends on the input bytes alone
/// and is 32 bytes long.
#[verifier::external_body]
fn sha256_digest(data: &[u8]) -> (r: Vec<u8>)
    ensures
        r@ == sha256_of(data@),
        r@.len() == 32,
{
    let mut hasher = sha2::Sha256::new();
    hasher.update(data);
    hasher.finalize().to_vec()
}

/// Lower-case hex digit for a value below sixteen.
pub open spec fn hex_digit(d: int) -> char {
    if d == 0 {
        '0'
    } else if d == 1 {
        '1'
    } else if d == 2 {
        '2'
    } else if d == 3 {
        '3'
    } else if d == 4 {
        '4'
    } else if d == 5 {
        '5'
    } else if d == 6 {
        '6'
    } else if d == 7 {
        '7'
    } else if d == 8 {
        '8'
    } else if d == 9 {
        '9'
    } else if d == 10 {
        'a'
    } else if d == 11 {
        'b'
    } else if d == 12 {
        'c'
    } else if d == 13 {
        'd'
    } else if d == 14 {
        'e'
    } else {
        'f'
    }
}

/// Lower-case hex encoding of a byte sequence, two digits per byte.
pub open spec fn hex_of(b: Seq<u8>) -> Seq<char>
    decreases b.len(),
{
    if b.len() == 0 {
        Seq::empty()
    } else {
        seq![hex_digit((b.first() >> 4) as int), hex_digit((b.first() & 15) as int)] + hex_of(
            b.drop_first(),
        )
    }
}

/// Append one hex digit to a string.
fn append_hex_digit(out: &mut String, d: u8)
    requires
        d < 16,
    ensures
        final(out)@ == old(out)@ + seq![hex_digit(d as int)],
{
    match d {
        0 => {
            proof {
                reveal_strlit("0");
            }
            out.append("0")
        },
        1 => {
            proof {
                reveal_strlit("1");
            }
            out.append("1")
        },
        2 => {
            proof {
                reveal_strlit("2");
            }
            out.append("2")
        },
        3 => {
            proof {
                reveal_strlit("3");
            }
            out.append("3")
        },
        4 => {
            proof {
                reveal_strlit("4");
            }
            out.append("4")
        },
        5 => {
            proof {
                reveal_strlit("5");
            }
            out.append("5")
        },
        6 => {
            proof {
                reveal_strlit("6");
            }
            out.append("6")
        },
        7 => {
            proof {
                reveal_strlit("7");
            }
            out.append("7")
        },
        8 => {
            proof {
                reveal_strlit("8");
            }
            out.append("8")
        },
        9 => {
            proof {
                reveal_strlit("9");
            }
            out.append("9")
        },
        10 => {
            proof {
                reveal_strlit("a");
            }
            out.append("a")
        },
        11 => {
            proof {
                reveal_strlit("b");
            }
            out.append("b")
        },
        12 => {
            proof {
                reveal_strlit("c");
            }
            out.append("c")
        },
        13 => {
            proof {
                reveal_strlit("d");
            }
            out.append("d")
        },
        14 => {
            proof {
                reveal_strlit("e");
            }
            out.append("e")
        },
        _ => {
            proof {
                reveal_strlit("f");
            }
            out.append("f")
        },
    }
}

/// Hex-encode a byte sequence.
fn to_hex(data: &Vec<u8>) -> (r: String)
    ensures
        r@ == hex_of(data@),
        r@.len() == 2 * data@.len(),
{
    let mut out = String::new();
    let n = data.len();
    let mut i: usize = 0;
    proof {
        assert(data@.skip(0) =~= data@);
        assert(out@ + hex_of(data@) =~= hex_of(data@));
        lemma_hex_len(data@);
    }
    while i < n
        invariant
            i <= n,
            n == data@.len(),
            hex_of(data@) == out@ + hex_of(data@.skip(i as int)),
            out@.len() == 2 * i,
        decreases n - i,
    {
        let b = data[i];
        let hi = b >> 4;
        let lo = b & 15;
        proof {
            assert(b >> 4 < 16) by (bit_vector);
            assert(b & 15 < 16) by (bit_vector);
            assert(data@.skip(i as int)[0] == data@[i as int]);
            assert(data@.skip(i as int).drop_first() =~= data@.skip(i + 1));
        }
        let ghost pre = out@;
        append_hex_digit(&mut out, hi);
        append_hex_digit(&mut out, lo);
        proof {
            assert(out@ =~= pre + seq![
                hex_digit((data@[i as int] >> 4) as int),
                hex_digit((data@[i as int] & 15) as int),
            ]);
            assert(out@ + hex_of(data@.skip(i + 1)) =~= pre + hex_of(data@.skip(i as int)));
        }
        i = i + 1;
    }
    proof {
        assert(data@.skip(n as int) =~= Seq::<u8>::empty());
        assert(out@ + Seq::<char>::empty() =~= out@);
        lemma_hex_len(data@);
    }
    out
}

pub proof fn lemma_hex_len(b: Seq<u8>)
    ensures
        hex_of(b).len() == 2 * b.len(),
    decreases b.len(),
{
    if b.len() > 0 {
        lemma_hex_len(b.drop_first());
    }
}

/// The content hash of a tree: the lower-case hex SHA-256 digest of its
/// canonical serialization. It depends on the canonical (path, type,
/// value) tuples alone.
pub open spec fn spec_hash(s: Seq<ConfigEntry>) -> Seq<char> {
    hex_of(sha256_of(enc_tree(s)))
}

/// Compute the content hash of a tree.
pub fn hash_tree(t: &ConfigTree) -> (r: String)
    ensures
        r@ == spec_hash(t@),
        r@.len() == 64,
{
    let encoded = encode_tree(t);
    let digest = sha256_digest(encoded.as_slice());
    to_hex(&digest)
}

/// Structurally identical trees hash identically, however they were
/// built: the hash reads nothing but the canonical tuples.
pub proof fn lemma_hash_of_canon(a: Seq<ConfigEntry>, b: Seq<ConfigEntry>)
    requires
        canon(a) == canon(b),
    ensures
        spec_hash(a) == spec_hash(b),
{
}

/// Every string of the tree fits its length prefix; true of any tree a
/// program can hold.
pub open spec fn tree_fits(s: Seq<ConfigEntry>) -> bool {
    forall|i: int| 0 <= i < s.len() ==> crate::encode::key_fits(#[trigger] canon(s)[i])
}

/// The hash identity: structurally identical trees always hash
/// identically, and structurally distinct trees feed the digest
/// distinct canonical bytes — so their hashes can coincide only through
/// a collision of the digest itself, which no contract can exclude.
pub proof fn lemma_hash_identity(a: Seq<ConfigEntry>, b: Seq<ConfigEntry>)
    requires
        tree_fits(a),
        tree_fits(b),
    ensures
        canon(a) == canon(b) ==> spec_hash(a) == spec_hash(b),
        enc_tree(a) == enc_tree(b) <==> canon(a) == canon(b),
{
    if enc_tree(a) == enc_tree(b) {
        assert(canon(a).len() == a.len());
        assert(canon(b).len() == b.len());
        crate::encode::lemma_enc_keys_injective(canon(a), canon(b));
    }
}

/// An immutable, content-hashed tree.
pub struct Snapshot {
    hash: String,
    entries: Vec<ConfigEntry>,
}

/// Ghost image of a snapshot.
pub ghost struct SnapshotModel {
    pub hash: Seq<char>,
    pub entries: Seq<ConfigEntry>,
}

impl View for Snapshot {
    type V = SnapshotModel;

    closed spec fn view(&self) -> SnapshotModel {
        SnapshotModel { hash: self.hash@, entries: self.entries@ }
    }
}

impl Snapshot {
    /// A snapshot records the hash of its own tree.
    pub open spec fn wf(&self) -> bool {
        &&& self@.hash == spec_hash(self@.entries)
        &&& tree_wf(self@.entries)
    }

    /// The content hash, the snapshot's identity.
    pub fn hash_str(&self) -> (r: &str)
        ensures
            r@ == self@.hash,
    {
        self.hash.as_str()
    }

    /// Borrow the snapshot's entry list.
    pub(crate) fn entries_ref(&self) -> (r: &Vec<ConfigEntry>)
        ensures
            r@ == self@.entries,
    {
        &self.entries
    }

    /// Rebuild a mutable working tree holding this snapshot's nodes.
    pub fn to_tree(&self) -> (t: ConfigTree)
        requires
            self.wf(),
        ensures
            t.wf(),
            t@.len() == self@.entries.len(),
            forall|i: int| 0 <= i < t@.len() ==> entry_like(self@.entries[i], #[trigger] t@[i]),
            canon(t@) == canon(self@.entries),
            spec_hash(t@) == self@.hash,
    {
        let copied = clone_entries(&self.entries);
        proof {
            crate::tree::lemma_like_preserves_wf(self@.entries, copied@);
        }
        ConfigTree::from_entries(copied)
    }
}

/// Clone a list of entries, keeping every view.
pub fn clone_entries(v: &Vec<ConfigEntry>) -> (r: Vec<ConfigEntry>)
    ensures
        r@.len() == v@.len(),
        forall|i: int| 0 <= i < v@.len() ==> entry_like(v@[i], #[trigger] r@[i]),
{
    let mut out: Vec<ConfigEntry> = Vec::new();
    let mut i: usize = 0;
    while i < v.len()
        invariant
            i <= v@.len(),
            out@.len() == i,
            forall|j: int| 0 <= j < i ==> entry_like(v@[j], #[trigger] out@[j]),
        decreases v@.len() - i,
    {
        out.push(v[i].clone());
        i = i + 1;
    }
    out
}

/// The deduplicated repository of immutable snapshots.
pub struct SnapshotStore {
    snaps: Vec<Snapshot>,
}

impl View for SnapshotStore {
    type V = Seq<SnapshotModel>;

    closed spec fn view(&self) -> Seq<SnapshotModel> {
        self.snaps@.map_values(|s: Snapshot| s@)
    }
}

/// Some stored snapshot carries this hash.
pub open spec fn store_has_hash(store: Seq<SnapshotModel>, h: Seq<char>) -> bool {
    exists|i: int| 0 <= i < store.len() && (#[trigger] store[i].hash) == h
}

/// The tree stored under a hash. Meaningful wherever the hash is
/// present and no hash is stored twice — which the store's invariant
/// guarantees.
pub open spec fn store_entries_of(store: Seq<SnapshotModel>, h: Seq<char>) -> Seq<ConfigEntry> {
    store[choose|i: int| 0 <= i < store.len() && (#[trigger] store[i].hash) == h].entries
}

impl SnapshotStore {
    /// Every stored snapshot records the hash of its own tree, and no
    /// hash is stored twice.
    pub open spec fn wf(&self) -> bool {
        &&& forall|i: int|
            0 <= i < self@.len() ==> (#[trigger] self@[i].hash) == spec_hash(self@[i].entries)
                && tree_wf(self@[i].entries)
        &&& forall|i: int, j: int| 0 <= i < j < self@.len() ==> self@[i].hash != self@[j].hash
    }

    /// An empty store.
    pub fn new() -> (s: Self)
        ensures
            s@ == Seq::<SnapshotModel>::empty(),
            s.wf(),
    {
        let s = SnapshotStore { snaps: Vec::new() };
        proof {
            assert(s@ =~= Seq::<SnapshotModel>::empty());
        }
        s
    }

    /// Hash a tree and store it, deduplicated: when the hash is already
    /// present the store is left as it is, otherwise a snapshot of the
    /// tree is added under that hash.
    pub fn commit(&mut self, tree: &ConfigTree) -> (r: String)
        requires
            old(self).wf(),
            tree.wf(),
        ensures
            final(self).wf(),
            r@ == spec_hash(tree@),
            store_has_hash(final(self)@, r@),
            store_has_hash(old(self)@, r@) ==> final(self)@ == old(self)@,
            !store_has_hash(old(self)@, r@) ==> final(self)@.len() == old(self)@.len() + 1
                && final(self)@[final(self)@.len() - 1].hash == r@ && canon(
                final(self)@[final(self)@.len() - 1].entries,
            ) == canon(tree@) && (forall|i: int|
                0 <= i < old(self)@.len() ==> #[trigger] final(self)@[i] == old(self)@[i]),
    {
        let h = hash_tree(tree);
        let n = self.snaps.len();
        let mut i: usize = 0;
        while i < n
            invariant
                i <= n,
                n == self@.len(),
                self@ == old(self)@,
                old(self).wf(),
                h@ == spec_hash(tree@),
                forall|j: int| 0 <= j < i ==> (#[trigger] self@[j].hash) != h@,
            decreases n - i,
        {
            proof {
                assert(self@[i as int] == self.snaps@[i as int]@);
            }
            if crate::order::str_eq(self.snaps[i].hash.as_str(), h.as_str()) {
                proof {
                    assert(self@[i as int].hash == h@);
                    assert(store_has_hash(self@, h@));
                }
                return h;
            }
            i = i + 1;
        }
        proof {
            assert forall|j: int| 0 <= j < self@.len() implies (#[trigger] self@[j].hash)
                != h@ by {}
            assert(!store_has_hash(self@, h@));
        }
        let entries = clone_entries(tree.entries_ref());
        proof {
            crate::tree::lemma_like_preserves_wf(tree@, entries@);
        }
        let snap = Snapshot { hash: h.clone(), entries };
        let ghost pre = self@;
        self.snaps.push(snap);
        proof {
            assert(self@ =~= pre.push(snap@));
            assert(self@[self@.len() - 1] == snap@);
            assert(snap@.hash == h@);
            assert forall|j: int| 0 <= j < pre.len() implies #[trigger] self@[j] == pre[j] by {}
            assert(store_has_hash(self@, h@));
        }
        h
    }

    /// Number of distinct snapshots stored.
    pub fn len(&self) -> (n: usize)
        ensures
            n == self@.len(),
    {
        self.snaps.len()
    }

    /// Fetch the snapshot stored under a hash.
    pub fn get(&self, hash: &str) -> (r: Option<&Snapshot>)
        ensures
            match r {
                Some(s) => store_has_hash(self@, hash@) && s@.hash == hash@ && exists|i: int|
                    0 <= i < self@.len() && #[trigger] self@[i] == s@,
                None => !store_has_hash(self@, hash@),
            },
    {
        let n = self.snaps.len();
        let mut i: usize = 0;
        while i < n
            invariant
                i <= n,
                n == self@.len(),
                forall|j: int| 0 <= j < i ==> (#[trigger] self@[j].hash) != hash@,
            decreases n - i,
        {
            proof {
                assert(self@[i as int] == self.snaps@[i as int]@);
            }
            if crate::order::str_eq(self.snaps[i].hash.as_str(), hash) {
                proof {
                    assert(self@[i as int].hash == hash@);
                    assert(store_has_hash(self@, hash@));
                    assert(self@[i as int] == self.snaps@[i as int]@);
                }
                return Some(&self.snaps[i]);
            }
            i = i + 1;
        }
        None
    }

    /// A stored snapshot is well-formed.
    pub proof fn lemma_stored_wf(&self, s: Snapshot)
        requires
            self.wf(),
            exists|i: int| 0 <= i < self@.len() && #[trigger] self@[i] == s@,
        ensures
            s.wf(),
    {
        let i = choose|i: int| 0 <= i < self@.len() && #[trigger] self@[i] == s@;
    }
}

} // verus!
