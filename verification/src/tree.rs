//! The working configuration tree.
//!
//! A tree is kept flat, as its canonical path list: one entry per node,
//! strictly sorted in the canonical path order of [`crate::order`]. The
//! hierarchy is encoded entirely in the paths (a node's parent is its path
//! cut at the last separator), so no child lists or back-references are
//! needed; every lookup is by canonical path.

use vstd::prelude::*;

use crate::model::{meta_like, opt_view, strs_view, ConfigError, ConfigMetadata, ConfigNodeType};
use crate::order::{lemma_path_lt_asymm, lemma_path_lt_irrefl, lemma_path_lt_total, path_cmp, path_lt};

verus! {

/// One node of a configuration tree, identified by its canonical path.
/// The node's name is the last segment of the path and is not stored
/// separately. Timestamps are seconds since the Unix epoch.
#[derive(Debug)]
pub struct ConfigEntry {
    pub path: String,
    pub node_type: ConfigNodeType,
    pub value: Option<String>,
    pub metadata: ConfigMetadata,
    pub created_at: i64,
    pub updated_at: i64,
}

/// The structural identity of a node: its canonical (path, type, value)
/// tuple. Metadata and timestamps do not take part in hashing or diffing.
pub open spec fn entry_key(e: ConfigEntry) -> (Seq<char>, ConfigNodeType, Option<Seq<char>>) {
    (e.path@, e.node_type, opt_view(e.value))
}

/// Two entries are alike when they agree up to string views.
pub open spec fn entry_like(a: ConfigEntry, b: ConfigEntry) -> bool {
    &&& a.path@ == b.path@
    &&& a.node_type == b.node_type
    &&& opt_view(a.value) == opt_view(b.value)
    &&& meta_like(a.metadata, b.metadata)
    &&& a.created_at == b.created_at
    &&& a.updated_at == b.updated_at
}

impl Clone for ConfigEntry {
    fn clone(&self) -> (r: Self)
        ensures
            entry_like(*self, r),
    {
        ConfigEntry {
            path: self.path.clone(),
            node_type: self.node_type,
            value: crate::model::clone_opt_string(&self.value),
            metadata: self.metadata.clone(),
            created_at: self.created_at,
            updated_at: self.updated_at,
        }
    }
}

/// A canonical path: begins with the separator, ends with a name, and has
/// no empty segment.
pub open spec fn valid_path(p: Seq<char>) -> bool {
    &&& p.len() >= 2
    &&& p[0] == '/'
    &&& p[p.len() - 1] != '/'
    &&& forall|k: int| 0 < k < p.len() ==> !(#[trigger] p[k] == '/' && p[k - 1] == '/')
}

/// True when `q` names a node strictly below the node named `p`: `q`
/// extends `p` with a separator.
pub open spec fn descends_from(q: Seq<char>, p: Seq<char>) -> bool {
    &&& q.len() > p.len()
    &&& q.subrange(0, p.len() as int) == p
    &&& q[p.len() as int] == '/'
}

/// Some entry of `s` has path `p`.
pub open spec fn contains_path(s: Seq<ConfigEntry>, p: Seq<char>) -> bool {
    exists|i: int| 0 <= i < s.len() && #[trigger] s[i].path@ == p
}

/// The first entry of `s` whose path is `p`, if any.
pub open spec fn find(s: Seq<ConfigEntry>, p: Seq<char>) -> Option<ConfigEntry>
    decreases s.len(),
{
    if s.len() == 0 {
        None
    } else if s[0].path@ == p {
        Some(s[0])
    } else {
        find(s.drop_first(), p)
    }
}

/// Entries are strictly sorted in the canonical path order; in particular
/// every path occurs at most once.
pub open spec fn paths_sorted(s: Seq<ConfigEntry>) -> bool {
    forall|i: int, j: int|
        0 <= i < j < s.len() ==> path_lt(#[trigger] s[i].path@, #[trigger] s[j].path@)
}

/// Every entry's path is canonical.
pub open spec fn paths_valid(s: Seq<ConfigEntry>) -> bool {
    forall|i: int| 0 <= i < s.len() ==> valid_path(#[trigger] s[i].path@)
}

/// Only leaf nodes carry a direct value.
pub open spec fn values_on_leaves(s: Seq<ConfigEntry>) -> bool {
    forall|i: int|
        0 <= i < s.len() && (#[trigger] s[i].node_type) != ConfigNodeType::Leaf ==> s[i].value is None
}

/// Leaf nodes have no descendants.
pub open spec fn leaves_childless(s: Seq<ConfigEntry>) -> bool {
    forall|i: int, j: int|
        0 <= i < s.len() && 0 <= j < s.len() && descends_from(
            #[trigger] s[j].path@,
            #[trigger] s[i].path@,
        ) ==> s[i].node_type != ConfigNodeType::Leaf
}

/// Every strict slash-cut prefix of an entry's path is itself an entry:
/// nodes hang off a present parent, up to the implicit root.
pub open spec fn ancestors_present(s: Seq<ConfigEntry>) -> bool {
    forall|i: int, k: int|
        0 <= i < s.len() && 0 < k < s[i].path@.len() && #[trigger] s[i].path@[k] == '/'
            ==> contains_path(s, #[trigger] s[i].path@.subrange(0, k))
}

/// Well-formedness of a flat tree.
pub open spec fn tree_wf(s: Seq<ConfigEntry>) -> bool {
    &&& paths_sorted(s)
    &&& paths_valid(s)
    &&& values_on_leaves(s)
    &&& leaves_childless(s)
    &&& ancestors_present(s)
}

/// If no entry before `i` matches `p`, the search may start at `i`.
pub proof fn lemma_find_from(s: Seq<ConfigEntry>, p: Seq<char>, i: int)
    requires
        0 <= i <= s.len(),
        forall|j: int| 0 <= j < i ==> (#[trigger] s[j].path@) != p,
    ensures
        find(s, p) == find(s.skip(i), p),
    decreases i,
{
    if i > 0 {
        assert(s.skip(0) =~= s);
        assert(s.drop_first() =~= s.skip(1));
        assert forall|j: int| 0 <= j < i - 1 implies (#[trigger] s.drop_first()[j].path@)
            != p by {
            assert(s.drop_first()[j] == s[j + 1]);
        }
        lemma_find_from(s.drop_first(), p, i - 1);
        assert(s.drop_first().skip(i - 1) =~= s.skip(i));
    } else {
        assert(s.skip(0) =~= s);
    }
}

/// A found entry has the sought path, and a path is found exactly when
/// some entry has it.
pub proof fn lemma_find_means(s: Seq<ConfigEntry>, p: Seq<char>)
    ensures
        contains_path(s, p) <==> find(s, p) is Some,
        match find(s, p) {
            Some(e) => e.path@ == p && exists|i: int| 0 <= i < s.len() && s[i] == e,
            None => true,
        },
    decreases s.len(),
{
    if s.len() > 0 {
        lemma_find_means(s.drop_first(), p);
        if s[0].path@ == p {
            assert(contains_path(s, p));
        } else {
            if contains_path(s, p) {
                let i = choose|i: int| 0 <= i < s.len() && #[trigger] s[i].path@ == p;
                assert(s.drop_first()[i - 1].path@ == p);
                assert(contains_path(s.drop_first(), p));
            }
            if contains_path(s.drop_first(), p) {
                let i = choose|i: int|
                    0 <= i < s.drop_first().len() && #[trigger] s.drop_first()[i].path@ == p;
                assert(s[i + 1].path@ == p);
            }
            match find(s.drop_first(), p) {
                Some(e) => {
                    let i = choose|i: int|
                        0 <= i < s.drop_first().len() && #[trigger] s.drop_first()[i] == e;
                    assert(s[i + 1] == e);
                },
                None => {},
            }
        }
    }
}

/// `x` is one of the entries of `s`.
pub open spec fn has_entry(s: Seq<ConfigEntry>, x: ConfigEntry) -> bool {
    exists|j: int| 0 <= j < s.len() && s[j] == x
}

/// In a sorted tree, every entry is what lookup of its path returns.
pub proof fn lemma_find_unique(s: Seq<ConfigEntry>, i: int)
    requires
        paths_sorted(s),
        0 <= i < s.len(),
    ensures
        find(s, s[i].path@) == Some(s[i]),
    decreases i,
{
    if i == 0 {
    } else {
        assert(s.drop_first()[i - 1] == s[i]);
        lemma_find_unique(s.drop_first(), i - 1);
        lemma_path_lt_asymm(s[0].path@, s[i].path@);
    }
}

/// Inserting an entry under a fresh path redirects lookups of that path
/// to it and leaves every other lookup unchanged.
pub proof fn lemma_find_insert(s: Seq<ConfigEntry>, i: int, e: ConfigEntry, q: Seq<char>)
    requires
        0 <= i <= s.len(),
        !contains_path(s, e.path@),
    ensures
        find(s.insert(i, e), q) == if q == e.path@ {
            Some(e)
        } else {
            find(s, q)
        },
    decreases i,
{
    let t = s.insert(i, e);
    if i == 0 {
        assert(t =~= seq![e] + s);
        assert(t[0] == e);
        assert(t.drop_first() =~= s);
    } else {
        assert(t[0] == s[0]);
        assert(t.drop_first() =~= s.drop_first().insert(i - 1, e));
        assert(!contains_path(s.drop_first(), e.path@)) by {
            if contains_path(s.drop_first(), e.path@) {
                let j = choose|j: int|
                    0 <= j < s.drop_first().len() && #[trigger] s.drop_first()[j].path@
                        == e.path@;
                assert(s[j + 1].path@ == e.path@);
            }
        }
        lemma_find_insert(s.drop_first(), i - 1, e, q);
        if s[0].path@ == q {
            assert(contains_path(s, q));
        }
    }
}

/// The paths present after an insertion.
pub proof fn lemma_contains_insert(s: Seq<ConfigEntry>, i: int, e: ConfigEntry, q: Seq<char>)
    requires
        0 <= i <= s.len(),
    ensures
        contains_path(s.insert(i, e), q) == (q == e.path@ || contains_path(s, q)),
{
    let t = s.insert(i, e);
    if contains_path(s, q) {
        let j = choose|j: int| 0 <= j < s.len() && #[trigger] s[j].path@ == q;
        if j < i {
            assert(t[j] == s[j]);
            assert(t[j].path@ == q);
        } else {
            assert(t[j + 1] == s[j]);
            assert(t[j + 1].path@ == q);
        }
        assert(contains_path(t, q));
    }
    if q == e.path@ {
        assert(t[i] == e);
        assert(t[i].path@ == q);
        assert(contains_path(t, q));
    }
    if contains_path(t, q) && q != e.path@ {
        let j = choose|j: int| 0 <= j < t.len() && #[trigger] t[j].path@ == q;
        if j < i {
            assert(s[j] == t[j]);
            assert(s[j].path@ == q);
            assert(contains_path(s, q));
        } else if j == i {
        } else {
            assert(s[j - 1] == t[j]);
            assert(s[j - 1].path@ == q);
            assert(contains_path(s, q));
        }
    }
}

/// Inserting at the position its path dictates keeps the tree sorted.
pub proof fn lemma_sorted_insert(s: Seq<ConfigEntry>, i: int, e: ConfigEntry)
    requires
        paths_sorted(s),
        0 <= i <= s.len(),
        forall|j: int| 0 <= j < i ==> path_lt((#[trigger] s[j].path@), e.path@),
        forall|j: int| i <= j < s.len() ==> path_lt(e.path@, (#[trigger] s[j].path@)),
    ensures
        paths_sorted(s.insert(i, e)),
{
    let t = s.insert(i, e);
    assert forall|a: int, b: int| 0 <= a < b < t.len() implies path_lt(
        t[a].path@,
        t[b].path@,
    ) by {
        if a < i && b < i {
            assert(t[a] == s[a] && t[b] == s[b]);
            assert(path_lt(s[a].path@, s[b].path@));
        } else if a < i && b == i {
            assert(t[a] == s[a] && t[b] == e);
            assert(path_lt(s[a].path@, e.path@));
        } else if a < i && b > i {
            assert(t[a] == s[a] && t[b] == s[b - 1]);
            assert(path_lt(s[a].path@, s[b - 1].path@));
        } else if a == i {
            assert(t[a] == e && t[b] == s[b - 1]);
            assert(path_lt(e.path@, s[b - 1].path@));
        } else {
            assert(t[a] == s[a - 1] && t[b] == s[b - 1]);
            assert(path_lt(s[a - 1].path@, s[b - 1].path@));
        }
    }
}

/// Removing the entry at `i` removes exactly its path from lookups.
pub proof fn lemma_find_remove(s: Seq<ConfigEntry>, i: int, q: Seq<char>)
    requires
        paths_sorted(s),
        0 <= i < s.len(),
    ensures
        find(s.remove(i), q) == if q == s[i].path@ {
            None
        } else {
            find(s, q)
        },
        contains_path(s.remove(i), q) == (q != s[i].path@ && contains_path(s, q)),
    decreases i,
{
    let t = s.remove(i);
    if i == 0 {
        assert(t =~= s.drop_first());
        if q == s[0].path@ {
            if contains_path(t, q) {
                let j = choose|j: int| 0 <= j < t.len() && #[trigger] t[j].path@ == q;
                assert(s[j + 1].path@ == q);
                lemma_path_lt_asymm(s[0].path@, s[j + 1].path@);
                assert(false);
            }
            lemma_find_means(t, q);
        } else {
            if contains_path(s, q) {
                let j = choose|j: int| 0 <= j < s.len() && #[trigger] s[j].path@ == q;
                assert(j != 0);
                assert(t[j - 1].path@ == q);
                assert(contains_path(t, q));
            }
            if contains_path(t, q) {
                let j = choose|j: int| 0 <= j < t.len() && #[trigger] t[j].path@ == q;
                assert(s[j + 1].path@ == q);
                assert(contains_path(s, q));
            }
        }
    } else {
        assert(t[0] == s[0]);
        assert(t.drop_first() =~= s.drop_first().remove(i - 1));
        assert(paths_sorted(s.drop_first())) by {
            assert(forall|a: int, b: int|
                0 <= a < b < s.drop_first().len() ==> s.drop_first()[a] == s[a + 1]
                    && s.drop_first()[b] == s[b + 1]);
        }
        assert(s.drop_first()[i - 1] == s[i]);
        lemma_find_remove(s.drop_first(), i - 1, q);
        if s[0].path@ == q {
            lemma_path_lt_asymm(s[0].path@, s[i].path@);
            assert(q != s[i].path@);
        }
        if contains_path(s, q) && q != s[i].path@ {
            let j = choose|j: int| 0 <= j < s.len() && #[trigger] s[j].path@ == q;
            if j == 0 {
                assert(t[0].path@ == q);
                assert(contains_path(t, q));
            } else {
                assert(s.drop_first()[j - 1].path@ == q);
                assert(contains_path(s.drop_first(), q));
            }
        }
        if contains_path(t, q) {
            let j = choose|j: int| 0 <= j < t.len() && #[trigger] t[j].path@ == q;
            if j == 0 {
                assert(s[0].path@ == q);
            } else {
                assert(t.drop_first()[j - 1].path@ == q);
                assert(contains_path(s.drop_first().remove(i - 1), q));
            }
        }
        if contains_path(s.drop_first(), q) {
            let j = choose|j: int|
                0 <= j < s.drop_first().len() && #[trigger] s.drop_first()[j].path@ == q;
            assert(s[j + 1].path@ == q);
            assert(contains_path(s, q));
        }
    }
}

/// Removing an entry keeps the tree sorted.
pub proof fn lemma_sorted_remove(s: Seq<ConfigEntry>, i: int)
    requires
        paths_sorted(s),
        0 <= i < s.len(),
    ensures
        paths_sorted(s.remove(i)),
{
    let t = s.remove(i);
    assert forall|a: int, b: int| 0 <= a < b < t.len() implies path_lt(
        t[a].path@,
        t[b].path@,
    ) by {
        let sa = if a < i {
            a
        } else {
            a + 1
        };
        let sb = if b < i {
            b
        } else {
            b + 1
        };
        assert(t[a] == s[sa] && t[b] == s[sb]);
    }
}

/// The flat, canonically ordered working tree of one device.
pub struct ConfigTree {
    entries: Vec<ConfigEntry>,
}

impl View for ConfigTree {
    type V = Seq<ConfigEntry>;

    closed spec fn view(&self) -> Seq<ConfigEntry> {
        self.entries@
    }
}

/// Entrywise alike trees are interchangeable: well-formedness and the
/// canonical tuples depend only on the views the likeness preserves.
pub proof fn lemma_like_preserves_wf(a: Seq<ConfigEntry>, b: Seq<ConfigEntry>)
    requires
        a.len() == b.len(),
        forall|i: int| 0 <= i < a.len() ==> entry_like(a[i], #[trigger] b[i]),
        tree_wf(a),
    ensures
        tree_wf(b),
        crate::encode::canon(b) == crate::encode::canon(a),
{
    assert forall|q: Seq<char>| #[trigger] contains_path(b, q) == contains_path(a, q) by {
        if contains_path(a, q) {
            let i = choose|i: int| 0 <= i < a.len() && #[trigger] a[i].path@ == q;
            assert(b[i].path@ == q);
        }
        if contains_path(b, q) {
            let i = choose|i: int| 0 <= i < b.len() && #[trigger] b[i].path@ == q;
            assert(a[i].path@ == q);
        }
    }
    assert(paths_sorted(b)) by {
        assert forall|i: int, j: int| 0 <= i < j < b.len() implies path_lt(
            #[trigger] b[i].path@,
            #[trigger] b[j].path@,
        ) by {
            assert(path_lt(a[i].path@, a[j].path@));
        }
    }
    assert(values_on_leaves(b)) by {
        assert forall|i: int|
            0 <= i < b.len() && (#[trigger] b[i].node_type) != ConfigNodeType::Leaf implies b[i].value
            is None by {
            assert(a[i].value is None);
        }
    }
    assert(leaves_childless(b)) by {
        assert forall|i: int, j: int|
            0 <= i < b.len() && 0 <= j < b.len() && descends_from(
                #[trigger] b[j].path@,
                #[trigger] b[i].path@,
            ) implies b[i].node_type != ConfigNodeType::Leaf by {
            assert(descends_from(a[j].path@, a[i].path@));
        }
    }
    assert(ancestors_present(b)) by {
        assert forall|i: int, k: int|
            0 <= i < b.len() && 0 < k < b[i].path@.len() && #[trigger] b[i].path@[k]
                == '/' implies contains_path(b, #[trigger] b[i].path@.subrange(0, k)) by {
            assert(a[i].path@[k] == '/');
            assert(contains_path(a, a[i].path@.subrange(0, k)));
        }
    }
    assert(crate::encode::canon(b) =~= crate::encode::canon(a));
}

impl ConfigTree {
    /// Well-formedness: the invariant every operation preserves.
    pub open spec fn wf(&self) -> bool {
        tree_wf(self@)
    }

    /// Wrap a well-formed entry list as a tree.
    pub(crate) fn from_entries(entries: Vec<ConfigEntry>) -> (t: Self)
        requires
            tree_wf(entries@),
        ensures
            t@ == entries@,
            t.wf(),
    {
        ConfigTree { entries }
    }

    /// Borrow the entry list.
    pub(crate) fn entries_ref(&self) -> (r: &Vec<ConfigEntry>)
        ensures
            r@ == self@,
    {
        &self.entries
    }

    /// The empty tree.
    pub fn new() -> (t: Self)
        ensures
            t@ == Seq::<ConfigEntry>::empty(),
            t.wf(),
    {
        let t = ConfigTree { entries: Vec::new() };
        proof {
            assert(t@ =~= Seq::<ConfigEntry>::empty());
        }
        t
    }

    /// Number of nodes.
    pub fn len(&self) -> (n: usize)
        ensures
            n == self@.len(),
    {
        self.entries.len()
    }

    /// The entry at position `i` in canonical order.
    pub fn entry_at(&self, i: usize) -> (e: &ConfigEntry)
        requires
            i < self@.len(),
        ensures
            *e == self@[i as int],
    {
        &self.entries[i]
    }

    /// Look a node up by its canonical path.
    pub fn get(&self, path: &str) -> (r: Option<&ConfigEntry>)
        ensures
            match r {
                Some(e) => find(self@, path@) == Some(*e) && contains_path(self@, path@),
                None => find(self@, path@) is None && !contains_path(self@, path@),
            },
    {
        proof {
            lemma_find_means(self@, path@);
        }
        let n = self.entries.len();
        let mut i: usize = 0;
        while i < n
            invariant
                i <= n,
                n == self@.len(),
                forall|j: int| 0 <= j < i ==> (#[trigger] self@[j].path@) != path@,
            decreases n - i,
        {
            if crate::order::str_eq(self.entries[i].path.as_str(), path) {
                proof {
                    lemma_find_from(self@, path@, i as int);
                    assert(self@.skip(i as int)[0] == self@[i as int]);
                }
                return Some(&self.entries[i]);
            }
            i = i + 1;
        }
        proof {
            lemma_find_from(self@, path@, n as int);
            assert(self@.skip(n as int) =~= Seq::<ConfigEntry>::empty());
        }
        None
    }

    /// Position of the node with the given path, if present.
    pub fn locate(&self, path: &str) -> (r: Option<usize>)
        requires
            paths_sorted(self@),
        ensures
            match r {
                Some(i) => i < self@.len() && self@[i as int].path@ == path@ && find(self@, path@)
                    == Some(self@[i as int]),
                None => !contains_path(self@, path@) && find(self@, path@) is None,
            },
    {
        proof {
            lemma_find_means(self@, path@);
        }
        let n = self.entries.len();
        let mut i: usize = 0;
        while i < n
            invariant
                i <= n,
                n == self@.len(),
                paths_sorted(self@),
                forall|j: int| 0 <= j < i ==> (#[trigger] self@[j].path@) != path@,
            decreases n - i,
        {
            if crate::order::str_eq(self.entries[i].path.as_str(), path) {
                proof {
                    lemma_find_unique(self@, i as int);
                }
                return Some(i);
            }
            i = i + 1;
        }
        None
    }

    /// Insert an entry under a path not yet present, at the position the
    /// canonical order dictates.
    fn insert_entry(&mut self, e: ConfigEntry)
        requires
            paths_sorted(old(self)@),
            !contains_path(old(self)@, e.path@),
        ensures
            paths_sorted(final(self)@),
            final(self)@.len() == old(self)@.len() + 1,
            forall|q: Seq<char>|
                #[trigger] find(final(self)@, q) == if q == e.path@ {
                    Some(e)
                } else {
                    find(old(self)@, q)
                },
            forall|q: Seq<char>|
                #[trigger] contains_path(final(self)@, q) == (q == e.path@ || contains_path(
                    old(self)@,
                    q,
                )),
            forall|i: int|
                0 <= i < final(self)@.len() ==> (#[trigger] final(self)@[i]) == e || has_entry(
                    old(self)@,
                    final(self)@[i],
                ),
        decreases 0int,
    {
        let ghost s0 = self@;
        let n = self.entries.len();
        let mut i: usize = 0;
        loop
            invariant
                i <= n,
                n == self@.len(),
                self@ == s0,
                paths_sorted(s0),
                !contains_path(s0, e.path@),
                forall|j: int| 0 <= j < i ==> path_lt((#[trigger] self@[j].path@), e.path@),
            ensures
                i <= n,
                self@ == s0,
                forall|j: int| 0 <= j < i ==> path_lt((#[trigger] self@[j].path@), e.path@),
                i < n ==> path_lt(e.path@, self@[i as int].path@),
            decreases n - i,
        {
            if i == n {
                break;
            }
            let c = path_cmp(self.entries[i].path.as_str(), e.path.as_str());
            if c != -1 {
                proof {
                    lemma_path_lt_total(self@[i as int].path@, e.path@);
                    if c == 0 {
                        assert(self@[i as int].path@ == e.path@);
                        assert(contains_path(s0, e.path@));
                    }
                }
                break;
            }
            i = i + 1;
        }
        proof {
            assert forall|j: int| i <= j < s0.len() implies path_lt(
                e.path@,
                (#[trigger] s0[j].path@),
            ) by {
                if j > i {
                    crate::order::lemma_path_lt_trans(e.path@, s0[i as int].path@, s0[j].path@);
                }
            }
            lemma_sorted_insert(s0, i as int, e);
            assert forall|q: Seq<char>| #[trigger] find(s0.insert(i as int, e), q) == (if q
                == e.path@ {
                Some(e)
            } else {
                find(s0, q)
            }) by {
                lemma_find_insert(s0, i as int, e, q);
            }
            assert forall|q: Seq<char>| #[trigger] contains_path(s0.insert(i as int, e), q) == (q
                == e.path@ || contains_path(s0, q)) by {
                lemma_contains_insert(s0, i as int, e, q);
            }
            assert forall|j: int| 0 <= j < s0.insert(i as int, e).len() implies (
            #[trigger] s0.insert(i as int, e)[j]) == e || has_entry(
                s0,
                s0.insert(i as int, e)[j],
            ) by {
                if j < i {
                    assert(s0.insert(i as int, e)[j] == s0[j]);
                } else if j > i {
                    assert(s0.insert(i as int, e)[j] == s0[j - 1]);
                }
            }
        }
        self.entries.insert(i, e);
    }

    /// Remove the entry at position `i`, handing it back.
    fn take_entry(&mut self, i: usize) -> (e: ConfigEntry)
        requires
            paths_sorted(old(self)@),
            i < old(self)@.len(),
        ensures
            e == old(self)@[i as int],
            final(self)@ == old(self)@.remove(i as int),
            paths_sorted(final(self)@),
            forall|q: Seq<char>|
                #[trigger] find(final(self)@, q) == if q == e.path@ {
                    None::<ConfigEntry>
                } else {
                    find(old(self)@, q)
                },
            forall|q: Seq<char>|
                #[trigger] contains_path(final(self)@, q) == (q != e.path@ && contains_path(
                    old(self)@,
                    q,
                )),
            forall|j: int|
                0 <= j < final(self)@.len() ==> has_entry(old(self)@, #[trigger] final(self)@[j]),
    {
        proof {
            let t = self@.remove(i as int);
            assert forall|j: int| 0 <= j < t.len() implies has_entry(self@, #[trigger] t[j]) by {
                if j < i {
                    assert(t[j] == self@[j]);
                } else {
                    assert(t[j] == self@[j + 1]);
                }
            }
            lemma_sorted_remove(self@, i as int);
            assert forall|q: Seq<char>| #[trigger] find(self@.remove(i as int), q) == (if q
                == self@[i as int].path@ {
                None::<ConfigEntry>
            } else {
                find(self@, q)
            }) by {
                lemma_find_remove(self@, i as int, q);
            }
            assert forall|q: Seq<char>| #[trigger] contains_path(self@.remove(i as int), q) == (q
                != self@[i as int].path@ && contains_path(self@, q)) by {
                lemma_find_remove(self@, i as int, q);
            }
        }
        self.entries.remove(i)
    }

    /// Mutation phase of a set whose checks have all passed: insert the
    /// missing ancestor containers, then write the leaf.
    fn apply_set(
        &mut self,
        missing: Vec<String>,
        Ghost(missing_pos): Ghost<Seq<int>>,
        path: &str,
        value: &str,
        now: i64,
    ) -> (changed: Vec<String>)
        requires
            tree_wf(old(self)@),
            valid_path(path@),
            missing@.len() == missing_pos.len(),
            forall|i: int|
                0 <= i < missing@.len() ==> (#[trigger] missing@[i])@ == path@.subrange(
                    0,
                    missing_pos[i],
                ),
            forall|i: int|
                0 <= i < missing_pos.len() ==> 2 <= #[trigger] missing_pos[i] < path@.len()
                    && path@[missing_pos[i]] == '/',
            forall|i: int|
                0 <= i < missing@.len() ==> !contains_path(old(self)@, (#[trigger] missing@[i])@),
            forall|i: int, j: int|
                0 <= i < j < missing_pos.len() ==> #[trigger] missing_pos[i]
                    < #[trigger] missing_pos[j],
            forall|k: int|
                0 < k < path@.len() && #[trigger] path@[k] == '/' && !contains_path(
                    old(self)@,
                    path@.subrange(0, k),
                ) ==> missing_pos.contains(k),
            forall|j: int|
                0 <= j < old(self)@.len() ==> !descends_from(
                    (#[trigger] old(self)@[j].path@),
                    path@,
                ),
            forall|q: Seq<char>|
                descends_from(path@, q) ==> match #[trigger] find(old(self)@, q) {
                    Some(e) => e.node_type != ConfigNodeType::Leaf,
                    None => true,
                },
        ensures
            tree_wf(final(self)@),
            set_outcome(old(self)@, final(self)@, path@, value@, now),
            strs_view(changed@) == strs_view(missing@) + seq![path@],
    {
        let ghost s0 = self@;
        let mut idx: usize = 0;
        while idx < missing.len()
            invariant
                idx <= missing@.len(),
                s0 == old(self)@,
                tree_wf(s0),
                valid_path(path@),
                missing@.len() == missing_pos.len(),
                forall|i: int|
                    0 <= i < missing@.len() ==> (#[trigger] missing@[i])@ == path@.subrange(
                        0,
                        missing_pos[i],
                    ),
                forall|i: int|
                    0 <= i < missing_pos.len() ==> 2 <= #[trigger] missing_pos[i] < path@.len()
                        && path@[missing_pos[i]] == '/',
                forall|i: int|
                    0 <= i < missing@.len() ==> !contains_path(s0, (#[trigger] missing@[i])@),
                forall|i: int, j: int|
                    0 <= i < j < missing_pos.len() ==> #[trigger] missing_pos[i]
                        < #[trigger] missing_pos[j],
                paths_sorted(self@),
                forall|q: Seq<char>|
                    !(exists|i: int| 0 <= i < idx && (#[trigger] missing@[i])@ == q)
                        ==> #[trigger] find(self@, q) == find(s0, q),
                forall|i: int|
                    0 <= i < idx ==> match find(self@, (#[trigger] missing@[i])@) {
                        Some(e) => is_new_container(e, missing@[i]@, now),
                        None => false,
                    },
                forall|q: Seq<char>|
                    #[trigger] contains_path(self@, q) == (contains_path(s0, q) || exists|i: int|
                        0 <= i < idx && (#[trigger] missing@[i])@ == q),
                forall|j: int|
                    0 <= j < self@.len() ==> has_entry(s0, #[trigger] self@[j]) || (
                    is_new_container(self@[j], self@[j].path@, now) && exists|i: int|
                        0 <= i < idx && (#[trigger] missing@[i])@ == self@[j].path@),
            decreases missing@.len() - idx,
        {
            let e = ConfigEntry {
                path: missing[idx].clone(),
                node_type: ConfigNodeType::Container,
                value: None,
                metadata: crate::model::empty_metadata(),
                created_at: now,
                updated_at: now,
            };
            proof {
                assert(e.path@ == missing@[idx as int]@);
                assert(!contains_path(self@, e.path@)) by {
                    if exists|i: int| 0 <= i < idx && (#[trigger] missing@[i])@ == e.path@ {
                        let i = choose|i: int|
                            0 <= i < idx && (#[trigger] missing@[i])@ == e.path@;
                        assert(missing@[i]@.len() == missing_pos[i]);
                        assert(missing@[idx as int]@.len() == missing_pos[idx as int]);
                        assert(missing_pos[i] < missing_pos[idx as int]);
                        assert(false);
                    }
                }
            }
            let ghost pre_step = self@;
            self.insert_entry(e);
            proof {
                assert forall|q: Seq<char>|
                    !(exists|i: int| 0 <= i < idx + 1 && (#[trigger] missing@[i])@ == q) implies
                    #[trigger] find(self@, q) == find(s0, q) by {
                    assert(q != e.path@);
                    assert(find(self@, q) == find(pre_step, q));
                }
                assert forall|i: int| 0 <= i < idx + 1 implies match find(
                    self@,
                    (#[trigger] missing@[i])@,
                ) {
                    Some(en) => is_new_container(en, missing@[i]@, now),
                    None => false,
                } by {
                    if i < idx {
                        assert(missing@[i]@.len() == missing_pos[i]);
                        assert(missing@[idx as int]@.len() == missing_pos[idx as int]);
                        assert(missing@[i]@ != e.path@);
                        assert(find(self@, missing@[i]@) == find(pre_step, missing@[i]@));
                    } else {
                        assert(find(self@, e.path@) == Some(e));
                    }
                }
            }
            idx = idx + 1;
        }
        let ghost with_containers = self@;
        proof {
            assert(find(self@, path@) == find(s0, path@)) by {
                if exists|i: int| 0 <= i < missing@.len() && (#[trigger] missing@[i])@ == path@ {
                    let i = choose|i: int|
                        0 <= i < missing@.len() && (#[trigger] missing@[i])@ == path@;
                    assert(missing@[i]@.len() == missing_pos[i]);
                    assert(missing_pos[i] < path@.len());
                    assert(false);
                }
            }
        }
        let leaf = match self.locate(path) {
            Some(i) => {
                let prior_entry = self.take_entry(i);
                let e = ConfigEntry {
                    path: prior_entry.path,
                    node_type: ConfigNodeType::Leaf,
                    value: Some(value.to_owned()),
                    metadata: prior_entry.metadata,
                    created_at: prior_entry.created_at,
                    updated_at: now,
                };
                proof {
                    assert(is_set_leaf(e, path@, value@, find(s0, path@), now));
                }
                e
            },
            None => {
                let e = ConfigEntry {
                    path: path.to_owned(),
                    node_type: ConfigNodeType::Leaf,
                    value: Some(value.to_owned()),
                    metadata: crate::model::empty_metadata(),
                    created_at: now,
                    updated_at: now,
                };
                proof {
                    assert(is_set_leaf(e, path@, value@, find(s0, path@), now));
                }
                e
            },
        };
        let ghost pre_leaf = self@;
        let ghost the_leaf = leaf;
        self.insert_entry(leaf);
        let ghost post = self@;
        proof {
            let p = path@;
            let withc = with_containers;
            // Lookups after the mutation, relative to the starting tree.
            assert(find(post, p) == Some(the_leaf));
            assert forall|q: Seq<char>| q != p implies #[trigger] find(post, q) == find(
                withc,
                q,
            ) by {
                assert(find(post, q) == find(pre_leaf, q));
                assert(find(pre_leaf, q) == find(withc, q));
            }
            assert forall|q: Seq<char>| #[trigger] contains_path(post, q) == (q == p
                || contains_path(withc, q)) by {}
            // The outcome characterization.
            assert forall|q: Seq<char>|
                #![trigger find(post, q)]
                {
                    if q == p {
                        match find(post, q) {
                            Some(e) => is_set_leaf(e, p, value@, find(s0, p), now),
                            None => false,
                        }
                    } else if descends_from(p, q) && q.len() >= 2 && !contains_path(s0, q) {
                        match find(post, q) {
                            Some(e) => is_new_container(e, q, now),
                            None => false,
                        }
                    } else {
                        find(post, q) == find(s0, q)
                    }
                } by {
                if q == p {
                } else if descends_from(p, q) && q.len() >= 2 && !contains_path(s0, q) {
                    let k = q.len() as int;
                    assert(p[k] == '/');
                    assert(p.subrange(0, k) == q);
                    assert(missing_pos.contains(k));
                    let i = choose|i: int|
                        0 <= i < missing_pos.len() && #[trigger] missing_pos[i] == k;
                    assert(missing@[i]@ == q);
                    assert(match find(withc, q) {
                        Some(e) => is_new_container(e, q, now),
                        None => false,
                    });
                } else {
                    assert(find(withc, q) == find(s0, q)) by {
                        if exists|i: int|
                            0 <= i < missing@.len() && (#[trigger] missing@[i])@ == q {
                            let i = choose|i: int|
                                0 <= i < missing@.len() && (#[trigger] missing@[i])@ == q;
                            lemma_descends_from_cut(p, missing_pos[i]);
                            assert(descends_from(p, q));
                            assert(q.len() == missing_pos[i] >= 2);
                            assert(!contains_path(s0, q));
                            assert(false);
                        }
                    }
                }
            }
            assert(set_outcome(s0, post, p, value@, now));
            // Well-formedness of the result.
            assert forall|q: Seq<char>| contains_path(s0, q) implies #[trigger] contains_path(
                post,
                q,
            ) by {}
            let origin = |x: ConfigEntry|
                has_entry(s0, x) || (is_new_container(x, x.path@, now) && exists|i: int|
                    0 <= i < missing@.len() && (#[trigger] missing@[i])@ == x.path@);
            assert forall|j: int| 0 <= j < post.len() implies #[trigger] post[j] == the_leaf
                || origin(post[j]) by {
                if post[j] != the_leaf {
                    assert(has_entry(pre_leaf, post[j]));
                    let a = choose|a: int|
                        0 <= a < pre_leaf.len() && #[trigger] pre_leaf[a] == post[j];
                    assert(has_entry(withc, pre_leaf[a]));
                }
            }
            assert(paths_valid(post)) by {
                assert forall|j: int| 0 <= j < post.len() implies valid_path(
                    #[trigger] post[j].path@,
                ) by {
                    if post[j] == the_leaf {
                    } else if has_entry(s0, post[j]) {
                    } else {
                        let i = choose|i: int|
                            0 <= i < missing@.len() && (#[trigger] missing@[i])@
                                == post[j].path@;
                        lemma_cut_valid(p, missing_pos[i]);
                    }
                }
            }
            assert(values_on_leaves(post)) by {
                assert forall|j: int|
                    0 <= j < post.len() && (#[trigger] post[j].node_type)
                        != ConfigNodeType::Leaf implies post[j].value is None by {
                    if post[j] != the_leaf && !has_entry(s0, post[j]) {
                        assert(is_new_container(post[j], post[j].path@, now));
                    }
                }
            }
            assert(leaves_childless(post)) by {
                assert forall|a: int, b: int|
                    0 <= a < post.len() && 0 <= b < post.len() && descends_from(
                        (#[trigger] post[b].path@),
                        (#[trigger] post[a].path@),
                    ) implies post[a].node_type != ConfigNodeType::Leaf by {
                    let x = post[a].path@;
                    let y = post[b].path@;
                    // where does b's path descend from?
                    if post[a] == the_leaf {
                        // nothing descends from the leaf at p
                        if has_entry(s0, post[b]) {
                            let jb = choose|jb: int|
                                0 <= jb < s0.len() && #[trigger] s0[jb] == post[b];
                            assert(!descends_from(s0[jb].path@, p));
                            assert(false);
                        } else if post[b] == the_leaf {
                            assert(false);
                        } else {
                            let i = choose|i: int|
                                0 <= i < missing@.len() && (#[trigger] missing@[i])@
                                    == post[b].path@;
                            assert(y.len() == missing_pos[i] < p.len());
                            assert(false);
                        }
                    } else if origin(post[a]) && !has_entry(s0, post[a]) {
                        // a fresh container is not a leaf
                        assert(is_new_container(post[a], post[a].path@, now));
                    } else {
                        // an entry carried over from the starting tree
                        let ja = choose|ja: int|
                            0 <= ja < s0.len() && #[trigger] s0[ja] == post[a];
                        lemma_find_unique(s0, ja);
                        assert(find(s0, x) == Some(post[a]));
                        if post[a].node_type == ConfigNodeType::Leaf {
                            if has_entry(s0, post[b]) {
                                let jb = choose|jb: int|
                                    0 <= jb < s0.len() && #[trigger] s0[jb] == post[b];
                                assert(descends_from(s0[jb].path@, s0[ja].path@));
                                assert(false);
                            } else if post[b] == the_leaf {
                                assert(descends_from(p, x));
                                assert(match find(s0, x) {
                                    Some(e) => e.node_type != ConfigNodeType::Leaf,
                                    None => true,
                                });
                                assert(false);
                            } else {
                                let i = choose|i: int|
                                    0 <= i < missing@.len() && (#[trigger] missing@[i])@
                                        == post[b].path@;
                                lemma_descends_from_cut(p, missing_pos[i]);
                                assert(descends_from(p, y));
                                lemma_descends_trans(p, y, x);
                                assert(descends_from(p, x));
                                assert(false);
                            }
                        }
                    }
                }
            }
            assert(ancestors_present(post)) by {
                assert forall|a: int, k: int|
                    0 <= a < post.len() && 0 < k < post[a].path@.len() && #[trigger] post[a].path@[k]
                        == '/' implies contains_path(
                    post,
                    #[trigger] post[a].path@.subrange(0, k),
                ) by {
                    let x = post[a].path@;
                    let q = x.subrange(0, k);
                    if has_entry(s0, post[a]) {
                        let ja = choose|ja: int|
                            0 <= ja < s0.len() && #[trigger] s0[ja] == post[a];
                        assert(contains_path(s0, q));
                    } else {
                        // the leaf at p, or a fresh container at a cut of p:
                        // either way its path is a prefix of p cut at a
                        // separator, so the cut at k is a cut of p as well.
                        if post[a] == the_leaf {
                            assert(x == p);
                        } else {
                            let i = choose|i: int|
                                0 <= i < missing@.len() && (#[trigger] missing@[i])@ == x;
                            assert(x == p.subrange(0, missing_pos[i]));
                            assert(x[k] == p[k]);
                        }
                        assert(q =~= p.subrange(0, k));
                        assert(p[k] == '/');
                        if contains_path(s0, q) {
                        } else {
                            assert(missing_pos.contains(k));
                            let i2 = choose|i2: int|
                                0 <= i2 < missing_pos.len() && #[trigger] missing_pos[i2] == k;
                            assert(missing@[i2]@ == q);
                            assert(contains_path(withc, q));
                        }
                    }
                }
            }
            assert(tree_wf(post));
        }
        let mut changed = missing;
        let ghost changed_pre = changed@;
        changed.push(path.to_owned());
        proof {
            assert(strs_view(changed@) =~= strs_view(changed_pre) + seq![path@]);
        }
        changed
    }

    /// Set the value at a path, creating missing intermediate containers.
    ///
    /// Fails without changing the tree when the path is not canonical,
    /// when an ancestor of the path exists as a leaf, when the path names
    /// an interior node that has children, or — with `validate` — when
    /// the node's validation rule rejects the value. On success the
    /// returned list holds the canonical paths created or changed: the
    /// freshly created ancestors, shortest first, then the path itself.
    pub fn set(&mut self, path: &str, value: &str, validate: bool, now: i64) -> (r: Result<
        Vec<String>,
        ConfigError,
    >)
        requires
            old(self).wf(),
        ensures
            final(self).wf(),
            r is Ok <==> set_ok(old(self)@, path@, value@, validate),
            match r {
                Ok(changed) => set_outcome(old(self)@, final(self)@, path@, value@, now)
                    && strs_view(changed@) == new_paths(old(self)@, path@),
                Err(e) => final(self)@ == old(self)@ && (e matches ConfigError::Validation {
                    path: ep,
                    ..
                } && ep@ == path@),
            },
            r is Err && valid_path(path@) && !leaf_ancestor_blocks(old(self)@, path@)
                && !children_block(old(self)@, path@) ==> match find(old(self)@, path@) {
                Some(en) => r matches Err(ConfigError::Validation { rule: er, .. })
                    && crate::model::opt_rule_like(en.metadata.validation, er),
                None => false,
            },
    {
        let ghost s0 = self@;
        if !check_valid_path(path) {
            return Err(
                ConfigError::Validation {
                    path: path.to_owned(),
                    message: "path is not canonical".to_owned(),
                    rule: None,
                },
            );
        }
        let n = path.unicode_len();
        let slashes = crate::validate::find_positions(path, '/');
        let ghost cs = cut_positions(path@);
        proof {
            assert(path@[0] == '/');
            assert(crate::validate::positions_of(path@, '/', 0) == seq![0int] + cs);
            let full = slashes@.map_values(|u: usize| u as int);
            assert(full.len() == 1 + cs.len());
            assert forall|j: int| 1 <= j < full.len() implies (slashes@[j] as int) == cs[j
                - 1] by {
                assert(full[j] == slashes@[j] as int);
                assert(full[j] == cs[j - 1]);
            }
            crate::validate::lemma_positions_increase(path@, '/', 1);
            assert forall|j: int| 0 <= j < cs.len() implies 2 <= #[trigger] cs[j] < path@.len()
                && path@[cs[j]] == '/' by {
                lemma_positions_complete(path@, '/', 1, cs[j]);
                assert(cs.contains(cs[j]));
                if cs[j] == 1 {
                    assert(path@[1] == '/' && path@[0] == '/');
                    assert(false);
                }
            }
        }
        let mut missing: Vec<String> = Vec::new();
        let ghost mut missing_pos: Seq<int> = Seq::empty();
        let mut idx: usize = 1;
        proof {
            assert(cs.skip(0) =~= cs);
            assert(strs_view(missing@) + missing_cuts_from(s0, path@, cs) =~= missing_cuts_from(
                s0,
                path@,
                cs,
            ));
        }
        while idx < slashes.len()
            invariant
                1 <= idx <= slashes@.len(),
                s0 == old(self)@,
                self@ == s0,
                tree_wf(s0),
                valid_path(path@),
                n == path@.len(),
                slashes@.len() == cs.len() + 1,
                forall|j: int| 1 <= j < slashes@.len() ==> (#[trigger] slashes@[j]) as int == cs[j - 1],
                forall|j: int| 0 <= j < slashes@.len() ==> (#[trigger] slashes@[j]) < n,
                forall|j: int|
                    0 <= j < cs.len() ==> 2 <= #[trigger] cs[j] < path@.len() && path@[cs[j]]
                        == '/',
                forall|a: int, b: int| 0 <= a < b < cs.len() ==> #[trigger] cs[a] < #[trigger] cs[b],
                missing_cuts_from(s0, path@, cs) == strs_view(missing@) + missing_cuts_from(
                    s0,
                    path@,
                    cs.skip(idx - 1),
                ),
                missing@.len() == missing_pos.len(),
                forall|i: int|
                    0 <= i < missing@.len() ==> (#[trigger] missing@[i])@ == path@.subrange(
                        0,
                        missing_pos[i],
                    ),
                idx <= cs.len() ==> (forall|i: int|
                    0 <= i < missing_pos.len() ==> (#[trigger] missing_pos[i]) < cs[idx - 1]),
                forall|i: int|
                    0 <= i < missing@.len() ==> !contains_path(s0, (#[trigger] missing@[i])@),
                forall|i: int, j: int|
                    0 <= i < j < missing_pos.len() ==> #[trigger] missing_pos[i]
                        < #[trigger] missing_pos[j],
                forall|i: int|
                    0 <= i < missing_pos.len() ==> 2 <= #[trigger] missing_pos[i] < path@.len()
                        && path@[missing_pos[i]] == '/',
                forall|mm: int|
                    0 <= mm < idx - 1 ==> match find(s0, path@.subrange(0, #[trigger] cs[mm])) {
                        Some(e) => e.node_type != ConfigNodeType::Leaf,
                        None => true,
                    },
                forall|mm: int|
                    0 <= mm < idx - 1 && !contains_path(
                        s0,
                        path@.subrange(0, #[trigger] cs[mm]),
                    ) ==> missing_pos.contains(cs[mm]),
            decreases slashes@.len() - idx,
        {
            let k = slashes[idx];
            proof {
                assert(cs[idx - 1] == k as int);
            }
            let cut = path.substring_char(0, k);
            proof {
                assert(cut@ == path@.subrange(0, k as int));
            }
            let mut cut_is_leaf = false;
            match self.get(cut) {
                Some(e) => {
                    if e.node_type == ConfigNodeType::Leaf {
                        cut_is_leaf = true;
                    }
                },
                None => {
                    let ghost old_pos = missing_pos;
                    missing.push(cut.to_owned());
                    proof {
                        missing_pos = old_pos + seq![k as int];
                        assert(missing_pos[missing_pos.len() - 1] == k as int);
                        assert forall|i: int| 0 <= i < old_pos.len() implies missing_pos[i]
                            == old_pos[i] by {}
                        assert forall|i: int, j: int|
                            0 <= i < j < missing_pos.len() implies #[trigger] missing_pos[i]
                            < #[trigger] missing_pos[j] by {
                            if j == missing_pos.len() - 1 {
                                assert(old_pos[i] < cs[idx - 1]);
                            }
                        }
                    }
                },
            }
            if cut_is_leaf {
                proof {
                    lemma_descends_from_cut(path@, k as int);
                    assert(leaf_ancestor_blocks(s0, path@));
                }
                return Err(
                    ConfigError::Validation {
                        path: path.to_owned(),
                        message: "an ancestor of the path is a leaf".to_owned(),
                        rule: None,
                    },
                );
            }
            proof {
                let tail = cs.skip(idx - 1);
                assert(tail[0] == cs[idx - 1]);
                assert(tail.drop_first() =~= cs.skip(idx as int));
                assert(missing_cuts_from(s0, path@, tail) == if contains_path(
                    s0,
                    path@.subrange(0, cs[idx - 1]),
                ) {
                    missing_cuts_from(s0, path@, cs.skip(idx as int))
                } else {
                    seq![path@.subrange(0, cs[idx - 1])] + missing_cuts_from(
                        s0,
                        path@,
                        cs.skip(idx as int),
                    )
                });
                if !contains_path(s0, path@.subrange(0, cs[idx - 1])) {
                    assert(strs_view(missing@) =~= strs_view(missing@.drop_last())
                        + seq![path@.subrange(0, cs[idx - 1])]);
                    assert(strs_view(missing@.drop_last()) + (seq![
                        path@.subrange(0, cs[idx - 1]),
                    ] + missing_cuts_from(s0, path@, cs.skip(idx as int))) =~= strs_view(missing@)
                        + missing_cuts_from(s0, path@, cs.skip(idx as int)));
                }
            }
            idx = idx + 1;
        }
        proof {
            assert(cs.skip(idx - 1) =~= Seq::<int>::empty());
            assert(strs_view(missing@) + missing_cuts_from(s0, path@, cs.skip(idx - 1))
                =~= strs_view(missing@));
            assert(missing_cuts_from(s0, path@, cs) == strs_view(missing@));
            assert(!leaf_ancestor_blocks(s0, path@)) by {
                if leaf_ancestor_blocks(s0, path@) {
                    let q = choose|q: Seq<char>|
                        descends_from(path@, q) && match #[trigger] find(s0, q) {
                            Some(e) => e.node_type == ConfigNodeType::Leaf,
                            None => false,
                        };
                    lemma_find_means(s0, q);
                    let qe = choose|i: int| 0 <= i < s0.len() && #[trigger] s0[i].path@ == q;
                    assert(valid_path(q));
                    let k = q.len() as int;
                    assert(path@[k] == '/');
                    assert(path@.subrange(0, k) == q);
                    lemma_positions_complete(path@, '/', 1, k);
                    assert(cs.contains(k));
                    let mm = choose|mm: int| 0 <= mm < cs.len() && #[trigger] cs[mm] == k;
                    assert(false);
                }
            }
            assert forall|kk: int|
                0 < kk < path@.len() && #[trigger] path@[kk] == '/' && !contains_path(
                    s0,
                    path@.subrange(0, kk),
                ) implies missing_pos.contains(kk) by {
                lemma_positions_complete(path@, '/', 1, kk);
                assert(cs.contains(kk));
                let mm = choose|mm: int| 0 <= mm < cs.len() && #[trigger] cs[mm] == kk;
            }
        }
        // The node itself: children and rule checks.
        let prior_idx = self.locate(path);
        match prior_idx {
            Some(i) => {
                let is_leaf = self.entries[i].node_type == ConfigNodeType::Leaf;
                if !is_leaf {
                    let m = self.entries.len();
                    let mut j: usize = 0;
                    while j < m
                        invariant
                            j <= m,
                            m == self@.len(),
                            self@ == s0,
                            s0 == old(self)@,
                            tree_wf(s0),
                            i < s0.len(),
                            find(s0, path@) == Some(s0[i as int]),
                            s0[i as int].node_type != ConfigNodeType::Leaf,
                            forall|jj: int|
                                0 <= jj < j ==> !descends_from(
                                    (#[trigger] s0[jj].path@),
                                    path@,
                                ),
                        decreases m - j,
                    {
                        if check_descends(self.entries[j].path.as_str(), path) {
                            proof {
                                assert(descends_from(s0[j as int].path@, path@));
                                assert(children_block(s0, path@));
                            }
                            return Err(
                                ConfigError::Validation {
                                    path: path.to_owned(),
                                    message: "the node has children".to_owned(),
                                    rule: None,
                                },
                            );
                        }
                        j = j + 1;
                    }
                }
                proof {
                    if is_leaf {
                        assert forall|jj: int| 0 <= jj < s0.len() implies !descends_from(
                            (#[trigger] s0[jj].path@),
                            path@,
                        ) by {
                            assert(s0[i as int].path@ == path@);
                        }
                    }
                }
                if validate {
                    match &self.entries[i].metadata.validation {
                        Some(rule) => {
                            if !crate::validate::check_value(rule, value) {
                                let offended = rule.clone();
                                proof {
                                    assert(rule_blocks(s0, path@, value@));
                                    assert(self@[i as int] == s0[i as int]);
                                    assert(crate::model::opt_rule_like(
                                        s0[i as int].metadata.validation,
                                        Some(offended),
                                    ));
                                }
                                return Err(
                                    ConfigError::Validation {
                                        path: path.to_owned(),
                                        message:
                                            "the value violates the node's validation rule".to_owned(),
                                        rule: Some(offended),
                                    },
                                );
                            }
                        },
                        None => {},
                    }
                }
            },
            None => {
                proof {
                    assert forall|jj: int| 0 <= jj < s0.len() implies !descends_from(
                        (#[trigger] s0[jj].path@),
                        path@,
                    ) by {
                        if descends_from(s0[jj].path@, path@) {
                            let kk = path@.len() as int;
                            assert(s0[jj].path@[kk] == '/');
                            assert(contains_path(s0, s0[jj].path@.subrange(0, kk)));
                            assert(s0[jj].path@.subrange(0, kk) == path@);
                            assert(false);
                        }
                    }
                }
            },
        }
        proof {
            assert(!children_block(s0, path@)) by {
                lemma_find_means(s0, path@);
            }
            assert(validate ==> !rule_blocks(s0, path@, value@)) by {
                lemma_find_means(s0, path@);
            }
            assert forall|q: Seq<char>| descends_from(path@, q) implies match #[trigger] find(
                s0,
                q,
            ) {
                Some(e) => e.node_type != ConfigNodeType::Leaf,
                None => true,
            } by {
                if find(s0, q) is Some {
                    assert(!leaf_ancestor_blocks(s0, path@));
                    assert(!(match find(s0, q) {
                        Some(e) => e.node_type == ConfigNodeType::Leaf,
                        None => false,
                    }));
                }
            }
            assert(set_ok(s0, path@, value@, validate));
        }
        let changed = self.apply_set(missing, Ghost(missing_pos), path, value, now);
        Ok(changed)
    }

    /// Replace the metadata of an existing node: flags, default value,
    /// validation rule and help text. The node's identity — path, type
    /// and value — and every other node stay as they are.
    pub fn set_metadata(&mut self, path: &str, metadata: ConfigMetadata) -> (r: Result<
        (),
        ConfigError,
    >)
        requires
            old(self).wf(),
        ensures
            final(self).wf(),
            r is Ok <==> contains_path(old(self)@, path@),
            match r {
                Ok(_) => final(self)@.len() == old(self)@.len() && (forall|q: Seq<char>|
                    q != path@ ==> #[trigger] find(final(self)@, q) == find(old(self)@, q)) && (
                match (find(final(self)@, path@), find(old(self)@, path@)) {
                    (Some(e2), Some(e1)) => e2.path@ == e1.path@ && e2.node_type == e1.node_type
                        && opt_view(e2.value) == opt_view(e1.value) && meta_like(
                        e2.metadata,
                        metadata,
                    ) && e2.created_at == e1.created_at && e2.updated_at == e1.updated_at,
                    _ => false,
                }),
                Err(e) => final(self)@ == old(self)@ && (e matches ConfigError::NotFound {
                    path: ep,
                } && ep@ == path@),
            },
    {
        let i = match self.locate(path) {
            Some(i) => i,
            None => {
                return Err(ConfigError::NotFound { path: path.to_owned() });
            },
        };
        let ghost s0 = self@;
        let prior = self.take_entry(i);
        let ghost m = metadata;
        let updated = ConfigEntry {
            path: prior.path,
            node_type: prior.node_type,
            value: prior.value,
            metadata,
            created_at: prior.created_at,
            updated_at: prior.updated_at,
        };
        let ghost mid = self@;
        let ghost upd = updated;
        self.insert_entry(updated);
        proof {
            assert(find(self@, path@) == Some(upd));
            assert(meta_like(upd.metadata, m));
            assert(prior == s0[i as int]);
            // the shape invariants carry over: the updated entry keeps
            // the path, type and value the invariants read
            let post = self@;
            let same_shape = |x: ConfigEntry|
                x.path@ == s0[i as int].path@ && x.node_type == s0[i as int].node_type && x.value
                    == s0[i as int].value;
            assert(same_shape(upd));
            assert forall|j: int| 0 <= j < post.len() implies has_entry(s0, #[trigger] post[j])
                || same_shape(post[j]) by {
                if post[j] != upd {
                    assert(has_entry(mid, post[j]));
                }
            }
            assert(paths_valid(post)) by {
                assert forall|j: int| 0 <= j < post.len() implies valid_path(
                    #[trigger] post[j].path@,
                ) by {
                    if !has_entry(s0, post[j]) {
                        assert(same_shape(post[j]));
                    }
                }
            }
            assert(values_on_leaves(post)) by {
                assert forall|j: int|
                    0 <= j < post.len() && (#[trigger] post[j].node_type)
                        != ConfigNodeType::Leaf implies post[j].value is None by {
                    if !has_entry(s0, post[j]) {
                        assert(same_shape(post[j]));
                        assert(s0[i as int].value is None);
                    }
                }
            }
            assert(leaves_childless(post)) by {
                assert forall|a: int, b: int|
                    0 <= a < post.len() && 0 <= b < post.len() && descends_from(
                        (#[trigger] post[b].path@),
                        (#[trigger] post[a].path@),
                    ) implies post[a].node_type != ConfigNodeType::Leaf by {
                    let xa = if has_entry(s0, post[a]) {
                        choose|ja: int| 0 <= ja < s0.len() && #[trigger] s0[ja] == post[a]
                    } else {
                        i as int
                    };
                    let xb = if has_entry(s0, post[b]) {
                        choose|jb: int| 0 <= jb < s0.len() && #[trigger] s0[jb] == post[b]
                    } else {
                        i as int
                    };
                    assert(s0[xa].path@ == post[a].path@ && s0[xa].node_type
                        == post[a].node_type) by {
                        if !has_entry(s0, post[a]) {
                            assert(same_shape(post[a]));
                        }
                    }
                    assert(s0[xb].path@ == post[b].path@) by {
                        if !has_entry(s0, post[b]) {
                            assert(same_shape(post[b]));
                        }
                    }
                    assert(descends_from(s0[xb].path@, s0[xa].path@));
                }
            }
            assert(ancestors_present(post)) by {
                assert forall|a: int, k: int|
                    0 <= a < post.len() && 0 < k < post[a].path@.len()
                        && #[trigger] post[a].path@[k] == '/' implies contains_path(
                    post,
                    #[trigger] post[a].path@.subrange(0, k),
                ) by {
                    let xa = if has_entry(s0, post[a]) {
                        choose|ja: int| 0 <= ja < s0.len() && #[trigger] s0[ja] == post[a]
                    } else {
                        i as int
                    };
                    assert(s0[xa].path@ == post[a].path@) by {
                        if !has_entry(s0, post[a]) {
                            assert(same_shape(post[a]));
                        }
                    }
                    assert(contains_path(s0, s0[xa].path@.subrange(0, k)));
                    assert(contains_path(post, post[a].path@.subrange(0, k))) by {
                        assert(contains_path(mid, post[a].path@.subrange(0, k)) == (
                        post[a].path@.subrange(0, k) != upd.path@ && contains_path(
                            s0,
                            post[a].path@.subrange(0, k),
                        )));
                    }
                }
            }
        }
        Ok(())
    }

    /// Remove the node at a path together with its whole subtree.
    ///
    /// A non-canonical path names no node and counts as absent, like any
    /// other path without a node: deleting an absent path is a no-op
    /// when `validate` is off and a not-found error when it is on. On
    /// success the returned list holds the canonical paths of the
    /// removed nodes, in canonical order.
    pub fn delete(&mut self, path: &str, validate: bool) -> (r: Result<Vec<String>, ConfigError>)
        requires
            old(self).wf(),
        ensures
            final(self).wf(),
            r is Ok <==> (contains_path(old(self)@, path@) || !validate),
            match r {
                Ok(removed) => if valid_path(path@) {
                    delete_outcome(old(self)@, final(self)@, path@) && strs_view(removed@)
                        == removed_paths(old(self)@, path@)
                } else {
                    final(self)@ == old(self)@ && removed@.len() == 0
                },
                Err(e) => final(self)@ == old(self)@ && (e matches ConfigError::NotFound {
                    path: ep,
                } && ep@ == path@),
            },
    {
        let ghost s0 = self@;
        let ghost p = path@;
        if !check_valid_path(path) {
            proof {
                if contains_path(s0, p) {
                    let w = choose|w: int| 0 <= w < s0.len() && #[trigger] s0[w].path@ == p;
                    assert(valid_path(s0[w].path@));
                    assert(false);
                }
            }
            if validate {
                return Err(ConfigError::NotFound { path: path.to_owned() });
            } else {
                return Ok(Vec::new());
            }
        }
        if validate {
            if self.locate(path).is_none() {
                return Err(ConfigError::NotFound { path: path.to_owned() });
            }
        }
        let mut removed: Vec<String> = Vec::new();
        let mut i: usize = 0;
        let ghost mut j: int = 0;
        let ghost n = s0.len() as int;
        proof {
            assert(s0.take(0) =~= Seq::<ConfigEntry>::empty());
            reveal(Seq::filter);
            assert(s0.take(0).filter(|e: ConfigEntry| !hits_delete(e, p)) + s0.skip(0) =~= s0);
            assert(strs_view(removed@) =~= s0.take(0).filter(
                |e: ConfigEntry| hits_delete(e, p),
            ).map_values(|e: ConfigEntry| e.path@));
        }
        while i < self.entries.len()
            invariant
                s0 == old(self)@,
                tree_wf(s0),
                p == path@,
                n == s0.len(),
                0 <= j <= n,
                i == s0.take(j).filter(|e: ConfigEntry| !hits_delete(e, p)).len(),
                i <= j,
                self@ == s0.take(j).filter(|e: ConfigEntry| !hits_delete(e, p)) + s0.skip(j),
                strs_view(removed@) == s0.take(j).filter(
                    |e: ConfigEntry| hits_delete(e, p),
                ).map_values(|e: ConfigEntry| e.path@),
                paths_sorted(self@),
                forall|ii: int| 0 <= ii < self@.len() ==> has_entry(s0, #[trigger] self@[ii]),
                forall|jj: int|
                    0 <= jj < j && hits_delete(#[trigger] s0[jj], p) ==> find(
                        self@,
                        s0[jj].path@,
                    ) is None,
                forall|q: Seq<char>|
                    !(exists|jj: int|
                        0 <= jj < j && (#[trigger] s0[jj].path@) == q && hits_delete(s0[jj], p))
                        ==> #[trigger] find(self@, q) == find(s0, q),
            decreases self@.len() - i,
        {
            proof {
                assert(self@[i as int] == s0.skip(j)[0]);
                assert(s0.skip(j)[0] == s0[j]);
            }
            let hit = crate::order::str_eq(self.entries[i].path.as_str(), path)
                || check_descends(self.entries[i].path.as_str(), path);
            let ghost pre = self@;
            let ghost pre_removed = strs_view(removed@);
            proof {
                assert(s0.take(j + 1) =~= s0.take(j).push(s0[j]));
                lemma_filter_step(s0.take(j), s0[j], |e: ConfigEntry| !hits_delete(e, p));
                lemma_filter_step(s0.take(j), s0[j], |e: ConfigEntry| hits_delete(e, p));
            }
            if hit {
                let ent = self.take_entry(i);
                removed.push(ent.path);
                proof {
                    assert(hits_delete(s0[j], p));
                    assert(pre.remove(i as int) =~= s0.take(j).filter(
                        |e: ConfigEntry| !hits_delete(e, p),
                    ) + s0.skip(j + 1)) by {
                        assert(s0.skip(j).drop_first() =~= s0.skip(j + 1));
                        assert(pre.remove(i as int) =~= pre.take(i as int) + pre.skip(i + 1));
                        assert(pre.take(i as int) =~= s0.take(j).filter(
                            |e: ConfigEntry| !hits_delete(e, p),
                        ));
                        assert(pre.skip(i + 1) =~= s0.skip(j + 1));
                    }
                    assert(s0.take(j + 1).filter(|e: ConfigEntry| !hits_delete(e, p))
                        =~= s0.take(j).filter(|e: ConfigEntry| !hits_delete(e, p)));
                    assert(strs_view(removed@) =~= pre_removed + seq![s0[j].path@]);
                    assert(s0.take(j + 1).filter(|e: ConfigEntry| hits_delete(e, p)).map_values(
                        |e: ConfigEntry| e.path@,
                    ) =~= pre_removed + seq![s0[j].path@]);
                    j = j + 1;
                    assert forall|jj: int|
                        0 <= jj < j && hits_delete(#[trigger] s0[jj], p) implies find(
                        self@,
                        s0[jj].path@,
                    ) is None by {
                        if jj < j - 1 {
                            assert(find(pre, s0[jj].path@) is None);
                            if s0[jj].path@ == s0[j - 1].path@ {
                            } else {
                                assert(find(self@, s0[jj].path@) == find(pre, s0[jj].path@));
                            }
                        } else {
                            assert(find(self@, s0[j - 1].path@) is None);
                        }
                    }
                }
            } else {
                proof {
                    assert(!hits_delete(s0[j], p));
                    assert(s0.take(j + 1).filter(|e: ConfigEntry| !hits_delete(e, p))
                        =~= s0.take(j).filter(|e: ConfigEntry| !hits_delete(e, p)).push(s0[j]));
                    assert(s0.take(j + 1).filter(|e: ConfigEntry| hits_delete(e, p)) =~= s0.take(
                        j,
                    ).filter(|e: ConfigEntry| hits_delete(e, p)));
                    assert(self@ =~= s0.take(j + 1).filter(|e: ConfigEntry| !hits_delete(e, p))
                        + s0.skip(j + 1)) by {
                        assert(s0.skip(j).drop_first() =~= s0.skip(j + 1));
                        assert(self@.skip(i + 1) =~= s0.skip(j).drop_first());
                        assert(self@ =~= self@.take(i + 1) + self@.skip(i + 1));
                        assert(self@.take(i + 1) =~= s0.take(j).filter(
                            |e: ConfigEntry| !hits_delete(e, p),
                        ).push(s0[j]));
                    }
                    j = j + 1;
                }
                i = i + 1;
            }
        }
        proof {
            assert(j == n) by {
                if j < n {
                    assert(s0.skip(j).len() > 0);
                }
            }
            assert(s0.take(j) =~= s0);
            assert(self@ =~= s0.filter(|e: ConfigEntry| !hits_delete(e, p))) by {
                assert(s0.skip(j) =~= Seq::<ConfigEntry>::empty());
                assert(s0.filter(|e: ConfigEntry| !hits_delete(e, p)) + Seq::<
                    ConfigEntry,
                >::empty() =~= s0.filter(|e: ConfigEntry| !hits_delete(e, p)));
            }
            // the final lookup characterization
            assert forall|q: Seq<char>|
                #![trigger find(self@, q)]
                {
                    if q == p || descends_from(q, p) {
                        find(self@, q) is None
                    } else {
                        find(self@, q) == find(s0, q)
                    }
                } by {
                lemma_find_means(s0, q);
                if q == p || descends_from(q, p) {
                    if contains_path(s0, q) {
                        let jj = choose|jj: int|
                            0 <= jj < s0.len() && #[trigger] s0[jj].path@ == q;
                        assert(hits_delete(s0[jj], p));
                        assert(find(self@, s0[jj].path@) is None);
                    } else {
                        assert forall|jj: int|
                            !(0 <= jj < j && (#[trigger] s0[jj].path@) == q && hits_delete(
                                s0[jj],
                                p,
                            )) by {
                            if 0 <= jj < j && s0[jj].path@ == q {
                                assert(contains_path(s0, q));
                            }
                        }
                        assert(find(self@, q) == find(s0, q));
                    }
                } else {
                    assert forall|jj: int|
                        !(0 <= jj < j && (#[trigger] s0[jj].path@) == q && hits_delete(
                            s0[jj],
                            p,
                        )) by {}
                    assert(find(self@, q) == find(s0, q));
                }
            }
            // well-formedness of what is left
            assert(paths_valid(self@)) by {
                assert forall|ii: int| 0 <= ii < self@.len() implies valid_path(
                    #[trigger] self@[ii].path@,
                ) by {
                    let jj = choose|jj: int|
                        0 <= jj < s0.len() && #[trigger] s0[jj] == self@[ii];
                }
            }
            assert(values_on_leaves(self@)) by {
                assert forall|ii: int|
                    0 <= ii < self@.len() && (#[trigger] self@[ii].node_type)
                        != ConfigNodeType::Leaf implies self@[ii].value is None by {
                    let jj = choose|jj: int|
                        0 <= jj < s0.len() && #[trigger] s0[jj] == self@[ii];
                }
            }
            assert(leaves_childless(self@)) by {
                assert forall|a: int, b: int|
                    0 <= a < self@.len() && 0 <= b < self@.len() && descends_from(
                        (#[trigger] self@[b].path@),
                        (#[trigger] self@[a].path@),
                    ) implies self@[a].node_type != ConfigNodeType::Leaf by {
                    let ja = choose|ja: int|
                        0 <= ja < s0.len() && #[trigger] s0[ja] == self@[a];
                    let jb = choose|jb: int|
                        0 <= jb < s0.len() && #[trigger] s0[jb] == self@[b];
                    assert(descends_from(s0[jb].path@, s0[ja].path@));
                }
            }
            assert(ancestors_present(self@)) by {
                assert forall|a: int, k: int|
                    0 <= a < self@.len() && 0 < k < self@[a].path@.len()
                        && #[trigger] self@[a].path@[k] == '/' implies contains_path(
                    self@,
                    #[trigger] self@[a].path@.subrange(0, k),
                ) by {
                    let x = self@[a].path@;
                    let q = x.subrange(0, k);
                    let ja = choose|ja: int|
                        0 <= ja < s0.len() && #[trigger] s0[ja] == self@[a];
                    assert(contains_path(s0, q));
                    lemma_find_means(s0, q);
                    // the ancestor was kept: had it hit the deletion, the
                    // kept entry below it would have hit as well
                    lemma_descends_from_cut(x, k);
                    assert(descends_from(x, q));
                    assert(!hits_delete(self@[a], p));
                    if q == p {
                        assert(hits_delete(self@[a], p));
                    } else if descends_from(q, p) {
                        lemma_descends_trans(x, q, p);
                        assert(hits_delete(self@[a], p));
                    }
                    assert(find(self@, q) == find(s0, q));
                    lemma_find_means(self@, q);
                }
            }
            assert(tree_wf(self@));
        }
        Ok(removed)
    }
}

/// An entry the deletion of `p` removes: the node at `p` itself or any
/// node below it.
pub open spec fn hits_delete(e: ConfigEntry, p: Seq<char>) -> bool {
    e.path@ == p || descends_from(e.path@, p)
}

/// The canonical paths a deletion removes, in canonical order.
pub open spec fn removed_paths(s: Seq<ConfigEntry>, p: Seq<char>) -> Seq<Seq<char>> {
    s.filter(|e: ConfigEntry| hits_delete(e, p)).map_values(|e: ConfigEntry| e.path@)
}

/// What a successful deletion leaves behind: nothing at or below `p`,
/// and everything else exactly as it was.
pub open spec fn delete_outcome(pre: Seq<ConfigEntry>, post: Seq<ConfigEntry>, p: Seq<char>) -> bool {
    forall|q: Seq<char>|
        #![trigger find(post, q)]
        {
            if q == p || descends_from(q, p) {
                find(post, q) is None
            } else {
                find(post, q) == find(pre, q)
            }
        }
}

/// Every element the filter keeps is an element of the sequence.
pub proof fn lemma_filter_membership(s: Seq<ConfigEntry>, pred: spec_fn(ConfigEntry) -> bool, k: int)
    requires
        0 <= k < s.filter(pred).len(),
    ensures
        pred(s.filter(pred)[k]),
        exists|i: int| 0 <= i < s.len() && #[trigger] s[i] == s.filter(pred)[k],
    decreases s.len(),
{
    reveal(Seq::filter);
    if s.len() > 0 {
        let sub = s.drop_last().filter(pred);
        if k < sub.len() {
            lemma_filter_membership(s.drop_last(), pred, k);
            let i = choose|i: int|
                0 <= i < s.drop_last().len() && #[trigger] s.drop_last()[i] == sub[k];
            assert(s[i] == sub[k]);
            if pred(s.last()) {
                assert(s.filter(pred)[k] == sub[k]);
            }
        } else {
            assert(pred(s.last()));
            assert(s.filter(pred)[k] == s.last());
            assert(s[s.len() - 1] == s.last());
        }
    }
}

/// One filtering step: filtering a pushed element keeps it exactly when
/// it satisfies the predicate.
pub proof fn lemma_filter_step(s: Seq<ConfigEntry>, e: ConfigEntry, pred: spec_fn(ConfigEntry) -> bool)
    ensures
        s.push(e).filter(pred) == if pred(e) {
            s.filter(pred).push(e)
        } else {
            s.filter(pred)
        },
{
    reveal(Seq::filter);
    assert(s.push(e).drop_last() =~= s);
    assert(s.push(e).last() == e);
}

/// A freshly created intermediate container at path `q`.
pub open spec fn is_new_container(e: ConfigEntry, q: Seq<char>, now: i64) -> bool {
    &&& e.path@ == q
    &&& e.node_type == ConfigNodeType::Container
    &&& e.value is None
    &&& crate::model::default_meta(e.metadata)
    &&& e.created_at == now
    &&& e.updated_at == now
}

/// The leaf a set leaves at path `p`: it carries the new value; an entry
/// that existed before keeps its metadata and creation time.
pub open spec fn is_set_leaf(
    e: ConfigEntry,
    p: Seq<char>,
    v: Seq<char>,
    prior: Option<ConfigEntry>,
    now: i64,
) -> bool {
    &&& e.path@ == p
    &&& e.node_type == ConfigNodeType::Leaf
    &&& opt_view(e.value) == Some(v)
    &&& e.updated_at == now
    &&& match prior {
        Some(pe) => meta_like(pe.metadata, e.metadata) && e.created_at == pe.created_at,
        None => crate::model::default_meta(e.metadata) && e.created_at == now,
    }
}

/// A set at `p` is refused when some ancestor of `p` is a leaf.
pub open spec fn leaf_ancestor_blocks(s: Seq<ConfigEntry>, p: Seq<char>) -> bool {
    exists|q: Seq<char>|
        descends_from(p, q) && match #[trigger] find(s, q) {
            Some(e) => e.node_type == ConfigNodeType::Leaf,
            None => false,
        }
}

/// A set at `p` is refused when `p` is an interior node with children.
pub open spec fn children_block(s: Seq<ConfigEntry>, p: Seq<char>) -> bool {
    match find(s, p) {
        Some(e) => e.node_type != ConfigNodeType::Leaf && exists|j: int|
            0 <= j < s.len() && descends_from(#[trigger] s[j].path@, p),
        None => false,
    }
}

/// A validated set at `p` is refused when the node's rule rejects `v`.
pub open spec fn rule_blocks(s: Seq<ConfigEntry>, p: Seq<char>, v: Seq<char>) -> bool {
    match find(s, p) {
        Some(e) => !crate::validate::opt_rule_accepts(e.metadata.validation, v),
        None => false,
    }
}

/// When a set succeeds.
pub open spec fn set_ok(s: Seq<ConfigEntry>, p: Seq<char>, v: Seq<char>, validate: bool) -> bool {
    &&& valid_path(p)
    &&& !leaf_ancestor_blocks(s, p)
    &&& !children_block(s, p)
    &&& (validate ==> !rule_blocks(s, p, v))
}

/// The positions at which `p` may be cut into an ancestor path.
pub open spec fn cut_positions(p: Seq<char>) -> Seq<int> {
    crate::validate::positions_of(p, '/', 1)
}

/// The ancestor paths of `p`, shortest first, that are absent from `s`.
pub open spec fn missing_cuts_from(s: Seq<ConfigEntry>, p: Seq<char>, ks: Seq<int>) -> Seq<
    Seq<char>,
>
    decreases ks.len(),
{
    if ks.len() == 0 {
        Seq::empty()
    } else {
        let q = p.subrange(0, ks[0]);
        let rest = missing_cuts_from(s, p, ks.drop_first());
        if contains_path(s, q) {
            rest
        } else {
            seq![q] + rest
        }
    }
}

/// The paths a successful set creates or changes, in order.
pub open spec fn new_paths(s: Seq<ConfigEntry>, p: Seq<char>) -> Seq<Seq<char>> {
    missing_cuts_from(s, p, cut_positions(p)) + seq![p]
}

/// What a successful set leaves behind: the leaf at `p`, fresh containers
/// at the ancestors of `p` that were absent, and everything else exactly
/// as it was.
pub open spec fn set_outcome(
    pre: Seq<ConfigEntry>,
    post: Seq<ConfigEntry>,
    p: Seq<char>,
    v: Seq<char>,
    now: i64,
) -> bool {
    forall|q: Seq<char>|
        #![trigger find(post, q)]
        {
            if q == p {
                match find(post, q) {
                    Some(e) => is_set_leaf(e, p, v, find(pre, p), now),
                    None => false,
                }
            } else if descends_from(p, q) && q.len() >= 2 && !contains_path(pre, q) {
                match find(post, q) {
                    Some(e) => is_new_container(e, q, now),
                    None => false,
                }
            } else {
                find(post, q) == find(pre, q)
            }
        }
}

/// The positions list holds exactly the matching indices.
pub proof fn lemma_positions_complete(s: Seq<char>, c: char, from: int, m: int)
    requires
        0 <= from,
    ensures
        crate::validate::positions_of(s, c, from).contains(m) == (from <= m < s.len() && s[m]
            == c),
    decreases s.len() - from,
{
    if from >= s.len() {
    } else {
        lemma_positions_complete(s, c, from + 1, m);
        let tail = crate::validate::positions_of(s, c, from + 1);
        if s[from] == c {
            let whole = seq![from] + tail;
            assert(whole[0] == from);
            if tail.contains(m) {
                let j = choose|j: int| 0 <= j < tail.len() && #[trigger] tail[j] == m;
                assert(whole[j + 1] == m);
                assert(whole.contains(m));
            }
            if whole.contains(m) && m != from {
                let j = choose|j: int| 0 <= j < whole.len() && #[trigger] whole[j] == m;
                assert(j > 0);
                assert(tail[j - 1] == m);
                assert(tail.contains(m));
            }
            if m == from {
                assert(whole.contains(m));
            }
        }
    }
}

/// Cutting a path at a separator yields an ancestor it descends from.
pub proof fn lemma_descends_from_cut(p: Seq<char>, k: int)
    requires
        0 <= k < p.len(),
        p[k] == '/',
    ensures
        descends_from(p, p.subrange(0, k)),
{
    assert(p.subrange(0, p.subrange(0, k).len() as int) =~= p.subrange(0, k));
}

/// Descent is transitive: an ancestor of an ancestor is an ancestor.
pub proof fn lemma_descends_trans(p: Seq<char>, q: Seq<char>, r: Seq<char>)
    requires
        descends_from(p, q),
        descends_from(q, r),
    ensures
        descends_from(p, r),
{
    assert forall|i: int| 0 <= i < q.len() implies p[i] == q[i] by {
        assert(p.subrange(0, q.len() as int)[i] == p[i]);
    }
    assert forall|i: int| 0 <= i < r.len() implies q[i] == r[i] by {
        assert(q.subrange(0, r.len() as int)[i] == q[i]);
    }
    assert(p.subrange(0, r.len() as int) =~= r);
    assert(p[r.len() as int] == q[r.len() as int]);
}

/// A cut of a canonical path at a separator is itself canonical.
pub proof fn lemma_cut_valid(p: Seq<char>, k: int)
    requires
        valid_path(p),
        2 <= k < p.len(),
        p[k] == '/',
    ensures
        valid_path(p.subrange(0, k)),
{
    let q = p.subrange(0, k);
    assert forall|i: int| 0 <= i < k implies q[i] == p[i] by {}
    assert(q[0] == '/');
    assert(q[k - 1] != '/');
}

/// Exec check that a path is canonical.
pub fn check_valid_path(p: &str) -> (r: bool)
    ensures
        r == valid_path(p@),
{
    let n = p.unicode_len();
    if n < 2 {
        return false;
    }
    if p.get_char(0) != '/' {
        return false;
    }
    if p.get_char(n - 1) == '/' {
        return false;
    }
    let mut k: usize = 1;
    while k < n
        invariant
            1 <= k <= n,
            n == p@.len(),
            forall|j: int| 0 < j < k ==> !(#[trigger] p@[j] == '/' && p@[j - 1] == '/'),
        decreases n - k,
    {
        if p.get_char(k) == '/' {
            if p.get_char(k - 1) == '/' {
                return false;
            }
        }
        k = k + 1;
    }
    true
}

/// Exec check that `q` names a node strictly below `p`.
pub fn check_descends(q: &str, p: &str) -> (r: bool)
    ensures
        r == descends_from(q@, p@),
{
    let qn = q.unicode_len();
    let pn = p.unicode_len();
    if qn <= pn {
        return false;
    }
    if q.get_char(pn) != '/' {
        return false;
    }
    let mut i: usize = 0;
    while i < pn
        invariant
            i <= pn,
            pn < qn,
            qn == q@.len(),
            pn == p@.len(),
            forall|j: int| 0 <= j < i ==> q@[j] == p@[j],
        decreases pn - i,
    {
        let qc = q.get_char(i);
        let pc = p.get_char(i);
        if qc != pc {
            proof {
                assert(q@.subrange(0, pn as int)[i as int] == q@[i as int]);
            }
            return false;
        }
        i = i + 1;
    }
    proof {
        assert(q@.subrange(0, pn as int) =~= p@);
    }
    true
}

} // verus!
