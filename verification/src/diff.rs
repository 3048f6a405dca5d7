//! Structural difference of two snapshots.
//!
//! Both trees are already flat, canonically sorted path lists, so the
//! diff walks them simultaneously with two cursors, advancing the cursor
//! whose path sorts first: linear in the sizes of the trees. A path in
//! only one tree is an addition or a deletion; a path in both with equal
//! types but different values is a modification; a path whose node type
//! changed is incompatible in shape and yields a deletion of the old
//! node and an addition of the new one.

use vstd::prelude::*;

use crate::model::{opt_view, DiffChangeType};
use crate::order::{lemma_path_lt_asymm, lemma_path_lt_total, lemma_path_lt_trans, path_cmp, path_lt};
use crate::tree::{
    contains_path, find, lemma_find_means, lemma_find_unique, lemma_filter_step, paths_sorted,
    ConfigEntry,
};

verus! {

/// One changed path in a diff.
#[derive(Debug)]
pub struct ConfigChange {
    pub path: String,
    pub old_value: Option<String>,
    pub new_value: Option<String>,
    pub change_type: DiffChangeType,
}

/// Ghost image of a change.
pub ghost struct ChangeModel {
    pub path: Seq<char>,
    pub old_value: Option<Seq<char>>,
    pub new_value: Option<Seq<char>>,
    pub change_type: DiffChangeType,
}

impl View for ConfigChange {
    type V = ChangeModel;

    open spec fn view(&self) -> ChangeModel {
        ChangeModel {
            path: self.path@,
            old_value: opt_view(self.old_value),
            new_value: opt_view(self.new_value),
            change_type: self.change_type,
        }
    }
}

impl Clone for ConfigChange {
    fn clone(&self) -> (r: Self)
        ensures
            r@ == self@,
    {
        ConfigChange {
            path: self.path.clone(),
            old_value: crate::model::clone_opt_string(&self.old_value),
            new_value: crate::model::clone_opt_string(&self.new_value),
            change_type: self.change_type,
        }
    }
}

/// View of a change list.
pub open spec fn changes_view(v: Seq<ConfigChange>) -> Seq<ChangeModel> {
    v.map_values(|c: ConfigChange| c@)
}

/// `e` has no counterpart of the same shape in `other`: its path is
/// absent there, or present with a different node type.
pub open spec fn unmatched_in(e: ConfigEntry, other: Seq<ConfigEntry>) -> bool {
    match find(other, e.path@) {
        Some(o) => o.node_type != e.node_type,
        None => true,
    }
}

/// `e` keeps its shape in `other` but its value changed.
pub open spec fn value_changed(e: ConfigEntry, other: Seq<ConfigEntry>) -> bool {
    match find(other, e.path@) {
        Some(o) => o.node_type == e.node_type && opt_view(o.value) != opt_view(e.value),
        None => false,
    }
}

/// The value at `e.path` in the other tree.
pub open spec fn value_in(o: Option<ConfigEntry>) -> Option<Seq<char>> {
    match o {
        Some(e) => opt_view(e.value),
        None => None,
    }
}

/// Additions of `diff(a, b)`: entries of `b` unmatched in `a`, in
/// canonical order.
pub open spec fn spec_additions(a: Seq<ConfigEntry>, b: Seq<ConfigEntry>) -> Seq<ChangeModel> {
    b.filter(|e: ConfigEntry| unmatched_in(e, a)).map_values(
        |e: ConfigEntry|
            ChangeModel {
                path: e.path@,
                old_value: None,
                new_value: opt_view(e.value),
                change_type: DiffChangeType::Added,
            },
    )
}

/// Deletions of `diff(a, b)`: entries of `a` unmatched in `b`, in
/// canonical order.
pub open spec fn spec_deletions(a: Seq<ConfigEntry>, b: Seq<ConfigEntry>) -> Seq<ChangeModel> {
    a.filter(|e: ConfigEntry| unmatched_in(e, b)).map_values(
        |e: ConfigEntry|
            ChangeModel {
                path: e.path@,
                old_value: opt_view(e.value),
                new_value: None,
                change_type: DiffChangeType::Deleted,
            },
    )
}

/// Modifications of `diff(a, b)`: entries of `b` whose node kept its
/// shape but changed its value, with the old and new values.
pub open spec fn spec_modifications(a: Seq<ConfigEntry>, b: Seq<ConfigEntry>) -> Seq<ChangeModel> {
    b.filter(|e: ConfigEntry| value_changed(e, a)).map_values(
        |e: ConfigEntry|
            ChangeModel {
                path: e.path@,
                old_value: value_in(find(a, e.path@)),
                new_value: opt_view(e.value),
                change_type: DiffChangeType::Modified,
            },
    )
}

/// Filtering keeps nothing when nothing satisfies the predicate.
pub proof fn lemma_filter_none(s: Seq<ConfigEntry>, pred: spec_fn(ConfigEntry) -> bool)
    requires
        forall|i: int| 0 <= i < s.len() ==> !pred(#[trigger] s[i]),
    ensures
        s.filter(pred) == Seq::<ConfigEntry>::empty(),
    decreases s.len(),
{
    reveal(Seq::filter);
    if s.len() > 0 {
        assert(forall|i: int| 0 <= i < s.len() - 1 ==> s.drop_last()[i] == #[trigger] s[i]);
        lemma_filter_none(s.drop_last(), pred);
    }
}

/// The diff of a snapshot against itself is empty.
pub proof fn lemma_diff_self(s: Seq<ConfigEntry>)
    requires
        paths_sorted(s),
    ensures
        spec_additions(s, s) == Seq::<ChangeModel>::empty(),
        spec_deletions(s, s) == Seq::<ChangeModel>::empty(),
        spec_modifications(s, s) == Seq::<ChangeModel>::empty(),
{
    assert forall|i: int| 0 <= i < s.len() implies !unmatched_in(#[trigger] s[i], s)
        && !value_changed(s[i], s) by {
        lemma_find_unique(s, i);
    }
    lemma_filter_none(s, |e: ConfigEntry| unmatched_in(e, s));
    lemma_filter_none(s, |e: ConfigEntry| value_changed(e, s));
    assert(spec_additions(s, s) =~= Seq::<ChangeModel>::empty());
    assert(spec_deletions(s, s) =~= Seq::<ChangeModel>::empty());
    assert(spec_modifications(s, s) =~= Seq::<ChangeModel>::empty());
}

/// Diffing is symmetric: the additions of `diff(a, b)` are the
/// deletions of `diff(b, a)` — the same paths in the same order, the
/// new value of each addition being the old value of the matching
/// deletion — and vice versa.
pub proof fn lemma_diff_symmetry(a: Seq<ConfigEntry>, b: Seq<ConfigEntry>)
    ensures
        spec_additions(a, b).len() == spec_deletions(b, a).len(),
        forall|i: int|
            0 <= i < spec_additions(a, b).len() ==> (#[trigger] spec_additions(a, b)[i]).path
                == spec_deletions(b, a)[i].path && spec_additions(a, b)[i].new_value
                == spec_deletions(b, a)[i].old_value,
        spec_deletions(a, b).len() == spec_additions(b, a).len(),
        forall|i: int|
            0 <= i < spec_deletions(a, b).len() ==> (#[trigger] spec_deletions(a, b)[i]).path
                == spec_additions(b, a)[i].path && spec_deletions(a, b)[i].old_value
                == spec_additions(b, a)[i].new_value,
{
    let kept_b = b.filter(|e: ConfigEntry| unmatched_in(e, a));
    let kept_a = a.filter(|e: ConfigEntry| unmatched_in(e, b));
    assert(spec_additions(a, b).len() == kept_b.len());
    assert(spec_deletions(b, a).len() == kept_b.len());
    assert(spec_deletions(a, b).len() == kept_a.len());
    assert(spec_additions(b, a).len() == kept_a.len());
}


/// Build a deletion record for an entry.
fn change_deleted(e: &ConfigEntry) -> (c: ConfigChange)
    ensures
        c@ == (ChangeModel {
            path: e.path@,
            old_value: opt_view(e.value),
            new_value: None,
            change_type: DiffChangeType::Deleted,
        }),
{
    ConfigChange {
        path: e.path.clone(),
        old_value: crate::model::clone_opt_string(&e.value),
        new_value: None,
        change_type: DiffChangeType::Deleted,
    }
}

/// Build an addition record for an entry.
fn change_added(e: &ConfigEntry) -> (c: ConfigChange)
    ensures
        c@ == (ChangeModel {
            path: e.path@,
            old_value: None,
            new_value: opt_view(e.value),
            change_type: DiffChangeType::Added,
        }),
{
    ConfigChange {
        path: e.path.clone(),
        old_value: None,
        new_value: crate::model::clone_opt_string(&e.value),
        change_type: DiffChangeType::Added,
    }
}

/// Build a modification record from the old and the new entry.
fn change_modified(ea: &ConfigEntry, eb: &ConfigEntry) -> (c: ConfigChange)
    ensures
        c@ == (ChangeModel {
            path: eb.path@,
            old_value: opt_view(ea.value),
            new_value: opt_view(eb.value),
            change_type: DiffChangeType::Modified,
        }),
{
    ConfigChange {
        path: eb.path.clone(),
        old_value: crate::model::clone_opt_string(&ea.value),
        new_value: crate::model::clone_opt_string(&eb.value),
        change_type: DiffChangeType::Modified,
    }
}

/// Pushing a record extends the viewed list by its model.
pub proof fn lemma_changes_view_push(v: Seq<ConfigChange>, x: ConfigChange)
    ensures
        changes_view(v.push(x)) == changes_view(v).push(x@),
{
    assert(changes_view(v.push(x)) =~= changes_view(v).push(x@));
}

/// How one more entry of `a` extends the deletions.
pub proof fn lemma_deletions_step(a_pre: Seq<ConfigEntry>, e: ConfigEntry, b: Seq<ConfigEntry>)
    ensures
        spec_deletions(a_pre.push(e), b) == if unmatched_in(e, b) {
            spec_deletions(a_pre, b).push(
                ChangeModel {
                    path: e.path@,
                    old_value: opt_view(e.value),
                    new_value: None,
                    change_type: DiffChangeType::Deleted,
                },
            )
        } else {
            spec_deletions(a_pre, b)
        },
{
    lemma_filter_step(a_pre, e, |en: ConfigEntry| unmatched_in(en, b));
    if unmatched_in(e, b) {
        assert(spec_deletions(a_pre.push(e), b) =~= spec_deletions(a_pre, b).push(
            ChangeModel {
                path: e.path@,
                old_value: opt_view(e.value),
                new_value: None,
                change_type: DiffChangeType::Deleted,
            },
        ));
    }
}

/// How one more entry of `b` extends the additions.
pub proof fn lemma_additions_step(a: Seq<ConfigEntry>, b_pre: Seq<ConfigEntry>, e: ConfigEntry)
    ensures
        spec_additions(a, b_pre.push(e)) == if unmatched_in(e, a) {
            spec_additions(a, b_pre).push(
                ChangeModel {
                    path: e.path@,
                    old_value: None,
                    new_value: opt_view(e.value),
                    change_type: DiffChangeType::Added,
                },
            )
        } else {
            spec_additions(a, b_pre)
        },
{
    lemma_filter_step(b_pre, e, |en: ConfigEntry| unmatched_in(en, a));
    if unmatched_in(e, a) {
        assert(spec_additions(a, b_pre.push(e)) =~= spec_additions(a, b_pre).push(
            ChangeModel {
                path: e.path@,
                old_value: None,
                new_value: opt_view(e.value),
                change_type: DiffChangeType::Added,
            },
        ));
    }
}

/// How one more entry of `b` extends the modifications.
pub proof fn lemma_modifications_step(a: Seq<ConfigEntry>, b_pre: Seq<ConfigEntry>, e: ConfigEntry)
    ensures
        spec_modifications(a, b_pre.push(e)) == if value_changed(e, a) {
            spec_modifications(a, b_pre).push(
                ChangeModel {
                    path: e.path@,
                    old_value: value_in(find(a, e.path@)),
                    new_value: opt_view(e.value),
                    change_type: DiffChangeType::Modified,
                },
            )
        } else {
            spec_modifications(a, b_pre)
        },
{
    lemma_filter_step(b_pre, e, |en: ConfigEntry| value_changed(en, a));
    if value_changed(e, a) {
        assert(spec_modifications(a, b_pre.push(e)) =~= spec_modifications(a, b_pre).push(
            ChangeModel {
                path: e.path@,
                old_value: value_in(find(a, e.path@)),
                new_value: opt_view(e.value),
                change_type: DiffChangeType::Modified,
            },
        ));
    }
}

/// The three change lists between two snapshots, with the hashes of the
/// snapshots they were computed from.
#[derive(Debug)]
pub struct DiffResult {
    pub hash_a: String,
    pub hash_b: String,
    pub additions: Vec<ConfigChange>,
    pub deletions: Vec<ConfigChange>,
    pub modifications: Vec<ConfigChange>,
}

/// Exec equality of two optional string values.
pub fn opt_str_eq(x: &Option<String>, y: &Option<String>) -> (r: bool)
    ensures
        r == (opt_view(*x) == opt_view(*y)),
{
    match (x, y) {
        (None, None) => true,
        (Some(xs), Some(ys)) => crate::order::str_eq(xs.as_str(), ys.as_str()),
        _ => false,
    }
}

/// Compute the three change lists between the sorted entry lists of two
/// snapshots, walking both with two cursors.
pub fn diff_entries(a: &Vec<ConfigEntry>, b: &Vec<ConfigEntry>) -> (r: (
    Vec<ConfigChange>,
    Vec<ConfigChange>,
    Vec<ConfigChange>,
))
    requires
        paths_sorted(a@),
        paths_sorted(b@),
    ensures
        changes_view(r.0@) == spec_additions(a@, b@),
        changes_view(r.1@) == spec_deletions(a@, b@),
        changes_view(r.2@) == spec_modifications(a@, b@),
{
    let mut adds: Vec<ConfigChange> = Vec::new();
    let mut dels: Vec<ConfigChange> = Vec::new();
    let mut mods: Vec<ConfigChange> = Vec::new();
    let na = a.len();
    let nb = b.len();
    let mut i: usize = 0;
    let mut j: usize = 0;
    proof {
        assert(a@.take(0) =~= Seq::<ConfigEntry>::empty());
        assert(b@.take(0) =~= Seq::<ConfigEntry>::empty());
        reveal(Seq::filter);
        assert(changes_view(adds@) =~= spec_additions(a@, b@.take(0)));
        assert(changes_view(dels@) =~= spec_deletions(a@.take(0), b@));
        assert(changes_view(mods@) =~= spec_modifications(a@, b@.take(0)));
    }
    while i < na || j < nb
        invariant
            i <= na,
            j <= nb,
            na == a@.len(),
            nb == b@.len(),
            paths_sorted(a@),
            paths_sorted(b@),
            forall|ii: int, jj: int|
                0 <= ii < i && j <= jj < nb ==> path_lt(
                    (#[trigger] a@[ii].path@),
                    (#[trigger] b@[jj].path@),
                ),
            forall|jj: int, ii: int|
                0 <= jj < j && i <= ii < na ==> path_lt(
                    (#[trigger] b@[jj].path@),
                    (#[trigger] a@[ii].path@),
                ),
            changes_view(adds@) == spec_additions(a@, b@.take(j as int)),
            changes_view(dels@) == spec_deletions(a@.take(i as int), b@),
            changes_view(mods@) == spec_modifications(a@, b@.take(j as int)),
        decreases na - i + nb - j,
    {
        let c: i8 = if i < na && j < nb {
            path_cmp(a[i].path.as_str(), b[j].path.as_str())
        } else if i < na {
            -1
        } else {
            1
        };
        if c == -1 {
            // the entry of `a` has no counterpart in `b`
            proof {
                assert forall|jj: int| 0 <= jj < nb implies (#[trigger] b@[jj].path@)
                    != a@[i as int].path@ by {
                    if jj < j {
                        lemma_path_lt_asymm(b@[jj].path@, a@[i as int].path@);
                    } else {
                        if j < nb {
                            if jj > j {
                                lemma_path_lt_trans(
                                    a@[i as int].path@,
                                    b@[j as int].path@,
                                    b@[jj].path@,
                                );
                            }
                            lemma_path_lt_asymm(a@[i as int].path@, b@[jj].path@);
                        }
                    }
                }
                lemma_find_means(b@, a@[i as int].path@);
                assert(!contains_path(b@, a@[i as int].path@));
                assert(unmatched_in(a@[i as int], b@));
            }
            let e = &a[i];
            let ch = change_deleted(e);
            let ghost pre = dels@;
            dels.push(ch);
            proof {
                assert(a@.take(i + 1) =~= a@.take(i as int).push(a@[i as int]));
                lemma_deletions_step(a@.take(i as int), a@[i as int], b@);
                lemma_changes_view_push(pre, ch);
                assert(changes_view(dels@) == spec_deletions(a@.take(i + 1), b@));
                if j < nb {
                    assert forall|jj: int| j <= jj < nb implies path_lt(
                        a@[i as int].path@,
                        (#[trigger] b@[jj].path@),
                    ) by {
                        if jj > j {
                            lemma_path_lt_trans(
                                a@[i as int].path@,
                                b@[j as int].path@,
                                b@[jj].path@,
                            );
                        }
                    }
                }
            }
            i = i + 1;
        } else if c == 1 {
            // the entry of `b` has no counterpart in `a`
            proof {
                assert forall|ii: int| 0 <= ii < na implies (#[trigger] a@[ii].path@)
                    != b@[j as int].path@ by {
                    if ii < i {
                        lemma_path_lt_asymm(a@[ii].path@, b@[j as int].path@);
                    } else {
                        if i < na {
                            if ii > i {
                                lemma_path_lt_trans(
                                    b@[j as int].path@,
                                    a@[i as int].path@,
                                    a@[ii].path@,
                                );
                            }
                            lemma_path_lt_asymm(b@[j as int].path@, a@[ii].path@);
                        }
                    }
                }
                lemma_find_means(a@, b@[j as int].path@);
                assert(!contains_path(a@, b@[j as int].path@));
                assert(unmatched_in(b@[j as int], a@));
                assert(!value_changed(b@[j as int], a@));
            }
            let e = &b[j];
            let ch = change_added(e);
            let ghost pre = adds@;
            adds.push(ch);
            proof {
                assert(b@.take(j + 1) =~= b@.take(j as int).push(b@[j as int]));
                lemma_additions_step(a@, b@.take(j as int), b@[j as int]);
                lemma_modifications_step(a@, b@.take(j as int), b@[j as int]);
                lemma_changes_view_push(pre, ch);
                assert(changes_view(adds@) == spec_additions(a@, b@.take(j + 1)));
                assert(changes_view(mods@) == spec_modifications(a@, b@.take(j + 1)));
                if i < na {
                    assert forall|ii: int| i <= ii < na implies path_lt(
                        b@[j as int].path@,
                        (#[trigger] a@[ii].path@),
                    ) by {
                        if ii > i {
                            lemma_path_lt_trans(
                                b@[j as int].path@,
                                a@[i as int].path@,
                                a@[ii].path@,
                            );
                        }
                    }
                }
            }
            j = j + 1;
        } else {
            // both trees hold the path
            proof {
                assert(i < na && j < nb);
                lemma_path_lt_total(a@[i as int].path@, b@[j as int].path@);
                assert(a@[i as int].path@ == b@[j as int].path@);
                lemma_find_unique(a@, i as int);
                assert(find(a@, b@[j as int].path@) == Some(a@[i as int]));
            }
            let ea = &a[i];
            let eb = &b[j];
            let same_type = ea.node_type == eb.node_type;
            if !same_type {
                // incompatible shapes: a deletion of the old node plus
                // an addition of the new one
                let chd = change_deleted(ea);
                let cha = change_added(eb);
                let ghost pre_d = dels@;
                let ghost pre_a = adds@;
                dels.push(chd);
                adds.push(cha);
                proof {
                    assert(unmatched_in(a@[i as int], b@)) by {
                        lemma_find_unique(b@, j as int);
                        assert(find(b@, a@[i as int].path@) == Some(b@[j as int]));
                    }
                    assert(unmatched_in(b@[j as int], a@));
                    assert(!value_changed(b@[j as int], a@));
                    assert(a@.take(i + 1) =~= a@.take(i as int).push(a@[i as int]));
                    assert(b@.take(j + 1) =~= b@.take(j as int).push(b@[j as int]));
                    lemma_deletions_step(a@.take(i as int), a@[i as int], b@);
                    lemma_additions_step(a@, b@.take(j as int), b@[j as int]);
                    lemma_modifications_step(a@, b@.take(j as int), b@[j as int]);
                    lemma_changes_view_push(pre_d, chd);
                    lemma_changes_view_push(pre_a, cha);
                    assert(changes_view(dels@) == spec_deletions(a@.take(i + 1), b@));
                    assert(changes_view(adds@) == spec_additions(a@, b@.take(j + 1)));
                    assert(changes_view(mods@) == spec_modifications(a@, b@.take(j + 1)));
                }
            } else {
                let same_value = opt_str_eq(&ea.value, &eb.value);
                proof {
                    assert(!unmatched_in(b@[j as int], a@));
                    assert(unmatched_in(a@[i as int], b@) == false) by {
                        lemma_find_unique(b@, j as int);
                        assert(find(b@, a@[i as int].path@) == Some(b@[j as int]));
                    }
                }
                if !same_value {
                    let chm = change_modified(ea, eb);
                    let ghost pre_m = mods@;
                    mods.push(chm);
                    proof {
                        assert(value_changed(b@[j as int], a@));
                        lemma_changes_view_push(pre_m, chm);
                    }
                } else {
                    proof {
                        assert(!value_changed(b@[j as int], a@));
                    }
                }
                proof {
                    assert(a@.take(i + 1) =~= a@.take(i as int).push(a@[i as int]));
                    assert(b@.take(j + 1) =~= b@.take(j as int).push(b@[j as int]));
                    lemma_deletions_step(a@.take(i as int), a@[i as int], b@);
                    lemma_additions_step(a@, b@.take(j as int), b@[j as int]);
                    lemma_modifications_step(a@, b@.take(j as int), b@[j as int]);
                    assert(changes_view(dels@) == spec_deletions(a@.take(i + 1), b@));
                    assert(changes_view(adds@) == spec_additions(a@, b@.take(j + 1)));
                    assert(changes_view(mods@) == spec_modifications(a@, b@.take(j + 1)));
                }
            }
            proof {
                assert forall|ii: int, jj: int|
                    0 <= ii < i + 1 && j + 1 <= jj < nb implies path_lt(
                    (#[trigger] a@[ii].path@),
                    (#[trigger] b@[jj].path@),
                ) by {
                    assert(path_lt(b@[j as int].path@, b@[jj].path@));
                    if ii < i {
                        lemma_path_lt_trans(a@[ii].path@, b@[j as int].path@, b@[jj].path@);
                    }
                }
                assert forall|jj: int, ii: int|
                    0 <= jj < j + 1 && i + 1 <= ii < na implies path_lt(
                    (#[trigger] b@[jj].path@),
                    (#[trigger] a@[ii].path@),
                ) by {
                    assert(path_lt(a@[i as int].path@, a@[ii].path@));
                    if jj < j {
                        lemma_path_lt_trans(b@[jj].path@, a@[i as int].path@, a@[ii].path@);
                    }
                }
            }
            i = i + 1;
            j = j + 1;
        }
    }
    proof {
        assert(a@.take(na as int) =~= a@);
        assert(b@.take(nb as int) =~= b@);
    }
    (adds, dels, mods)
}

} // verus!
