//! The mutation service: one mutable working tree per device, with the
//! snapshot store and the history ledger behind it.
//!
//! Set and delete touch only the working tree. A commit validates,
//! hashes and stores the tree and appends a history record; a rollback
//! replaces the working tree with an earlier snapshot and, when applied
//! immediately, records that as a new forward-only entry — past entries
//! are never rewritten. Callers on one device must serialize mutating
//! calls; reads of committed snapshots need no coordination.

use vstd::prelude::*;

use crate::history::{HistoryEntry, HistoryEntryModel, HistoryLog};
use crate::model::{
    ConfigChangeType, ConfigCommitStatus, ConfigError, SearchType, SortOrder,
};
use crate::search::search_spec;
use crate::snapshot::{spec_hash, store_entries_of, store_has_hash, SnapshotModel, SnapshotStore};
use crate::tree::{
    contains_path, delete_outcome, entry_like, find, removed_paths, set_ok, set_outcome,
    ConfigEntry, ConfigTree,
};
use crate::validate::{has_invalid, ConfigValidationResult, ValidationWarning, ValidationWarningType};

verus! {

/// Relies on chrono's Utc::now: the current wall-clock time in seconds
/// since the Unix epoch. Nothing is assumed of the value. The call
/// aborts on a system clock set before the Unix epoch — an
/// environmental fault no argument of this signature could exclude.
#[verifier::external_body]
fn now_unix() -> (t: i64) {
    chrono::Utc::now().timestamp()
}

/// The ledger is left room for one more entry.
pub open spec fn ledger_open(h: Seq<HistoryEntryModel>) -> bool {
    h.len() < 0xffffffff00000000
}

/// Outcome of a commit.
#[derive(Debug)]
pub struct GenerateResult {
    pub success: bool,
    pub commit_status: ConfigCommitStatus,
    pub snapshot_hash: Option<String>,
    pub history_id: Option<u64>,
    pub save_requested: bool,
    pub validation: Option<ConfigValidationResult>,
}

/// Outcome of a rollback.
#[derive(Debug)]
pub struct RollbackResult {
    pub success: bool,
    pub restored_hash: String,
    pub new_history_id: Option<u64>,
}

/// One requested change of a bulk operation: a set when a value is
/// given, a delete when it is not.
#[derive(Debug)]
pub struct BulkChange {
    pub path: String,
    pub value: Option<String>,
}

/// A change a bulk operation could not apply.
#[derive(Debug)]
pub struct ConfigChangeFailure {
    pub path: String,
    pub error: String,
}

/// Outcome of a bulk operation: which changes were applied and which
/// failed, in request order.
#[derive(Debug)]
pub struct BulkResult {
    pub success: bool,
    pub applied: Vec<String>,
    pub failed: Vec<ConfigChangeFailure>,
}

/// How a bulk run without early stop partitions the request list: two
/// increasing index sequences select, in request order, the changes
/// that were applied and the changes that failed, and together they
/// cover every change exactly once.
pub open spec fn bulk_split(
    changes: Seq<BulkChange>,
    applied: Seq<String>,
    failed: Seq<ConfigChangeFailure>,
    ok: Seq<int>,
    bad: Seq<int>,
) -> bool {
    &&& ok.len() == applied.len()
    &&& bad.len() == failed.len()
    &&& (forall|i: int, j: int| 0 <= i < j < ok.len() ==> #[trigger] ok[i] < #[trigger] ok[j])
    &&& (forall|i: int, j: int| 0 <= i < j < bad.len() ==> #[trigger] bad[i] < #[trigger] bad[j])
    &&& (forall|i: int|
        0 <= i < ok.len() ==> 0 <= #[trigger] ok[i] < changes.len() && applied[i]@
            == changes[ok[i]].path@)
    &&& (forall|i: int|
        0 <= i < bad.len() ==> 0 <= #[trigger] bad[i] < changes.len() && failed[i].path@
            == changes[bad[i]].path@)
    &&& (forall|k: int| 0 <= k < changes.len() ==> ok.contains(k) || bad.contains(k))
}

/// Whether one requested change can be applied to a working tree: the
/// set or delete precondition of the change itself.
pub open spec fn change_ok(w: Seq<ConfigEntry>, c: BulkChange, validate: bool) -> bool {
    match c.value {
        Some(v) => set_ok(w, c.path@, v@, validate),
        None => contains_path(w, c.path@) || !validate,
    }
}

/// What applying one change leaves behind: the set or delete outcome
/// at the change's path, the set's timestamp left open.
pub open spec fn change_applied(
    pre: Seq<ConfigEntry>,
    post: Seq<ConfigEntry>,
    c: BulkChange,
    validate: bool,
) -> bool {
    match c.value {
        Some(v) => exists|t: i64| set_outcome(pre, post, c.path@, v@, t),
        None => if crate::tree::valid_path(c.path@) {
            delete_outcome(pre, post, c.path@)
        } else {
            post == pre
        },
    }
}

/// The sequential semantics of a bulk run over a working tree: each
/// change in request order is applied exactly when its own precondition
/// holds in the tree state the earlier applied changes produced, a
/// failing change is recorded under its path, and — with early stop —
/// the first failure ends the run with the changes after it never
/// examined. The final tree is the sequential application of exactly
/// the applied changes.
pub open spec fn bulk_run(
    pre: Seq<ConfigEntry>,
    changes: Seq<BulkChange>,
    validate: bool,
    stop_on_error: bool,
    applied: Seq<String>,
    failed: Seq<ConfigChangeFailure>,
    post: Seq<ConfigEntry>,
) -> bool
    decreases changes.len(),
{
    if changes.len() == 0 {
        applied.len() == 0 && failed.len() == 0 && post == pre
    } else {
        let c = changes[0];
        if change_ok(pre, c, validate) {
            &&& applied.len() > 0
            &&& applied[0]@ == c.path@
            &&& exists|mid: Seq<ConfigEntry>|
                #[trigger] change_applied(pre, mid, c, validate) && bulk_run(
                    mid,
                    changes.drop_first(),
                    validate,
                    stop_on_error,
                    applied.drop_first(),
                    failed,
                    post,
                )
        } else {
            &&& failed.len() > 0
            &&& failed[0].path@ == c.path@
            &&& if stop_on_error {
                applied.len() == 0 && failed.len() == 1 && post == pre
            } else {
                bulk_run(
                    pre,
                    changes.drop_first(),
                    validate,
                    stop_on_error,
                    applied,
                    failed.drop_first(),
                    post,
                )
            }
        }
    }
}

/// A run extends by one applicable change at its end.
proof fn lemma_bulk_run_ok_snoc(
    pre: Seq<ConfigEntry>,
    cs: Seq<BulkChange>,
    validate: bool,
    stop_on_error: bool,
    applied: Seq<String>,
    failed: Seq<ConfigChangeFailure>,
    mid: Seq<ConfigEntry>,
    c: BulkChange,
    ps: String,
    post: Seq<ConfigEntry>,
)
    requires
        bulk_run(pre, cs, validate, stop_on_error, applied, failed, mid),
        stop_on_error ==> failed.len() == 0,
        change_ok(mid, c, validate),
        change_applied(mid, post, c, validate),
        ps@ == c.path@,
    ensures
        bulk_run(pre, cs.push(c), validate, stop_on_error, applied.push(ps), failed, post),
    decreases cs.len(),
{
    if cs.len() == 0 {
        assert(cs.push(c)[0] == c);
        assert(cs.push(c).drop_first() =~= Seq::<BulkChange>::empty());
        assert(applied.push(ps)[0] == ps);
        assert(applied.push(ps).drop_first() =~= Seq::<String>::empty());
        assert(change_applied(pre, post, c, validate));
        assert(bulk_run(
            post,
            Seq::<BulkChange>::empty(),
            validate,
            stop_on_error,
            Seq::<String>::empty(),
            failed,
            post,
        ));
    } else {
        let c0 = cs[0];
        assert(cs.push(c)[0] == c0);
        assert(cs.push(c).drop_first() =~= cs.drop_first().push(c));
        if change_ok(pre, c0, validate) {
            let mid1 = choose|m: Seq<ConfigEntry>|
                #[trigger] change_applied(pre, m, c0, validate) && bulk_run(
                    m,
                    cs.drop_first(),
                    validate,
                    stop_on_error,
                    applied.drop_first(),
                    failed,
                    mid,
                );
            lemma_bulk_run_ok_snoc(
                mid1,
                cs.drop_first(),
                validate,
                stop_on_error,
                applied.drop_first(),
                failed,
                mid,
                c,
                ps,
                post,
            );
            assert(applied.push(ps)[0] == applied[0]);
            assert(applied.push(ps).drop_first() =~= applied.drop_first().push(ps));
            assert(change_applied(pre, mid1, c0, validate) && bulk_run(
                mid1,
                cs.drop_first().push(c),
                validate,
                stop_on_error,
                applied.drop_first().push(ps),
                failed,
                post,
            ));
        } else {
            assert(!stop_on_error);
            lemma_bulk_run_ok_snoc(
                pre,
                cs.drop_first(),
                validate,
                stop_on_error,
                applied,
                failed.drop_first(),
                mid,
                c,
                ps,
                post,
            );
        }
    }
}

/// A run without early stop extends by one inapplicable change at its
/// end; the tree does not move.
proof fn lemma_bulk_run_fail_snoc(
    pre: Seq<ConfigEntry>,
    cs: Seq<BulkChange>,
    validate: bool,
    applied: Seq<String>,
    failed: Seq<ConfigChangeFailure>,
    mid: Seq<ConfigEntry>,
    c: BulkChange,
    f: ConfigChangeFailure,
)
    requires
        bulk_run(pre, cs, validate, false, applied, failed, mid),
        !change_ok(mid, c, validate),
        f.path@ == c.path@,
    ensures
        bulk_run(pre, cs.push(c), validate, false, applied, failed.push(f), mid),
    decreases cs.len(),
{
    if cs.len() == 0 {
        assert(cs.push(c)[0] == c);
        assert(cs.push(c).drop_first() =~= Seq::<BulkChange>::empty());
        assert(failed.push(f)[0] == f);
        assert(failed.push(f).drop_first() =~= Seq::<ConfigChangeFailure>::empty());
        assert(bulk_run(
            pre,
            Seq::<BulkChange>::empty(),
            validate,
            false,
            applied,
            Seq::<ConfigChangeFailure>::empty(),
            mid,
        ));
    } else {
        let c0 = cs[0];
        assert(cs.push(c)[0] == c0);
        assert(cs.push(c).drop_first() =~= cs.drop_first().push(c));
        if change_ok(pre, c0, validate) {
            let mid1 = choose|m: Seq<ConfigEntry>|
                #[trigger] change_applied(pre, m, c0, validate) && bulk_run(
                    m,
                    cs.drop_first(),
                    validate,
                    false,
                    applied.drop_first(),
                    failed,
                    mid,
                );
            lemma_bulk_run_fail_snoc(
                mid1,
                cs.drop_first(),
                validate,
                applied.drop_first(),
                failed,
                mid,
                c,
                f,
            );
            assert(change_applied(pre, mid1, c0, validate) && bulk_run(
                mid1,
                cs.drop_first().push(c),
                validate,
                false,
                applied.drop_first(),
                failed.push(f),
                mid,
            ));
        } else {
            lemma_bulk_run_fail_snoc(
                pre,
                cs.drop_first(),
                validate,
                applied,
                failed.drop_first(),
                mid,
                c,
                f,
            );
            assert(failed.push(f)[0] == failed[0]);
            assert(failed.push(f).drop_first() =~= failed.drop_first().push(f));
        }
    }
}

/// A run with early stop that has applied every change so far ends at
/// the first inapplicable change; whatever follows it is never
/// examined.
proof fn lemma_bulk_run_fail_stop(
    pre: Seq<ConfigEntry>,
    cs0: Seq<BulkChange>,
    rest: Seq<BulkChange>,
    validate: bool,
    applied: Seq<String>,
    mid: Seq<ConfigEntry>,
    f: ConfigChangeFailure,
)
    requires
        bulk_run(pre, cs0, validate, true, applied, Seq::<ConfigChangeFailure>::empty(), mid),
        rest.len() > 0,
        !change_ok(mid, rest[0], validate),
        f.path@ == rest[0].path@,
    ensures
        bulk_run(pre, cs0 + rest, validate, true, applied, seq![f], mid),
    decreases cs0.len(),
{
    if cs0.len() == 0 {
        assert(cs0 + rest =~= rest);
        assert(applied.len() == 0 && mid == pre);
        assert(seq![f][0] == f);
    } else {
        let c0 = cs0[0];
        assert((cs0 + rest)[0] == c0);
        assert((cs0 + rest).drop_first() =~= cs0.drop_first() + rest);
        assert(change_ok(pre, c0, validate));
        let mid1 = choose|m: Seq<ConfigEntry>|
            #[trigger] change_applied(pre, m, c0, validate) && bulk_run(
                m,
                cs0.drop_first(),
                validate,
                true,
                applied.drop_first(),
                Seq::<ConfigChangeFailure>::empty(),
                mid,
            );
        lemma_bulk_run_fail_stop(
            mid1,
            cs0.drop_first(),
            rest,
            validate,
            applied.drop_first(),
            mid,
            f,
        );
        assert(change_applied(pre, mid1, c0, validate) && bulk_run(
            mid1,
            cs0.drop_first() + rest,
            validate,
            true,
            applied.drop_first(),
            seq![f],
            mid,
        ));
    }
}

/// The service owning the single working tree of one device.
pub struct MutationService {
    working: ConfigTree,
    store: SnapshotStore,
    history: HistoryLog,
}

impl MutationService {
    /// The working tree, as its canonical entry list.
    pub closed spec fn working_view(&self) -> Seq<ConfigEntry> {
        self.working@
    }

    /// The stored snapshots.
    pub closed spec fn store_view(&self) -> Seq<SnapshotModel> {
        self.store@
    }

    /// The history ledger.
    pub closed spec fn history_view(&self) -> Seq<HistoryEntryModel> {
        self.history@
    }

    /// The service invariant: all three parts are well-formed, and every
    /// history entry references a stored snapshot.
    pub closed spec fn wf(&self) -> bool {
        &&& self.working.wf()
        &&& self.store.wf()
        &&& self.history.wf()
        &&& forall|i: int|
            0 <= i < self.history@.len() ==> store_has_hash(
                self.store@,
                (#[trigger] self.history@[i].snapshot_hash),
            )
    }

    /// A fresh service: empty working tree, no snapshots, no history.
    pub fn new() -> (s: Self)
        ensures
            s.wf(),
            s.working_view() == Seq::<ConfigEntry>::empty(),
            s.store_view() == Seq::<SnapshotModel>::empty(),
            s.history_view() == Seq::<HistoryEntryModel>::empty(),
    {
        MutationService {
            working: ConfigTree::new(),
            store: SnapshotStore::new(),
            history: HistoryLog::new(),
        }
    }

    /// What the service invariant says of the snapshot store: no hash
    /// is stored twice, and every stored snapshot is a well-formed tree
    /// recorded under its own content hash.
    pub proof fn lemma_store_unique(&self)
        requires
            self.wf(),
        ensures
            forall|i: int, j: int|
                0 <= i < self.store_view().len() && 0 <= j < self.store_view().len() && (
                #[trigger] self.store_view()[i]).hash == (#[trigger] self.store_view()[j]).hash
                    ==> i == j,
            forall|i: int|
                0 <= i < self.store_view().len() ==> (#[trigger] self.store_view()[i]).hash
                    == spec_hash(self.store_view()[i].entries) && crate::tree::tree_wf(
                    self.store_view()[i].entries,
                ),
    {
        assert forall|i: int, j: int|
            0 <= i < self.store_view().len() && 0 <= j < self.store_view().len() && (
            #[trigger] self.store_view()[i]).hash == (#[trigger] self.store_view()[j]).hash implies i
            == j by {
            if i < j || j < i {
                assert(self.store@[i].hash != self.store@[j].hash);
            }
        }
    }

    /// A present hash resolves to exactly one stored snapshot:
    /// [`store_entries_of`] names its tree, which is well-formed and
    /// hashes back to the hash it is stored under.
    pub proof fn lemma_store_resolves(&self, h: Seq<char>)
        requires
            self.wf(),
            store_has_hash(self.store_view(), h),
        ensures
            spec_hash(store_entries_of(self.store_view(), h)) == h,
            crate::tree::tree_wf(store_entries_of(self.store_view(), h)),
            forall|i: int|
                0 <= i < self.store_view().len() && (#[trigger] self.store_view()[i]).hash == h
                    ==> self.store_view()[i].entries == store_entries_of(self.store_view(), h),
    {
        self.lemma_store_unique();
        let w = choose|i: int|
            0 <= i < self.store_view().len() && (#[trigger] self.store_view()[i].hash) == h;
        assert(self.store_view()[w].hash == h);
        assert(store_entries_of(self.store_view(), h) == self.store_view()[w].entries);
    }

    /// Look a node of the working tree up by canonical path.
    pub fn get(&self, path: &str) -> (r: Option<&ConfigEntry>)
        requires
            self.wf(),
        ensures
            match r {
                Some(e) => find(self.working_view(), path@) == Some(*e),
                None => find(self.working_view(), path@) is None && !contains_path(
                    self.working_view(),
                    path@,
                ),
            },
    {
        self.working.get(path)
    }

    /// Number of nodes in the working tree.
    pub fn node_count(&self) -> (n: usize)
        ensures
            n == self.working_view().len(),
    {
        self.working.len()
    }

    /// Set a value in the working tree. The history and the snapshot
    /// store are untouched: only a commit persists anything.
    pub fn set_config(&mut self, path: &str, value: &str, validate: bool) -> (r: Result<
        Vec<String>,
        ConfigError,
    >)
        requires
            old(self).wf(),
        ensures
            final(self).wf(),
            final(self).store_view() == old(self).store_view(),
            final(self).history_view() == old(self).history_view(),
            r is Ok <==> set_ok(old(self).working_view(), path@, value@, validate),
            match r {
                Ok(changed) => (exists|t: i64|
                    set_outcome(
                        old(self).working_view(),
                        final(self).working_view(),
                        path@,
                        value@,
                        t,
                    )) && crate::model::strs_view(changed@) == crate::tree::new_paths(
                    old(self).working_view(),
                    path@,
                ),
                Err(e) => final(self).working_view() == old(self).working_view() && (
                e matches ConfigError::Validation { path: ep, .. } && ep@ == path@),
            },
            r is Err && crate::tree::valid_path(path@) && !crate::tree::leaf_ancestor_blocks(
                old(self).working_view(),
                path@,
            ) && !crate::tree::children_block(old(self).working_view(), path@) ==> match find(
                old(self).working_view(),
                path@,
            ) {
                Some(en) => r matches Err(ConfigError::Validation { rule: er, .. })
                    && crate::model::opt_rule_like(en.metadata.validation, er),
                None => false,
            },
    {
        let now = now_unix();
        let r = self.working.set(path, value, validate, now);
        proof {
            if r is Ok {
                assert(set_outcome(
                    old(self).working_view(),
                    self.working_view(),
                    path@,
                    value@,
                    now,
                ));
            }
        }
        r
    }

    /// Delete a subtree of the working tree. A non-canonical path names
    /// no node and counts as absent: a no-op without `validate`, a
    /// not-found error with it. The history and the snapshot store are
    /// untouched.
    pub fn delete_config(&mut self, path: &str, validate: bool) -> (r: Result<
        Vec<String>,
        ConfigError,
    >)
        requires
            old(self).wf(),
        ensures
            final(self).wf(),
            final(self).store_view() == old(self).store_view(),
            final(self).history_view() == old(self).history_view(),
            r is Ok <==> (contains_path(old(self).working_view(), path@) || !validate),
            match r {
                Ok(removed) => if crate::tree::valid_path(path@) {
                    delete_outcome(old(self).working_view(), final(self).working_view(), path@)
                        && crate::model::strs_view(removed@) == removed_paths(
                        old(self).working_view(),
                        path@,
                    )
                } else {
                    final(self).working_view() == old(self).working_view() && removed@.len() == 0
                },
                Err(e) => final(self).working_view() == old(self).working_view() && (
                e matches ConfigError::NotFound { path: ep } && ep@ == path@),
            },
    {
        self.working.delete(path, validate)
    }

    /// Attach metadata — flags, a default, a validation rule, help
    /// text — to an existing node of the working tree.
    pub fn set_metadata(&mut self, path: &str, metadata: crate::model::ConfigMetadata) -> (r:
        Result<(), ConfigError>)
        requires
            old(self).wf(),
        ensures
            final(self).wf(),
            final(self).store_view() == old(self).store_view(),
            final(self).history_view() == old(self).history_view(),
            r is Ok <==> contains_path(old(self).working_view(), path@),
            r is Err ==> final(self).working_view() == old(self).working_view(),
            r is Ok ==> (forall|q: Seq<char>|
                q != path@ ==> #[trigger] find(final(self).working_view(), q) == find(
                    old(self).working_view(),
                    q,
                )) && match find(final(self).working_view(), path@) {
                Some(e) => crate::model::meta_like(e.metadata, metadata),
                None => false,
            },
    {
        let r = self.working.set_metadata(path, metadata);
        proof {
            if r is Ok {
                crate::tree::lemma_find_means(self.working_view(), path@);
            }
        }
        r
    }

    /// Commit the working tree: optionally validate it, then hash and
    /// store it and append a successful history record. Fatal validation
    /// findings abort with a failed status and nothing recorded. The
    /// `save` flag is only carried through: persisting to the device's
    /// boot storage is the caller's step, whose outcome
    /// [`note_save_outcome`] folds into the result afterwards.
    pub fn generate_config(&mut self, comment: &str, save: bool, validate: bool, actor: &str) -> (r:
        GenerateResult)
        requires
            old(self).wf(),
        ensures
            final(self).wf(),
            final(self).working_view() == old(self).working_view(),
            r.success <==> ((validate ==> !has_invalid(old(self).working_view())) && ledger_open(
                old(self).history_view(),
            )),
            r.save_requested == save,
            validate ==> match r.validation {
                Some(v) => {
                    &&& v.is_valid == !has_invalid(old(self).working_view())
                    &&& v.errors@.len() == old(self).working_view().filter(
                        |e: ConfigEntry| crate::validate::entry_invalid(e),
                    ).len()
                    &&& (forall|i: int|
                        0 <= i < v.errors@.len() ==> (#[trigger] v.errors@[i]).path@
                            == old(self).working_view().filter(
                            |e: ConfigEntry| crate::validate::entry_invalid(e),
                        )[i].path@)
                },
                None => false,
            },
            !validate ==> r.validation is None,
            forall|i: int|
                0 <= i < old(self).store_view().len() ==> #[trigger] final(self).store_view()[i]
                    == old(self).store_view()[i],
            final(self).store_view().len() == old(self).store_view().len()
                || final(self).store_view().len() == old(self).store_view().len() + 1,
            !r.success ==> final(self).store_view() == old(self).store_view()
                && final(self).history_view() == old(self).history_view() && r.commit_status
                == ConfigCommitStatus::Failed && r.snapshot_hash is None && r.history_id is None,
            r.success ==> {
                &&& r.commit_status == ConfigCommitStatus::Success
                &&& match r.snapshot_hash {
                    Some(h) => {
                        &&& h@ == spec_hash(old(self).working_view())
                        &&& store_has_hash(final(self).store_view(), h@)
                        &&& (store_has_hash(old(self).store_view(), h@) ==> final(self).store_view()
                            == old(self).store_view())
                        &&& (!store_has_hash(old(self).store_view(), h@)
                            ==> final(self).store_view().len() == old(self).store_view().len() + 1
                            && crate::encode::canon(
                            store_entries_of(final(self).store_view(), h@),
                        ) == crate::encode::canon(old(self).working_view()))
                    },
                    None => false,
                }
                &&& r.history_id == Some((old(self).history_view().len() + 1) as u64)
                &&& final(self).history_view().len() == old(self).history_view().len() + 1
                &&& (forall|i: int|
                    0 <= i < old(self).history_view().len() ==> (#[trigger] final(self).history_view()[i]) == old(self).history_view()[i])
                &&& {
                    let e = final(self).history_view()[final(self).history_view().len() - 1];
                    &&& e.snapshot_hash == spec_hash(old(self).working_view())
                    &&& e.change_type == ConfigChangeType::Generate
                    &&& e.commit_status == ConfigCommitStatus::Success
                    &&& e.changed_by == actor@
                    &&& e.description == comment@
                }
            },
    {
        let validation = if validate {
            Some(crate::validate::validate_tree(&self.working))
        } else {
            None
        };
        let ok_so_far = match &validation {
            Some(v) => v.is_valid,
            None => true,
        };
        if !ok_so_far || self.history.len() as u64 >= 0xffffffff00000000u64 {
            return GenerateResult {
                success: false,
                commit_status: ConfigCommitStatus::Failed,
                snapshot_hash: None,
                history_id: None,
                save_requested: save,
                validation,
            };
        }
        let now = now_unix();
        let hash = self.store.commit(&self.working);
        proof {
            if !store_has_hash(old(self).store_view(), hash@) {
                let w = choose|i: int|
                    0 <= i < self.store@.len() && (#[trigger] self.store@[i].hash) == hash@;
                assert(store_entries_of(self.store@, hash@) == self.store@[w].entries);
                if w < self.store@.len() - 1 {
                    assert(self.store@[w] == old(self).store_view()[w]);
                    assert(store_has_hash(old(self).store_view(), hash@));
                    assert(false);
                }
                assert(crate::encode::canon(self.store@[w].entries) == crate::encode::canon(
                    self.working@,
                ));
            }
        }
        let id = self.history.append(
            hash.clone(),
            ConfigChangeType::Generate,
            actor.to_owned(),
            now,
            comment.to_owned(),
            false,
            ConfigCommitStatus::Success,
        );
        proof {
            assert forall|i: int| 0 <= i < self.history@.len() implies store_has_hash(
                self.store@,
                (#[trigger] self.history@[i].snapshot_hash),
            ) by {
                if i < self.history@.len() - 1 {
                    assert(self.history@[i] == old(self).history_view()[i]);
                    let j = choose|j: int|
                        0 <= j < old(self).store_view().len() && (#[trigger] old(
                            self,
                        ).store_view()[j].hash) == self.history@[i].snapshot_hash;
                    assert(self.store@[j].hash == self.history@[i].snapshot_hash);
                } else {
                    assert(self.history@[i].snapshot_hash == hash@);
                }
            }
        }
        GenerateResult {
            success: true,
            commit_status: ConfigCommitStatus::Success,
            snapshot_hash: Some(hash),
            history_id: Some(id),
            save_requested: save,
            validation,
        }
    }

    /// Replace the working tree with the snapshot an earlier history
    /// entry references. Applied immediately, the restoration is also
    /// recorded as a new forward-only rollback entry; otherwise only the
    /// working tree changes and a later commit must make it durable.
    pub fn rollback_config(
        &mut self,
        history_id: u64,
        comment: &str,
        apply_immediately: bool,
        actor: &str,
    ) -> (r: Result<RollbackResult, ConfigError>)
        requires
            old(self).wf(),
        ensures
            final(self).wf(),
            final(self).store_view() == old(self).store_view(),
            r is Ok <==> (1 <= history_id <= old(self).history_view().len() && (apply_immediately
                ==> ledger_open(old(self).history_view()))),
            match r {
                Ok(res) => {
                    &&& res.success
                    &&& res.restored_hash@ == old(self).history_view()[history_id
                        - 1].snapshot_hash
                    &&& spec_hash(final(self).working_view()) == old(self).history_view()[history_id
                        - 1].snapshot_hash
                    &&& crate::encode::canon(final(self).working_view()) == crate::encode::canon(
                        store_entries_of(
                            old(self).store_view(),
                            old(self).history_view()[history_id - 1].snapshot_hash,
                        ),
                    )
                    &&& if apply_immediately {
                        &&& final(self).history_view().len() == old(self).history_view().len() + 1
                        &&& (forall|i: int|
                            0 <= i < old(self).history_view().len() ==> (#[trigger] final(self).history_view()[i]) == old(self).history_view()[i])
                        &&& {
                            let e = final(self).history_view()[final(self).history_view().len() - 1];
                            &&& e.snapshot_hash == old(self).history_view()[history_id
                                - 1].snapshot_hash
                            &&& e.change_type == ConfigChangeType::Rollback
                            &&& e.commit_status == ConfigCommitStatus::Success
                            &&& e.changed_by == actor@
                            &&& e.description == comment@
                        }
                        &&& res.new_history_id == Some(
                            (old(self).history_view().len() + 1) as u64,
                        )
                    } else {
                        final(self).history_view() == old(self).history_view()
                            && res.new_history_id is None
                    }
                },
                Err(e) => {
                    &&& final(self).working_view() == old(self).working_view()
                    &&& final(self).history_view() == old(self).history_view()
                    &&& if apply_immediately && !ledger_open(old(self).history_view()) {
                        e matches ConfigError::Internal { .. }
                    } else {
                        e matches ConfigError::HistoryNotFound { id } && id == history_id
                    }
                },
            },
    {
        if apply_immediately && self.history.len() as u64 >= 0xffffffff00000000u64 {
            return Err(
                ConfigError::Internal { message: "the history ledger is full".to_owned() },
            );
        }
        let hash = match self.history.get(history_id) {
            Some(entry) => entry.snapshot_hash.clone(),
            None => {
                return Err(ConfigError::HistoryNotFound { id: history_id });
            },
        };
        proof {
            assert(self.history@[history_id - 1].snapshot_hash == hash@);
            assert(store_has_hash(self.store@, self.history@[history_id - 1].snapshot_hash));
            assert(store_has_hash(self.store@, hash@));
        }
        let restored = match self.store.get(hash.as_str()) {
            Some(snap) => {
                proof {
                    self.store.lemma_stored_wf(*snap);
                    self.lemma_store_resolves(hash@);
                    let w = choose|w: int|
                        0 <= w < self.store_view().len() && #[trigger] self.store_view()[w]
                            == snap@;
                    assert(self.store_view()[w].entries == store_entries_of(
                        self.store_view(),
                        hash@,
                    ));
                }
                snap.to_tree()
            },
            None => {
                proof {
                    assert(false);
                }
                ConfigTree::new()
            },
        };
        self.working = restored;
        let new_id = if apply_immediately {
            let now = now_unix();
            let id = self.history.append(
                hash.clone(),
                ConfigChangeType::Rollback,
                actor.to_owned(),
                now,
                comment.to_owned(),
                false,
                ConfigCommitStatus::Success,
            );
            Some(id)
        } else {
            None
        };
        proof {
            assert forall|i: int| 0 <= i < self.history@.len() implies store_has_hash(
                self.store@,
                (#[trigger] self.history@[i].snapshot_hash),
            ) by {
                if i < old(self).history_view().len() {
                    assert(self.history@[i] == old(self).history_view()[i]);
                } else {
                    assert(self.history@[i].snapshot_hash == hash@);
                }
            }
        }
        Ok(
            RollbackResult {
                success: true,
                restored_hash: hash,
                new_history_id: match new_id {
                    Some(id) => Some(id),
                    None => None,
                },
            },
        )
    }

    /// List history entries, most recent first by default.
    pub fn get_history(&self, limit: usize, order: SortOrder) -> (r: Vec<HistoryEntry>)
        requires
            self.wf(),
        ensures
            r@.len() == if limit <= self.history_view().len() {
                limit as int
            } else {
                self.history_view().len() as int
            },
            order == SortOrder::Desc ==> forall|i: int|
                0 <= i < r@.len() ==> (#[trigger] r@[i])@ == self.history_view()[self.history_view().len()
                    - 1 - i],
            order == SortOrder::Asc ==> forall|i: int|
                0 <= i < r@.len() ==> (#[trigger] r@[i])@ == self.history_view()[i],
            forall|i: int, j: int|
                0 <= i < j < r@.len() ==> (#[trigger] r@[i])@.id != (#[trigger] r@[j])@.id,
            order == SortOrder::Desc ==> forall|i: int, j: int|
                0 <= i < j < r@.len() ==> (#[trigger] r@[i])@.id > (#[trigger] r@[j])@.id,
            order == SortOrder::Asc ==> forall|i: int, j: int|
                0 <= i < j < r@.len() ==> (#[trigger] r@[i])@.id < (#[trigger] r@[j])@.id,
    {
        self.history.list(limit, order)
    }

    /// Fetch one history entry by id.
    pub fn get_history_entry(&self, id: u64) -> (r: Option<&HistoryEntry>)
        requires
            self.wf(),
        ensures
            match r {
                Some(e) => 1 <= id <= self.history_view().len() && e@ == self.history_view()[id
                    - 1] && e@.id == id,
                None => !(1 <= id <= self.history_view().len()),
            },
    {
        proof {
            if 1 <= id <= self.history@.len() {
                assert(self.history@[id - 1].id == id);
            }
        }
        self.history.get(id)
    }

    /// Compute the difference between two committed snapshots, by hash.
    /// The lists are exactly the diff of the trees the two hashes
    /// resolve to, so [`crate::diff::lemma_diff_symmetry`] relates the
    /// diffs of the same pair taken in opposite directions.
    pub fn diff_configs(&self, hash_a: &str, hash_b: &str) -> (r: Option<crate::diff::DiffResult>)
        requires
            self.wf(),
        ensures
            r is Some <==> store_has_hash(self.store_view(), hash_a@) && store_has_hash(
                self.store_view(),
                hash_b@,
            ),
            match r {
                Some(d) => {
                    let ea = store_entries_of(self.store_view(), hash_a@);
                    let eb = store_entries_of(self.store_view(), hash_b@);
                    &&& d.hash_a@ == hash_a@
                    &&& d.hash_b@ == hash_b@
                    &&& crate::diff::changes_view(d.additions@) == crate::diff::spec_additions(
                        ea,
                        eb,
                    )
                    &&& crate::diff::changes_view(d.deletions@) == crate::diff::spec_deletions(
                        ea,
                        eb,
                    )
                    &&& crate::diff::changes_view(d.modifications@)
                        == crate::diff::spec_modifications(ea, eb)
                    &&& (hash_a@ == hash_b@ ==> d.additions@.len() == 0 && d.deletions@.len() == 0
                        && d.modifications@.len() == 0)
                },
                None => true,
            },
    {
        let sa = match self.store.get(hash_a) {
            Some(s) => s,
            None => {
                return None;
            },
        };
        let sb = match self.store.get(hash_b) {
            Some(s) => s,
            None => {
                return None;
            },
        };
        proof {
            self.store.lemma_stored_wf(*sa);
            self.store.lemma_stored_wf(*sb);
        }
        let (adds, dels, mods) = crate::diff::diff_entries(sa.entries_ref(), sb.entries_ref());
        proof {
            self.lemma_store_resolves(hash_a@);
            self.lemma_store_resolves(hash_b@);
            let ia = choose|ia: int|
                0 <= ia < self.store_view().len() && #[trigger] self.store_view()[ia] == sa@;
            let ib = choose|ib: int|
                0 <= ib < self.store_view().len() && #[trigger] self.store_view()[ib] == sb@;
            assert(self.store_view()[ia].hash == hash_a@);
            assert(self.store_view()[ib].hash == hash_b@);
            assert(sa@.entries == store_entries_of(self.store_view(), hash_a@));
            assert(sb@.entries == store_entries_of(self.store_view(), hash_b@));
            if hash_a@ == hash_b@ {
                assert(sa@.entries == sb@.entries);
                crate::diff::lemma_diff_self(sa@.entries);
                assert(crate::diff::changes_view(adds@).len() == adds@.len());
                assert(crate::diff::changes_view(dels@).len() == dels@.len());
                assert(crate::diff::changes_view(mods@).len() == mods@.len());
            }
        }
        Some(
            crate::diff::DiffResult {
                hash_a: hash_a.to_owned(),
                hash_b: hash_b.to_owned(),
                additions: adds,
                deletions: dels,
                modifications: mods,
            },
        )
    }

    /// Search the working tree.
    pub fn search_config(&self, term: &str, st: SearchType, path_filter: Option<&str>) -> (r: Vec<
        ConfigEntry,
    >)
        requires
            self.wf(),
        ensures
            ({
                let filter_view = match path_filter {
                    Some(f) => Some(f@),
                    None => None::<Seq<char>>,
                };
                &&& r@.len() == search_spec(self.working_view(), term@, st, filter_view).len()
                &&& forall|i: int|
                    0 <= i < r@.len() ==> entry_like(
                        search_spec(self.working_view(), term@, st, filter_view)[i],
                        #[trigger] r@[i],
                    )
            }),
    {
        crate::search::search_tree(&self.working, term, st, path_filter)
    }

    /// Validate the working tree without committing anything.
    pub fn validate_configuration(&self) -> (r: ConfigValidationResult)
        requires
            self.wf(),
        ensures
            r.is_valid == !has_invalid(self.working_view()),
            r.errors@.len() == self.working_view().filter(
                |e: ConfigEntry| crate::validate::entry_invalid(e),
            ).len(),
            forall|i: int|
                0 <= i < r.errors@.len() ==> (#[trigger] r.errors@[i]).path@
                    == self.working_view().filter(
                    |e: ConfigEntry| crate::validate::entry_invalid(e),
                )[i].path@ && r.errors@[i].error_type == crate::validate::entry_error_kind(
                    self.working_view().filter(
                        |e: ConfigEntry| crate::validate::entry_invalid(e),
                    )[i],
                ),
            r.warnings@.len() == self.working_view().filter(
                |e: ConfigEntry| crate::validate::entry_default_valued(e),
            ).len(),
            forall|i: int|
                0 <= i < r.warnings@.len() ==> (#[trigger] r.warnings@[i]).path@
                    == self.working_view().filter(
                    |e: ConfigEntry| crate::validate::entry_default_valued(e),
                )[i].path@,
    {
        crate::validate::validate_tree(&self.working)
    }

    /// Apply a list of changes in request order. A change with a value
    /// is a set, one without is a delete. With `stop_on_error` the first
    /// failure halts the run, leaving the earlier changes applied — an
    /// explicitly best-effort, non-transactional contract; without it
    /// every change is attempted regardless of earlier failures.
    pub fn bulk_config_change(
        &mut self,
        changes: &Vec<BulkChange>,
        validate: bool,
        stop_on_error: bool,
    ) -> (r: BulkResult)
        requires
            old(self).wf(),
        ensures
            final(self).wf(),
            final(self).store_view() == old(self).store_view(),
            final(self).history_view() == old(self).history_view(),
            r.success <==> r.failed@.len() == 0,
            stop_on_error ==> {
                &&& r.failed@.len() <= 1
                &&& r.applied@.len() + r.failed@.len() <= changes@.len()
                &&& (forall|i: int|
                    0 <= i < r.applied@.len() ==> (#[trigger] r.applied@[i])@ == changes@[i].path@)
                &&& (r.failed@.len() == 0 ==> r.applied@.len() == changes@.len())
                &&& (r.failed@.len() == 1 ==> r.applied@.len() < changes@.len() && r.failed@[0].path@
                    == changes@[r.applied@.len() as int].path@)
            },
            !stop_on_error ==> {
                &&& r.applied@.len() + r.failed@.len() == changes@.len()
                &&& (exists|ok: Seq<int>, bad: Seq<int>|
                    #[trigger] bulk_split(changes@, r.applied@, r.failed@, ok, bad))
            },
            bulk_run(
                old(self).working_view(),
                changes@,
                validate,
                stop_on_error,
                r.applied@,
                r.failed@,
                final(self).working_view(),
            ),
    {
        let mut applied: Vec<String> = Vec::new();
        let mut failed: Vec<ConfigChangeFailure> = Vec::new();
        let ghost mut ok_idx: Seq<int> = Seq::empty();
        let ghost mut bad_idx: Seq<int> = Seq::empty();
        let n = changes.len();
        let mut k: usize = 0;
        proof {
            assert(changes@.take(0) =~= Seq::<BulkChange>::empty());
        }
        while k < n
            invariant
                k <= n,
                n == changes@.len(),
                bulk_run(
                    old(self).working_view(),
                    changes@.take(k as int),
                    validate,
                    stop_on_error,
                    applied@,
                    failed@,
                    self.working_view(),
                ),
                self.wf(),
                self.store_view() == old(self).store_view(),
                self.history_view() == old(self).history_view(),
                stop_on_error ==> {
                    &&& failed@.len() == 0
                    &&& applied@.len() == k
                    &&& (forall|i: int|
                        0 <= i < applied@.len() ==> (#[trigger] applied@[i])@
                            == changes@[i].path@)
                },
                applied@.len() + failed@.len() == k,
                ok_idx.len() == applied@.len(),
                bad_idx.len() == failed@.len(),
                forall|i: int, j: int|
                    0 <= i < j < ok_idx.len() ==> #[trigger] ok_idx[i] < #[trigger] ok_idx[j],
                forall|i: int, j: int|
                    0 <= i < j < bad_idx.len() ==> #[trigger] bad_idx[i] < #[trigger] bad_idx[j],
                forall|i: int|
                    0 <= i < ok_idx.len() ==> 0 <= #[trigger] ok_idx[i] < k && applied@[i]@
                        == changes@[ok_idx[i]].path@,
                forall|i: int|
                    0 <= i < bad_idx.len() ==> 0 <= #[trigger] bad_idx[i] < k && failed@[i].path@
                        == changes@[bad_idx[i]].path@,
                forall|kk: int| 0 <= kk < k ==> ok_idx.contains(kk) || bad_idx.contains(kk),
            decreases n - k,
        {
            let change = &changes[k];
            let ghost pre_tree = self.working_view();
            let outcome = match &change.value {
                Some(v) => self.set_config(change.path.as_str(), v.as_str(), validate),
                None => self.delete_config(change.path.as_str(), validate),
            };
            match outcome {
                Ok(_) => {
                    let ps = change.path.clone();
                    let ghost pre_applied = applied@;
                    applied.push(ps);
                    proof {
                        assert(change_ok(pre_tree, changes@[k as int], validate));
                        assert(change_applied(
                            pre_tree,
                            self.working_view(),
                            changes@[k as int],
                            validate,
                        ));
                        assert(changes@.take(k + 1) =~= changes@.take(k as int).push(
                            changes@[k as int],
                        ));
                        assert(applied@ == pre_applied.push(applied@[applied@.len() - 1]));
                        assert(applied@[applied@.len() - 1]@ == changes@[k as int].path@);
                        lemma_bulk_run_ok_snoc(
                            old(self).working_view(),
                            changes@.take(k as int),
                            validate,
                            stop_on_error,
                            pre_applied,
                            failed@,
                            pre_tree,
                            changes@[k as int],
                            applied@[applied@.len() - 1],
                            self.working_view(),
                        );
                        let ghost pre = ok_idx;
                        ok_idx = ok_idx + seq![k as int];
                        assert(ok_idx[ok_idx.len() - 1] == k as int);
                        assert(forall|i: int| 0 <= i < pre.len() ==> ok_idx[i] == pre[i]);
                        assert forall|kk: int|
                            0 <= kk < k + 1 implies ok_idx.contains(kk) || bad_idx.contains(
                            kk,
                        ) by {
                            if kk < k {
                                if pre.contains(kk) {
                                    let i = choose|i: int|
                                        0 <= i < pre.len() && #[trigger] pre[i] == kk;
                                    assert(ok_idx[i] == kk);
                                }
                            } else {
                                assert(ok_idx[ok_idx.len() - 1] == kk);
                            }
                        }
                    }
                },
                Err(e) => {
                    let failure = ConfigChangeFailure {
                        path: change.path.clone(),
                        error: error_text(&e),
                    };
                    let ghost pre_failed = failed@;
                    failed.push(failure);
                    proof {
                        assert(!change_ok(pre_tree, changes@[k as int], validate));
                        assert(self.working_view() == pre_tree);
                        assert(failed@ == pre_failed.push(failed@[failed@.len() - 1]));
                        assert(failed@[failed@.len() - 1].path@ == changes@[k as int].path@);
                        if stop_on_error {
                            assert(changes@.take(k as int) + changes@.skip(k as int)
                                =~= changes@);
                            assert(changes@.skip(k as int)[0] == changes@[k as int]);
                            assert(pre_failed =~= Seq::<ConfigChangeFailure>::empty());
                            lemma_bulk_run_fail_stop(
                                old(self).working_view(),
                                changes@.take(k as int),
                                changes@.skip(k as int),
                                validate,
                                applied@,
                                pre_tree,
                                failed@[failed@.len() - 1],
                            );
                            assert(failed@ =~= seq![failed@[failed@.len() - 1]]);
                        } else {
                            assert(changes@.take(k + 1) =~= changes@.take(k as int).push(
                                changes@[k as int],
                            ));
                            lemma_bulk_run_fail_snoc(
                                old(self).working_view(),
                                changes@.take(k as int),
                                validate,
                                applied@,
                                pre_failed,
                                pre_tree,
                                changes@[k as int],
                                failed@[failed@.len() - 1],
                            );
                        }
                        let ghost pre = bad_idx;
                        bad_idx = bad_idx + seq![k as int];
                        assert(bad_idx[bad_idx.len() - 1] == k as int);
                        assert(forall|i: int| 0 <= i < pre.len() ==> bad_idx[i] == pre[i]);
                        assert forall|kk: int|
                            0 <= kk < k + 1 implies ok_idx.contains(kk) || bad_idx.contains(
                            kk,
                        ) by {
                            if kk < k {
                                if pre.contains(kk) {
                                    let i = choose|i: int|
                                        0 <= i < pre.len() && #[trigger] pre[i] == kk;
                                    assert(bad_idx[i] == kk);
                                }
                            } else {
                                assert(bad_idx[bad_idx.len() - 1] == kk);
                            }
                        }
                    }
                    if stop_on_error {
                        let r = BulkResult { success: false, applied, failed };
                        proof {
                            assert(r.failed@.len() == 1);
                        }
                        return r;
                    }
                },
            }
            k = k + 1;
        }
        let success = failed.len() == 0;
        let r = BulkResult { success, applied, failed };
        proof {
            assert(changes@.take(n as int) =~= changes@);
            if !stop_on_error {
                assert(bulk_split(changes@, r.applied@, r.failed@, ok_idx, bad_idx));
            }
        }
        r
    }
}

/// A short human-readable account of an error.
pub fn error_text(e: &ConfigError) -> (r: String) {
    match e {
        ConfigError::Validation { path, message, .. } => {
            let mut s = "validation failed at ".to_owned();
            s.append(path.as_str());
            s.append(": ");
            s.append(message.as_str());
            s
        },
        ConfigError::NotFound { path } => {
            let mut s = "not found: ".to_owned();
            s.append(path.as_str());
            s
        },
        ConfigError::HistoryNotFound { id: _ } => "history entry not found".to_owned(),
        ConfigError::Conflict => "a concurrent mutation was detected".to_owned(),
        ConfigError::ExternalApply { message } => {
            let mut s = "the device rejected the configuration: ".to_owned();
            s.append(message.as_str());
            s
        },
        ConfigError::Internal { message } => {
            let mut s = "the operation hit an internal limit: ".to_owned();
            s.append(message.as_str());
            s
        },
    }
}

/// Fold the outcome of the caller's external save step into a commit
/// result: a failed save never invalidates the recorded commit, it is
/// reported as a warning beside it.
pub fn note_save_outcome(r: GenerateResult, save_ok: bool) -> (out: (GenerateResult, Option<
    ValidationWarning,
>))
    ensures
        out.0.success == r.success,
        out.0.commit_status == r.commit_status,
        out.0.snapshot_hash == r.snapshot_hash,
        out.0.history_id == r.history_id,
        out.0.save_requested == r.save_requested,
        out.0.validation == r.validation,
        out.1 is Some <==> (r.save_requested && !save_ok),
{
    if r.save_requested && !save_ok {
        let warning = ValidationWarning {
            path: "/".to_owned(),
            message: "the device did not persist the configuration to boot storage".to_owned(),
            warning_type: ValidationWarningType::Recommendation,
        };
        (r, Some(warning))
    } else {
        (r, None)
    }
}

/// Rolling back to a history entry and then committing the working tree
/// reproduces exactly the snapshot that entry referenced: the new
/// commit's hash equals the hash recorded at the rollback target.
pub proof fn lemma_rollback_then_generate_round_trip(
    pre_history: Seq<HistoryEntryModel>,
    h: int,
    restored_working: Seq<ConfigEntry>,
    post_history: Seq<HistoryEntryModel>,
)
    requires
        1 <= h <= pre_history.len(),
        // what a successful rollback to entry `h` establishes
        spec_hash(restored_working) == pre_history[h - 1].snapshot_hash,
        // what a successful commit of that working tree establishes
        post_history.len() > 0,
        post_history[post_history.len() - 1].snapshot_hash == spec_hash(restored_working),
    ensures
        post_history[post_history.len() - 1].snapshot_hash == pre_history[h - 1].snapshot_hash,
{
}

} // verus!
