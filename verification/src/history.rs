//! The append-only change history.
//!
//! Entries are appended with monotonically increasing ids, starting at
//! one, and are never rewritten or removed; only a pending commit status
//! may settle into a terminal one before the surrounding operation
//! completes.

use vstd::prelude::*;

use crate::model::{ConfigChangeType, ConfigCommitStatus, SortOrder};

verus! {

/// One record of the ledger: a reference to a snapshot by hash plus the
/// change metadata.
#[derive(Debug)]
pub struct HistoryEntry {
    pub id: u64,
    pub snapshot_hash: String,
    pub change_type: ConfigChangeType,
    pub changed_by: String,
    pub changed_at: i64,
    pub description: String,
    pub is_rollback_point: bool,
    pub commit_status: ConfigCommitStatus,
}

/// Ghost image of a history entry.
pub ghost struct HistoryEntryModel {
    pub id: int,
    pub snapshot_hash: Seq<char>,
    pub change_type: ConfigChangeType,
    pub changed_by: Seq<char>,
    pub changed_at: int,
    pub description: Seq<char>,
    pub is_rollback_point: bool,
    pub commit_status: ConfigCommitStatus,
}

impl View for HistoryEntry {
    type V = HistoryEntryModel;

    open spec fn view(&self) -> HistoryEntryModel {
        HistoryEntryModel {
            id: self.id as int,
            snapshot_hash: self.snapshot_hash@,
            change_type: self.change_type,
            changed_by: self.changed_by@,
            changed_at: self.changed_at as int,
            description: self.description@,
            is_rollback_point: self.is_rollback_point,
            commit_status: self.commit_status,
        }
    }
}

impl Clone for HistoryEntry {
    fn clone(&self) -> (r: Self)
        ensures
            r@ == self@,
    {
        HistoryEntry {
            id: self.id,
            snapshot_hash: self.snapshot_hash.clone(),
            change_type: self.change_type,
            changed_by: self.changed_by.clone(),
            changed_at: self.changed_at,
            description: self.description.clone(),
            is_rollback_point: self.is_rollback_point,
            commit_status: self.commit_status,
        }
    }
}

/// The append-only, id-ordered ledger.
pub struct HistoryLog {
    entries: Vec<HistoryEntry>,
}

impl View for HistoryLog {
    type V = Seq<HistoryEntryModel>;

    closed spec fn view(&self) -> Seq<HistoryEntryModel> {
        self.entries@.map_values(|e: HistoryEntry| e@)
    }
}

impl HistoryLog {
    /// Ids are assigned in order: the entry at position `i` has id `i + 1`.
    pub open spec fn wf(&self) -> bool {
        forall|i: int| 0 <= i < self@.len() ==> (#[trigger] self@[i].id) == i + 1
    }

    /// An empty ledger.
    pub fn new() -> (h: Self)
        ensures
            h@ == Seq::<HistoryEntryModel>::empty(),
            h.wf(),
    {
        let h = HistoryLog { entries: Vec::new() };
        proof {
            assert(h@ =~= Seq::<HistoryEntryModel>::empty());
        }
        h
    }

    /// Number of entries ever appended.
    pub fn len(&self) -> (n: usize)
        ensures
            n == self@.len(),
    {
        self.entries.len()
    }

    /// Append a record, assigning the next id. Nothing already appended
    /// moves or changes.
    pub fn append(
        &mut self,
        snapshot_hash: String,
        change_type: ConfigChangeType,
        changed_by: String,
        changed_at: i64,
        description: String,
        is_rollback_point: bool,
        commit_status: ConfigCommitStatus,
    ) -> (id: u64)
        requires
            old(self).wf(),
            old(self)@.len() < 0xffffffffffffffff,
        ensures
            final(self).wf(),
            id == old(self)@.len() + 1,
            final(self)@.len() == old(self)@.len() + 1,
            forall|i: int| 0 <= i < old(self)@.len() ==> #[trigger] final(self)@[i] == old(self)@[i],
            final(self)@[final(self)@.len() - 1] == (HistoryEntryModel {
                id: id as int,
                snapshot_hash: snapshot_hash@,
                change_type,
                changed_by: changed_by@,
                changed_at: changed_at as int,
                description: description@,
                is_rollback_point,
                commit_status,
            }),
    {
        let id = self.entries.len() as u64 + 1;
        let entry = HistoryEntry {
            id,
            snapshot_hash,
            change_type,
            changed_by,
            changed_at,
            description,
            is_rollback_point,
            commit_status,
        };
        let ghost pre = self@;
        self.entries.push(entry);
        proof {
            assert(self@ =~= pre.push(entry@));
        }
        id
    }

    /// Fetch an entry by id.
    pub fn get(&self, id: u64) -> (r: Option<&HistoryEntry>)
        requires
            self.wf(),
        ensures
            match r {
                Some(e) => 1 <= id <= self@.len() && e@ == self@[id - 1],
                None => !(1 <= id <= self@.len()),
            },
    {
        if id >= 1 && id <= self.entries.len() as u64 {
            let i = (id - 1) as usize;
            proof {
                assert(self@[i as int] == self.entries@[i as int]@);
            }
            Some(&self.entries[i])
        } else {
            None
        }
    }

    /// Let a pending commit settle into its terminal status. Only the
    /// status of that one entry changes; everything else is frozen.
    pub fn set_status(&mut self, id: u64, status: ConfigCommitStatus)
        requires
            old(self).wf(),
            1 <= id <= old(self)@.len(),
            old(self)@[id - 1].commit_status == ConfigCommitStatus::Pending,
            status != ConfigCommitStatus::Pending,
        ensures
            final(self).wf(),
            final(self)@.len() == old(self)@.len(),
            forall|i: int|
                0 <= i < old(self)@.len() && i != id - 1 ==> #[trigger] final(self)@[i] == old(
                    self,
                )@[i],
            final(self)@[id - 1] == (HistoryEntryModel {
                commit_status: status,
                ..old(self)@[id - 1]
            }),
    {
        let i = (id - 1) as usize;
        proof {
            assert(self@[i as int] == self.entries@[i as int]@);
        }
        let mut entry = self.entries.remove(i);
        entry.commit_status = status;
        let ghost pre = self@;
        self.entries.insert(i, entry);
        proof {
            assert forall|j: int| 0 <= j < self@.len() implies #[trigger] self@[j] == (if j == i
                as int {
                entry@
            } else {
                old(self)@[j]
            }) by {
                assert(self@[j] == self.entries@[j]@);
                if j < i as int {
                    assert(self.entries@[j] == old(self).entries_internal()@[j]);
                } else if j > i as int {
                    assert(self.entries@[j] == old(self).entries_internal()@[j]);
                }
            }
        }
    }

    /// Expose the raw entry list for proofs in this module.
    closed spec fn entries_internal(&self) -> Vec<HistoryEntry> {
        self.entries
    }

    /// List up to `limit` entries: most recent first by default, oldest
    /// first in ascending order. Ids never repeat and always follow the
    /// requested order.
    pub fn list(&self, limit: usize, order: SortOrder) -> (r: Vec<HistoryEntry>)
        requires
            self.wf(),
        ensures
            r@.len() == if limit <= self@.len() {
                limit as int
            } else {
                self@.len() as int
            },
            order == SortOrder::Desc ==> forall|i: int|
                0 <= i < r@.len() ==> (#[trigger] r@[i])@ == self@[self@.len() - 1 - i],
            order == SortOrder::Asc ==> forall|i: int|
                0 <= i < r@.len() ==> (#[trigger] r@[i])@ == self@[i],
            forall|i: int, j: int|
                0 <= i < j < r@.len() ==> (#[trigger] r@[i])@.id != (#[trigger] r@[j])@.id,
            order == SortOrder::Desc ==> forall|i: int, j: int|
                0 <= i < j < r@.len() ==> (#[trigger] r@[i])@.id > (#[trigger] r@[j])@.id,
            order == SortOrder::Asc ==> forall|i: int, j: int|
                0 <= i < j < r@.len() ==> (#[trigger] r@[i])@.id < (#[trigger] r@[j])@.id,
    {
        let n = self.entries.len();
        let count = if limit <= n {
            limit
        } else {
            n
        };
        let mut r: Vec<HistoryEntry> = Vec::new();
        let mut i: usize = 0;
        while i < count
            invariant
                i <= count,
                count <= n,
                n == self@.len(),
                self.wf(),
                r@.len() == i,
                order == SortOrder::Desc ==> forall|j: int|
                    0 <= j < i ==> (#[trigger] r@[j])@ == self@[self@.len() - 1 - j],
                order == SortOrder::Asc ==> forall|j: int|
                    0 <= j < i ==> (#[trigger] r@[j])@ == self@[j],
            decreases count - i,
        {
            let src = match order {
                SortOrder::Desc => n - 1 - i,
                SortOrder::Asc => i,
            };
            proof {
                assert(self@[src as int] == self.entries@[src as int]@);
            }
            r.push(self.entries[src].clone());
            i = i + 1;
        }
        r
    }
}

} // verus!
