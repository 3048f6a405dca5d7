//! The configuration core: working-tree mutation, snapshots, history,
//! diff, rollback and search.

use vyos_config::model::{
    ConfigCommitStatus, ConfigError, ConfigMetadata, ConfigNodeType, SearchType, SortOrder,
    ValidationRule,
};
use vyos_config::service::{note_save_outcome, BulkChange, MutationService};
use vyos_config::node::{
    calculate_max_depth, count_container_nodes, count_leaf_nodes, count_nodes, find_node_value,
    ConfigNode,
};
use vyos_config::history::HistoryLog;
use vyos_config::model::ConfigChangeType;
use vyos_config::snapshot::SnapshotStore;
use vyos_config::tree::ConfigTree;

fn plain_meta() -> ConfigMetadata {
    ConfigMetadata {
        is_readonly: false,
        is_required: false,
        default_value: None,
        validation: None,
        help_text: None,
    }
}

#[test]
fn set_then_get_returns_the_value() {
    let mut svc = MutationService::new();
    svc.set_config("/interfaces/eth0/address", "192.168.1.1/24", false)
        .unwrap();
    let entry = svc.get("/interfaces/eth0/address").unwrap();
    assert_eq!(entry.value.as_deref(), Some("192.168.1.1/24"));
    assert_eq!(entry.node_type, ConfigNodeType::Leaf);
}

#[test]
fn set_creates_intermediate_containers() {
    let mut svc = MutationService::new();
    let changed = svc
        .set_config("/interfaces/eth0/address", "192.168.1.1/24", false)
        .unwrap();
    assert_eq!(
        changed,
        vec![
            "/interfaces".to_string(),
            "/interfaces/eth0".to_string(),
            "/interfaces/eth0/address".to_string()
        ]
    );
    let parent = svc.get("/interfaces/eth0").unwrap();
    assert_eq!(parent.node_type, ConfigNodeType::Container);
    assert_eq!(parent.value, None);
}

#[test]
fn delete_removes_the_whole_subtree() {
    let mut svc = MutationService::new();
    svc.set_config("/interfaces/eth0/address", "192.168.1.1/24", false)
        .unwrap();
    svc.set_config("/interfaces/eth0/mtu", "1500", false).unwrap();
    let removed = svc.delete_config("/interfaces/eth0", false).unwrap();
    assert_eq!(
        removed,
        vec![
            "/interfaces/eth0".to_string(),
            "/interfaces/eth0/address".to_string(),
            "/interfaces/eth0/mtu".to_string()
        ]
    );
    assert!(svc.get("/interfaces/eth0").is_none());
    assert!(svc.get("/interfaces/eth0/address").is_none());
    assert!(svc.get("/interfaces").is_some());
}

#[test]
fn delete_of_absent_path_is_nop_or_not_found() {
    let mut svc = MutationService::new();
    assert!(svc.delete_config("/nothing", false).is_ok());
    match svc.delete_config("/nothing", true) {
        Err(ConfigError::NotFound { path }) => assert_eq!(path, "/nothing"),
        other => panic!("expected a not-found error, got {:?}", other),
    }
}

#[test]
fn delete_of_a_non_canonical_path_touches_nothing() {
    let mut svc = MutationService::new();
    svc.set_config("/interfaces/eth0/address", "192.168.1.1/24", false)
        .unwrap();
    let before = svc.node_count();
    // a non-canonical path names no node: a no-op without validate
    let removed = svc.delete_config("", false).unwrap();
    assert!(removed.is_empty());
    assert_eq!(svc.node_count(), before);
    let removed = svc.delete_config("/a/", false).unwrap();
    assert!(removed.is_empty());
    let removed = svc.delete_config("no-slash", false).unwrap();
    assert!(removed.is_empty());
    assert_eq!(svc.node_count(), before);
    assert!(svc.get("/interfaces/eth0/address").is_some());
    // and a not-found error with validate
    match svc.delete_config("", true) {
        Err(ConfigError::NotFound { path }) => assert_eq!(path, ""),
        other => panic!("expected a not-found error, got {:?}", other),
    }
    assert_eq!(svc.node_count(), before);
}

#[test]
fn malformed_paths_are_rejected() {
    let mut svc = MutationService::new();
    assert!(svc.set_config("no-slash", "1", false).is_err());
    assert!(svc.set_config("/", "1", false).is_err());
    assert!(svc.set_config("/a//b", "1", false).is_err());
    assert!(svc.set_config("/a/", "1", false).is_err());
    assert_eq!(svc.node_count(), 0);
}

#[test]
fn a_leaf_blocks_nodes_beneath_it() {
    let mut svc = MutationService::new();
    svc.set_config("/system/hostname", "router", false).unwrap();
    match svc.set_config("/system/hostname/sub", "x", false) {
        Err(ConfigError::Validation { path, .. }) => {
            assert_eq!(path, "/system/hostname/sub");
        }
        other => panic!("expected a validation error, got {:?}", other),
    }
}

#[test]
fn an_interior_node_with_children_cannot_become_a_leaf() {
    let mut svc = MutationService::new();
    svc.set_config("/interfaces/eth0/address", "10.0.0.1/8", false)
        .unwrap();
    assert!(svc.set_config("/interfaces/eth0", "x", false).is_err());
    // without children the container may become a leaf
    svc.delete_config("/interfaces/eth0/address", false).unwrap();
    assert!(svc.set_config("/interfaces/eth0", "x", false).is_ok());
}

#[test]
fn validation_rule_guards_a_validated_set() {
    let mut svc = MutationService::new();
    svc.set_config("/interfaces/eth0/mtu", "1500", false).unwrap();
    let meta = ConfigMetadata {
        is_readonly: false,
        is_required: false,
        default_value: None,
        validation: Some(ValidationRule::Integer {
            min: Some(68),
            max: Some(9000),
        }),
        help_text: None,
    };
    svc.set_metadata("/interfaces/eth0/mtu", meta).unwrap();
    // the error names the offending path and the rule
    match svc.set_config("/interfaces/eth0/mtu", "9001", true) {
        Err(ConfigError::Validation { path, rule, .. }) => {
            assert_eq!(path, "/interfaces/eth0/mtu");
            assert!(matches!(
                rule,
                Some(ValidationRule::Integer {
                    min: Some(68),
                    max: Some(9000),
                })
            ));
        }
        other => panic!("expected a validation error, got {:?}", other),
    }
    assert!(svc.set_config("/interfaces/eth0/mtu", "abc", true).is_err());
    assert!(svc.set_config("/interfaces/eth0/mtu", "9000", true).is_ok());
    // an unvalidated write is unconditional
    assert!(svc.set_config("/interfaces/eth0/mtu", "9001", false).is_ok());
}

#[test]
fn generate_commits_and_appends_history() {
    let mut svc = MutationService::new();
    svc.set_config("/x", "1", false).unwrap();
    let r = svc.generate_config("initial", false, false, "tester");
    assert!(r.success);
    assert_eq!(r.commit_status, ConfigCommitStatus::Success);
    assert_eq!(r.history_id, Some(1));
    let hash = r.snapshot_hash.unwrap();
    assert_eq!(hash.len(), 64);
    assert!(hash.chars().all(|c| c.is_ascii_hexdigit()));
    let entry = svc.get_history_entry(1).unwrap();
    assert_eq!(entry.id, 1);
    assert_eq!(entry.snapshot_hash, hash);
    assert_eq!(entry.commit_status, ConfigCommitStatus::Success);
    assert_eq!(entry.changed_by, "tester");
    assert_eq!(entry.description, "initial");
}

#[test]
fn generate_with_validation_fails_on_a_broken_tree() {
    let mut svc = MutationService::new();
    svc.set_config("/x", "not-a-number", false).unwrap();
    let meta = ConfigMetadata {
        is_readonly: false,
        is_required: false,
        default_value: None,
        validation: Some(ValidationRule::Integer {
            min: None,
            max: None,
        }),
        help_text: None,
    };
    svc.set_metadata("/x", meta).unwrap();
    let r = svc.generate_config("attempt", false, true, "tester");
    assert!(!r.success);
    assert_eq!(r.commit_status, ConfigCommitStatus::Failed);
    assert!(r.snapshot_hash.is_none());
    assert_eq!(svc.get_history(10, SortOrder::Desc).len(), 0);
    let validation = r.validation.unwrap();
    assert!(!validation.is_valid);
    assert_eq!(validation.errors.len(), 1);
    assert_eq!(validation.errors[0].path, "/x");
    assert_eq!(
        validation.errors[0].error_type,
        vyos_config::validate::ValidationErrorType::InvalidFormat
    );
}

#[test]
fn required_flag_is_satisfied_by_a_present_value() {
    let mut svc = MutationService::new();
    svc.set_config("/system/hostname", "r1", false).unwrap();
    let meta = ConfigMetadata {
        is_readonly: false,
        is_required: true,
        default_value: None,
        validation: None,
        help_text: None,
    };
    svc.set_metadata("/system/hostname", meta).unwrap();
    let v = svc.validate_configuration();
    assert!(v.is_valid);
    assert!(v.errors.is_empty());
}

#[test]
fn identical_trees_hash_identically() {
    // the same structure reached by different operations
    let mut a = ConfigTree::new();
    a.set("/b", "2", false, 7).unwrap();
    a.set("/a", "1", false, 9).unwrap();
    let mut b = ConfigTree::new();
    b.set("/a", "stale", false, 1).unwrap();
    b.set("/a", "1", false, 2).unwrap();
    b.set("/b", "2", false, 3).unwrap();
    b.set("/c", "3", false, 4).unwrap();
    b.delete("/c", false).unwrap();
    let mut store = SnapshotStore::new();
    let ha = store.commit(&a);
    let hb = store.commit(&b);
    assert_eq!(ha, hb);
    assert_eq!(store.len(), 1);
    // and computing the hash twice yields the same value
    let ha2 = store.commit(&a);
    assert_eq!(ha, ha2);
    assert_eq!(store.len(), 1);
}

#[test]
fn different_values_hash_differently() {
    let mut a = ConfigTree::new();
    a.set("/x", "1", false, 0).unwrap();
    let mut b = ConfigTree::new();
    b.set("/x", "2", false, 0).unwrap();
    let mut store = SnapshotStore::new();
    let ha = store.commit(&a);
    let hb = store.commit(&b);
    assert_ne!(ha, hb);
    assert_eq!(store.len(), 2);
}

#[test]
fn empty_container_and_empty_leaf_hash_differently() {
    let mut a = ConfigTree::new();
    a.set("/n/x", "keep", false, 0).unwrap();
    a.delete("/n/x", false).unwrap();
    // "/n" stays behind as an empty container
    let mut b = ConfigTree::new();
    b.set("/n", "", false, 0).unwrap();
    let mut store = SnapshotStore::new();
    let ha = store.commit(&a);
    let hb = store.commit(&b);
    assert_ne!(ha, hb);
}

#[test]
fn diff_of_a_snapshot_with_itself_is_empty() {
    let mut svc = MutationService::new();
    svc.set_config("/a/b", "1", false).unwrap();
    svc.set_config("/a/c", "2", false).unwrap();
    let h = svc
        .generate_config("snap", false, false, "tester")
        .snapshot_hash
        .unwrap();
    let d = svc.diff_configs(&h, &h).unwrap();
    assert!(d.additions.is_empty());
    assert!(d.deletions.is_empty());
    assert!(d.modifications.is_empty());
}

#[test]
fn diff_classifies_additions_and_modifications() {
    let mut svc = MutationService::new();
    svc.set_config("/x", "1", false).unwrap();
    let ha = svc
        .generate_config("a", false, false, "tester")
        .snapshot_hash
        .unwrap();
    svc.set_config("/x", "2", false).unwrap();
    svc.set_config("/y", "3", false).unwrap();
    let hb = svc
        .generate_config("b", false, false, "tester")
        .snapshot_hash
        .unwrap();
    let d = svc.diff_configs(&ha, &hb).unwrap();
    assert_eq!(d.deletions.len(), 0);
    assert_eq!(d.additions.len(), 1);
    assert_eq!(d.additions[0].path, "/y");
    assert_eq!(d.additions[0].new_value.as_deref(), Some("3"));
    assert_eq!(d.modifications.len(), 1);
    assert_eq!(d.modifications[0].path, "/x");
    assert_eq!(d.modifications[0].old_value.as_deref(), Some("1"));
    assert_eq!(d.modifications[0].new_value.as_deref(), Some("2"));
}

#[test]
fn diff_is_symmetric() {
    let mut svc = MutationService::new();
    svc.set_config("/only/in/a", "1", false).unwrap();
    let ha = svc
        .generate_config("a", false, false, "tester")
        .snapshot_hash
        .unwrap();
    svc.delete_config("/only", false).unwrap();
    svc.set_config("/only/in/b", "2", false).unwrap();
    let hb = svc
        .generate_config("b", false, false, "tester")
        .snapshot_hash
        .unwrap();
    let ab = svc.diff_configs(&ha, &hb).unwrap();
    let ba = svc.diff_configs(&hb, &ha).unwrap();
    assert_eq!(ab.additions.len(), ba.deletions.len());
    for (add, del) in ab.additions.iter().zip(ba.deletions.iter()) {
        assert_eq!(add.path, del.path);
        assert_eq!(add.new_value, del.old_value);
    }
    assert_eq!(ab.deletions.len(), ba.additions.len());
    for (del, add) in ab.deletions.iter().zip(ba.additions.iter()) {
        assert_eq!(del.path, add.path);
        assert_eq!(del.old_value, add.new_value);
    }
}

#[test]
fn type_change_yields_deletion_plus_addition() {
    let mut svc = MutationService::new();
    svc.set_config("/n", "leaf-value", false).unwrap();
    let ha = svc
        .generate_config("a", false, false, "tester")
        .snapshot_hash
        .unwrap();
    svc.delete_config("/n", false).unwrap();
    svc.set_config("/n/child", "1", false).unwrap();
    let hb = svc
        .generate_config("b", false, false, "tester")
        .snapshot_hash
        .unwrap();
    let d = svc.diff_configs(&ha, &hb).unwrap();
    // "/n" was a leaf and is now a container: one deletion and one
    // addition at the same path, plus the added child
    assert_eq!(d.deletions.len(), 1);
    assert_eq!(d.deletions[0].path, "/n");
    assert_eq!(d.deletions[0].old_value.as_deref(), Some("leaf-value"));
    assert_eq!(d.additions.len(), 2);
    assert_eq!(d.additions[0].path, "/n");
    assert_eq!(d.additions[0].new_value, None);
    assert_eq!(d.additions[1].path, "/n/child");
    assert_eq!(d.modifications.len(), 0);
}

#[test]
fn rollback_then_generate_reproduces_the_snapshot() {
    let mut svc = MutationService::new();
    svc.set_config("/x", "1", false).unwrap();
    let first = svc.generate_config("first", false, false, "tester");
    let h1 = first.snapshot_hash.unwrap();
    let id1 = first.history_id.unwrap();
    svc.set_config("/x", "2", false).unwrap();
    svc.set_config("/y", "3", false).unwrap();
    svc.generate_config("second", false, false, "tester");
    let rb = svc.rollback_config(id1, "back to first", false, "tester").unwrap();
    assert!(rb.success);
    assert_eq!(rb.restored_hash, h1);
    assert_eq!(rb.new_history_id, None);
    assert_eq!(svc.get("/x").unwrap().value.as_deref(), Some("1"));
    assert!(svc.get("/y").is_none());
    let again = svc.generate_config("recommit", false, false, "tester");
    assert_eq!(again.snapshot_hash.unwrap(), h1);
}

#[test]
fn immediate_rollback_appends_a_forward_entry() {
    let mut svc = MutationService::new();
    svc.set_config("/x", "1", false).unwrap();
    let first = svc.generate_config("first", false, false, "tester");
    let id1 = first.history_id.unwrap();
    let h1 = first.snapshot_hash.unwrap();
    svc.set_config("/x", "2", false).unwrap();
    svc.generate_config("second", false, false, "tester");
    let rb = svc.rollback_config(id1, "restore", true, "tester").unwrap();
    assert_eq!(rb.new_history_id, Some(3));
    let entry = svc.get_history_entry(3).unwrap();
    assert_eq!(entry.snapshot_hash, h1);
    // the earlier entries are untouched
    assert_eq!(svc.get_history_entry(1).unwrap().description, "first");
    assert_eq!(svc.get_history_entry(2).unwrap().description, "second");
}

#[test]
fn rollback_to_an_unknown_id_fails() {
    let mut svc = MutationService::new();
    match svc.rollback_config(7, "nothing there", false, "tester") {
        Err(ConfigError::HistoryNotFound { id }) => assert_eq!(id, 7),
        other => panic!("expected a history-not-found error, got {:?}", other),
    }
}

#[test]
fn history_lists_without_duplicates_in_either_order() {
    let mut svc = MutationService::new();
    for (i, v) in ["1", "2", "3"].iter().enumerate() {
        svc.set_config("/x", v, false).unwrap();
        let r = svc.generate_config("step", false, false, "tester");
        assert_eq!(r.history_id, Some(i as u64 + 1));
    }
    let desc = svc.get_history(10, SortOrder::Desc);
    let ids: Vec<u64> = desc.iter().map(|e| e.id).collect();
    assert_eq!(ids, vec![3, 2, 1]);
    let asc = svc.get_history(10, SortOrder::Asc);
    let ids: Vec<u64> = asc.iter().map(|e| e.id).collect();
    assert_eq!(ids, vec![1, 2, 3]);
    let limited = svc.get_history(2, SortOrder::Desc);
    let ids: Vec<u64> = limited.iter().map(|e| e.id).collect();
    assert_eq!(ids, vec![3, 2]);
}

#[test]
fn bulk_change_stops_at_the_first_failure() {
    let mut svc = MutationService::new();
    let changes = vec![
        BulkChange {
            path: "/a".to_string(),
            value: Some("1".to_string()),
        },
        BulkChange {
            path: "bad-path".to_string(),
            value: Some("2".to_string()),
        },
        BulkChange {
            path: "/c".to_string(),
            value: Some("3".to_string()),
        },
    ];
    let r = svc.bulk_config_change(&changes, false, true);
    assert!(!r.success);
    assert_eq!(r.applied, vec!["/a".to_string()]);
    assert_eq!(r.failed.len(), 1);
    assert_eq!(r.failed[0].path, "bad-path");
    // the third change was never attempted
    assert!(svc.get("/c").is_none());
    assert!(svc.get("/a").is_some());
}

#[test]
fn bulk_change_without_stop_attempts_everything() {
    let mut svc = MutationService::new();
    let changes = vec![
        BulkChange {
            path: "/a".to_string(),
            value: Some("1".to_string()),
        },
        BulkChange {
            path: "bad-path".to_string(),
            value: Some("2".to_string()),
        },
        BulkChange {
            path: "/c".to_string(),
            value: Some("3".to_string()),
        },
    ];
    let r = svc.bulk_config_change(&changes, false, false);
    assert!(!r.success);
    assert_eq!(r.applied, vec!["/a".to_string(), "/c".to_string()]);
    assert_eq!(r.failed.len(), 1);
    assert!(svc.get("/c").is_some());
}

#[test]
fn bulk_change_deletes_when_no_value_is_given() {
    let mut svc = MutationService::new();
    svc.set_config("/a", "1", false).unwrap();
    let changes = vec![BulkChange {
        path: "/a".to_string(),
        value: None,
    }];
    let r = svc.bulk_config_change(&changes, false, true);
    assert!(r.success);
    assert!(svc.get("/a").is_none());
}

#[test]
fn search_matches_paths_and_values_case_insensitively() {
    let mut svc = MutationService::new();
    svc.set_config("/interfaces/eth0/address", "192.168.1.1/24", false)
        .unwrap();
    svc.set_config("/interfaces/eth1/address", "10.0.0.1/8", false)
        .unwrap();
    svc.set_config("/system/hostname", "ETH-ROUTER", false).unwrap();

    let by_path = svc.search_config("ETH0", SearchType::Path, None);
    let paths: Vec<&str> = by_path.iter().map(|e| e.path.as_str()).collect();
    assert_eq!(paths, vec!["/interfaces/eth0", "/interfaces/eth0/address"]);

    let by_value = svc.search_config("192.168", SearchType::Value, None);
    assert_eq!(by_value.len(), 1);
    assert_eq!(by_value[0].path, "/interfaces/eth0/address");

    let both = svc.search_config("eth", SearchType::Both, None);
    assert_eq!(both.len(), 5);

    let filtered = svc.search_config("eth", SearchType::Both, Some("/system"));
    assert_eq!(filtered.len(), 1);
    assert_eq!(filtered[0].path, "/system/hostname");

    // a non-canonical filter names no node, so nothing is in scope
    let none = svc.search_config("eth", SearchType::Both, Some(""));
    assert!(none.is_empty());
}

#[test]
fn search_is_deterministic_and_canonically_ordered() {
    let mut svc = MutationService::new();
    svc.set_config("/b/two", "x", false).unwrap();
    svc.set_config("/a/one", "x", false).unwrap();
    let hits = svc.search_config("x", SearchType::Value, None);
    let paths: Vec<&str> = hits.iter().map(|e| e.path.as_str()).collect();
    assert_eq!(paths, vec!["/a/one", "/b/two"]);
}

#[test]
fn metadata_survives_value_updates() {
    let mut svc = MutationService::new();
    svc.set_config("/x", "1", false).unwrap();
    let meta = ConfigMetadata {
        is_readonly: false,
        is_required: true,
        default_value: Some("1".to_string()),
        validation: None,
        help_text: Some("the x value".to_string()),
    };
    svc.set_metadata("/x", meta).unwrap();
    svc.set_config("/x", "2", false).unwrap();
    let entry = svc.get("/x").unwrap();
    assert!(entry.metadata.is_required);
    assert_eq!(entry.metadata.help_text.as_deref(), Some("the x value"));
    // absent nodes take no metadata
    assert!(matches!(
        svc.set_metadata("/missing", plain_meta()),
        Err(ConfigError::NotFound { .. })
    ));
}

#[test]
fn default_valued_leaves_draw_a_warning() {
    let mut svc = MutationService::new();
    svc.set_config("/x", "1", false).unwrap();
    let meta = ConfigMetadata {
        is_readonly: false,
        is_required: false,
        default_value: Some("1".to_string()),
        validation: None,
        help_text: None,
    };
    svc.set_metadata("/x", meta).unwrap();
    let v = svc.validate_configuration();
    assert!(v.is_valid);
    assert_eq!(v.warnings.len(), 1);
    assert_eq!(v.warnings[0].path, "/x");
}

#[test]
fn node_helpers_report_counts_and_depth() {
    let leaf = |path: &str, name: &str, value: &str| ConfigNode {
        id: 0,
        path: path.to_string(),
        name: name.to_string(),
        value: Some(value.to_string()),
        node_type: ConfigNodeType::Leaf,
        description: None,
        children: vec![],
        metadata: plain_meta(),
        created_at: 0,
        updated_at: 0,
    };
    let eth0 = ConfigNode {
        id: 0,
        path: "/interfaces/eth0".to_string(),
        name: "eth0".to_string(),
        value: None,
        node_type: ConfigNodeType::Container,
        description: None,
        children: vec![
            leaf("/interfaces/eth0/address", "address", "192.168.1.1/24"),
            leaf("/interfaces/eth0/mtu", "mtu", "1500"),
        ],
        metadata: plain_meta(),
        created_at: 0,
        updated_at: 0,
    };
    let root = ConfigNode {
        id: 0,
        path: "/interfaces".to_string(),
        name: "interfaces".to_string(),
        value: None,
        node_type: ConfigNodeType::Container,
        description: None,
        children: vec![eth0],
        metadata: plain_meta(),
        created_at: 0,
        updated_at: 0,
    };
    assert_eq!(count_nodes(&root), 4);
    assert_eq!(count_leaf_nodes(&root), 2);
    assert_eq!(count_container_nodes(&root), 2);
    assert_eq!(calculate_max_depth(&root, 0), 2);
    assert_eq!(
        find_node_value(&root, "/interfaces/eth0/mtu").as_deref(),
        Some("1500")
    );
    assert_eq!(find_node_value(&root, "/interfaces/eth9"), None);
}

#[test]
fn history_status_settles_once() {
    let mut log = HistoryLog::new();
    let id = log.append(
        "a".repeat(64),
        ConfigChangeType::Generate,
        "tester".to_string(),
        0,
        "pending commit".to_string(),
        false,
        ConfigCommitStatus::Pending,
    );
    assert_eq!(id, 1);
    assert_eq!(
        log.get(1).unwrap().commit_status,
        ConfigCommitStatus::Pending
    );
    log.set_status(1, ConfigCommitStatus::Success);
    let entry = log.get(1).unwrap();
    assert_eq!(entry.commit_status, ConfigCommitStatus::Success);
    assert_eq!(entry.id, 1);
    assert_eq!(entry.description, "pending commit");
    assert!(log.get(2).is_none());
}

#[test]
fn snapshots_are_found_by_their_hash() {
    let mut tree = ConfigTree::new();
    tree.set("/x", "1", false, 0).unwrap();
    let mut store = SnapshotStore::new();
    let h = store.commit(&tree);
    let snap = store.get(&h).unwrap();
    assert_eq!(snap.hash_str(), h);
    assert!(store.get("0000000000000000000000000000000000000000000000000000000000000000").is_none());
}

#[test]
fn a_failed_save_becomes_a_warning_not_a_failure() {
    let mut svc = MutationService::new();
    svc.set_config("/x", "1", false).unwrap();
    let r = svc.generate_config("commit then save", true, false, "tester");
    assert!(r.success);
    let (kept, warning) = note_save_outcome(r, false);
    // the recorded commit stands; the failed save is only warned about
    assert!(kept.success);
    assert_eq!(kept.commit_status, ConfigCommitStatus::Success);
    assert!(warning.is_some());
    let r2 = svc.generate_config("save works", true, false, "tester");
    let (_, warning2) = note_save_outcome(r2, true);
    assert!(warning2.is_none());
}
