use chainproof::diff;
use chainproof::diff::DiffReport;
use chainproof::types::{BinaryEntry, LockfileEntry, Snapshot, SnapshotMeta};

fn meta(sig: &str) -> SnapshotMeta {
    SnapshotMeta {
        created_at: "2024-01-01T00:00:00Z".to_string(),
        signature: sig.to_string(),
    }
}

fn bin(path: &str, hash: &str) -> BinaryEntry {
    BinaryEntry { path: path.to_string(), hash: hash.to_string() }
}

fn lock(path: &str, hash: &str) -> LockfileEntry {
    LockfileEntry { path: path.to_string(), hash: hash.to_string() }
}

#[test]
fn test_identical_snapshots_no_diff() {
    let snap1 = Snapshot {
        binaries: vec![BinaryEntry {
            path: "/usr/bin/git".to_string(),
            hash: "hash1".to_string(),
        }],
        lockfiles: vec![],
        meta: SnapshotMeta {
            created_at: "2024-01-01T00:00:00Z".to_string(),
            signature: "sig1".to_string(),
        },
    };

    let snap2 = Snapshot {
        binaries: vec![BinaryEntry {
            path: "/usr/bin/git".to_string(),
            hash: "hash1".to_string(),
        }],
        lockfiles: vec![],
        meta: SnapshotMeta {
            created_at: "2024-01-01T00:00:00Z".to_string(),
            signature: "sig1".to_string(),
        },
    };

    let diff = diff::diff_snapshots(&snap1, &snap2);
    assert!(diff.added_binaries.is_empty());
    assert!(diff.removed_binaries.is_empty());
    assert!(diff.changed_binaries.is_empty());
}

#[test]
fn test_added_lockfile_detected() {
    let snap1 = Snapshot {
        binaries: vec![],
        lockfiles: vec![],
        meta: SnapshotMeta {
            created_at: "2024-01-01T00:00:00Z".to_string(),
            signature: "sig1".to_string(),
        },
    };

    let snap2 = Snapshot {
        binaries: vec![],
        lockfiles: vec![LockfileEntry {
            path: "Cargo.lock".to_string(),
            hash: "hash1".to_string(),
        }],
        meta: SnapshotMeta {
            created_at: "2024-01-01T00:00:00Z".to_string(),
            signature: "sig2".to_string(),
        },
    };

    let diff = diff::diff_snapshots(&snap1, &snap2);
    assert!(diff.added_lockfiles.contains(&"Cargo.lock".to_string()));
}

#[test]
fn test_removed_lockfile_detected() {
    let snap1 = Snapshot {
        binaries: vec![],
        lockfiles: vec![LockfileEntry {
            path: "Cargo.lock".to_string(),
            hash: "hash1".to_string(),
        }],
        meta: SnapshotMeta {
            created_at: "2024-01-01T00:00:00Z".to_string(),
            signature: "sig1".to_string(),
        },
    };

    let snap2 = Snapshot {
        binaries: vec![],
        lockfiles: vec![],
        meta: SnapshotMeta {
            created_at: "2024-01-01T00:00:00Z".to_string(),
            signature: "sig2".to_string(),
        },
    };

    let diff = diff::diff_snapshots(&snap1, &snap2);
    assert!(diff.removed_lockfiles.contains(&"Cargo.lock".to_string()));
}

#[test]
fn test_changed_lockfile_detected() {
    let snap1 = Snapshot {
        binaries: vec![],
        lockfiles: vec![LockfileEntry {
            path: "Cargo.lock".to_string(),
            hash: "hash1".to_string(),
        }],
        meta: SnapshotMeta {
            created_at: "2024-01-01T00:00:00Z".to_string(),
            signature: "sig1".to_string(),
        },
    };

    let snap2 = Snapshot {
        binaries: vec![],
        lockfiles: vec![LockfileEntry {
            path: "Cargo.lock".to_string(),
            hash: "hash2".to_string(),
        }],
        meta: SnapshotMeta {
            created_at: "2024-01-01T00:00:00Z".to_string(),
            signature: "sig2".to_string(),
        },
    };

    let diff = diff::diff_snapshots(&snap1, &snap2);
    assert!(diff.changed_lockfiles.contains(&("Cargo.lock".to_string(), "hash1".to_string(), "hash2".to_string())));
}

#[test]
fn test_snapshot_compared_with_itself_has_no_diffs() {
    let snap = Snapshot {
        binaries: vec![bin("/usr/bin/git", "aaaa"), bin("/usr/bin/ls", "bbbb")],
        lockfiles: vec![lock("Cargo.lock", "cccc")],
        meta: meta("sig"),
    };
    let report = diff::diff_snapshots(&snap, &snap);
    assert!(!report.has_diffs());
    assert_eq!(report.to_strings(), vec!["No differences detected".to_string()]);
}

#[test]
fn test_later_record_for_same_path_wins() {
    let old = Snapshot {
        binaries: vec![bin("/usr/bin/a", "h1"), bin("/usr/bin/a", "h2")],
        lockfiles: vec![],
        meta: meta("s"),
    };
    let new = Snapshot {
        binaries: vec![bin("/usr/bin/a", "h2")],
        lockfiles: vec![],
        meta: meta("s"),
    };
    let report = diff::diff_snapshots(&old, &new);
    assert!(!report.has_diffs());

    let newer = Snapshot {
        binaries: vec![bin("/usr/bin/a", "h3"), bin("/usr/bin/a", "h1")],
        lockfiles: vec![],
        meta: meta("s"),
    };
    let report = diff::diff_snapshots(&old, &newer);
    assert_eq!(
        report.changed_binaries,
        vec![("/usr/bin/a".to_string(), "h2".to_string(), "h1".to_string())]
    );
    assert!(report.added_binaries.is_empty());
    assert!(report.removed_binaries.is_empty());
}

#[test]
fn test_lists_follow_first_seen_order_without_repeats() {
    let old = Snapshot {
        binaries: vec![bin("/b/x", "1"), bin("/b/y", "2"), bin("/b/x", "1")],
        lockfiles: vec![lock("a.lock", "9"), lock("b.lock", "8")],
        meta: meta("s"),
    };
    let new = Snapshot {
        binaries: vec![bin("/b/z", "3"), bin("/b/w", "4"), bin("/b/z", "3"), bin("/b/y", "5")],
        lockfiles: vec![lock("b.lock", "8"), lock("c.lock", "7")],
        meta: meta("t"),
    };
    let report = diff::diff_snapshots(&old, &new);
    assert_eq!(report.added_binaries, vec!["/b/z".to_string(), "/b/w".to_string()]);
    assert_eq!(report.removed_binaries, vec!["/b/x".to_string()]);
    assert_eq!(
        report.changed_binaries,
        vec![("/b/y".to_string(), "2".to_string(), "5".to_string())]
    );
    assert_eq!(report.added_lockfiles, vec!["c.lock".to_string()]);
    assert_eq!(report.removed_lockfiles, vec!["a.lock".to_string()]);
    assert!(report.changed_lockfiles.is_empty());

    let back = diff::diff_snapshots(&new, &old);
    assert_eq!(back.removed_binaries, report.added_binaries);
    assert_eq!(back.added_binaries, report.removed_binaries);
    assert_eq!(
        back.changed_binaries,
        vec![("/b/y".to_string(), "5".to_string(), "2".to_string())]
    );
}

#[test]
fn test_to_strings_tagged_lines() {
    let report = DiffReport {
        added_binaries: vec!["/usr/bin/new".to_string()],
        removed_binaries: vec!["/usr/bin/old".to_string()],
        changed_binaries: vec![(
            "/usr/bin/git".to_string(),
            "0123456789abcdef".to_string(),
            "fedcba9876543210".to_string(),
        )],
        added_lockfiles: vec!["Gemfile.lock".to_string()],
        removed_lockfiles: vec!["yarn.lock".to_string()],
        changed_lockfiles: vec![(
            "Cargo.lock".to_string(),
            "789abcdef012".to_string(),
            "9876543210ab".to_string(),
        )],
    };
    assert!(report.has_diffs());
    let lines = report.to_strings();
    let expected: Vec<String> = vec![
        "  [ADDED] /usr/bin/new",
        "  [REMOVED] /usr/bin/old",
        "  [MODIFIED] /usr/bin/git (was: 01234567..., now: fedcba98...)",
        "  [ADDED] Gemfile.lock",
        "  [REMOVED] yarn.lock",
        "  [MODIFIED] Cargo.lock (was: 789abcde..., now: 98765432...)",
    ]
    .into_iter()
    .map(|s| s.to_string())
    .collect();
    assert_eq!(lines, expected);
}

#[test]
fn test_has_diffs_for_each_list() {
    let empty = || DiffReport {
        added_binaries: vec![],
        removed_binaries: vec![],
        changed_binaries: vec![],
        added_lockfiles: vec![],
        removed_lockfiles: vec![],
        changed_lockfiles: vec![],
    };
    assert!(!empty().has_diffs());
    let mut r = empty();
    r.added_lockfiles.push("x".to_string());
    assert!(r.has_diffs());
    let mut r = empty();
    r.removed_binaries.push("x".to_string());
    assert!(r.has_diffs());
    let mut r = empty();
    r.changed_lockfiles.push(("x".to_string(), "11111111".to_string(), "22222222".to_string()));
    assert!(r.has_diffs());
}
