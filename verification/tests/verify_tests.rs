use chainproof::diff;
use chainproof::types::{BinaryEntry, LockfileEntry, Snapshot, SnapshotMeta};
use chainproof::signing;
use chainproof::verify::{verify_signed_baseline, verify_snapshots};

#[test]
fn test_baseline_with_missing_lockfile() {
    let baseline = Snapshot {
        binaries: vec![],
        lockfiles: vec![
            LockfileEntry {
                path: "Cargo.lock".to_string(),
                hash: "somehash".to_string(),
            }
        ],
        meta: SnapshotMeta {
            created_at: "2024-01-01T00:00:00Z".to_string(),
            signature: "sig".to_string(),
        },
    };

    let current = Snapshot {
        binaries: vec![],
        lockfiles: vec![],
        meta: SnapshotMeta {
            created_at: "2024-01-02T00:00:00Z".to_string(),
            signature: "sig2".to_string(),
        },
    };

    // Use diff to check for differences
    let diff = diff::diff_snapshots(&baseline, &current);

    // Should detect that Cargo.lock was removed
    assert!(diff.removed_lockfiles.contains(&"Cargo.lock".to_string()));
}

#[test]
fn test_snapshot_with_multiple_entries() {
    let snapshot = Snapshot {
        binaries: vec![
            BinaryEntry {
                path: "/usr/bin/git".to_string(),
                hash: "hash1".to_string(),
            },
            BinaryEntry {
                path: "/usr/bin/cargo".to_string(),
                hash: "hash2".to_string(),
            },
        ],
        lockfiles: vec![
            LockfileEntry {
                path: "Cargo.lock".to_string(),
                hash: "lockhash1".to_string(),
            },
            LockfileEntry {
                path: "package-lock.json".to_string(),
                hash: "lockhash2".to_string(),
            },
        ],
        meta: SnapshotMeta {
            created_at: "2024-01-01T00:00:00Z".to_string(),
            signature: "sig".to_string(),
        },
    };

    assert_eq!(snapshot.binaries.len(), 2);
    assert_eq!(snapshot.lockfiles.len(), 2);
}

fn empty(created_at: &str) -> Snapshot {
    Snapshot {
        binaries: vec![],
        lockfiles: vec![],
        meta: SnapshotMeta { created_at: created_at.to_string(), signature: "sig".to_string() },
    }
}

#[test]
fn test_verify_identical_snapshots() {
    let baseline = empty("2024-01-01T00:00:00Z");
    let current = empty("2025-01-01T00:00:00Z");
    let result = verify_snapshots(&baseline, &current);
    assert!(result.passed);
    assert!(result.diffs.is_empty());
}

#[test]
fn test_verify_with_differences() {
    let mut baseline = empty("2024-01-01T00:00:00Z");
    baseline.lockfiles.push(LockfileEntry { path: "old.lock".to_string(), hash: "oldhhash".to_string() });
    let current = empty("2024-01-01T00:00:00Z");
    let result = verify_snapshots(&baseline, &current);
    assert!(!result.passed);
    assert_eq!(result.diffs, vec!["[REMOVED] old.lock".to_string()]);
}

#[test]
fn test_verify_messages_in_order() {
    let baseline = Snapshot {
        binaries: vec![
            BinaryEntry { path: "/usr/bin/git".to_string(), hash: "aaa".to_string() },
            BinaryEntry { path: "/usr/bin/gone".to_string(), hash: "bbb".to_string() },
        ],
        lockfiles: vec![LockfileEntry { path: "Cargo.lock".to_string(), hash: "c1".to_string() }],
        meta: SnapshotMeta { created_at: "t".to_string(), signature: "s".to_string() },
    };
    let current = Snapshot {
        binaries: vec![
            BinaryEntry { path: "/usr/bin/git".to_string(), hash: "abc".to_string() },
            BinaryEntry { path: "/usr/bin/new".to_string(), hash: "ddd".to_string() },
        ],
        lockfiles: vec![
            LockfileEntry { path: "Cargo.lock".to_string(), hash: "c2".to_string() },
            LockfileEntry { path: "yarn.lock".to_string(), hash: "y".to_string() },
        ],
        meta: SnapshotMeta { created_at: "u".to_string(), signature: "s".to_string() },
    };
    let result = verify_snapshots(&baseline, &current);
    assert!(!result.passed);
    assert_eq!(
        result.diffs,
        vec![
            "[ADDED] /usr/bin/new".to_string(),
            "[REMOVED] /usr/bin/gone".to_string(),
            "[MODIFIED] /usr/bin/git (was: aaa, now: abc)".to_string(),
            "[ADDED] yarn.lock".to_string(),
            "[MODIFIED] Cargo.lock (was: c1, now: c2)".to_string(),
        ]
    );
}

fn signed(unsigned_json: &str, key: &[u8]) -> Snapshot {
    let mut s = empty("2024-01-01T00:00:00Z");
    s.lockfiles.push(LockfileEntry { path: "Cargo.lock".to_string(), hash: "c1".to_string() });
    s.meta.signature = signing::sign(unsigned_json, key);
    s
}

fn current_with(hash: &str) -> Snapshot {
    let mut s = empty("2025-01-01T00:00:00Z");
    s.lockfiles.push(LockfileEntry { path: "Cargo.lock".to_string(), hash: hash.to_string() });
    s
}

#[test]
fn test_signed_baseline_passes() {
    let baseline = signed("{baseline}", b"k");
    let result = verify_signed_baseline(&baseline, "{baseline}", &current_with("c1"), b"k");
    assert!(result.passed);
    assert!(result.diffs.is_empty());
}

#[test]
fn test_forged_baseline_fails_even_when_records_match() {
    let baseline = signed("{baseline}", b"k");
    let result = verify_signed_baseline(&baseline, "{edited baseline}", &current_with("c1"), b"k");
    assert!(!result.passed);
    assert_eq!(
        result.diffs,
        vec!["[SIGNATURE] baseline signature does not match its contents".to_string()]
    );
    let result = verify_signed_baseline(&baseline, "{baseline}", &current_with("c1"), b"other key");
    assert!(!result.passed);
}

#[test]
fn test_forged_baseline_with_differences_lists_both() {
    let mut baseline = signed("{baseline}", b"k");
    baseline.meta.signature = "sig".to_string();
    let result = verify_signed_baseline(&baseline, "{baseline}", &current_with("c2"), b"k");
    assert!(!result.passed);
    assert_eq!(
        result.diffs,
        vec![
            "[SIGNATURE] baseline signature does not match its contents".to_string(),
            "[MODIFIED] Cargo.lock (was: c1, now: c2)".to_string(),
        ]
    );
}

#[test]
fn test_signed_baseline_with_differences() {
    let baseline = signed("{baseline}", b"k");
    let result = verify_signed_baseline(&baseline, "{baseline}", &current_with("c2"), b"k");
    assert!(!result.passed);
    assert_eq!(result.diffs, vec!["[MODIFIED] Cargo.lock (was: c1, now: c2)".to_string()]);
}
