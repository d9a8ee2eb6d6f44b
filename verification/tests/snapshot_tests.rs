use chainproof::snapshot;
use chainproof::timestamp;
use chainproof::types::{BinaryEntry, LockfileEntry, Snapshot, SnapshotMeta};

#[test]
fn test_snapshot_data_structures() {
    let snapshot = Snapshot {
        binaries: vec![BinaryEntry {
            path: "/usr/bin/gcc".to_string(),
            hash: "abc123".to_string(),
        }],
        lockfiles: vec![LockfileEntry {
            path: "Cargo.lock".to_string(),
            hash: "def456".to_string(),
        }],
        meta: SnapshotMeta {
            created_at: "2024-01-01T00:00:00Z".to_string(),
            signature: "ghi789".to_string(),
        },
    };

    assert_eq!(snapshot.binaries.len(), 1);
    assert_eq!(snapshot.lockfiles.len(), 1);
    assert_eq!(snapshot.meta.created_at, "2024-01-01T00:00:00Z");
}

#[test]
fn test_lockfile_entry_creation() {
    let entry = LockfileEntry {
        path: "Cargo.lock".to_string(),
        hash: "abc123def456".to_string(),
    };

    assert_eq!(entry.path, "Cargo.lock");
    assert_eq!(entry.hash.len(), 12);
}

#[test]
fn test_binary_entry_creation() {
    let entry = BinaryEntry {
        path: "/usr/bin/cargo".to_string(),
        hash: "0123456789abcdef".to_string(),
    };

    assert_eq!(entry.path, "/usr/bin/cargo");
    assert!(entry.hash.starts_with("0123"));
}

#[test]
fn test_format_rfc3339_now() {
    let timestamp = snapshot::format_rfc3339_now();

    // Basic sanity checks for RFC3339 format
    assert!(timestamp.contains('T'));
    assert!(timestamp.contains('Z'));
    assert!(timestamp.len() > 20);
}

#[test]
fn test_compute_file_hash() {
    let hash = snapshot::hash_file_contents(b"test");

    // Verify it's a valid hex string and has expected length (64 chars for SHA-256)
    assert_eq!(hash.len(), 64);
    assert!(hash.chars().all(|c| c.is_ascii_hexdigit()));
}

#[test]
fn test_hash_file_contents_known_values() {
    assert_eq!(
        snapshot::hash_file_contents(b"test"),
        "9f86d081884c7d659a2feaa0c55ad015a3bf4f1b2b0b822cd15d6c15b0f00a08"
    );
    assert_eq!(
        snapshot::hash_file_contents(b"test content"),
        "6ae8a75555209fd6c44157c0aed8016e763ff435a19cf186f76863140143ff72"
    );
    assert_eq!(snapshot::hash_file_contents(b"test"), snapshot::hash_file_contents(b"test"));
}

#[test]
fn test_lockfile_names() {
    for name in [
        "Cargo.lock",
        "Gemfile.lock",
        "package.json",
        "package-lock.json",
        "pnpm-lock.yaml",
        "yarn.lock",
        "go.sum",
        "requirements.txt",
        "composer.lock.json",
        "flake.lock.toml",
        "x-lock.yaml",
    ] {
        assert!(snapshot::is_lockfile_name(name), "{} should be a lockfile", name);
    }
    for name in ["Cargo.toml", "package.jsonc", "README.md", "lock", "go.mod", "cargo.lock", ""] {
        assert!(!snapshot::is_lockfile_name(name), "{} should not be a lockfile", name);
    }
}

#[test]
fn test_format_rfc3339_fixed_times() {
    assert_eq!(snapshot::format_rfc3339(0, 0), "1970-01-01T00:00:00.000000000Z");
    assert_eq!(snapshot::format_rfc3339(1700000000, 5), "2023-11-14T22:13:20.000000005Z");
    assert_eq!(snapshot::format_rfc3339(86399, 999_999_999), "1970-01-01T23:59:59.999999999Z");
    assert_eq!(snapshot::format_rfc3339(364 * 86400, 0), "1970-12-31T00:00:00.000000000Z");
    assert_eq!(snapshot::format_rfc3339(1704067200, 0), "2024-01-01T00:00:00.000000000Z");
    assert_eq!(snapshot::format_rfc3339(5097600, 0), "1970-03-01T00:00:00.000000000Z");
    assert_eq!(snapshot::format_rfc3339(951782400, 0), "2000-02-29T00:00:00.000000000Z");
    assert_eq!(snapshot::format_rfc3339(4102444800, 0), "2100-01-01T00:00:00.000000000Z");
    assert_eq!(snapshot::format_rfc3339(253402300799, 1), "9999-12-31T23:59:59.000000001Z");
    assert_eq!(snapshot::format_rfc3339(253402300800, 0), "10000-01-01T00:00:00.000000000Z");
}

#[test]
fn test_format_rfc3339_sorts_in_time_order() {
    let earlier = snapshot::format_rfc3339(31017600, 0);
    let later = snapshot::format_rfc3339(31104000, 0);
    assert_eq!(earlier, "1970-12-26T00:00:00.000000000Z");
    assert_eq!(later, "1970-12-27T00:00:00.000000000Z");
    assert!(earlier < later);
}

#[test]
fn test_format_rfc3339_largest_time() {
    let text = snapshot::format_rfc3339(u64::MAX, 999_999_999);
    assert!(text.ends_with("Z"));
    assert!(text.contains('T'));
}

#[test]
fn test_epoch_reading() {
    assert_eq!(timestamp::epoch_reading(None), (0, 0));
    assert_eq!(timestamp::epoch_reading(Some((1704067200, 7))), (1704067200, 7));
    let (secs, nanos) = timestamp::epoch_reading(None);
    assert_eq!(snapshot::format_rfc3339(secs, nanos), "1970-01-01T00:00:00.000000000Z");
}

#[test]
fn test_binary_dirs() {
    assert_eq!(snapshot::binary_dir_list(), vec!["/usr/bin", "/usr/local/bin", "/opt/homebrew/bin"]);
}

#[test]
fn test_unsigned_snapshot() {
    let s = Snapshot::unsigned(
        vec![BinaryEntry { path: "/usr/bin/a".to_string(), hash: "h".to_string() }],
        vec![],
        "2024-01-01T00:00:00.000000000Z".to_string(),
    );
    assert_eq!(s.meta.signature, "");
    assert_eq!(s.binaries.len(), 1);
    assert_eq!(s.meta.created_at, "2024-01-01T00:00:00.000000000Z");
}

#[test]
fn test_entries_from_contents() {
    let l = LockfileEntry::from_contents("./package.json".to_string(), b"test");
    assert_eq!(l.path, "./package.json");
    assert_eq!(l.hash, "9f86d081884c7d659a2feaa0c55ad015a3bf4f1b2b0b822cd15d6c15b0f00a08");
    let b = BinaryEntry::from_contents("/usr/bin/x".to_string(), b"test content");
    assert_eq!(b.path, "/usr/bin/x");
    assert_eq!(b.hash, "6ae8a75555209fd6c44157c0aed8016e763ff435a19cf186f76863140143ff72");
}
