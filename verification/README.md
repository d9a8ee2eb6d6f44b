# chainproof

Signed snapshots of lockfiles and system binaries, and the comparison of a
current snapshot with a baseline. The library under `src/` is written in Verus.
Its functions carry contracts that Verus proves, except for a few small
trusted wrappers around outside crates (hmac, sha2, base64, hex) and std
(`str::ends_with`, the system clock and `Duration`), whose doc comments say
what is taken on trust.

- `src/types.rs` — snapshot records (path and SHA-256 hash of each binary and lockfile).
- `src/diff.rs` — comparing two snapshots; the report and its printed lines; the
  laws of comparison (what each list holds, no report on equal records, symmetry).
- `src/verify.rs` — the verdict and one message per difference, with or without
  the check of the baseline's signature.
- `src/signing.rs` — HMAC-SHA256 signatures in base64, and their check.
- `src/snapshot.rs` — lockfile names, binary directories, content hashing, entries.
- `src/timestamp.rs` — RFC 3339 UTC timestamps in the Gregorian calendar, and the clock.
- `app/` — the command line: walking the file system, reading and writing
  `.chainproof.json` (serde), and printing.
