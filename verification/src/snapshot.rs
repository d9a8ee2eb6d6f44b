//! The computing parts of taking a snapshot: which files count as lockfiles,
//! where system binaries are looked for, how a file's contents are hashed,
//! and how the creation time is written.

use vstd::prelude::*;
use sha2::{Digest, Sha256};
use crate::types::{BinaryEntry, LockfileEntry};
pub use crate::timestamp::{format_rfc3339, format_rfc3339_now};

verus! {

/// `text` ends with `suffix`.
pub open spec fn has_suffix(text: Seq<char>, suffix: Seq<char>) -> bool {
    &&& suffix.len() <= text.len()
    &&& text.subrange(text.len() - suffix.len(), text.len() as int) == suffix
}

/// Calls `str::ends_with`. Trusted: std documents that it tells whether
/// `suffix` matches a suffix of `text`; it compares UTF-8 bytes, and a valid
/// UTF-8 byte suffix of a string is the encoding of a character suffix.
#[verifier::external_body]
fn str_ends_with(text: &str, suffix: &str) -> (r: bool)
    ensures
        r == has_suffix(text@, suffix@),
{
    text.ends_with(suffix)
}

/// The file-name endings that mark a lockfile.
pub open spec fn lockfile_patterns() -> Seq<Seq<char>> {
    seq![
        "lock.json"@,
        "lock.yaml"@,
        "lock.toml"@,
        "Cargo.lock"@,
        "Gemfile.lock"@,
        "go.sum"@,
        "requirements.txt"@,
        "yarn.lock"@,
        "package-lock.json"@,
        "package.json"@,
        "pnpm-lock.yaml"@,
    ]
}

/// A file whose name ends with (or is) one of the lockfile patterns.
pub open spec fn is_lockfile_spec(file_name: Seq<char>) -> bool {
    exists|i: int| 0 <= i < lockfile_patterns().len() && has_suffix(file_name, lockfile_patterns()[i])
}

/// The tracked lockfile names, listed: a name is a lockfile exactly when it
/// ends with `lock.json`, `lock.yaml`, `lock.toml`, `Cargo.lock`,
/// `Gemfile.lock`, `go.sum`, `requirements.txt`, `yarn.lock`,
/// `package-lock.json`, `package.json` or `pnpm-lock.yaml`.
pub proof fn lemma_lockfile_names(file_name: Seq<char>)
    ensures
        is_lockfile_spec(file_name) <==> {
            ||| has_suffix(file_name, "lock.json"@)
            ||| has_suffix(file_name, "lock.yaml"@)
            ||| has_suffix(file_name, "lock.toml"@)
            ||| has_suffix(file_name, "Cargo.lock"@)
            ||| has_suffix(file_name, "Gemfile.lock"@)
            ||| has_suffix(file_name, "go.sum"@)
            ||| has_suffix(file_name, "requirements.txt"@)
            ||| has_suffix(file_name, "yarn.lock"@)
            ||| has_suffix(file_name, "package-lock.json"@)
            ||| has_suffix(file_name, "package.json"@)
            ||| has_suffix(file_name, "pnpm-lock.yaml"@)
        },
{
    let pats = lockfile_patterns();
    assert(pats[0] == "lock.json"@);
    assert(pats[1] == "lock.yaml"@);
    assert(pats[2] == "lock.toml"@);
    assert(pats[3] == "Cargo.lock"@);
    assert(pats[4] == "Gemfile.lock"@);
    assert(pats[5] == "go.sum"@);
    assert(pats[6] == "requirements.txt"@);
    assert(pats[7] == "yarn.lock"@);
    assert(pats[8] == "package-lock.json"@);
    assert(pats[9] == "package.json"@);
    assert(pats[10] == "pnpm-lock.yaml"@);
}

/// A name that ends with none of the lockfile names is not a lockfile; in
/// particular a `.json` file other than `package.json` and `*lock.json` is not.
pub proof fn lemma_other_json_not_lockfile(file_name: Seq<char>)
    requires
        !has_suffix(file_name, "lock.json"@),
        !has_suffix(file_name, "package.json"@),
        has_suffix(file_name, ".json"@),
    ensures
        !is_lockfile_spec(file_name),
{
    reveal_strlit(".json");
    reveal_strlit("lock.yaml");
    reveal_strlit("lock.toml");
    reveal_strlit("Cargo.lock");
    reveal_strlit("Gemfile.lock");
    reveal_strlit("go.sum");
    reveal_strlit("requirements.txt");
    reveal_strlit("yarn.lock");
    reveal_strlit("package-lock.json");
    reveal_strlit("pnpm-lock.yaml");
    lemma_lockfile_names(file_name);
    let n = file_name.len();
    assert(".json"@ =~= seq!['.', 'j', 's', 'o', 'n']);
    assert(file_name.subrange(n - 5, n as int)[4] == 'n');
    assert(file_name.subrange(n - 5, n as int)[3] == 'o');
    assert(file_name[n - 1] == 'n' && file_name[n - 2] == 'o');
    assert(!has_suffix(file_name, "lock.yaml"@)) by {
        if has_suffix(file_name, "lock.yaml"@) {
            assert(file_name.subrange(n - 9, n as int)[8] == 'l');
        }
    }
    assert(!has_suffix(file_name, "lock.toml"@)) by {
        if has_suffix(file_name, "lock.toml"@) {
            assert(file_name.subrange(n - 9, n as int)[8] == 'l');
        }
    }
    assert(!has_suffix(file_name, "Cargo.lock"@)) by {
        if has_suffix(file_name, "Cargo.lock"@) {
            assert(file_name.subrange(n - 10, n as int)[9] == 'k');
        }
    }
    assert(!has_suffix(file_name, "Gemfile.lock"@)) by {
        if has_suffix(file_name, "Gemfile.lock"@) {
            assert(file_name.subrange(n - 12, n as int)[11] == 'k');
        }
    }
    assert(!has_suffix(file_name, "go.sum"@)) by {
        if has_suffix(file_name, "go.sum"@) {
            assert(file_name.subrange(n - 6, n as int)[5] == 'm');
        }
    }
    assert(!has_suffix(file_name, "requirements.txt"@)) by {
        if has_suffix(file_name, "requirements.txt"@) {
            assert(file_name.subrange(n - 16, n as int)[15] == 't');
        }
    }
    assert(!has_suffix(file_name, "yarn.lock"@)) by {
        if has_suffix(file_name, "yarn.lock"@) {
            assert(file_name.subrange(n - 9, n as int)[8] == 'k');
        }
    }
    assert(!has_suffix(file_name, "package-lock.json"@)) by {
        reveal_strlit("lock.json");
        if has_suffix(file_name, "package-lock.json"@) {
            assert(file_name.subrange(n - 9, n as int) =~= "lock.json"@) by {
                assert forall|i: int| 0 <= i < 9 implies file_name.subrange(n - 9, n as int)[i]
                    == "lock.json"@[i] by {
                    assert(file_name.subrange(n - 17, n as int)[i + 8] == "package-lock.json"@[i
                        + 8]);
                }
            }
        }
    }
    assert(!has_suffix(file_name, "pnpm-lock.yaml"@)) by {
        if has_suffix(file_name, "pnpm-lock.yaml"@) {
            assert(file_name.subrange(n - 14, n as int)[13] == 'l');
        }
    }
}

/// Whether a file of this name is tracked as a lockfile: its name ends with
/// (or equals) one of the lockfile patterns.
pub fn is_lockfile_name(file_name: &str) -> (r: bool)
    ensures
        r == is_lockfile_spec(file_name@),
{
    let patterns = lockfile_pattern_list();
    let mut k: usize = 0;
    while k < patterns.len()
        invariant
            patterns.len() == lockfile_patterns().len(),
            forall|i: int| 0 <= i < patterns.len() ==> (#[trigger] patterns@[i])@ == lockfile_patterns()[i],
            k <= patterns.len(),
            forall|i: int| 0 <= i < k ==> !has_suffix(file_name@, #[trigger] lockfile_patterns()[i]),
        decreases patterns.len() - k,
    {
        if str_ends_with(file_name, patterns[k]) {
            assert(has_suffix(file_name@, lockfile_patterns()[k as int]));
            return true;
        }
        k = k + 1;
    }
    false
}

/// The lockfile patterns as string slices.
fn lockfile_pattern_list() -> (v: Vec<&'static str>)
    ensures
        v.len() == lockfile_patterns().len(),
        forall|i: int| 0 <= i < v.len() ==> (#[trigger] v@[i])@ == lockfile_patterns()[i],
{
    let v = vec![
        "lock.json",
        "lock.yaml",
        "lock.toml",
        "Cargo.lock",
        "Gemfile.lock",
        "go.sum",
        "requirements.txt",
        "yarn.lock",
        "package-lock.json",
        "package.json",
        "pnpm-lock.yaml",
    ];
    assert(v.len() == 11);
    v
}

impl LockfileEntry {
    /// The record of a lockfile at `path` with these contents.
    pub fn from_contents(path: String, contents: &[u8]) -> (e: LockfileEntry)
        ensures
            e.path@ == path@,
            e.hash@ == hex_lower(sha256(contents@)),
    {
        LockfileEntry { path, hash: hash_file_contents(contents) }
    }
}

impl BinaryEntry {
    /// The record of a binary at `path` with these contents.
    pub fn from_contents(path: String, contents: &[u8]) -> (e: BinaryEntry)
        ensures
            e.path@ == path@,
            e.hash@ == hex_lower(sha256(contents@)),
    {
        BinaryEntry { path, hash: hash_file_contents(contents) }
    }
}

/// The directories searched, one level deep, for system binaries.
pub open spec fn binary_dirs() -> Seq<Seq<char>> {
    seq!["/usr/bin"@, "/usr/local/bin"@, "/opt/homebrew/bin"@]
}

/// The directories searched, one level deep, for system binaries.
pub fn binary_dir_list() -> (v: Vec<&'static str>)
    ensures
        v.len() == binary_dirs().len(),
        forall|i: int| 0 <= i < v.len() ==> (#[trigger] v@[i])@ == binary_dirs()[i],
{
    let v = vec!["/usr/bin", "/usr/local/bin", "/opt/homebrew/bin"];
    assert(v.len() == 3);
    v
}

/// The SHA-256 digest of `data`.
pub uninterp spec fn sha256(data: Seq<u8>) -> Seq<u8>;

/// Digests `data` with `sha2::Sha256` (`new`, `update`, `finalize`).
/// Trusted: the digest is the named value `sha256(data)` and is 32 bytes long.
#[verifier::external_body]
fn sha256_digest(data: &[u8]) -> (digest: Vec<u8>)
    ensures
        digest@ == sha256(data@),
        digest@.len() == 32,
{
    let mut hasher = Sha256::new();
    hasher.update(data);
    hasher.finalize().to_vec()
}

/// The lowercase hexadecimal digit of a value below 16.
pub open spec fn hex_digit(v: int) -> char {
    seq!['0', '1', '2', '3', '4', '5', '6', '7', '8', '9', 'a', 'b', 'c', 'd', 'e', 'f'][v]
}

/// A lowercase hexadecimal digit.
pub open spec fn is_lower_hex(c: char) -> bool {
    ('0' <= c && c <= '9') || ('a' <= c && c <= 'f')
}

/// Each byte as two lowercase hexadecimal digits, high nibble first.
pub open spec fn hex_lower(bytes: Seq<u8>) -> Seq<char>
    decreases bytes.len(),
{
    if bytes.len() == 0 {
        seq![]
    } else {
        hex_lower(bytes.drop_last()) + seq![
            hex_digit(bytes.last() as int / 16),
            hex_digit(bytes.last() as int % 16),
        ]
    }
}

/// Calls `hex::encode`. Trusted: the crate documents that each byte becomes
/// two lowercase hexadecimal digits, in order, high nibble first.
#[verifier::external_body]
fn hex_encode(bytes: &[u8]) -> (text: String)
    ensures
        text@ == hex_lower(bytes@),
{
    hex::encode(bytes)
}

/// The hex form of `n` bytes has `2 * n` lowercase hexadecimal digits.
pub proof fn lemma_hex_lower_shape(bytes: Seq<u8>)
    ensures
        hex_lower(bytes).len() == 2 * bytes.len(),
        forall|i: int| 0 <= i < hex_lower(bytes).len() ==> is_lower_hex(#[trigger] hex_lower(bytes)[i]),
    decreases bytes.len(),
{
    if bytes.len() > 0 {
        lemma_hex_lower_shape(bytes.drop_last());
        let hi = bytes.last() as int / 16;
        let lo = bytes.last() as int % 16;
        assert(is_lower_hex(hex_digit(hi))) by {
            assert(0 <= hi < 16);
        }
        assert(is_lower_hex(hex_digit(lo))) by {
            assert(0 <= lo < 16);
        }
    }
}

/// Byte `i` appears as characters `2 i` and `2 i + 1` of the hex form: the
/// lowercase digits of its high and its low four bits.
pub proof fn lemma_hex_lower_digits(bytes: Seq<u8>)
    ensures
        hex_lower(bytes).len() == 2 * bytes.len(),
        forall|i: int|
            0 <= i < bytes.len() ==> hex_lower(bytes)[2 * i] == "0123456789abcdef"@[(
            #[trigger] bytes[i]) as int / 16] && hex_lower(bytes)[2 * i + 1] == "0123456789abcdef"@[bytes[i] as int
                % 16],
    decreases bytes.len(),
{
    reveal_strlit("0123456789abcdef");
    lemma_hex_lower_shape(bytes);
    if bytes.len() > 0 {
        let rest = bytes.drop_last();
        lemma_hex_lower_digits(rest);
        assert forall|i: int| 0 <= i < bytes.len() implies hex_lower(bytes)[2 * i]
            == "0123456789abcdef"@[(#[trigger] bytes[i]) as int / 16] && hex_lower(bytes)[2 * i + 1]
            == "0123456789abcdef"@[bytes[i] as int % 16] by {
            if i < rest.len() {
                assert(rest[i] == bytes[i]);
                assert(hex_lower(bytes)[2 * i] == hex_lower(rest)[2 * i]);
                assert(hex_lower(bytes)[2 * i + 1] == hex_lower(rest)[2 * i + 1]);
            }
        }
    }
}

/// The recorded hash of a file with these contents: the SHA-256 digest as 64
/// lowercase hexadecimal digits. Equal contents always give equal hashes.
pub fn hash_file_contents(data: &[u8]) -> (hash: String)
    ensures
        hash@ == hex_lower(sha256(data@)),
        hash@.len() == 64,
        forall|i: int| 0 <= i < hash@.len() ==> is_lower_hex(#[trigger] hash@[i]),
{
    let digest = sha256_digest(data);
    proof {
        lemma_hex_lower_shape(digest@);
    }
    hex_encode(digest.as_slice())
}

} // verus!
