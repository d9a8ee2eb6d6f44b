//! The snapshot data model: path/hash records of binaries and lockfiles,
//! and the metadata that carries the creation time and the signature.

use vstd::prelude::*;

verus! {

/// A system binary, recorded by its path and the hex SHA-256 of its contents.
#[derive(Debug)]
pub struct BinaryEntry {
    pub path: String,
    pub hash: String,
}

/// A lockfile, recorded by its path and the hex SHA-256 of its contents.
#[derive(Debug)]
pub struct LockfileEntry {
    pub path: String,
    pub hash: String,
}

/// When a snapshot was taken, and the signature over its serialized form.
#[derive(Debug)]
pub struct SnapshotMeta {
    pub created_at: String,
    pub signature: String,
}

/// All binaries and lockfiles recorded at one moment.
#[derive(Debug)]
pub struct Snapshot {
    pub binaries: Vec<BinaryEntry>,
    pub lockfiles: Vec<LockfileEntry>,
    pub meta: SnapshotMeta,
}

/// A recorded file as a pair of character sequences: its path and its hash.
pub type Record = (Seq<char>, Seq<char>);

impl View for BinaryEntry {
    type V = Record;

    open spec fn view(&self) -> Record {
        (self.path@, self.hash@)
    }
}

impl View for LockfileEntry {
    type V = Record;

    open spec fn view(&self) -> Record {
        (self.path@, self.hash@)
    }
}

/// The records of a list of binaries, in order.
pub open spec fn binary_records(entries: Seq<BinaryEntry>) -> Seq<Record> {
    entries.map_values(|e: BinaryEntry| e@)
}

/// The records of a list of lockfiles, in order.
pub open spec fn lockfile_records(entries: Seq<LockfileEntry>) -> Seq<Record> {
    entries.map_values(|e: LockfileEntry| e@)
}

impl Snapshot {
    /// A snapshot that has not been signed yet: its signature is empty.
    pub fn unsigned(
        binaries: Vec<BinaryEntry>,
        lockfiles: Vec<LockfileEntry>,
        created_at: String,
    ) -> (s: Snapshot)
        ensures
            s.binaries@ == binaries@,
            s.lockfiles@ == lockfiles@,
            s.meta.created_at@ == created_at@,
            s.meta.signature@ == Seq::<char>::empty(),
    {
        Snapshot { binaries, lockfiles, meta: SnapshotMeta { created_at, signature: String::new() } }
    }
}

} // verus!
