//! Comparing two snapshots: which paths were added, removed or changed.
//!
//! A list of records is read as a map from path to hash in which a later
//! record for the same path replaces an earlier one. Each list of the report
//! names every path once, in the order in which the path first occurs in the
//! snapshot it is taken from.

use vstd::prelude::*;
use vstd::utf8::{
    decode_utf8, decode_utf8_encode_utf8, encode_utf8, encode_utf8_decode_utf8,
    encode_utf8_valid_utf8, is_char_boundary, valid_utf8_split,
};
use crate::types::{
    BinaryEntry, LockfileEntry, Record, Snapshot, binary_records, lockfile_records,
};

verus! {

/// A changed path with its hash before and after.
pub type Change = (Seq<char>, Seq<char>, Seq<char>);

/// The hash that a list of records gives each path: the one recorded last.
pub open spec fn path_map(records: Seq<Record>) -> Map<Seq<char>, Seq<char>>
    decreases records.len(),
{
    if records.len() == 0 {
        Map::empty()
    } else {
        path_map(records.drop_last()).insert(records.last().0, records.last().1)
    }
}

/// Every path of a list of records once, in the order of its first occurrence.
pub open spec fn first_seen_paths(records: Seq<Record>) -> Seq<Seq<char>>
    decreases records.len(),
{
    if records.len() == 0 {
        seq![]
    } else {
        let earlier = first_seen_paths(records.drop_last());
        if earlier.contains(records.last().0) {
            earlier
        } else {
            earlier.push(records.last().0)
        }
    }
}

/// Holds of the paths that `m` has no entry for.
pub open spec fn absent_from(m: Map<Seq<char>, Seq<char>>) -> spec_fn(Seq<char>) -> bool {
    |p: Seq<char>| !m.dom().contains(p)
}

/// The paths of `new` that `old` does not record.
pub open spec fn added_paths(old: Seq<Record>, new: Seq<Record>) -> Seq<Seq<char>> {
    first_seen_paths(new).filter(absent_from(path_map(old)))
}

/// The paths of `old` that `new` does not record.
pub open spec fn removed_paths(old: Seq<Record>, new: Seq<Record>) -> Seq<Seq<char>> {
    first_seen_paths(old).filter(absent_from(path_map(new)))
}

/// Along `order`, each path that both maps hold with different hashes,
/// with its old and its new hash.
pub open spec fn changes_along(
    order: Seq<Seq<char>>,
    old_map: Map<Seq<char>, Seq<char>>,
    new_map: Map<Seq<char>, Seq<char>>,
) -> Seq<Change>
    decreases order.len(),
{
    if order.len() == 0 {
        seq![]
    } else {
        let earlier = changes_along(order.drop_last(), old_map, new_map);
        let p = order.last();
        if old_map.dom().contains(p) && old_map[p] != new_map[p] {
            earlier.push((p, old_map[p], new_map[p]))
        } else {
            earlier
        }
    }
}

/// The paths recorded by both lists with different hashes, in the order of `new`.
pub open spec fn changed_paths(old: Seq<Record>, new: Seq<Record>) -> Seq<Change> {
    changes_along(first_seen_paths(new), path_map(old), path_map(new))
}

/// The differences between two snapshots.
#[derive(Debug)]
pub struct DiffReport {
    pub added_binaries: Vec<String>,
    pub removed_binaries: Vec<String>,
    pub changed_binaries: Vec<(String, String, String)>,
    pub added_lockfiles: Vec<String>,
    pub removed_lockfiles: Vec<String>,
    pub changed_lockfiles: Vec<(String, String, String)>,
}

/// A diff report as character sequences.
pub struct DiffView {
    pub added_binaries: Seq<Seq<char>>,
    pub removed_binaries: Seq<Seq<char>>,
    pub changed_binaries: Seq<Change>,
    pub added_lockfiles: Seq<Seq<char>>,
    pub removed_lockfiles: Seq<Seq<char>>,
    pub changed_lockfiles: Seq<Change>,
}

impl View for DiffReport {
    type V = DiffView;

    open spec fn view(&self) -> DiffView {
        DiffView {
            added_binaries: self.added_binaries.deep_view(),
            removed_binaries: self.removed_binaries.deep_view(),
            changed_binaries: self.changed_binaries.deep_view(),
            added_lockfiles: self.added_lockfiles.deep_view(),
            removed_lockfiles: self.removed_lockfiles.deep_view(),
            changed_lockfiles: self.changed_lockfiles.deep_view(),
        }
    }
}

/// The report that compares the records of `old` with those of `new`.
pub open spec fn snapshot_diff(old: Snapshot, new: Snapshot) -> DiffView {
    let ob = binary_records(old.binaries@);
    let nb = binary_records(new.binaries@);
    let ol = lockfile_records(old.lockfiles@);
    let nl = lockfile_records(new.lockfiles@);
    DiffView {
        added_binaries: added_paths(ob, nb),
        removed_binaries: removed_paths(ob, nb),
        changed_binaries: changed_paths(ob, nb),
        added_lockfiles: added_paths(ol, nl),
        removed_lockfiles: removed_paths(ol, nl),
        changed_lockfiles: changed_paths(ol, nl),
    }
}

/// Whether a report lists any difference.
pub open spec fn view_has_diffs(d: DiffView) -> bool {
    ||| d.added_binaries.len() > 0
    ||| d.removed_binaries.len() > 0
    ||| d.changed_binaries.len() > 0
    ||| d.added_lockfiles.len() > 0
    ||| d.removed_lockfiles.len() > 0
    ||| d.changed_lockfiles.len() > 0
}

/// The paths of a path/hash table, in order.
pub open spec fn table_paths(table: Seq<Record>) -> Seq<Seq<char>> {
    table.map_values(|e: Record| e.0)
}

/// `table` holds each path of `records` once, in first-seen order, with the
/// hash that `records` gives it.
pub open spec fn represents(table: Seq<Record>, records: Seq<Record>) -> bool {
    &&& table_paths(table) == first_seen_paths(records)
    &&& forall|j: int|
        0 <= j < table.len() ==> #[trigger] path_map(records)[table[j].0] == table[j].1
}

/// A path occurs among the first-seen paths exactly when the map holds it,
/// and no path occurs there twice.
pub proof fn lemma_first_seen_paths(records: Seq<Record>)
    ensures
        forall|p: Seq<char>|
            #[trigger] first_seen_paths(records).contains(p) <==> path_map(records).dom().contains(
                p,
            ),
        first_seen_paths(records).no_duplicates(),
    decreases records.len(),
{
    if records.len() > 0 {
        let earlier = records.drop_last();
        lemma_first_seen_paths(earlier);
        let q = records.last().0;
        assert forall|p: Seq<char>|
            #[trigger] first_seen_paths(records).contains(p) <==> path_map(records).dom().contains(
                p,
            ) by {
            if !first_seen_paths(earlier).contains(q) {
                assert(first_seen_paths(records) == first_seen_paths(earlier).push(q));
                if first_seen_paths(records).contains(p) && p != q {
                    let k = choose|k: int|
                        0 <= k < first_seen_paths(records).len() && first_seen_paths(records)[k]
                            == p;
                    assert(first_seen_paths(earlier)[k] == p);
                }
                if first_seen_paths(earlier).contains(p) {
                    let k = choose|k: int|
                        0 <= k < first_seen_paths(earlier).len() && first_seen_paths(earlier)[k]
                            == p;
                    assert(first_seen_paths(records)[k] == p);
                }
                if p == q {
                    assert(first_seen_paths(records)[first_seen_paths(earlier).len() as int] == q);
                }
            }
        }
    }
}

/// The position of `path` in a table, if the table holds it.
fn find_path(table: &Vec<(String, String)>, path: &String) -> (r: Option<usize>)
    ensures
        match r {
            Some(j) => j < table.len() && table@[j as int].0@ == path@,
            None => forall|j: int| 0 <= j < table.len() ==> (#[trigger] table@[j]).0@ != path@,
        },
{
    let mut j: usize = 0;
    while j < table.len()
        invariant
            j <= table.len(),
            forall|k: int| 0 <= k < j ==> (#[trigger] table@[k]).0@ != path@,
        decreases table.len() - j,
    {
        if table[j].0 == *path {
            return Some(j);
        }
        j = j + 1;
    }
    None
}

/// Each path behind the same marker.
pub open spec fn marked(marker: Seq<char>, paths: Seq<Seq<char>>) -> Seq<Seq<char>> {
    paths.map_values(|p: Seq<char>| marker + p)
}

/// The characters of a hash whose UTF-8 encoding is its first eight bytes.
pub open spec fn hash_prefix(hash: Seq<char>) -> Seq<char> {
    decode_utf8(encode_utf8(hash).subrange(0, 8))
}

/// A hash can be cut after its first eight bytes.
pub open spec fn prefix_cuttable(hash: Seq<char>) -> bool {
    is_char_boundary(encode_utf8(hash), 8)
}

/// Both hashes of a change can be cut after eight bytes.
pub open spec fn change_printable(c: Change) -> bool {
    prefix_cuttable(c.1) && prefix_cuttable(c.2)
}

/// The report line of one change: the `[MODIFIED]` tag, the path, and the
/// first eight bytes of the hash before and after.
pub open spec fn change_line(c: Change) -> Seq<char> {
    "  [MODIFIED] "@ + c.0 + " (was: "@ + hash_prefix(c.1) + "..., now: "@ + hash_prefix(c.2)
        + "...)"@
}

/// The lines of a report, one per difference: added, removed and modified
/// binaries, then added, removed and modified lockfiles.
pub open spec fn report_entries(d: DiffView) -> Seq<Seq<char>> {
    marked("  [ADDED] "@, d.added_binaries) + marked("  [REMOVED] "@, d.removed_binaries)
        + d.changed_binaries.map_values(|c: Change| change_line(c)) + marked(
        "  [ADDED] "@,
        d.added_lockfiles,
    ) + marked("  [REMOVED] "@, d.removed_lockfiles) + d.changed_lockfiles.map_values(
        |c: Change| change_line(c),
    )
}

/// The lines that describe a report; a single notice when it lists nothing.
pub open spec fn report_lines(d: DiffView) -> Seq<Seq<char>> {
    if report_entries(d).len() == 0 {
        seq!["No differences detected"@]
    } else {
        report_entries(d)
    }
}

/// Every change of a report can be printed.
pub open spec fn report_printable(d: DiffView) -> bool {
    &&& forall|i: int|
        0 <= i < d.changed_binaries.len() ==> change_printable(#[trigger] d.changed_binaries[i])
    &&& forall|i: int|
        0 <= i < d.changed_lockfiles.len() ==> change_printable(
            #[trigger] d.changed_lockfiles[i],
        )
}

/// Appends each path behind `marker`, one line per path.
pub(crate) fn push_marked(lines: &mut Vec<String>, marker: &str, paths: &Vec<String>)
    ensures
        final(lines).deep_view() == old(lines).deep_view() + marked(marker@, paths.deep_view()),
{
    let ghost start = lines.deep_view();
    assert(marked(marker@, paths.deep_view()).take(0) =~= seq![]);
    for i in 0..paths.len()
        invariant
            lines.deep_view() == start + marked(marker@, paths.deep_view()).take(i as int),
    {
        let mut line = String::from_str(marker);
        line.append(paths[i].as_str());
        let ghost before = lines.deep_view();
        lines.push(line);
        assert(lines.deep_view() =~= before.push(marker@ + paths.deep_view()[i as int]));
        assert(marked(marker@, paths.deep_view()).take(i + 1) =~= marked(
            marker@,
            paths.deep_view(),
        ).take(i as int).push(marker@ + paths.deep_view()[i as int]));
    }
    assert(marked(marker@, paths.deep_view()).take(paths.len() as int) =~= marked(
        marker@,
        paths.deep_view(),
    ));
}

/// The first eight bytes of a hash, as a string slice.
fn cut_hash(hash: &String) -> (r: &str)
    requires
        prefix_cuttable(hash@),
    ensures
        r@ == hash_prefix(hash@),
{
    let (head, _) = hash.as_str().split_at(8);
    proof {
        encode_utf8_decode_utf8(head@);
    }
    head
}

/// Appends one line per change.
fn push_change_lines(lines: &mut Vec<String>, changes: &Vec<(String, String, String)>)
    requires
        forall|i: int|
            0 <= i < changes.deep_view().len() ==> change_printable(
                #[trigger] changes.deep_view()[i],
            ),
    ensures
        final(lines).deep_view() == old(lines).deep_view() + changes.deep_view().map_values(
            |c: Change| change_line(c),
        ),
{
    let ghost start = lines.deep_view();
    let ghost all = changes.deep_view().map_values(|c: Change| change_line(c));
    assert(all.take(0) =~= seq![]);
    for i in 0..changes.len()
        invariant
            all == changes.deep_view().map_values(|c: Change| change_line(c)),
            forall|i: int|
                0 <= i < changes.deep_view().len() ==> change_printable(
                    #[trigger] changes.deep_view()[i],
                ),
            lines.deep_view() == start + all.take(i as int),
    {
        let ghost c = changes.deep_view()[i as int];
        assert(change_printable(c));
        let mut line = String::from_str("  [MODIFIED] ");
        line.append(changes[i].0.as_str());
        line.append(" (was: ");
        line.append(cut_hash(&changes[i].1));
        line.append("..., now: ");
        line.append(cut_hash(&changes[i].2));
        line.append("...)");
        let ghost before = lines.deep_view();
        lines.push(line);
        assert(lines.deep_view() =~= before.push(change_line(c)));
        assert(all.take(i + 1) =~= all.take(i as int).push(change_line(c)));
    }
    assert(all.take(changes.len() as int) =~= all);
}

/// The shown part of a hash is exactly its first eight bytes: its UTF-8
/// encoding is the first eight bytes of the hash's encoding.
pub proof fn lemma_hash_prefix_bytes(hash: Seq<char>)
    requires
        prefix_cuttable(hash),
    ensures
        encode_utf8(hash_prefix(hash)) == encode_utf8(hash).subrange(0, 8),
{
    let bytes = encode_utf8(hash);
    encode_utf8_valid_utf8(hash);
    valid_utf8_split(bytes, 8);
    decode_utf8_encode_utf8(bytes.subrange(0, 8));
}

/// A report that lists differences has one line per difference, in order:
/// the added, removed and modified binaries, then the added, removed and
/// modified lockfiles, as `  [ADDED] path`, `  [REMOVED] path` and
/// `  [MODIFIED] path (was: <first 8 bytes of old hash>..., now: <first 8 bytes of new hash>...)`.
pub proof fn lemma_report_line_layout(d: DiffView)
    ensures
        ({
            let m = report_entries(d);
            let ab = d.added_binaries.len() as int;
            let rb = d.removed_binaries.len() as int;
            let cb = d.changed_binaries.len() as int;
            let al = d.added_lockfiles.len() as int;
            let rl = d.removed_lockfiles.len() as int;
            let cl = d.changed_lockfiles.len() as int;
            &&& m.len() == ab + rb + cb + al + rl + cl
            &&& forall|i: int|
                0 <= i < ab ==> m[i] == "  [ADDED] "@ + #[trigger] d.added_binaries[i]
            &&& forall|i: int|
                0 <= i < rb ==> m[ab + i] == "  [REMOVED] "@ + #[trigger] d.removed_binaries[i]
            &&& forall|i: int|
                0 <= i < cb ==> m[ab + rb + i] == "  [MODIFIED] "@ + (
                #[trigger] d.changed_binaries[i]).0 + " (was: "@ + hash_prefix(
                    d.changed_binaries[i].1,
                ) + "..., now: "@ + hash_prefix(d.changed_binaries[i].2) + "...)"@
            &&& forall|i: int|
                0 <= i < al ==> m[ab + rb + cb + i] == "  [ADDED] "@
                    + #[trigger] d.added_lockfiles[i]
            &&& forall|i: int|
                0 <= i < rl ==> m[ab + rb + cb + al + i] == "  [REMOVED] "@
                    + #[trigger] d.removed_lockfiles[i]
            &&& forall|i: int|
                0 <= i < cl ==> m[ab + rb + cb + al + rl + i] == "  [MODIFIED] "@ + (
                #[trigger] d.changed_lockfiles[i]).0 + " (was: "@ + hash_prefix(
                    d.changed_lockfiles[i].1,
                ) + "..., now: "@ + hash_prefix(d.changed_lockfiles[i].2) + "...)"@
        }),
{
    let p1 = marked("  [ADDED] "@, d.added_binaries);
    let p2 = marked("  [REMOVED] "@, d.removed_binaries);
    let p3 = d.changed_binaries.map_values(|c: Change| change_line(c));
    let p4 = marked("  [ADDED] "@, d.added_lockfiles);
    let p5 = marked("  [REMOVED] "@, d.removed_lockfiles);
    let p6 = d.changed_lockfiles.map_values(|c: Change| change_line(c));
    let m = report_entries(d);
    assert(m == p1 + p2 + p3 + p4 + p5 + p6);
    let ab = p1.len() as int;
    let rb = p2.len() as int;
    let cb = p3.len() as int;
    let al = p4.len() as int;
    let rl = p5.len() as int;
    assert forall|i: int| 0 <= i < rb implies m[ab + i] == p2[i] by {}
    assert forall|i: int| 0 <= i < cb implies m[ab + rb + i] == p3[i] by {}
    assert forall|i: int| 0 <= i < al implies m[ab + rb + cb + i] == p4[i] by {}
    assert forall|i: int| 0 <= i < rl implies m[ab + rb + cb + al + i] == p5[i] by {}
    assert forall|i: int| 0 <= i < p6.len() implies m[ab + rb + cb + al + rl + i] == p6[i] by {}
}

impl DiffReport {
    /// The lines that describe this report: one line per difference, tagged
    /// `[ADDED]`, `[REMOVED]` or `[MODIFIED]` (a modification shows the first
    /// eight bytes of the hash before and after), or a single notice when the
    /// report lists nothing.
    pub fn to_strings(&self) -> (lines: Vec<String>)
        requires
            report_printable(self@),
        ensures
            lines.deep_view() == report_lines(self@),
            (lines.deep_view() == seq!["No differences detected"@]) == !view_has_diffs(self@),
            view_has_diffs(self@) ==> lines.len() == self.added_binaries.len()
                + self.removed_binaries.len() + self.changed_binaries.len()
                + self.added_lockfiles.len() + self.removed_lockfiles.len()
                + self.changed_lockfiles.len(),
            forall|p: Seq<char>|
                #[trigger] self@.added_binaries.contains(p) ==> lines.deep_view().contains(
                    "  [ADDED] "@ + p,
                ),
            forall|p: Seq<char>|
                #[trigger] self@.removed_binaries.contains(p) ==> lines.deep_view().contains(
                    "  [REMOVED] "@ + p,
                ),
            forall|c: Change|
                #[trigger] self@.changed_binaries.contains(c) ==> lines.deep_view().contains(
                    "  [MODIFIED] "@ + c.0 + " (was: "@ + hash_prefix(c.1) + "..., now: "@
                        + hash_prefix(c.2) + "...)"@,
                ),
            forall|p: Seq<char>|
                #[trigger] self@.added_lockfiles.contains(p) ==> lines.deep_view().contains(
                    "  [ADDED] "@ + p,
                ),
            forall|p: Seq<char>|
                #[trigger] self@.removed_lockfiles.contains(p) ==> lines.deep_view().contains(
                    "  [REMOVED] "@ + p,
                ),
            forall|c: Change|
                #[trigger] self@.changed_lockfiles.contains(c) ==> lines.deep_view().contains(
                    "  [MODIFIED] "@ + c.0 + " (was: "@ + hash_prefix(c.1) + "..., now: "@
                        + hash_prefix(c.2) + "...)"@,
                ),
    {
        proof {
            lemma_notice_iff_no_diffs(self@);
            lemma_report_line_layout(self@);
        }
        let mut lines: Vec<String> = Vec::new();
        assert(lines.deep_view() =~= seq![]);
        assert forall|i: int| 0 <= i < self.changed_binaries.deep_view().len() implies change_printable(
            #[trigger] self.changed_binaries.deep_view()[i],
        ) by {
            assert(self@.changed_binaries[i] == self.changed_binaries.deep_view()[i]);
        }
        assert forall|i: int| 0 <= i < self.changed_lockfiles.deep_view().len() implies change_printable(
            #[trigger] self.changed_lockfiles.deep_view()[i],
        ) by {
            assert(self@.changed_lockfiles[i] == self.changed_lockfiles.deep_view()[i]);
        }
        push_marked(&mut lines, "  [ADDED] ", &self.added_binaries);
        push_marked(&mut lines, "  [REMOVED] ", &self.removed_binaries);
        push_change_lines(&mut lines, &self.changed_binaries);
        push_marked(&mut lines, "  [ADDED] ", &self.added_lockfiles);
        push_marked(&mut lines, "  [REMOVED] ", &self.removed_lockfiles);
        push_change_lines(&mut lines, &self.changed_lockfiles);
        assert(lines.deep_view() =~= report_entries(self@));
        if lines.len() == 0 {
            lines.push(String::from_str("No differences detected"));
            assert(lines.deep_view() =~= seq!["No differences detected"@]);
        }
        proof {
            let d = self@;
            let m = report_entries(d);
            let ab = d.added_binaries.len() as int;
            let rb = d.removed_binaries.len() as int;
            let cb = d.changed_binaries.len() as int;
            let al = d.added_lockfiles.len() as int;
            let rl = d.removed_lockfiles.len() as int;
            assert(view_has_diffs(d) ==> lines.deep_view() == m);
            assert forall|p: Seq<char>| #[trigger] d.added_binaries.contains(p) implies lines.deep_view().contains(
                "  [ADDED] "@ + p,
            ) by {
                let i = choose|i: int| 0 <= i < ab && d.added_binaries[i] == p;
                assert(lines.deep_view()[i] == "  [ADDED] "@ + d.added_binaries[i]);
            }
            assert forall|p: Seq<char>| #[trigger] d.removed_binaries.contains(p) implies lines.deep_view().contains(
                "  [REMOVED] "@ + p,
            ) by {
                let i = choose|i: int| 0 <= i < rb && d.removed_binaries[i] == p;
                assert(lines.deep_view()[ab + i] == "  [REMOVED] "@ + d.removed_binaries[i]);
            }
            assert forall|c: Change| #[trigger] d.changed_binaries.contains(c) implies lines.deep_view().contains(
                "  [MODIFIED] "@ + c.0 + " (was: "@ + hash_prefix(c.1) + "..., now: "@
                    + hash_prefix(c.2) + "...)"@,
            ) by {
                let i = choose|i: int| 0 <= i < cb && d.changed_binaries[i] == c;
                assert(lines.deep_view()[ab + rb + i] == "  [MODIFIED] "@ + d.changed_binaries[i].0
                    + " (was: "@ + hash_prefix(d.changed_binaries[i].1) + "..., now: "@
                    + hash_prefix(d.changed_binaries[i].2) + "...)"@);
            }
            assert forall|p: Seq<char>| #[trigger] d.added_lockfiles.contains(p) implies lines.deep_view().contains(
                "  [ADDED] "@ + p,
            ) by {
                let i = choose|i: int| 0 <= i < al && d.added_lockfiles[i] == p;
                assert(lines.deep_view()[ab + rb + cb + i] == "  [ADDED] "@ + d.added_lockfiles[i]);
            }
            assert forall|p: Seq<char>| #[trigger] d.removed_lockfiles.contains(p) implies lines.deep_view().contains(
                "  [REMOVED] "@ + p,
            ) by {
                let i = choose|i: int| 0 <= i < rl && d.removed_lockfiles[i] == p;
                assert(lines.deep_view()[ab + rb + cb + al + i] == "  [REMOVED] "@
                    + d.removed_lockfiles[i]);
            }
            assert forall|c: Change| #[trigger] d.changed_lockfiles.contains(c) implies lines.deep_view().contains(
                "  [MODIFIED] "@ + c.0 + " (was: "@ + hash_prefix(c.1) + "..., now: "@
                    + hash_prefix(c.2) + "...)"@,
            ) by {
                let i = choose|i: int| 0 <= i < d.changed_lockfiles.len() && d.changed_lockfiles[i]
                    == c;
                assert(lines.deep_view()[ab + rb + cb + al + rl + i] == "  [MODIFIED] "@
                    + d.changed_lockfiles[i].0 + " (was: "@ + hash_prefix(d.changed_lockfiles[i].1)
                    + "..., now: "@ + hash_prefix(d.changed_lockfiles[i].2) + "...)"@);
            }
        }
        lines
    }

    /// Whether the report lists any added, removed or changed binary or lockfile.
    pub fn has_diffs(&self) -> (r: bool)
        ensures
            r == view_has_diffs(self@),
    {
        self.added_binaries.len() != 0 || self.removed_binaries.len() != 0
            || self.changed_binaries.len() != 0 || self.added_lockfiles.len() != 0
            || self.removed_lockfiles.len() != 0 || self.changed_lockfiles.len() != 0
    }
}

/// The path/hash pairs of a list of binaries.
fn binary_table(entries: &Vec<BinaryEntry>) -> (t: Vec<(String, String)>)
    ensures
        t.deep_view() == binary_records(entries@),
{
    let mut t: Vec<(String, String)> = Vec::new();
    for i in 0..entries.len()
        invariant
            t.deep_view() == binary_records(entries@).take(i as int),
    {
        let ghost before = t.deep_view();
        assert(before.len() == i);
        t.push((entries[i].path.clone(), entries[i].hash.clone()));
        assert(t.deep_view()[i as int] == binary_records(entries@)[i as int]);
        assert forall|k: int| 0 <= k < i implies t.deep_view()[k] == before[k] by {}
        assert(t.deep_view() =~= binary_records(entries@).take(i + 1));
    }
    assert(binary_records(entries@).take(entries.len() as int) =~= binary_records(entries@));
    t
}

/// The path/hash pairs of a list of lockfiles.
fn lockfile_table(entries: &Vec<LockfileEntry>) -> (t: Vec<(String, String)>)
    ensures
        t.deep_view() == lockfile_records(entries@),
{
    let mut t: Vec<(String, String)> = Vec::new();
    for i in 0..entries.len()
        invariant
            t.deep_view() == lockfile_records(entries@).take(i as int),
    {
        let ghost before = t.deep_view();
        assert(before.len() == i);
        t.push((entries[i].path.clone(), entries[i].hash.clone()));
        assert(t.deep_view()[i as int] == lockfile_records(entries@)[i as int]);
        assert forall|k: int| 0 <= k < i implies t.deep_view()[k] == before[k] by {}
        assert(t.deep_view() =~= lockfile_records(entries@).take(i + 1));
    }
    assert(lockfile_records(entries@).take(entries.len() as int) =~= lockfile_records(entries@));
    t
}

/// Each path of `records` once, in first-seen order, with its last hash.
fn collapse(records: &Vec<(String, String)>) -> (t: Vec<(String, String)>)
    ensures
        represents(t.deep_view(), records.deep_view()),
{
    let ghost rv = records.deep_view();
    let mut t: Vec<(String, String)> = Vec::new();
    assert(table_paths(t.deep_view()) =~= first_seen_paths(rv.take(0)));
    for i in 0..records.len()
        invariant
            rv == records.deep_view(),
            represents(t.deep_view(), rv.take(i as int)),
    {
        let ghost before = t.deep_view();
        let ghost prefix = rv.take(i as int);
        let ghost next = rv.take(i + 1);
        proof {
            assert(next.drop_last() =~= prefix);
            assert(next.last() == rv[i as int]);
            lemma_first_seen_paths(prefix);
        }
        let found = find_path(&t, &records[i].0);
        match found {
            Some(j) => {
                let p = t[j].0.clone();
                t.set(j, (p, records[i].1.clone()));
                proof {
                    assert(before[j as int].0 == rv[i as int].0);
                    assert(first_seen_paths(prefix).contains(rv[i as int].0)) by {
                        assert(table_paths(before)[j as int] == rv[i as int].0);
                    }
                    assert(table_paths(t.deep_view()) =~= table_paths(before));
                    assert forall|k: int| 0 <= k < t.deep_view().len() implies #[trigger] path_map(
                        next,
                    )[t.deep_view()[k].0] == t.deep_view()[k].1 by {
                        if k != j {
                            assert(t.deep_view()[k] == before[k]);
                            lemma_first_seen_paths(prefix);
                            assert(first_seen_paths(prefix).no_duplicates());
                            assert(table_paths(before)[k] != table_paths(before)[j as int]);
                        }
                    }
                }
            },
            None => {
                t.push((records[i].0.clone(), records[i].1.clone()));
                proof {
                    assert(!first_seen_paths(prefix).contains(rv[i as int].0)) by {
                        if first_seen_paths(prefix).contains(rv[i as int].0) {
                            let k = choose|k: int|
                                0 <= k < first_seen_paths(prefix).len()
                                    && first_seen_paths(prefix)[k] == rv[i as int].0;
                            assert(table_paths(before)[k] == before[k].0);
                        }
                    }
                    assert(table_paths(t.deep_view()) =~= table_paths(before).push(
                        rv[i as int].0,
                    ));
                    assert forall|k: int| 0 <= k < t.deep_view().len() implies #[trigger] path_map(
                        next,
                    )[t.deep_view()[k].0] == t.deep_view()[k].1 by {
                        if k < before.len() {
                            assert(t.deep_view()[k] == before[k]);
                            assert(table_paths(before)[k] == before[k].0);
                            assert(first_seen_paths(prefix).contains(before[k].0));
                        }
                    }
                }
            },
        }
    }
    assert(rv.take(records.len() as int) =~= rv);
    t
}

/// What a filtered sequence holds, and that filtering keeps a sequence free
/// of duplicates.
#[verifier::spinoff_prover]
proof fn lemma_filter_members(s: Seq<Seq<char>>, keep: spec_fn(Seq<char>) -> bool)
    ensures
        forall|x: Seq<char>| #[trigger] s.filter(keep).contains(x) <==> s.contains(x) && keep(x),
        s.no_duplicates() ==> s.filter(keep).no_duplicates(),
    decreases s.len(),
{
    reveal(Seq::filter);
    if s.len() > 0 {
        let rest = s.drop_last();
        lemma_filter_members(rest, keep);
        let last = s.last();
        let fr = rest.filter(keep);
        assert(s =~= rest.push(last));
        assert(s.filter(keep) == if keep(last) {
            fr.push(last)
        } else {
            fr
        });
        assert forall|x: Seq<char>| #[trigger] s.filter(keep).contains(x) <==> s.contains(x) && keep(
            x,
        ) by {
            assert(s.contains(x) <==> rest.contains(x) || x == last) by {
                if s.contains(x) && x != last {
                    let k = choose|k: int| 0 <= k < s.len() && s[k] == x;
                    assert(rest[k] == x);
                }
                if rest.contains(x) {
                    let k = choose|k: int| 0 <= k < rest.len() && rest[k] == x;
                    assert(s[k] == x);
                }
                if x == last {
                    assert(s[s.len() - 1] == x);
                }
            }
            if keep(last) {
                assert(fr.push(last).contains(x) <==> fr.contains(x) || x == last) by {
                    if fr.push(last).contains(x) && x != last {
                        let k = choose|k: int| 0 <= k < fr.push(last).len() && fr.push(last)[k] == x;
                        assert(fr[k] == x);
                    }
                    if fr.contains(x) {
                        let k = choose|k: int| 0 <= k < fr.len() && fr[k] == x;
                        assert(fr.push(last)[k] == x);
                    }
                    if x == last {
                        assert(fr.push(last)[fr.len() as int] == x);
                    }
                }
            }
        }
        if s.no_duplicates() {
            assert(rest.no_duplicates());
            if keep(s.last()) {
                assert(!rest.contains(s.last()));
                assert(!rest.filter(keep).contains(s.last()));
            }
        }
    }
}

/// What the list of changes along an order holds.
proof fn lemma_changes_members(
    order: Seq<Seq<char>>,
    old_map: Map<Seq<char>, Seq<char>>,
    new_map: Map<Seq<char>, Seq<char>>,
)
    ensures
        forall|c: Change| #[trigger]
            changes_along(order, old_map, new_map).contains(c) <==> {
                &&& order.contains(c.0)
                &&& old_map.dom().contains(c.0)
                &&& c.1 == old_map[c.0]
                &&& c.2 == new_map[c.0]
                &&& c.1 != c.2
            },
        order.no_duplicates() ==> forall|i: int, j: int|
            0 <= i < j < changes_along(order, old_map, new_map).len() ==> (
            #[trigger] changes_along(order, old_map, new_map)[i]).0 != (
            #[trigger] changes_along(order, old_map, new_map)[j]).0,
    decreases order.len(),
{
    if order.len() > 0 {
        let rest = order.drop_last();
        let p = order.last();
        lemma_changes_members(rest, old_map, new_map);
        let before = changes_along(rest, old_map, new_map);
        let after = changes_along(order, old_map, new_map);
        assert forall|c: Change| #[trigger] after.contains(c) <==> {
            &&& order.contains(c.0)
            &&& old_map.dom().contains(c.0)
            &&& c.1 == old_map[c.0]
            &&& c.2 == new_map[c.0]
            &&& c.1 != c.2
        } by {
            if order.contains(c.0) && c.0 != p {
                let k = choose|k: int| 0 <= k < order.len() && order[k] == c.0;
                assert(rest[k] == c.0);
            }
            if rest.contains(c.0) {
                let k = choose|k: int| 0 <= k < rest.len() && rest[k] == c.0;
                assert(order[k] == c.0);
            }
            if after.contains(c) && after != before && c != (p, old_map[p], new_map[p]) {
                let k = choose|k: int| 0 <= k < after.len() && after[k] == c;
                assert(before[k] == c);
            }
            if after != before && c == (p, old_map[p], new_map[p]) {
                assert(after[before.len() as int] == c);
            }
            if after != before && before.contains(c) {
                let k = choose|k: int| 0 <= k < before.len() && before[k] == c;
                assert(after[k] == c);
            }
            if order.contains(c.0) && old_map.dom().contains(c.0) && c.1 == old_map[c.0] && c.2
                == new_map[c.0] && c.1 != c.2 && c.0 == p {
                assert(after[before.len() as int] == c);
            }
        }
        if order.no_duplicates() {
            assert(rest.no_duplicates());
            assert(!rest.contains(p));
            assert forall|c: Change| before.contains(c) implies c.0 != p by {}
            assert forall|i: int, j: int| 0 <= i < j < after.len() implies (#[trigger] after[i]).0
                != (#[trigger] after[j]).0 by {
                if j == before.len() && after != before {
                    assert(before.contains(after[i]));
                }
            }
        }
    }
}

/// Where `table` represents `records`: the map holds `path` exactly when the
/// table does, and then the table's entry carries the map's hash.
proof fn lemma_table_lookup(table: Seq<Record>, records: Seq<Record>, path: Seq<char>)
    requires
        represents(table, records),
    ensures
        path_map(records).dom().contains(path) <==> exists|j: int|
            0 <= j < table.len() && (#[trigger] table[j]).0 == path,
{
    lemma_first_seen_paths(records);
    if path_map(records).dom().contains(path) {
        assert(first_seen_paths(records).contains(path));
        let j = choose|j: int|
            0 <= j < first_seen_paths(records).len() && first_seen_paths(records)[j] == path;
        assert(table_paths(table)[j] == table[j].0);
    }
    if exists|j: int| 0 <= j < table.len() && (#[trigger] table[j]).0 == path {
        let j = choose|j: int| 0 <= j < table.len() && (#[trigger] table[j]).0 == path;
        assert(table_paths(table)[j] == path);
        assert(first_seen_paths(records).contains(path));
    }
}

/// The paths of the new table that the old one lacks, and the paths that both
/// hold with different hashes, in the order of the new table.
fn added_and_changed(
    old_t: &Vec<(String, String)>,
    new_t: &Vec<(String, String)>,
    Ghost(old_r): Ghost<Seq<Record>>,
    Ghost(new_r): Ghost<Seq<Record>>,
) -> (r: (Vec<String>, Vec<(String, String, String)>))
    requires
        represents(old_t.deep_view(), old_r),
        represents(new_t.deep_view(), new_r),
    ensures
        r.0.deep_view() == added_paths(old_r, new_r),
        r.1.deep_view() == changed_paths(old_r, new_r),
{
    let ghost order = first_seen_paths(new_r);
    let ghost old_map = path_map(old_r);
    let ghost new_map = path_map(new_r);
    let mut added: Vec<String> = Vec::new();
    let mut changed: Vec<(String, String, String)> = Vec::new();
    assert(order.take(0).filter(absent_from(old_map)) =~= seq![]);
    for i in 0..new_t.len()
        invariant
            represents(old_t.deep_view(), old_r),
            represents(new_t.deep_view(), new_r),
            order == first_seen_paths(new_r),
            old_map == path_map(old_r),
            new_map == path_map(new_r),
            added.deep_view() == order.take(i as int).filter(absent_from(old_map)),
            changed.deep_view() == changes_along(order.take(i as int), old_map, new_map),
    {
        let ghost nv = new_t.deep_view();
        let ghost p = nv[i as int].0;
        proof {
            assert(table_paths(nv)[i as int] == p);
            reveal(Seq::filter);
            assert(order.len() == table_paths(new_t.deep_view()).len());
            assert(order.take(i + 1).drop_last() =~= order.take(i as int));
            assert(order.take(i + 1).last() == p);
            assert(new_map[p] == nv[i as int].1);
            lemma_table_lookup(old_t.deep_view(), old_r, p);
        }
        let ghost added_before = added.deep_view();
        let ghost changed_before = changed.deep_view();
        match find_path(old_t, &new_t[i].0) {
            None => {
                added.push(new_t[i].0.clone());
                proof {
                    assert(!old_map.dom().contains(p)) by {
                        if old_map.dom().contains(p) {
                            let j = choose|j: int|
                                0 <= j < old_t.deep_view().len()
                                    && (#[trigger] old_t.deep_view()[j]).0 == p;
                            assert(old_t@[j].0@ == old_t.deep_view()[j].0);
                        }
                    }
                    assert(absent_from(old_map)(p));
                    assert(order.take(i + 1).filter(absent_from(old_map)) == order.take(
                        i as int,
                    ).filter(absent_from(old_map)).push(p));
                    assert(added.deep_view() =~= added_before.push(p));
                }
            },
            Some(j) => {
                proof {
                    assert(old_t.deep_view()[j as int].0 == p);
                    assert(old_map.dom().contains(p));
                    assert(old_map[p] == old_t.deep_view()[j as int].1);
                    assert(!absent_from(old_map)(p));
                    assert(order.take(i + 1).filter(absent_from(old_map)) == order.take(
                        i as int,
                    ).filter(absent_from(old_map)));
                }
                if old_t[j].1 != new_t[i].1 {
                    changed.push((new_t[i].0.clone(), old_t[j].1.clone(), new_t[i].1.clone()));
                    assert(changed.deep_view() =~= changed_before.push((p, old_map[p], new_map[p])));
                }
            },
        }
    }
    assert(order.take(new_t.len() as int) =~= order) by {
        assert(table_paths(new_t.deep_view()).len() == new_t.len());
    }
    (added, changed)
}

/// The paths of the old table that the new one lacks, in the order of the old table.
fn removed_from(
    old_t: &Vec<(String, String)>,
    new_t: &Vec<(String, String)>,
    Ghost(old_r): Ghost<Seq<Record>>,
    Ghost(new_r): Ghost<Seq<Record>>,
) -> (r: Vec<String>)
    requires
        represents(old_t.deep_view(), old_r),
        represents(new_t.deep_view(), new_r),
    ensures
        r.deep_view() == removed_paths(old_r, new_r),
{
    let ghost order = first_seen_paths(old_r);
    let ghost new_map = path_map(new_r);
    let mut removed: Vec<String> = Vec::new();
    assert(order.take(0).filter(absent_from(new_map)) =~= seq![]);
    for i in 0..old_t.len()
        invariant
            represents(old_t.deep_view(), old_r),
            represents(new_t.deep_view(), new_r),
            order == first_seen_paths(old_r),
            new_map == path_map(new_r),
            removed.deep_view() == order.take(i as int).filter(absent_from(new_map)),
    {
        let ghost ov = old_t.deep_view();
        let ghost p = ov[i as int].0;
        proof {
            assert(table_paths(ov)[i as int] == p);
            reveal(Seq::filter);
            assert(order.len() == table_paths(old_t.deep_view()).len());
            assert(order.take(i + 1).drop_last() =~= order.take(i as int));
            assert(order.take(i + 1).last() == p);
            lemma_table_lookup(new_t.deep_view(), new_r, p);
        }
        let ghost removed_before = removed.deep_view();
        match find_path(new_t, &old_t[i].0) {
            None => {
                removed.push(old_t[i].0.clone());
                proof {
                    assert(!new_map.dom().contains(p)) by {
                        if new_map.dom().contains(p) {
                            let j = choose|j: int|
                                0 <= j < new_t.deep_view().len()
                                    && (#[trigger] new_t.deep_view()[j]).0 == p;
                            assert(new_t@[j].0@ == new_t.deep_view()[j].0);
                        }
                    }
                    assert(absent_from(new_map)(p));
                    assert(order.take(i + 1).filter(absent_from(new_map)) == order.take(
                        i as int,
                    ).filter(absent_from(new_map)).push(p));
                    assert(removed.deep_view() =~= removed_before.push(p));
                }
            },
            Some(j) => {
                proof {
                    assert(new_t.deep_view()[j as int].0 == p);
                    assert(!absent_from(new_map)(p));
                    assert(order.take(i + 1).filter(absent_from(new_map)) == order.take(
                        i as int,
                    ).filter(absent_from(new_map)));
                }
            },
        }
    }
    assert(order.take(old_t.len() as int) =~= order) by {
        assert(table_paths(old_t.deep_view()).len() == old_t.len());
    }
    removed
}

/// Compares two snapshots: the binaries and lockfiles that `new` adds, that
/// it no longer has, and those whose hash changed.
pub fn diff_snapshots(old: &Snapshot, new: &Snapshot) -> (r: DiffReport)
    ensures
        r@ == snapshot_diff(*old, *new),
        forall|p: Seq<char>|
            #[trigger] r@.added_binaries.contains(p) <==> path_map(binary_records(new.binaries@)).dom().contains(p)
                && !path_map(binary_records(old.binaries@)).dom().contains(p),
        forall|p: Seq<char>|
            #[trigger] r@.removed_binaries.contains(p) <==> path_map(binary_records(old.binaries@)).dom().contains(p)
                && !path_map(binary_records(new.binaries@)).dom().contains(p),
        forall|p: Seq<char>, a: Seq<char>, b: Seq<char>|
            #[trigger] r@.changed_binaries.contains((p, a, b)) <==> path_map(binary_records(old.binaries@)).dom().contains(p)
                && path_map(binary_records(new.binaries@)).dom().contains(p) && a == path_map(binary_records(old.binaries@))[p] && b == path_map(binary_records(new.binaries@))[p] && a != b,
        forall|p: Seq<char>|
            #[trigger] r@.added_lockfiles.contains(p) <==> path_map(lockfile_records(new.lockfiles@)).dom().contains(p)
                && !path_map(lockfile_records(old.lockfiles@)).dom().contains(p),
        forall|p: Seq<char>|
            #[trigger] r@.removed_lockfiles.contains(p) <==> path_map(lockfile_records(old.lockfiles@)).dom().contains(p)
                && !path_map(lockfile_records(new.lockfiles@)).dom().contains(p),
        forall|p: Seq<char>, a: Seq<char>, b: Seq<char>|
            #[trigger] r@.changed_lockfiles.contains((p, a, b)) <==> path_map(lockfile_records(old.lockfiles@)).dom().contains(p)
                && path_map(lockfile_records(new.lockfiles@)).dom().contains(p) && a == path_map(lockfile_records(old.lockfiles@))[p] && b == path_map(lockfile_records(new.lockfiles@))[p] && a != b,
{
    proof {
        lemma_report_lists(*old, *new);
    }
    let old_bins = collapse(&binary_table(&old.binaries));
    let new_bins = collapse(&binary_table(&new.binaries));
    let old_locks = collapse(&lockfile_table(&old.lockfiles));
    let new_locks = collapse(&lockfile_table(&new.lockfiles));
    let ghost ob = binary_records(old.binaries@);
    let ghost nb = binary_records(new.binaries@);
    let ghost ol = lockfile_records(old.lockfiles@);
    let ghost nl = lockfile_records(new.lockfiles@);
    let (added_binaries, changed_binaries) = added_and_changed(
        &old_bins,
        &new_bins,
        Ghost(ob),
        Ghost(nb),
    );
    let removed_binaries = removed_from(&old_bins, &new_bins, Ghost(ob), Ghost(nb));
    let (added_lockfiles, changed_lockfiles) = added_and_changed(
        &old_locks,
        &new_locks,
        Ghost(ol),
        Ghost(nl),
    );
    let removed_lockfiles = removed_from(&old_locks, &new_locks, Ghost(ol), Ghost(nl));
    DiffReport {
        added_binaries,
        removed_binaries,
        changed_binaries,
        added_lockfiles,
        removed_lockfiles,
        changed_lockfiles,
    }
}

/// Each list of a comparison names exactly the paths it should, once each:
/// a path is added when only the new records hold it, removed when only the
/// old records hold it, and changed, with its old and new hash, when both
/// hold it with different hashes.
pub proof fn lemma_diff_members(old: Seq<Record>, new: Seq<Record>)
    ensures
        forall|p: Seq<char>| #[trigger]
            added_paths(old, new).contains(p) <==> path_map(new).dom().contains(p)
                && !path_map(old).dom().contains(p),
        forall|p: Seq<char>| #[trigger]
            removed_paths(old, new).contains(p) <==> path_map(old).dom().contains(p)
                && !path_map(new).dom().contains(p),
        forall|c: Change| #[trigger]
            changed_paths(old, new).contains(c) <==> {
                &&& path_map(old).dom().contains(c.0)
                &&& path_map(new).dom().contains(c.0)
                &&& c.1 == path_map(old)[c.0]
                &&& c.2 == path_map(new)[c.0]
                &&& c.1 != c.2
            },
        added_paths(old, new).no_duplicates(),
        removed_paths(old, new).no_duplicates(),
        forall|i: int, j: int|
            0 <= i < j < changed_paths(old, new).len() ==> (#[trigger] changed_paths(old, new)[i]).0
                != (#[trigger] changed_paths(old, new)[j]).0,
{
    lemma_first_seen_paths(old);
    lemma_first_seen_paths(new);
    lemma_filter_members(first_seen_paths(new), absent_from(path_map(old)));
    lemma_filter_members(first_seen_paths(old), absent_from(path_map(new)));
    lemma_changes_members(first_seen_paths(new), path_map(old), path_map(new));
}

/// The map of a list of records holds exactly the recorded paths, and gives
/// each path the hash of its last record.
pub proof fn lemma_path_map_last_record(records: Seq<Record>)
    ensures
        forall|p: Seq<char>|
            #[trigger] path_map(records).dom().contains(p) <==> exists|i: int|
                0 <= i < records.len() && (#[trigger] records[i]).0 == p,
        forall|i: int|
            0 <= i < records.len() && (forall|j: int|
                i < j < records.len() ==> (#[trigger] records[j]).0 != records[i].0)
                ==> path_map(records)[(#[trigger] records[i]).0] == records[i].1,
    decreases records.len(),
{
    if records.len() > 0 {
        let earlier = records.drop_last();
        lemma_path_map_last_record(earlier);
        assert forall|p: Seq<char>|
            #[trigger] path_map(records).dom().contains(p) <==> exists|i: int|
                0 <= i < records.len() && (#[trigger] records[i]).0 == p by {
            if path_map(earlier).dom().contains(p) {
                let i = choose|i: int| 0 <= i < earlier.len() && (#[trigger] earlier[i]).0 == p;
                assert(records[i] == earlier[i]);
            }
            if p == records.last().0 {
                assert(records[records.len() - 1].0 == p);
            }
            if exists|i: int| 0 <= i < records.len() && (#[trigger] records[i]).0 == p {
                let i = choose|i: int| 0 <= i < records.len() && (#[trigger] records[i]).0 == p;
                if i < records.len() - 1 {
                    assert(earlier[i] == records[i]);
                }
            }
        }
        assert forall|i: int|
            0 <= i < records.len() && (forall|j: int|
                i < j < records.len() ==> (#[trigger] records[j]).0 != records[i].0) implies path_map(
            records,
        )[(#[trigger] records[i]).0] == records[i].1 by {
            if i < records.len() - 1 {
                assert(records[records.len() - 1].0 != records[i].0);
                assert(earlier[i] == records[i]);
                assert forall|j: int| i < j < earlier.len() implies (#[trigger] earlier[j]).0
                    != earlier[i].0 by {
                    assert(earlier[j] == records[j]);
                }
            }
        }
    }
}

/// What a comparison of two snapshots lists, kind by kind: a path is added
/// when the new snapshot records it and the old one does not, removed in the
/// opposite case, and changed, with the old and the new hash, when both record
/// it with different hashes; no list names a path twice.
pub proof fn lemma_report_lists(old: Snapshot, new: Snapshot)
    ensures
        ({
            let d = snapshot_diff(old, new);
            let ob = path_map(binary_records(old.binaries@));
            let nb = path_map(binary_records(new.binaries@));
            let ol = path_map(lockfile_records(old.lockfiles@));
            let nl = path_map(lockfile_records(new.lockfiles@));
            &&& forall|p: Seq<char>|
                #[trigger] d.added_binaries.contains(p) <==> nb.dom().contains(p)
                    && !ob.dom().contains(p)
            &&& forall|p: Seq<char>|
                #[trigger] d.removed_binaries.contains(p) <==> ob.dom().contains(p)
                    && !nb.dom().contains(p)
            &&& forall|p: Seq<char>, a: Seq<char>, b: Seq<char>|
                #[trigger] d.changed_binaries.contains((p, a, b)) <==> ob.dom().contains(p)
                    && nb.dom().contains(p) && a == ob[p] && b == nb[p] && a != b
            &&& forall|p: Seq<char>|
                #[trigger] d.added_lockfiles.contains(p) <==> nl.dom().contains(p)
                    && !ol.dom().contains(p)
            &&& forall|p: Seq<char>|
                #[trigger] d.removed_lockfiles.contains(p) <==> ol.dom().contains(p)
                    && !nl.dom().contains(p)
            &&& forall|p: Seq<char>, a: Seq<char>, b: Seq<char>|
                #[trigger] d.changed_lockfiles.contains((p, a, b)) <==> ol.dom().contains(p)
                    && nl.dom().contains(p) && a == ol[p] && b == nl[p] && a != b
            &&& d.added_binaries.no_duplicates()
            &&& d.removed_binaries.no_duplicates()
            &&& d.added_lockfiles.no_duplicates()
            &&& d.removed_lockfiles.no_duplicates()
            &&& forall|i: int, j: int|
                0 <= i < j < d.changed_binaries.len() ==> (#[trigger] d.changed_binaries[i]).0
                    != (#[trigger] d.changed_binaries[j]).0
            &&& forall|i: int, j: int|
                0 <= i < j < d.changed_lockfiles.len() ==> (#[trigger] d.changed_lockfiles[i]).0
                    != (#[trigger] d.changed_lockfiles[j]).0
        }),
{
    lemma_diff_members(binary_records(old.binaries@), binary_records(new.binaries@));
    lemma_diff_members(lockfile_records(old.lockfiles@), lockfile_records(new.lockfiles@));
    let d = snapshot_diff(old, new);
    let ob = path_map(binary_records(old.binaries@));
    let nb = path_map(binary_records(new.binaries@));
    let ol = path_map(lockfile_records(old.lockfiles@));
    let nl = path_map(lockfile_records(new.lockfiles@));
    assert forall|p: Seq<char>, a: Seq<char>, b: Seq<char>|
        #[trigger] d.changed_binaries.contains((p, a, b)) <==> ob.dom().contains(p)
            && nb.dom().contains(p) && a == ob[p] && b == nb[p] && a != b by {
        let c: Change = (p, a, b);
        assert(c.0 == p && c.1 == a && c.2 == b);
    }
    assert forall|p: Seq<char>, a: Seq<char>, b: Seq<char>|
        #[trigger] d.changed_lockfiles.contains((p, a, b)) <==> ol.dom().contains(p)
            && nl.dom().contains(p) && a == ol[p] && b == nl[p] && a != b by {
        let c: Change = (p, a, b);
        assert(c.0 == p && c.1 == a && c.2 == b);
    }
}

/// A comparison reports nothing exactly when both snapshots give every binary
/// path and every lockfile path the same hash; in particular a snapshot
/// compared with itself reports nothing.
pub proof fn lemma_no_diffs_iff_same_records(old: Snapshot, new: Snapshot)
    ensures
        !view_has_diffs(snapshot_diff(old, new)) <==> {
            &&& path_map(binary_records(old.binaries@)) == path_map(binary_records(new.binaries@))
            &&& path_map(lockfile_records(old.lockfiles@)) == path_map(
                lockfile_records(new.lockfiles@),
            )
        },
        !view_has_diffs(snapshot_diff(old, old)),
{
    lemma_empty_iff_same_map(binary_records(old.binaries@), binary_records(new.binaries@));
    lemma_empty_iff_same_map(lockfile_records(old.lockfiles@), lockfile_records(new.lockfiles@));
    lemma_empty_iff_same_map(binary_records(old.binaries@), binary_records(old.binaries@));
    lemma_empty_iff_same_map(lockfile_records(old.lockfiles@), lockfile_records(old.lockfiles@));
}

/// The three lists for one kind of record are empty exactly when both lists
/// of records give the same map.
proof fn lemma_empty_iff_same_map(old: Seq<Record>, new: Seq<Record>)
    ensures
        (added_paths(old, new).len() == 0 && removed_paths(old, new).len() == 0
            && changed_paths(old, new).len() == 0) <==> path_map(old) == path_map(new),
{
    lemma_diff_members(old, new);
    let om = path_map(old);
    let nm = path_map(new);
    if added_paths(old, new).len() == 0 && removed_paths(old, new).len() == 0
        && changed_paths(old, new).len() == 0 {
        assert forall|p: Seq<char>| nm.dom().contains(p) implies om.dom().contains(p) by {
            if !om.dom().contains(p) {
                assert(added_paths(old, new).contains(p));
            }
        }
        assert forall|p: Seq<char>| om.dom().contains(p) implies nm.dom().contains(p) by {
            if !nm.dom().contains(p) {
                assert(removed_paths(old, new).contains(p));
            }
        }
        assert forall|p: Seq<char>| om.dom().contains(p) implies om[p] == nm[p] by {
            if om[p] != nm[p] {
                assert(changed_paths(old, new).contains((p, om[p], nm[p])));
            }
        }
        assert(om =~= nm);
    }
    if om == nm {
        if added_paths(old, new).len() > 0 {
            assert(added_paths(old, new).contains(added_paths(old, new)[0]));
        }
        if removed_paths(old, new).len() > 0 {
            assert(removed_paths(old, new).contains(removed_paths(old, new)[0]));
        }
        if changed_paths(old, new).len() > 0 {
            assert(changed_paths(old, new).contains(changed_paths(old, new)[0]));
        }
    }
}

/// A path changes from one hash to another going from `old` to `new` exactly
/// when it changes back going from `new` to `old`.
pub proof fn lemma_changes_reverse(old: Seq<Record>, new: Seq<Record>)
    ensures
        forall|p: Seq<char>, a: Seq<char>, b: Seq<char>|
            #[trigger] changed_paths(old, new).contains((p, a, b)) <==> changed_paths(
                new,
                old,
            ).contains((p, b, a)),
{
    lemma_diff_members(old, new);
    lemma_diff_members(new, old);
}

/// A report reads as the single notice "No differences detected" exactly
/// when it lists no difference: every line of a difference starts with a space.
pub proof fn lemma_notice_iff_no_diffs(d: DiffView)
    ensures
        !view_has_diffs(d) <==> report_lines(d) == seq!["No differences detected"@],
{
    let s = report_entries(d);
    reveal_strlit("No differences detected");
    reveal_strlit("  [ADDED] ");
    reveal_strlit("  [REMOVED] ");
    reveal_strlit("  [MODIFIED] ");
    if view_has_diffs(d) {
        let first = s[0];
        assert(first[0] == ' ') by {
            if d.added_binaries.len() > 0 {
                assert(first == "  [ADDED] "@ + d.added_binaries[0]);
            } else if d.removed_binaries.len() > 0 {
                assert(first == "  [REMOVED] "@ + d.removed_binaries[0]);
            } else if d.changed_binaries.len() > 0 {
                assert(first == change_line(d.changed_binaries[0]));
            } else if d.added_lockfiles.len() > 0 {
                assert(first == "  [ADDED] "@ + d.added_lockfiles[0]);
            } else if d.removed_lockfiles.len() > 0 {
                assert(first == "  [REMOVED] "@ + d.removed_lockfiles[0]);
            } else {
                assert(first == change_line(d.changed_lockfiles[0]));
            }
        }
        assert("No differences detected"@[0] == 'N');
        assert(report_lines(d)[0] != "No differences detected"@);
    } else {
        assert(s =~= seq![]);
    }
}

/// What one snapshot adds relative to another is exactly, in the same order,
/// what the other removes relative to it.
pub proof fn lemma_added_is_reverse_removed(old: Seq<Record>, new: Seq<Record>)
    ensures
        added_paths(old, new) == removed_paths(new, old),
{
}

} // verus!
