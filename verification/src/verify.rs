//! Checking a current snapshot against a baseline: the verdict and one
//! message per difference.

use vstd::prelude::*;
use crate::diff::{Change, DiffView, diff_snapshots, marked, push_marked, snapshot_diff, view_has_diffs};
use crate::signing::{signature_matches, verify};
use crate::types::Snapshot;

verus! {

/// The outcome of checking an environment against a baseline.
#[derive(Debug)]
pub struct VerifyResult {
    pub passed: bool,
    pub diffs: Vec<String>,
}

/// The message for one change: the `[MODIFIED]` tag, the path, and both full hashes.
pub open spec fn change_message(c: Change) -> Seq<char> {
    "[MODIFIED] "@ + c.0 + " (was: "@ + c.1 + ", now: "@ + c.2 + ")"@
}

/// One message per difference of a report, tagged `[ADDED]`, `[REMOVED]` or
/// `[MODIFIED]`: binaries first, then lockfiles.
pub open spec fn verify_messages(d: DiffView) -> Seq<Seq<char>> {
    marked("[ADDED] "@, d.added_binaries) + marked("[REMOVED] "@, d.removed_binaries)
        + d.changed_binaries.map_values(|c: Change| change_message(c)) + marked(
        "[ADDED] "@,
        d.added_lockfiles,
    ) + marked("[REMOVED] "@, d.removed_lockfiles) + d.changed_lockfiles.map_values(
        |c: Change| change_message(c),
    )
}

/// The message that leads the list when the baseline's signature does not hold.
pub open spec fn signature_failure_message() -> Seq<char> {
    "[SIGNATURE] baseline signature does not match its contents"@
}

/// Appends one message per change.
fn push_change_messages(lines: &mut Vec<String>, changes: &Vec<(String, String, String)>)
    ensures
        final(lines).deep_view() == old(lines).deep_view() + changes.deep_view().map_values(
            |c: Change| change_message(c),
        ),
{
    let ghost start = lines.deep_view();
    let ghost all = changes.deep_view().map_values(|c: Change| change_message(c));
    assert(all.take(0) =~= seq![]);
    for i in 0..changes.len()
        invariant
            all == changes.deep_view().map_values(|c: Change| change_message(c)),
            lines.deep_view() == start + all.take(i as int),
    {
        let ghost c = changes.deep_view()[i as int];
        let mut line = String::from_str("[MODIFIED] ");
        line.append(changes[i].0.as_str());
        line.append(" (was: ");
        line.append(changes[i].1.as_str());
        line.append(", now: ");
        line.append(changes[i].2.as_str());
        line.append(")");
        let ghost before = lines.deep_view();
        lines.push(line);
        assert(lines.deep_view() =~= before.push(change_message(c)));
        assert(all.take(i + 1) =~= all.take(i as int).push(change_message(c)));
    }
    assert(all.take(changes.len() as int) =~= all);
}

/// Every difference gets exactly one message, in order: the added, removed
/// and modified binaries, then the added, removed and modified lockfiles,
/// as `[ADDED] path`, `[REMOVED] path` and
/// `[MODIFIED] path (was: old hash, now: new hash)`.
pub proof fn lemma_verify_message_layout(d: DiffView)
    ensures
        ({
            let m = verify_messages(d);
            let ab = d.added_binaries.len() as int;
            let rb = d.removed_binaries.len() as int;
            let cb = d.changed_binaries.len() as int;
            let al = d.added_lockfiles.len() as int;
            let rl = d.removed_lockfiles.len() as int;
            let cl = d.changed_lockfiles.len() as int;
            &&& m.len() == ab + rb + cb + al + rl + cl
            &&& forall|i: int| 0 <= i < ab ==> m[i] == "[ADDED] "@ + #[trigger] d.added_binaries[i]
            &&& forall|i: int|
                0 <= i < rb ==> m[ab + i] == "[REMOVED] "@ + #[trigger] d.removed_binaries[i]
            &&& forall|i: int|
                0 <= i < cb ==> m[ab + rb + i] == "[MODIFIED] "@ + (#[trigger] d.changed_binaries[i]).0
                    + " (was: "@ + d.changed_binaries[i].1 + ", now: "@ + d.changed_binaries[i].2
                    + ")"@
            &&& forall|i: int|
                0 <= i < al ==> m[ab + rb + cb + i] == "[ADDED] "@ + #[trigger] d.added_lockfiles[i]
            &&& forall|i: int|
                0 <= i < rl ==> m[ab + rb + cb + al + i] == "[REMOVED] "@
                    + #[trigger] d.removed_lockfiles[i]
            &&& forall|i: int|
                0 <= i < cl ==> m[ab + rb + cb + al + rl + i] == "[MODIFIED] "@ + (
                #[trigger] d.changed_lockfiles[i]).0 + " (was: "@ + d.changed_lockfiles[i].1
                    + ", now: "@ + d.changed_lockfiles[i].2 + ")"@
        }),
{
    let p1 = marked("[ADDED] "@, d.added_binaries);
    let p2 = marked("[REMOVED] "@, d.removed_binaries);
    let p3 = d.changed_binaries.map_values(|c: Change| change_message(c));
    let p4 = marked("[ADDED] "@, d.added_lockfiles);
    let p5 = marked("[REMOVED] "@, d.removed_lockfiles);
    let p6 = d.changed_lockfiles.map_values(|c: Change| change_message(c));
    let m = verify_messages(d);
    assert(m == p1 + p2 + p3 + p4 + p5 + p6);
    let ab = p1.len() as int;
    let rb = p2.len() as int;
    let cb = p3.len() as int;
    let al = p4.len() as int;
    let rl = p5.len() as int;
    assert forall|i: int| 0 <= i < rb implies m[ab + i] == p2[i] by {}
    assert forall|i: int| 0 <= i < cb implies m[ab + rb + i] == p3[i] by {}
    assert forall|i: int| 0 <= i < al implies m[ab + rb + cb + i] == p4[i] by {}
    assert forall|i: int| 0 <= i < rl implies m[ab + rb + cb + al + i] == p5[i] by {}
    assert forall|i: int| 0 <= i < p6.len() implies m[ab + rb + cb + al + rl + i] == p6[i] by {}
}

/// Checks `current` against `baseline`: it passes exactly when the comparison
/// finds no difference, and it lists one message per difference, so it
/// passes exactly when there is no message.
pub fn verify_snapshots(baseline: &Snapshot, current: &Snapshot) -> (r: VerifyResult)
    ensures
        r.passed == !view_has_diffs(snapshot_diff(*baseline, *current)),
        r.diffs.deep_view() == verify_messages(snapshot_diff(*baseline, *current)),
        r.passed == (r.diffs.len() == 0),
        ({
            let d = snapshot_diff(*baseline, *current);
            &&& r.diffs.len() == d.added_binaries.len() + d.removed_binaries.len()
                + d.changed_binaries.len() + d.added_lockfiles.len() + d.removed_lockfiles.len()
                + d.changed_lockfiles.len()
            &&& forall|p: Seq<char>|
                #[trigger] d.added_binaries.contains(p) ==> r.diffs.deep_view().contains(
                    "[ADDED] "@ + p,
                )
            &&& forall|p: Seq<char>|
                #[trigger] d.removed_binaries.contains(p) ==> r.diffs.deep_view().contains(
                    "[REMOVED] "@ + p,
                )
            &&& forall|c: Change|
                #[trigger] d.changed_binaries.contains(c) ==> r.diffs.deep_view().contains(
                    "[MODIFIED] "@ + c.0 + " (was: "@ + c.1 + ", now: "@ + c.2 + ")"@,
                )
            &&& forall|p: Seq<char>|
                #[trigger] d.added_lockfiles.contains(p) ==> r.diffs.deep_view().contains(
                    "[ADDED] "@ + p,
                )
            &&& forall|p: Seq<char>|
                #[trigger] d.removed_lockfiles.contains(p) ==> r.diffs.deep_view().contains(
                    "[REMOVED] "@ + p,
                )
            &&& forall|c: Change|
                #[trigger] d.changed_lockfiles.contains(c) ==> r.diffs.deep_view().contains(
                    "[MODIFIED] "@ + c.0 + " (was: "@ + c.1 + ", now: "@ + c.2 + ")"@,
                )
        }),
{
    proof {
        lemma_verify_message_layout(snapshot_diff(*baseline, *current));
    }
    let report = diff_snapshots(baseline, current);
    let has_differences = report.has_diffs();
    let mut diffs: Vec<String> = Vec::new();
    assert(diffs.deep_view() =~= seq![]);
    push_marked(&mut diffs, "[ADDED] ", &report.added_binaries);
    push_marked(&mut diffs, "[REMOVED] ", &report.removed_binaries);
    push_change_messages(&mut diffs, &report.changed_binaries);
    push_marked(&mut diffs, "[ADDED] ", &report.added_lockfiles);
    push_marked(&mut diffs, "[REMOVED] ", &report.removed_lockfiles);
    push_change_messages(&mut diffs, &report.changed_lockfiles);
    assert(diffs.deep_view() =~= verify_messages(report@));
    assert(diffs.deep_view().len() == diffs.len());
    proof {
        let d = report@;
        let m = diffs.deep_view();
        let ab = d.added_binaries.len() as int;
        let rb = d.removed_binaries.len() as int;
        let cb = d.changed_binaries.len() as int;
        let al = d.added_lockfiles.len() as int;
        let rl = d.removed_lockfiles.len() as int;
        assert forall|p: Seq<char>| #[trigger] d.added_binaries.contains(p) implies m.contains(
            "[ADDED] "@ + p,
        ) by {
            let i = choose|i: int| 0 <= i < ab && d.added_binaries[i] == p;
            assert(m[i] == "[ADDED] "@ + d.added_binaries[i]);
        }
        assert forall|p: Seq<char>| #[trigger] d.removed_binaries.contains(p) implies m.contains(
            "[REMOVED] "@ + p,
        ) by {
            let i = choose|i: int| 0 <= i < rb && d.removed_binaries[i] == p;
            assert(m[ab + i] == "[REMOVED] "@ + d.removed_binaries[i]);
        }
        assert forall|c: Change| #[trigger] d.changed_binaries.contains(c) implies m.contains(
            "[MODIFIED] "@ + c.0 + " (was: "@ + c.1 + ", now: "@ + c.2 + ")"@,
        ) by {
            let i = choose|i: int| 0 <= i < cb && d.changed_binaries[i] == c;
            assert(m[ab + rb + i] == "[MODIFIED] "@ + d.changed_binaries[i].0 + " (was: "@
                + d.changed_binaries[i].1 + ", now: "@ + d.changed_binaries[i].2 + ")"@);
        }
        assert forall|p: Seq<char>| #[trigger] d.added_lockfiles.contains(p) implies m.contains(
            "[ADDED] "@ + p,
        ) by {
            let i = choose|i: int| 0 <= i < al && d.added_lockfiles[i] == p;
            assert(m[ab + rb + cb + i] == "[ADDED] "@ + d.added_lockfiles[i]);
        }
        assert forall|p: Seq<char>| #[trigger] d.removed_lockfiles.contains(p) implies m.contains(
            "[REMOVED] "@ + p,
        ) by {
            let i = choose|i: int| 0 <= i < rl && d.removed_lockfiles[i] == p;
            assert(m[ab + rb + cb + al + i] == "[REMOVED] "@ + d.removed_lockfiles[i]);
        }
        assert forall|c: Change| #[trigger] d.changed_lockfiles.contains(c) implies m.contains(
            "[MODIFIED] "@ + c.0 + " (was: "@ + c.1 + ", now: "@ + c.2 + ")"@,
        ) by {
            let i = choose|i: int| 0 <= i < d.changed_lockfiles.len() && d.changed_lockfiles[i]
                == c;
            assert(m[ab + rb + cb + al + rl + i] == "[MODIFIED] "@ + d.changed_lockfiles[i].0
                + " (was: "@ + d.changed_lockfiles[i].1 + ", now: "@ + d.changed_lockfiles[i].2
                + ")"@);
        }
    }
    VerifyResult { passed: !has_differences, diffs }
}

/// Checks `current` against a signed `baseline`, where `unsigned_json` is the
/// serialized form of the baseline with an empty signature (the text that was
/// signed). It passes exactly when the baseline's signature holds for that
/// text under `key` and the comparison finds no difference. A signature that
/// does not hold leads the messages with `signature_failure_message`, so the
/// check passes exactly when there is no message.
pub fn verify_signed_baseline(
    baseline: &Snapshot,
    unsigned_json: &str,
    current: &Snapshot,
    key: &[u8],
) -> (r: VerifyResult)
    ensures
        r.passed == (signature_matches(unsigned_json@, baseline.meta.signature@, key@)
            && !view_has_diffs(snapshot_diff(*baseline, *current))),
        r.diffs.deep_view() == (if signature_matches(
            unsigned_json@,
            baseline.meta.signature@,
            key@,
        ) {
            verify_messages(snapshot_diff(*baseline, *current))
        } else {
            seq![signature_failure_message()] + verify_messages(snapshot_diff(*baseline, *current))
        }),
        r.passed == (r.diffs.len() == 0),
{
    let signature_holds = verify(unsigned_json, baseline.meta.signature.as_str(), key);
    let checked = verify_snapshots(baseline, current);
    if signature_holds {
        checked
    } else {
        let mut diffs = checked.diffs;
        let ghost messages = diffs.deep_view();
        diffs.insert(0, String::from_str("[SIGNATURE] baseline signature does not match its contents"));
        assert(diffs.deep_view() =~= seq![signature_failure_message()] + messages);
        VerifyResult { passed: false, diffs }
    }
}

} // verus!
