//! What the command line says of the outcome of a command.
use vstd::prelude::*;

use crate::chaos::ChaosReport;
use crate::commit::HistoryEntry;
use crate::conformance::CheckResult;
use crate::digest::Digest;
use crate::foreign::{lossy_text, utf8_lossy};
use crate::log::{Appended, Frame, LogManifest, StableAppendReceipt};
use crate::refs::{Lease, RefValue};
use crate::store::GetSource;
use crate::sweep::SweepReport;
use crate::text::{decimal, decimal_text, join2, join3, join4, join5, text_views};
use crate::time::Timestamp;

verus! {

// ---------------------------------------------------------------- columns
/// `n` spaces.
pub open spec fn spaces(n: int) -> Seq<char> {
    Seq::new((if n < 0 { 0 } else { n }) as nat, |i: int| ' ')
}

fn blanks(n: usize) -> (r: String)
    ensures
        r@ == spaces(n as int),
{
    let mut s: String = String::new();
    let mut i: usize = 0;
    proof {
        reveal_strlit(" ");
    }
    while i < n
        invariant
            i <= n,
            s@ =~= spaces(i as int),
            " "@ == seq![' '],
        decreases n - i,
    {
        s.append(" ");
        i = i + 1;
    }
    s
}

/// A text at the left of a column.
pub open spec fn at_left(text: Seq<char>, width: int) -> Seq<char> {
    text + spaces(width - text.len())
}

/// A text at the right of a column.
pub open spec fn at_right(text: Seq<char>, width: int) -> Seq<char> {
    spaces(width - text.len()) + text
}

/// The text at the left of a column of the given width. One that is wider
/// than its column stands as it is.
pub fn left(text: &str, width: usize) -> (r: String)
    ensures
        r@ == at_left(text@, width as int),
{
    let n: usize = text.unicode_len();
    let pad: String = blanks(if n < width { width - n } else { 0 });
    join2(text, &pad)
}

/// The text at the right of a column of the given width.
pub fn right(text: &str, width: usize) -> (r: String)
    ensures
        r@ == at_right(text@, width as int),
{
    let n: usize = text.unicode_len();
    let pad: String = blanks(if n < width { width - n } else { 0 });
    join2(&pad, text)
}

// ------------------------------------------------------------------ blobs
/// What is said of a blob that was stored.
pub fn stored(size: usize, deduplicated: bool) -> (r: String)
    ensures
        r@ == decimal(size as nat) + " bytes stored"@ + if deduplicated {
            " (already present — deduplicated)"@
        } else {
            ""@
        },
{
    join3(
        &decimal_text(size as u64),
        " bytes stored",
        if deduplicated {
            " (already present — deduplicated)"
        } else {
            ""
        },
    )
}

/// What is said of a blob that was written to a file.
pub fn written(size: usize, path: &str, source: GetSource) -> (r: String)
    ensures
        r@ == decimal(size as nat) + " bytes written to "@ + path@ + " (from "@ + match source {
            GetSource::Cache => "cache"@,
            GetSource::Backend => "backend"@,
        } + ")"@,
{
    let mut s: String = join4(
        &decimal_text(size as u64),
        " bytes written to ",
        path,
        " (from ",
    );
    s.append(
        match source {
            GetSource::Cache => "cache",
            GetSource::Backend => "backend",
        },
    );
    s.append(")");
    s
}

/// What is said of a blob that the backend holds intact.
pub fn verified(digest: &Digest, size: usize) -> (r: String)
    ensures
        r@ == "ok: "@ + digest.text() + " verified ("@ + decimal(size as nat) + " bytes)"@,
{
    join5(
        "ok: ",
        &digest.to_string(),
        " verified (",
        &decimal_text(size as u64),
        " bytes)",
    )
}

// ------------------------------------------------------------------- refs
/// What is said of a ref whose target was set.
pub fn target_set(name: &str, target: &Digest, generation: u64, epoch: u64, first: bool) -> (r:
    String)
    ensures
        r@ == name@ + " -> "@ + target.text() + " (generation "@ + decimal(generation as nat)
            + ", epoch "@ + decimal(epoch as nat) + ", first "@ + if first {
            "true"@
        } else {
            "false"@
        } + ")"@,
{
    let mut s: String = join5(
        name,
        " -> ",
        &target.to_string(),
        " (generation ",
        &decimal_text(generation),
    );
    s.append(", epoch ");
    s.append(&decimal_text(epoch));
    s.append(", first ");
    s.append(
        if first {
            "true"
        } else {
            "false"
        },
    );
    s.append(")");
    s
}

/// What is said of a commit in the history of a ref.
pub open spec fn history_text(e: HistoryEntry) -> Seq<char> {
    "gen "@ + at_right(decimal(e.generation as nat), 4) + "  epoch "@ + at_right(
        decimal(e.epoch as nat),
        3,
    ) + "  "@ + e.at.calendar() + "  "@ + e.identity@ + "  "@ + e.commit.text()
}

fn history_line(e: &HistoryEntry) -> (r: String)
    ensures
        r@ == history_text(*e),
{
    let mut s: String = join4(
        "gen ",
        &right(&decimal_text(e.generation), 4),
        "  epoch ",
        &right(&decimal_text(e.epoch), 3),
    );
    s.append("  ");
    s.append(&e.at.calendar_text());
    s.append("  ");
    s.append(&e.identity);
    s.append("  ");
    s.append(&e.commit.to_string());
    s
}

/// What is said of the history of a ref: a line for each commit.
pub fn history(name: &str, entries: &Vec<HistoryEntry>) -> (r: Vec<String>)
    ensures
        text_views(r@) == if entries@.len() == 0 {
            seq!["no commit history for "@ + name@]
        } else {
            Seq::new(entries@.len(), |i: int| history_text(entries@[i]))
        },
{
    let mut lines: Vec<String> = Vec::new();
    if entries.len() == 0 {
        lines.push(join2("no commit history for ", name));
        assert(text_views(lines@) =~= seq!["no commit history for "@ + name@]);
        return lines;
    }
    let mut i: usize = 0;
    while i < entries.len()
        invariant
            i <= entries@.len(),
            lines@.len() == i,
            forall|j: int| 0 <= j < i ==> (#[trigger] lines@[j])@ == history_text(entries@[j]),
        decreases entries@.len() - i,
    {
        lines.push(history_line(&entries[i]));
        i = i + 1;
    }
    assert(text_views(lines@) =~= Seq::new(entries@.len(), |i: int| history_text(entries@[i])));
    lines
}

/// What is said of a claim.
pub fn claimed(name: &str, lease: &Lease, fence: u64) -> (r: String)
    ensures
        r@ == "claimed "@ + name@ + " as "@ + lease.writer@ + " — fence "@ + decimal(fence as nat)
            + " (lease until "@ + lease.lease_until.clock() + ")"@,
{
    let mut s: String = join5("claimed ", name, " as ", &lease.writer, " — fence ");
    s.append(&decimal_text(fence));
    s.append(" (lease until ");
    s.append(&lease.lease_until.clock_text());
    s.append(")");
    s
}

/// What is said of a renewal.
pub fn renewed(name: &str, until: &Timestamp, generation: u64) -> (r: String)
    ensures
        r@ == "renewed "@ + name@ + " until "@ + until.clock() + " (generation unchanged: "@
            + decimal(generation as nat) + ")"@,
{
    let mut s: String = join5(
        "renewed ",
        name,
        " until ",
        &until.clock_text(),
        " (generation unchanged: ",
    );
    s.append(&decimal_text(generation));
    s.append(")");
    s
}

/// What is said of a release.
pub fn released(name: &str, generation: u64) -> (r: String)
    ensures
        r@ == "released "@ + name@ + " (generation "@ + decimal(generation as nat) + ")"@,
{
    join5("released ", name, " (generation ", &decimal_text(generation), ")")
}

// ------------------------------------------------------------------- logs
/// Whether so many events can be appended by one command. A stable append
/// takes one.
pub fn check_append(events: usize, stable: bool) -> (r: Result<(), String>)
    ensures
        match r {
            Ok(_) => events > 0 && (stable ==> events == 1),
            Err(e) => if events == 0 {
                e@ == "nothing to append"@
            } else {
                stable && events != 1 && e@ == "stable append takes exactly one payload"@
            },
        },
{
    if events == 0 {
        Err("nothing to append".to_owned())
    } else if stable && events != 1 {
        Err("stable append takes exactly one payload".to_owned())
    } else {
        Ok(())
    }
}

/// What is said of an append.
pub fn appended(a: &Appended, writer: &str) -> (r: String)
    requires
        a.first <= a.last,
        a.last - a.first < u64::MAX,
    ensures
        r@ == "appended seq "@ + decimal(a.first as nat) + ".."@ + decimal(a.last as nat) + " ("@
            + decimal((a.last - a.first + 1) as nat) + " events) as "@ + writer@ + " generation "@
            + decimal(a.generation as nat),
{
    let mut s: String = join5(
        "appended seq ",
        &decimal_text(a.first),
        "..",
        &decimal_text(a.last),
        " (",
    );
    s.append(&decimal_text(a.last - a.first + 1));
    s.append(" events) as ");
    s.append(writer);
    s.append(" generation ");
    s.append(&decimal_text(a.generation));
    s
}

/// What is said of a stable append.
pub fn stable_appended(receipt: &StableAppendReceipt) -> (r: String)
    ensures
        r@ == "stable appended seq "@ + decimal(receipt.range.first as nat) + ".."@ + decimal(
            receipt.range.last as nat,
        ) + " generation "@ + decimal(receipt.generation as nat),
{
    let mut s: String = join5(
        "stable appended seq ",
        &decimal_text(receipt.range.first),
        "..",
        &decimal_text(receipt.range.last),
        " generation ",
    );
    s.append(&decimal_text(receipt.generation));
    s
}

/// What is said of an event.
pub fn event(f: &Frame) -> (r: String)
    ensures
        r@ == at_right(decimal(f.seq as nat), 6) + "  "@ + f.at.fine_clock() + "  "@ + lossy_text(
            f.payload@,
        ),
{
    join5(
        &right(&decimal_text(f.seq), 6),
        "  ",
        &f.at.fine_clock_text(),
        "  ",
        &utf8_lossy(&f.payload),
    )
}

/// Who leads a log, and until when.
pub open spec fn leader_text(lease: Option<Lease>) -> Seq<char> {
    match lease {
        None => "none"@,
        Some(l) => l.writer@ + " (until "@ + l.lease_until.clock() + ")"@,
    }
}

fn leader(lease: &Option<Lease>) -> (r: String)
    ensures
        r@ == leader_text(*lease),
{
    match lease {
        None => "none".to_owned(),
        Some(l) => join4(&l.writer, " (until ", &l.lease_until.clock_text(), ")"),
    }
}

/// What is said of the state of a log.
pub fn status(name: &str, state: Option<(&RefValue, &LogManifest)>) -> (r: String)
    ensures
        r@ == match state {
            None => "log "@ + name@ + " does not exist"@,
            Some((value, manifest)) => "head_seq "@ + decimal(manifest.head_seq as nat)
                + "  epoch "@ + decimal(value.epoch as nat) + "  chunks "@ + decimal(
                manifest.chunks@.len(),
            ) + "  leader "@ + leader_text(value.lease),
        },
{
    match state {
        None => join3("log ", name, " does not exist"),
        Some((value, manifest)) => {
            let mut s: String = join5(
                "head_seq ",
                &decimal_text(manifest.head_seq),
                "  epoch ",
                &decimal_text(value.epoch),
                "  chunks ",
            );
            s.append(&decimal_text(manifest.chunks.len() as u64));
            s.append("  leader ");
            s.append(&leader(&value.lease));
            s
        },
    }
}

/// What is said of a steal.
pub fn stolen(writer: &str, epoch: u64) -> (r: String)
    ensures
        r@ == "leadership taken by "@ + writer@ + " at epoch "@ + decimal(epoch as nat),
{
    join4("leadership taken by ", writer, " at epoch ", &decimal_text(epoch))
}

/// What is said of a compaction that merged so many chunks.
pub fn compacted(merged: usize) -> (r: String)
    ensures
        r@ == if merged == 0 {
            "nothing to compact (fewer than 2 WAL chunks)"@
        } else {
            "compacted "@ + decimal(merged as nat)
                + " chunks into 1 segment; contents unchanged; old chunks are now orphans"@
        },
{
    if merged == 0 {
        "nothing to compact (fewer than 2 WAL chunks)".to_owned()
    } else {
        join3(
            "compacted ",
            &decimal_text(merged as u64),
            " chunks into 1 segment; contents unchanged; old chunks are now orphans",
        )
    }
}

/// What is said of a trim.
pub fn trimmed(floor: u64) -> (r: String)
    requires
        floor < u64::MAX,
    ensures
        r@ == "retention floor is now "@ + decimal(floor as nat) + "; reads resume at "@ + decimal(
            (floor + 1) as nat,
        ),
{
    join4(
        "retention floor is now ",
        &decimal_text(floor),
        "; reads resume at ",
        &decimal_text(floor + 1),
    )
}

// ----------------------------------------------------------------- sweeps
/// How many candidates a report of a sweep names.
pub const NAMED_CANDIDATES: usize = 20;

/// The end of a key.
pub open spec fn key_end(key: Seq<char>) -> Seq<char> {
    if key.len() <= 24 {
        key
    } else {
        key.skip(key.len() - 24)
    }
}

fn orphan(key: &str) -> (r: String)
    ensures
        r@ == "  orphan: ..."@ + key_end(key@),
{
    let n: usize = key.unicode_len();
    if n <= 24 {
        join2("  orphan: ...", key)
    } else {
        let end: &str = key.substring_char(n - 24, n);
        assert(end@ =~= key_end(key@));
        join2("  orphan: ...", end)
    }
}

/// What is said of a sweep: the counts, the first candidates, how many more
/// there are, and what became of them.
pub open spec fn sweep_lines(report: SweepReport, delete: bool) -> Seq<Seq<char>> {
    let n = report.candidates@.len() as int;
    let named = if n <= NAMED_CANDIDATES {
        n
    } else {
        NAMED_CANDIDATES as int
    };
    seq![
        "refs "@ + decimal(report.refs_scanned as nat) + "  objects "@ + decimal(
            report.objects_scanned as nat,
        ) + "  reachable "@ + decimal(report.reachable as nat) + "  in-grace "@ + decimal(
            report.in_grace as nat,
        ) + "  candidates "@ + decimal(n as nat),
    ] + Seq::new(named as nat, |i: int| "  orphan: ..."@ + key_end(report.candidates@[i]@)) + (if n
        > NAMED_CANDIDATES {
        seq!["  ... and "@ + decimal((n - NAMED_CANDIDATES) as nat) + " more"@]
    } else {
        Seq::empty()
    }) + (if delete {
        seq!["deleted "@ + decimal(report.deleted as nat) + " objects"@]
    } else if n > 0 {
        seq!["dry-run: pass --yes to delete"@]
    } else {
        Seq::empty()
    })
}

/// What is said of a sweep.
pub fn swept(report: &SweepReport, delete: bool) -> (r: Vec<String>)
    ensures
        text_views(r@) == sweep_lines(*report, delete),
{
    let n: usize = report.candidates.len();
    let mut counts: String = join4(
        "refs ",
        &decimal_text(report.refs_scanned as u64),
        "  objects ",
        &decimal_text(report.objects_scanned as u64),
    );
    counts.append("  reachable ");
    counts.append(&decimal_text(report.reachable as u64));
    counts.append("  in-grace ");
    counts.append(&decimal_text(report.in_grace as u64));
    counts.append("  candidates ");
    counts.append(&decimal_text(n as u64));
    let mut lines: Vec<String> = Vec::new();
    lines.push(counts);
    let ghost first = seq![counts@];
    assert(text_views(lines@) =~= first);
    let named: usize = if n <= NAMED_CANDIDATES {
        n
    } else {
        NAMED_CANDIDATES
    };
    let ghost orphans = Seq::new(
        named as nat,
        |i: int| "  orphan: ..."@ + key_end(report.candidates@[i]@),
    );
    let mut i: usize = 0;
    assert(first + orphans.take(0) =~= first);
    while i < named
        invariant
            i <= named <= report.candidates@.len(),
            orphans == Seq::new(
                named as nat,
                |i: int| "  orphan: ..."@ + key_end(report.candidates@[i]@),
            ),
            text_views(lines@) == first + orphans.take(i as int),
        decreases named - i,
    {
        let ghost before = lines@;
        lines.push(orphan(&report.candidates[i]));
        proof {
            assert(orphans.take(i + 1) =~= orphans.take(i as int).push(orphans[i as int]));
            assert(text_views(lines@) =~= text_views(before).push(orphans[i as int]));
            assert(text_views(lines@) =~= first + orphans.take(i + 1));
        }
        i = i + 1;
    }
    assert(orphans.take(i as int) =~= orphans);
    let ghost before = lines@;
    if n > NAMED_CANDIDATES {
        lines.push(join3("  ... and ", &decimal_text((n - NAMED_CANDIDATES) as u64), " more"));
        assert(text_views(lines@) =~= text_views(before) + seq![lines@.last()@]);
    } else {
        assert(text_views(lines@) =~= text_views(before) + Seq::empty());
    }
    let ghost before = lines@;
    if delete {
        lines.push(join3("deleted ", &decimal_text(report.deleted as u64), " objects"));
        assert(text_views(lines@) =~= text_views(before) + seq![lines@.last()@]);
    } else if n > 0 {
        lines.push("dry-run: pass --yes to delete".to_owned());
        assert(text_views(lines@) =~= text_views(before) + seq![lines@.last()@]);
    } else {
        assert(text_views(lines@) =~= text_views(before) + Seq::empty());
    }
    lines
}

// ------------------------------------------------------------ conformance
/// Where the keys of a conformance run begin.
pub fn conformance_prefix(tenant: &str, at: &Timestamp) -> (r: String)
    ensures
        r@ == "comb/v1/tenants/"@ + tenant@ + "/conformance/"@ + at.stamp(),
{
    join4("comb/v1/tenants/", tenant, "/conformance/", &at.stamp_text())
}

/// What is said of a check: the detail only of one that failed.
pub open spec fn check_text(c: CheckResult) -> Seq<char> {
    if c.passed {
        "  PASS  "@ + at_left(c.name@, 45) + " "@
    } else {
        "  FAIL  "@ + at_left(c.name@, 45) + " "@ + c.detail@
    }
}

fn check_line(c: &CheckResult) -> (r: String)
    ensures
        r@ == check_text(*c),
{
    let name: String = left(c.name, 45);
    if c.passed {
        join3("  PASS  ", &name, " ")
    } else {
        join4("  FAIL  ", &name, " ", &c.detail)
    }
}

/// How many checks failed.
pub open spec fn failed_checks(results: Seq<CheckResult>) -> nat
    decreases results.len(),
{
    if results.len() == 0 {
        0
    } else {
        failed_checks(results.drop_last()) + if results.last().passed {
            0nat
        } else {
            1nat
        }
    }
}

/// What is said of a conformance run: a line for each check, an empty one,
/// and the verdict.
pub open spec fn conformance_lines(results: Seq<CheckResult>) -> Seq<Seq<char>> {
    Seq::new(results.len(), |i: int| check_text(results[i])) + seq![""@] + if failed_checks(results)
        == 0 {
        seq!["backend CONFORMS ("@ + decimal(results.len()) + " checks)"@]
    } else {
        seq![
            "backend DOES NOT CONFORM: "@ + decimal(failed_checks(results)) + "/"@ + decimal(
                results.len(),
            ) + " checks failed"@,
            "this backend MUST NOT be used as an authoritative Comb backend"@,
        ]
    }
}

/// What is said of a conformance run, and whether every check passed.
pub fn judged_backend(results: &Vec<CheckResult>) -> (r: (Vec<String>, bool))
    ensures
        text_views(r.0@) == conformance_lines(results@),
        r.1 == (forall|i: int| 0 <= i < results@.len() ==> (#[trigger] results@[i]).passed),
{
    let mut lines: Vec<String> = Vec::new();
    let mut failed: usize = 0;
    let mut i: usize = 0;
    while i < results.len()
        invariant
            i <= results@.len(),
            lines@.len() == i,
            failed <= i,
            failed == failed_checks(results@.take(i as int)),
            failed == 0 <==> forall|j: int| 0 <= j < i ==> (#[trigger] results@[j]).passed,
            forall|j: int| 0 <= j < i ==> (#[trigger] lines@[j])@ == check_text(results@[j]),
        decreases results@.len() - i,
    {
        assert(results@.take(i + 1).drop_last() =~= results@.take(i as int));
        lines.push(check_line(&results[i]));
        if !results[i].passed {
            failed = failed + 1;
        }
        i = i + 1;
    }
    assert(results@.take(i as int) =~= results@);
    let ghost checks = Seq::new(results@.len(), |i: int| check_text(results@[i]));
    assert(text_views(lines@) =~= checks);
    lines.push("".to_owned());
    assert(text_views(lines@) =~= checks + seq![""@]);
    let total: String = decimal_text(results.len() as u64);
    let ghost before = lines@;
    if failed == 0 {
        lines.push(join3("backend CONFORMS (", &total, " checks)"));
        assert(text_views(lines@) =~= text_views(before) + seq![lines@.last()@]);
    } else {
        let mut verdict: String = join4(
            "backend DOES NOT CONFORM: ",
            &decimal_text(failed as u64),
            "/",
            &total,
        );
        verdict.append(" checks failed");
        lines.push(verdict);
        lines.push("this backend MUST NOT be used as an authoritative Comb backend".to_owned());
        assert(text_views(lines@) =~= text_views(before) + seq![
            lines@[lines@.len() - 2]@,
            lines@.last()@,
        ]);
    }
    (lines, failed == 0)
}

// ------------------------------------------------------------------ chaos
/// What is said of a chaos run: the counts, and each violation.
pub open spec fn chaos_lines(report: ChaosReport) -> Seq<Seq<char>> {
    let counts = seq![
        "  operations acked      "@ + decimal(report.acked as nat),
        "  clean failures        "@ + decimal(report.clean_failures as nat)
            + "  (LeaseHeld / stale CAS — correct rejections)"@,
        "  faults injected       "@ + decimal(report.injected_faults as nat),
        "  ambiguous acks        "@ + decimal(report.ambiguous_acks as nat)
            + "  (committed but caller saw an error)"@,
        "  invariant violations  "@ + decimal(report.violations@.len()),
    ];
    if report.violations@.len() == 0 {
        counts + seq![
            ""@,
            "all invariants held. generation and epoch never went backwards,"@,
            "no stale fence advanced state, committed state never became unreadable,"@,
            "journal chain intact and digest-verified."@,
        ]
    } else {
        counts + Seq::new(
            report.violations@.len(),
            |i: int| "    VIOLATION: "@ + report.violations@[i]@,
        )
    }
}

/// What is said of a chaos run.
pub fn shaken(report: &ChaosReport) -> (r: Vec<String>)
    ensures
        text_views(r@) == chaos_lines(*report),
{
    let mut lines: Vec<String> = Vec::new();
    lines.push(join2("  operations acked      ", &decimal_text(report.acked)));
    lines.push(
        join3(
            "  clean failures        ",
            &decimal_text(report.clean_failures),
            "  (LeaseHeld / stale CAS — correct rejections)",
        ),
    );
    lines.push(join2("  faults injected       ", &decimal_text(report.injected_faults)));
    lines.push(
        join3(
            "  ambiguous acks        ",
            &decimal_text(report.ambiguous_acks),
            "  (committed but caller saw an error)",
        ),
    );
    lines.push(
        join2("  invariant violations  ", &decimal_text(report.violations.len() as u64)),
    );
    if report.violations.len() == 0 {
        lines.push("".to_owned());
        lines.push("all invariants held. generation and epoch never went backwards,".to_owned());
        lines.push(
            "no stale fence advanced state, committed state never became unreadable,".to_owned(),
        );
        lines.push("journal chain intact and digest-verified.".to_owned());
        assert(text_views(lines@) =~= chaos_lines(*report));
        return lines;
    }
    let ghost counts = text_views(lines@);
    let mut i: usize = 0;
    while i < report.violations.len()
        invariant
            i <= report.violations@.len(),
            counts.len() == 5,
            lines@.len() == 5 + i,
            forall|j: int| 0 <= j < 5 ==> (#[trigger] lines@[j])@ == counts[j],
            forall|j: int|
                5 <= j < 5 + i ==> (#[trigger] lines@[j])@ == "    VIOLATION: "@
                    + report.violations@[j - 5]@,
        decreases report.violations@.len() - i,
    {
        lines.push(join2("    VIOLATION: ", &report.violations[i]));
        i = i + 1;
    }
    assert(text_views(lines@) =~= chaos_lines(*report));
    lines
}

/// A text is filled up with spaces to its width, and one that is wider stays
/// as it is.
pub proof fn law_columns_keep_their_text(text: Seq<char>, width: nat)
    ensures
        text.len() >= width ==> at_left(text, width as int) == text && at_right(
            text,
            width as int,
        ) == text,
        text.len() <= width ==> at_left(text, width as int).len() == width && at_right(
            text,
            width as int,
        ).len() == width,
        at_left(text, width as int).take(text.len() as int) == text,
        at_right(text, width as int).skip(at_right(text, width as int).len() - text.len()) == text,
        forall|i: int|
            text.len() <= i < width ==> #[trigger] at_left(text, width as int)[i] == ' ',
        forall|i: int|
            0 <= i < width - text.len() ==> #[trigger] at_right(text, width as int)[i] == ' ',
{
    assert(at_left(text, width as int).take(text.len() as int) =~= text);
    assert(at_right(text, width as int).skip(at_right(text, width as int).len() - text.len())
        =~= text);
    if text.len() >= width {
        assert(at_left(text, width as int) =~= text);
        assert(at_right(text, width as int) =~= text);
    }
}

/// Of a key the last 24 characters are shown, or all of a shorter one.
pub proof fn law_end_of_a_key(key: Seq<char>)
    ensures
        key_end(key).len() == if key.len() < 24 {
            key.len()
        } else {
            24
        },
        key.skip(key.len() - key_end(key).len()) == key_end(key),
{
    assert(key.len() <= 24 ==> key.skip(0) =~= key);
}

/// The failed checks are those that did not pass: none where all passed, one
/// more with each that did not.
pub proof fn law_failed_checks_are_counted(results: Seq<CheckResult>)
    ensures
        failed_checks(results) == results.filter(|c: CheckResult| !c.passed).len(),
        failed_checks(results) == 0 <==> forall|i: int|
            0 <= i < results.len() ==> (#[trigger] results[i]).passed,
    decreases results.len(),
{
    reveal(Seq::filter);
    if results.len() > 0 {
        let front = results.drop_last();
        law_failed_checks_are_counted(front);
        if results.last().passed && failed_checks(front) == 0 {
            assert forall|i: int| 0 <= i < results.len() implies (#[trigger] results[i]).passed by {
                if i < results.len() - 1 {
                    assert(front[i].passed);
                }
            }
        }
        if failed_checks(front) > 0 {
            let i = choose|i: int| 0 <= i < front.len() && !(#[trigger] front[i]).passed;
            assert(!results[i].passed);
        }
        if !results.last().passed {
            assert(!results[results.len() - 1].passed);
        }
    }
}

/// A backend conforms where every check passed; each check has a line of its
/// own, and a failed one says why.
pub proof fn law_verdict_is_that_of_the_checks(results: Seq<CheckResult>, i: int)
    requires
        0 <= i < results.len(),
    ensures
        conformance_lines(results)[i] == if results[i].passed {
            "  PASS  "@ + at_left(results[i].name@, 45) + " "@
        } else {
            "  FAIL  "@ + at_left(results[i].name@, 45) + " "@ + results[i].detail@
        },
        conformance_lines(results).len() == results.len() + if forall|j: int|
            0 <= j < results.len() ==> (#[trigger] results[j]).passed {
            2int
        } else {
            3
        },
{
    law_failed_checks_are_counted(results);
}

/// A sweep names up to 20 of its candidates, in order, and says how many more
/// there are; it says what was deleted, or how to delete.
pub proof fn law_sweep_names_its_candidates(report: SweepReport, delete: bool, i: int)
    ensures
        0 <= i < report.candidates@.len() && i < 20 ==> sweep_lines(report, delete)[i + 1]
            == "  orphan: ..."@ + key_end(report.candidates@[i]@),
        sweep_lines(report, delete).len() == 1 + (if report.candidates@.len() > 20 {
            21int
        } else {
            report.candidates@.len() as int
        }) + (if delete || report.candidates@.len() > 0 {
            1int
        } else {
            0
        }),
        delete ==> sweep_lines(report, delete).last() == "deleted "@ + decimal(
            report.deleted as nat,
        ) + " objects"@,
{
}

/// Every violation is shown, in order; the invariants held only where there
/// was none.
pub proof fn law_violations_are_shown(report: ChaosReport, i: int)
    ensures
        0 <= i < report.violations@.len() ==> chaos_lines(report)[i + 5] == "    VIOLATION: "@
            + report.violations@[i]@,
        report.violations@.len() > 0 ==> chaos_lines(report).len() == 5 + report.violations@.len(),
        report.violations@.len() == 0 ==> chaos_lines(report).len() == 9,
{
}

} // verus!
