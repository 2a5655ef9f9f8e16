//! What the command line says.
use comb::bridge::handler::bridge_writer;
use comb::chaos::ChaosReport;
use comb::commit::HistoryEntry;
use comb::config::{choose_backend, new_config, BackendChoice};
use comb::conformance::CheckResult;
use comb::digest::{Digest, DigestKey};
use comb::log::{AppendRange, Appended, Frame, StableAppendReceipt};
use comb::refs::Lease;
use comb::report;
use comb::store::GetSource;
use comb::sweep::SweepReport;
use comb::time::Timestamp;

fn zero() -> Digest {
    Digest::parse(&format!("b3k:{}", "0".repeat(64))).unwrap()
}

// 2026-07-04T05:06:07.089Z
fn moment() -> Timestamp {
    Timestamp::from_millis(1_783_141_567_089).unwrap()
}

#[test]
fn a_moment_is_written_as_the_pattern_says() {
    assert_eq!(moment().clock_text(), "05:06:07");
    assert_eq!(moment().fine_clock_text(), "05:06:07.089");
    assert_eq!(moment().calendar_text(), "2026-07-04 05:06:07");
    assert_eq!(moment().stamp_text(), "20260704T050607");
    let before = Timestamp::from_millis(-1).unwrap();
    assert_eq!(before.fine_clock_text(), "23:59:59.999");
}

#[test]
fn columns_are_padded_and_never_cut() {
    assert_eq!(report::left("ab", 4), "ab  ");
    assert_eq!(report::right("ab", 4), "  ab");
    assert_eq!(report::left("äbcde", 4), "äbcde");
    assert_eq!(report::right("", 2), "  ");
}

#[test]
fn blobs_are_reported() {
    assert_eq!(report::stored(3, false), "3 bytes stored");
    assert_eq!(report::stored(3, true), "3 bytes stored (already present — deduplicated)");
    assert_eq!(
        report::written(7, "out.bin", GetSource::Cache),
        "7 bytes written to out.bin (from cache)"
    );
    assert_eq!(
        report::written(7, "out.bin", GetSource::Backend),
        "7 bytes written to out.bin (from backend)"
    );
    let text = zero().to_string();
    assert_eq!(report::verified(&zero(), 12), format!("ok: {text} verified (12 bytes)"));
}

#[test]
fn refs_are_reported() {
    let text = zero().to_string();
    assert_eq!(
        report::target_set("cfg", &zero(), 4, 2, true),
        format!("cfg -> {text} (generation 4, epoch 2, first true)")
    );
    let lease = Lease { writer: "w".to_owned(), lease_until: moment() };
    assert_eq!(
        report::claimed("cfg", &lease, 9),
        "claimed cfg as w — fence 9 (lease until 05:06:07)"
    );
    assert_eq!(
        report::renewed("cfg", &moment(), 3),
        "renewed cfg until 05:06:07 (generation unchanged: 3)"
    );
    assert_eq!(report::released("cfg", 5), "released cfg (generation 5)");
}

#[test]
fn a_history_has_a_line_for_each_commit() {
    assert_eq!(report::history("cfg", &vec![]), vec!["no commit history for cfg".to_owned()]);
    let entry = HistoryEntry {
        generation: 12,
        epoch: 3,
        identity: "op:1".to_owned(),
        request: zero(),
        target: None,
        at: moment(),
        commit: zero(),
    };
    let text = zero().to_string();
    assert_eq!(
        report::history("cfg", &vec![entry]),
        vec![format!("gen   12  epoch   3  2026-07-04 05:06:07  op:1  {text}")]
    );
}

#[test]
fn appends_are_checked_and_reported() {
    assert_eq!(report::check_append(0, true), Err("nothing to append".to_owned()));
    let one = Err("stable append takes exactly one payload".to_owned());
    assert_eq!(report::check_append(2, true), one);
    assert_eq!(report::check_append(2, false), Ok(()));
    assert_eq!(report::check_append(1, true), Ok(()));
    let a = Appended { first: 5, last: 7, generation: 2, first_delivery: true };
    assert_eq!(report::appended(&a, "cli"), "appended seq 5..7 (3 events) as cli generation 2");
    let receipt = StableAppendReceipt {
        payload_hash: zero(),
        range: AppendRange { first: 8, last: 8 },
        generation: 3,
    };
    assert_eq!(report::stable_appended(&receipt), "stable appended seq 8..8 generation 3");
}

#[test]
fn logs_are_reported() {
    let frame = Frame { seq: 41, at: moment(), payload: b"hello".to_vec() };
    assert_eq!(report::event(&frame), "    41  05:06:07.089  hello");
    let odd = Frame { seq: 1_000_000, at: moment(), payload: vec![0x61, 0xff] };
    assert_eq!(report::event(&odd), "1000000  05:06:07.089  a\u{fffd}");
    assert_eq!(report::status("l", None), "log l does not exist");
    assert_eq!(report::stolen("w", 4), "leadership taken by w at epoch 4");
    assert_eq!(report::compacted(0), "nothing to compact (fewer than 2 WAL chunks)");
    assert_eq!(
        report::compacted(5),
        "compacted 5 chunks into 1 segment; contents unchanged; old chunks are now orphans"
    );
    assert_eq!(report::trimmed(6), "retention floor is now 6; reads resume at 7");
}

#[test]
fn a_sweep_names_the_first_candidates() {
    let mut found = SweepReport {
        refs_scanned: 1,
        objects_scanned: 30,
        reachable: 4,
        in_grace: 5,
        candidates: vec![],
        deleted: 0,
    };
    assert_eq!(
        report::swept(&found, false),
        vec!["refs 1  objects 30  reachable 4  in-grace 5  candidates 0".to_owned()]
    );
    for i in 0..21 {
        found.candidates.push(format!("comb/v2/tenants/t/objects/0123456789abcdef{i:02}"));
    }
    let lines = report::swept(&found, false);
    assert_eq!(lines.len(), 23);
    assert_eq!(lines[1], "  orphan: ...jects/0123456789abcdef00");
    assert_eq!(lines[21], "  ... and 1 more");
    assert_eq!(lines[22], "dry-run: pass --yes to delete");
    found.deleted = 21;
    assert_eq!(report::swept(&found, true)[22], "deleted 21 objects");
}

#[test]
fn a_backend_conforms_if_every_check_passed() {
    let prefix = report::conformance_prefix("t", &moment());
    assert_eq!(prefix, "comb/v1/tenants/t/conformance/20260704T050607");
    let check = |passed| CheckResult { name: "exists is accurate", passed, detail: "d".to_owned() };
    let (lines, conforms) = report::judged_backend(&vec![check(true)]);
    assert!(conforms);
    let padded = format!("exists is accurate{}", " ".repeat(27));
    assert_eq!(lines[0], format!("  PASS  {padded} "));
    assert_eq!(lines[1..], ["".to_owned(), "backend CONFORMS (1 checks)".to_owned()]);
    let (lines, conforms) = report::judged_backend(&vec![check(true), check(false)]);
    assert!(!conforms);
    assert_eq!(lines[1], format!("  FAIL  {padded} d"));
    assert_eq!(lines[3], "backend DOES NOT CONFORM: 1/2 checks failed");
    assert_eq!(lines[4], "this backend MUST NOT be used as an authoritative Comb backend");
}

#[test]
fn a_chaos_run_is_reported() {
    let mut run = ChaosReport {
        iterations: 9,
        acked: 5,
        clean_failures: 2,
        injected_faults: 7,
        ambiguous_acks: 1,
        violations: vec![],
    };
    let lines = report::shaken(&run);
    assert_eq!(lines.len(), 9);
    assert_eq!(lines[0], "  operations acked      5");
    assert_eq!(lines[4], "  invariant violations  0");
    assert_eq!(lines[8], "journal chain intact and digest-verified.");
    run.violations.push("epoch fell".to_owned());
    let lines = report::shaken(&run);
    assert_eq!(lines.len(), 6);
    assert_eq!(lines[5], "    VIOLATION: epoch fell");
}

#[test]
fn a_fresh_config_has_a_fresh_key() {
    let backend = || {
        let choice = BackendChoice {
            root: Some("r".to_owned()),
            bucket: None,
            region: None,
            profile: None,
            prefix: "comb".to_owned(),
            endpoint: None,
        };
        choose_backend("local", choice).unwrap()
    };
    let a = new_config("t".to_owned(), backend());
    let b = new_config("t".to_owned(), backend());
    assert_eq!(a.tenant, "t");
    assert_eq!(a.digest_key.len(), 64);
    assert_ne!(a.digest_key, b.digest_key);
    assert_eq!(DigestKey::from_hex(&a.digest_key).unwrap().to_hex(), a.digest_key);
}

#[test]
fn a_bridge_needs_a_writer_and_a_lease() {
    let empty = Err("--writer must not be empty".to_owned());
    assert_eq!(bridge_writer(Some(String::new()), 0), empty);
    assert_eq!(bridge_writer(None, 0), Err("--lease must be positive".to_owned()));
    assert_eq!(bridge_writer(Some("w".to_owned()), 60), Ok("w".to_owned()));
    assert!(bridge_writer(None, 60).unwrap().starts_with("comb-bridge-"));
}
