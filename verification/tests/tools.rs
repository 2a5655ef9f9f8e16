//! The sweep, the judgement of chaos runs, and configuration.
use comb::chaos::{is_fenced, pick_op, ChaosOp, ChaosReport, Committed};
use comb::config::{
    choose_backend, config_dir, default_prefix, existing_config, missing_config, BackendChoice,
    BackendConfig,
};
use comb::digest::{Digest, DigestKey};
use comb::error::CoreError;
use comb::json::{parse, Json};
use comb::object::ObjectInfo;
use comb::refs::RefValue;
use comb::store::Failure;
use comb::sweep::{
    cutoff, digests_in, earlier_prefix, object_prefix, root_prefixes, Sweep, SweepFault,
};
use comb::text::{contains_text, join_texts, sort_texts};
use comb::time::Timestamp;

fn digest(n: u8) -> Digest {
    DigestKey::from_bytes([1u8; 32]).digest(&[n])
}

#[test]
fn digests_are_found_in_values() {
    let text = format!(r#"{{"a":"{}","b":[{{"c":"{}"}},7,null,"b3k:no"],"d":true}}"#, digest2(1), digest2(2));
    let value: Json = parse(text.as_bytes()).unwrap();
    let mut out = vec![digest(9)];
    digests_in(&value, &mut out);
    assert_eq!(out, vec![digest(9), digest(1), digest(2)]);
}

fn digest2(n: u8) -> String {
    digest(n).to_string()
}

// Digests are written by name.
fn naming(ds: &[u8]) -> Vec<u8> {
    let names: Vec<String> = ds.iter().map(|n| format!("\"{}\"", digest(*n).to_string())).collect();
    format!("[{}]", names.join(",")).into_bytes()
}

fn object(n: u8, modified: Timestamp) -> ObjectInfo {
    let d = digest(n);
    ObjectInfo {
        key: format!("{}{}/{}", object_prefix("org"), d.key_prefix(), d.hex()),
        modified,
    }
}

#[test]
fn a_sweep_finds_what_nothing_names() {
    let mut s = Sweep::begin("org", false, false).unwrap();
    s.on_root("refs/a", Ok(naming(&[1, 2, 1]))).unwrap();
    s.on_root("ops/b", Ok(naming(&[8]))).unwrap();
    let mut looked = Vec::new();
    while let Some(d) = s.next() {
        looked.push(d);
        let read = if d == digest(1) {
            Ok(naming(&[3, 2]))
        } else if d == digest(3) {
            Ok(naming(&[1]))
        } else if d == digest(8) {
            Err(Failure::Core(CoreError::NotFound("fingerprint".to_owned())))
        } else {
            Ok(b"not json".to_vec())
        };
        s.on_object(d, read).unwrap();
    }
    assert_eq!(looked, vec![digest(1), digest(2), digest(8), digest(3)]);
    let now = Timestamp::now();
    let limit = cutoff(now, 60).unwrap();
    let old = Timestamp::epoch();
    let objects = vec![object(1, old), object(2, old), object(3, old), object(4, old), object(5, now)];
    let report = s.report(&objects, limit);
    assert_eq!(report.refs_scanned, 2);
    assert_eq!(report.objects_scanned, 5);
    assert_eq!(report.reachable, 4);
    assert_eq!(report.in_grace, 1);
    assert_eq!(report.candidates, vec![objects[3].key.clone()]);
    assert_eq!(report.deleted, 0);
}

#[test]
fn a_sweep_ends_where_it_cannot_see() {
    assert!(matches!(Sweep::begin("org", true, false), Err(SweepFault::DeleteDisabled)));
    match Sweep::begin("org", false, true) {
        Err(e) => assert_eq!(e.to_string(), "comb/v1 keys exist for tenant org; this process uses comb/v2 only"),
        Ok(_) => panic!("begun"),
    }
    let mut s = Sweep::begin("org", false, false).unwrap();
    let gone = s.on_root("refs/a", Err(CoreError::NotFound("refs/a".to_owned()))).unwrap_err();
    assert_eq!(gone.to_string(), "sweep aborted: unreadable root refs/a: not found: refs/a");
    assert!(matches!(s.on_root("refs/a", Ok(b"{".to_vec())), Err(SweepFault::MalformedRoot { .. })));
    s.on_root("refs/a", Ok(naming(&[1]))).unwrap();
    let d = s.next().unwrap();
    let down = Failure::Core(CoreError::BackendUnavailable("x".to_owned()));
    assert!(matches!(s.on_object(d, Err(down)), Err(SweepFault::MissingObject { .. })));
    assert_eq!(earlier_prefix("org"), "comb/v1/tenants/org/");
    assert_eq!(root_prefixes("org"), vec![
        "comb/v2/tenants/org/refs/",
        "comb/v2/tenants/org/ops/",
        "comb/v2/tenants/org/stable/",
    ]);
    assert!(cutoff(Timestamp::epoch(), i64::MAX).is_none());
}

fn value(generation: u64, epoch: u64) -> RefValue {
    let mut v = RefValue::new("org", "chaos/main", Timestamp::epoch());
    v.generation = generation;
    v.epoch = epoch;
    v
}

#[test]
fn chaos_is_judged() {
    assert_eq!(pick_op(0, 3, true), ChaosOp::SetTarget { fence: Some(3) });
    assert_eq!(pick_op(1, 3, false), ChaosOp::SetTarget { fence: None });
    assert_eq!(pick_op(2, 0, false), ChaosOp::Claim);
    assert_eq!(pick_op(3, 0, false), ChaosOp::Steal);
    assert_eq!(pick_op(4, 5, true), ChaosOp::Release { epoch: 5 });
    assert_eq!(pick_op(4, 5, false), ChaosOp::Idle);
    assert_eq!(pick_op(5, 0, false), ChaosOp::Idle);
    let stale = pick_op(5, 4, false);
    assert_eq!(stale, ChaosOp::StaleFence { fence: 3, live: 4 });

    let mut report = ChaosReport::new(10);
    let fenced = Failure::Core(CoreError::Fenced { caller: 3, live: 4 });
    assert!(is_fenced(&fenced));
    assert!(!report.note_outcome(0, stale, &Err(fenced)));
    let injected = Failure::Core(CoreError::BackendUnavailable("injected: get request lost".to_owned()));
    assert!(report.note_outcome(1, ChaosOp::Claim, &Err(injected)));
    let held = Failure::Core(CoreError::LeaseHeld { holder: "w".to_owned(), until: "t".to_owned() });
    assert!(!report.note_outcome(2, ChaosOp::Claim, &Err(held)));
    assert_eq!((report.acked, report.clean_failures), (1, 1));
    assert!(!report.note_outcome(3, stale, &Ok(())));
    assert_eq!(report.violations, vec!["iter 3: stale fence 3 accepted at live epoch 4"]);

    let none = Committed { generation: 0, epoch: 0 };
    let seen = report.note_state(4, none, &Ok(Some(value(5, 2))), true);
    assert_eq!(seen, Committed { generation: 5, epoch: 2 });
    assert_eq!(report.ambiguous_acks, 1);
    report.note_state(5, seen, &Ok(Some(value(4, 1))), false);
    report.note_state(6, seen, &Ok(None), false);
    report.note_state(7, seen, &Err(Failure::Core(CoreError::NotFound("r".to_owned()))), false);
    assert_eq!(&report.violations[1..], &[
        "iter 5: generation went backwards 5 -> 4",
        "iter 5: epoch went backwards 2 -> 1",
        "iter 6: committed ref disappeared",
        "iter 7: committed ref unreadable: not found: r",
    ]);
    let before = report.violations.len();
    report.audit(&Ok(vec![9, 5, 2]));
    assert_eq!(report.violations.len(), before);
    report.audit(&Ok(vec![5, 5]));
    assert_eq!(report.violations.last().unwrap(),
        "commit chain: generations not strictly decreasing from head (5 then 5)");
    report.audit(&Err(Failure::PublicationNotConverged));
    assert!(report.violations.last().unwrap().starts_with("journal walk failed: "));
}

fn choice() -> BackendChoice {
    BackendChoice {
        root: None,
        bucket: Some("b".to_owned()),
        region: Some("r".to_owned()),
        profile: None,
        prefix: default_prefix(),
        endpoint: None,
    }
}

#[test]
fn backends_are_chosen() {
    match choose_backend("s3", choice()).unwrap() {
        BackendConfig::S3 { bucket, region, prefix, .. } => {
            assert_eq!((bucket.as_str(), region.as_str(), prefix.as_str()), ("b", "r", "comb"))
        }
        other => panic!("{other:?}"),
    }
    assert_eq!(choose_backend("local", choice()).unwrap_err(), "--root is required for local backend");
    let no_bucket = BackendChoice { bucket: None, ..choice() };
    assert_eq!(choose_backend("s3", no_bucket).unwrap_err(), "--bucket is required for s3 backend");
    let no_region = BackendChoice { region: None, ..choice() };
    assert_eq!(choose_backend("s3", no_region).unwrap_err(), "--region is required for s3 backend");
    assert_eq!(choose_backend("tape", choice()).unwrap_err(), "unknown backend kind: tape");
    let local = BackendChoice { root: Some("/srv".to_owned()), ..choice() };
    assert!(matches!(choose_backend("local", local).unwrap(), BackendConfig::Local { root } if root == "/srv"));
    assert_eq!(config_dir(None), ".comb");
    assert_eq!(config_dir(Some("x")), "x");
    assert!(missing_config("p").starts_with("no Comb config at p"));
    assert!(existing_config("p").starts_with("p already exists"));
}

#[test]
fn texts_are_sorted_and_joined() {
    let texts: Vec<String> = ["b", "", "ab", "a", "é", "b"].iter().map(|s| s.to_string()).collect();
    let mut expected = texts.clone();
    expected.sort();
    let sorted = sort_texts(&texts);
    assert_eq!(sorted, expected);
    assert_eq!(join_texts(&sorted, "; "), expected.join("; "));
    assert_eq!(join_texts(&vec![], "; "), "");
    assert!(contains_text("abcd", "bc"));
    assert!(contains_text("abcd", ""));
    assert!(!contains_text("abcd", "ca"));
    assert!(!contains_text("a", "ab"));
}
