//! Backends: conditional writes, conformance, failpoints, faults and keys.
use std::cell::RefCell;

use comb::conformance::{
    conditional_update, create_on_existing_rejected, create_only, delete_removes, exists_accurate,
    limited_exact, limited_missing, one_winner, read_after_write, run, stale_rejected,
    update_of_missing_rejected, CheckResult,
};
use comb::error::{CoreError, EnvelopeFormatField, Result};
use comb::failpoint::{CountingBackend, FailAction, FailMethod, FailRule, FailpointBackend};
use comb::fault::FaultBackend;
use comb::object::{
    check_cas, check_key, check_read, full_key, listed_key, map_get_err, map_put_err,
    read_allowance, version_of, LocalBackend, MemoryBackend, Version,
};

#[test]
fn memory_backend_conforms() {
    let mut backend = MemoryBackend::new();
    let results = run(&mut backend, "conformance-test");
    assert_eq!(results.len(), 11);
    assert!(results.iter().all(|r| r.passed), "{results:#?}");
    assert!(backend.list("").is_empty());
    let details: Vec<&str> = results.iter().map(|r| r.detail.as_str()).collect();
    let listed = vec!["171"; 32].join(", ");
    let limited = format!(
        "exact=Ok(([{listed}], Version(\"1\"))) over=Err(ObjectTooLarge {{ key: \
         \"conformance-test/limited-exact\", limit: 31, actual: Some(32) }})"
    );
    assert_eq!(details[0], "first=Ok(\"ok\") second=Err(AlreadyExists(\"conformance-test/create-only\"))");
    assert_eq!(details[1], "Ok(11)");
    assert_eq!(details[2], "token_changed=true");
    assert_eq!(details[4], "Err(AlreadyExists(\"conformance-test/cas\"))");
    assert_eq!(details[6], "1/8 writes accepted");
    assert_eq!(details[7], "present=Ok(true) absent=Ok(false)");
    assert_eq!(details[8], "gone=Ok(false)");
    assert_eq!(details[9], limited);
    assert_eq!(details[10], "Err(NotFound(\"conformance-test/limited-missing\"))");
}

#[test]
fn errors_are_shown_with_their_parts() {
    let errors = vec![
        CoreError::NotFound("a \"b\"\n".to_owned()),
        CoreError::AlreadyExists("k".to_owned()),
        CoreError::PreconditionFailed("é\u{1}".to_owned()),
        CoreError::Fenced { caller: 1, live: 2 },
        CoreError::LeaseHeld { holder: "w".to_owned(), until: "t".to_owned() },
        CoreError::LeaseExpired,
        CoreError::BackendUnavailable("x".to_owned()),
        CoreError::IntegrityError("x".to_owned()),
        CoreError::Trimmed { resume_at: 7 },
        CoreError::InvalidFormat("x".to_owned()),
        CoreError::ObjectTooLarge { key: "k".to_owned(), limit: 3, actual: None },
        CoreError::UnsupportedEnvelopeFormat {
            field: EnvelopeFormatField::ObjectKind,
            value: "v".to_owned(),
        },
        CoreError::UnknownOperation { id: "i".to_owned(), expired_at: "t".to_owned() },
        CoreError::IdempotencyConflict {
            id: "i".to_owned(),
            original: "o".to_owned(),
            supplied: "s".to_owned(),
        },
        CoreError::RecoveryFailed("x".to_owned()),
        CoreError::Rejected("x".to_owned()),
        CoreError::StableKeyConflict { existing: "e".to_owned(), supplied: "s".to_owned() },
        CoreError::Io("x".to_owned()),
    ];
    for e in errors {
        assert_eq!(e.show(), format!("{e:?}"));
    }
}

type Read = Result<(Vec<u8>, Version)>;

/// The suite, driven through the calls of a wrapper.
fn drive(
    mut create: impl FnMut(&str, &[u8]) -> Result<Version>,
    mut update: impl FnMut(&str, Option<&Version>, &[u8]) -> Result<Version>,
    mut get: impl FnMut(&str) -> Read,
    mut get_limited: impl FnMut(&str, u64) -> Read,
    mut contains: impl FnMut(&str) -> Result<bool>,
    mut delete: impl FnMut(&str) -> Result<()>,
    prefix: &str,
) -> Vec<CheckResult> {
    let k = |name: &str| format!("{prefix}/{name}");
    let mut out = Vec::new();
    let first = create(&k("create-only"), b"a");
    let second = create(&k("create-only"), b"b");
    out.push(create_only(&first, &second));
    create(&k("raw"), b"payload-raw").ok();
    out.push(read_after_write(&get(&k("raw")), b"payload-raw"));
    let v1 = update(&k("cas"), None, b"g1");
    let v2 = update(&k("cas"), Some(v1.as_ref().unwrap()), b"g2");
    out.push(conditional_update(&v1, &v2));
    let stale = update(&k("cas"), Some(v1.as_ref().unwrap()), b"g3-stale");
    out.push(stale_rejected(&stale, &get(&k("cas")), b"g2"));
    out.push(create_on_existing_rejected(&update(&k("cas"), None, b"clobber")));
    let bogus = Version("bogus".to_owned());
    out.push(update_of_missing_rejected(&update(&k("missing"), Some(&bogus), b"x")));
    let base = update(&k("race"), None, b"base").unwrap();
    let mut winners = 0;
    for i in 0..8 {
        if update(&k("race"), Some(&base), format!("racer-{i}").as_bytes()).is_ok() {
            winners += 1;
        }
    }
    out.push(one_winner(Some(winners)));
    create(&k("exists"), b"x").ok();
    let present = contains(&k("exists"));
    let absent = contains(&k("never-written"));
    out.push(exists_accurate(&present, &absent));
    create(&k("delete"), b"x").ok();
    let d1 = delete(&k("delete"));
    let gone = contains(&k("delete"));
    let d2 = delete(&k("delete"));
    out.push(delete_removes(&d1, &gone, &d2));
    let body = vec![0xab; 32];
    create(&k("limited-exact"), &body).ok();
    let exact = get_limited(&k("limited-exact"), 32);
    let over = get_limited(&k("limited-exact"), 31);
    let full = get(&k("limited-exact"));
    out.push(limited_exact(&exact, &over, &full, &body));
    out.push(limited_missing(&get_limited(&k("limited-missing"), 8)));
    out
}

#[test]
fn wrappers_preserve_get_limited_cap_and_error_class() {
    let fault = RefCell::new(FaultBackend::new(MemoryBackend::new()));
    let results = drive(
        |k, b| fault.borrow_mut().put_create(k, b, false, false),
        |k, e, b| fault.borrow_mut().put_update(k, e, b, false, false),
        |k| fault.borrow_mut().get(k, false),
        |k, n| fault.borrow_mut().get_limited(k, n, false),
        |k| fault.borrow_mut().contains(k, false),
        |k| fault.borrow_mut().delete(k, false, false),
        "wrap-fault",
    );
    assert!(results.iter().all(|r| r.passed), "fault wrapper: {results:#?}");

    let fp = RefCell::new(FailpointBackend::new(MemoryBackend::new()));
    let results = drive(
        |k, b| fp.borrow_mut().put_create(k, b),
        |k, e, b| fp.borrow_mut().put_update(k, e, b),
        |k| fp.borrow_mut().get(k),
        |k, n| fp.borrow_mut().get_limited(k, n),
        |k| Ok(fp.borrow().contains(k)),
        |k| {
            fp.borrow_mut().delete(k);
            Ok(())
        },
        "wrap-failpoint",
    );
    assert!(results.iter().all(|r| r.passed), "failpoint wrapper: {results:#?}");

    let counting = RefCell::new(CountingBackend::new(MemoryBackend::new()));
    let results = drive(
        |k, b| counting.borrow_mut().put_create(k, b),
        |k, e, b| counting.borrow_mut().put_update(k, e, b),
        |k| counting.borrow_mut().get(k),
        |k, n| counting.borrow_mut().get_limited(k, n),
        |k| Ok(counting.borrow().contains(k)),
        |k| {
            counting.borrow_mut().delete(k);
            Ok(())
        },
        "wrap-counting",
    );
    assert!(results.iter().all(|r| r.passed), "counting wrapper: {results:#?}");
    assert_eq!(counting.borrow().get_count(), 6);
    assert_eq!(counting.borrow().put_creates, 6);
    assert_eq!(counting.borrow().put_updates, 14);
}

#[test]
fn a_broken_backend_does_not_conform() {
    // It forgets every write.
    let results = drive(
        |_, _| Ok(Version("1".to_owned())),
        |_, _, _| Ok(Version("1".to_owned())),
        |k| Err(CoreError::NotFound(k.to_owned())),
        |k, _| Err(CoreError::NotFound(k.to_owned())),
        |_| Ok(false),
        |_| Ok(()),
        "broken",
    );
    let passed: Vec<&str> = results.iter().filter(|r| r.passed).map(|r| r.name).collect();
    assert_eq!(
        passed,
        vec!["delete removes; idempotent on missing", "get_limited missing key is NotFound"]
    );
}

fn present() -> MemoryBackend {
    let mut mem = MemoryBackend::new();
    mem.put_create("k/present", b"abcd").unwrap();
    mem
}

#[test]
fn failpoint_get_limited_transient_is_not_not_found() {
    let mut fp = FailpointBackend::drop_next_get_limited_request(present(), "k/present");
    match fp.get_limited("k/present", 16) {
        Err(CoreError::BackendUnavailable(_)) => {}
        other => panic!("injected failure must not be NotFound, got {other:?}"),
    }
    match fp.get_limited("k/absent", 16) {
        Err(CoreError::NotFound(_)) => {}
        other => panic!("missing key must stay NotFound, got {other:?}"),
    }
    let mut io = FailpointBackend::io_on_next_get_limited(present(), "k/present");
    match io.get_limited("k/present", 16) {
        Err(CoreError::Io(_)) => {}
        other => panic!("injected io must stay Io, got {other:?}"),
    }
    assert_eq!(io.injected, 1);
    assert_eq!(io.get("k/present").unwrap().0, b"abcd");
}

#[test]
fn a_lost_response_was_committed() {
    let mut fp = FailpointBackend::drop_next_put_update_response(present(), "present");
    let (_, v) = fp.get("k/present").unwrap();
    match fp.put_update("k/present", Some(&v), b"new") {
        Err(CoreError::BackendUnavailable(m)) => {
            assert_eq!(m, "injected: put_update committed but response lost")
        }
        other => panic!("{other:?}"),
    }
    assert_eq!(fp.get("k/present").unwrap().0, b"new");
    let mut lost = FailpointBackend::drop_next_put_update_request(present(), "present");
    let (_, v) = lost.get("k/present").unwrap();
    assert!(lost.put_update("k/present", Some(&v), b"new").is_err());
    assert_eq!(lost.get("k/present").unwrap().0, b"abcd");
    assert!(lost.put_update("k/present", Some(&v), b"new").is_ok());
}

#[test]
fn rules_count_successes_and_fires() {
    let mut fp = FailpointBackend::new(MemoryBackend::new());
    fp.arm(FailRule {
        method: FailMethod::PutCreate,
        key_contains: "obj".to_owned(),
        successes_before_fire: 2,
        fires: 1,
        action: FailAction::DropResponse,
    });
    assert!(fp.put_create("obj/1", b"").is_ok());
    assert!(fp.put_create("other", b"").is_ok());
    assert!(fp.put_create("obj/2", b"").is_ok());
    assert!(matches!(fp.put_create("obj/3", b""), Err(CoreError::BackendUnavailable(_))));
    assert!(fp.contains("obj/3"));
    assert!(fp.put_create("obj/4", b"").is_ok());
    assert_eq!(fp.injected, 1);
    assert_eq!(fp.list("obj/").len(), 4);
    fp.delete("obj/1");
    assert!(!fp.contains("obj/1"));
    assert_eq!(fp.into_inner().list("obj/").len(), 3);
}

#[test]
fn faults_lose_requests_and_answers() {
    let mut f = FaultBackend::new(MemoryBackend::new());
    match f.put_create("k", b"x", true, false) {
        Err(CoreError::BackendUnavailable(m)) => {
            assert_eq!(m, "injected: put_create request lost before backend")
        }
        other => panic!("{other:?}"),
    }
    assert_eq!(f.contains("k", false).unwrap(), false);
    assert!(f.put_create("k", b"x", false, true).is_err());
    assert_eq!(f.contains("k", false).unwrap(), true);
    assert!(f.delete("k", false, true).is_err());
    assert_eq!(f.contains("k", false).unwrap(), false);
    assert!(f.list("", true).is_err());
    assert_eq!((f.injected_before, f.injected_after), (2, 2));
    assert!(f.inner().list("").is_empty());
}

#[test]
fn conditional_writes_follow_the_version() {
    let one = Version("1".to_owned());
    let two = Version("2".to_owned());
    assert!(check_cas("k", None, None).is_ok());
    assert!(check_cas("k", Some(&one), Some(&one)).is_ok());
    assert!(matches!(check_cas("k", Some(&one), None), Err(CoreError::AlreadyExists(k)) if k == "k"));
    assert!(matches!(check_cas("k", None, Some(&one)),
        Err(CoreError::PreconditionFailed(m)) if m == "k: gone"));
    assert!(matches!(check_cas("k", Some(&two), Some(&one)),
        Err(CoreError::PreconditionFailed(m)) if m == "k: expected version 1, live 2"));
}

#[test]
fn memory_objects_are_listed_and_removed() {
    let mut mem = MemoryBackend::new();
    mem.put_create("a/1", b"x").unwrap();
    mem.put_create("a/2", b"y").unwrap();
    mem.put_create("b/1", b"z").unwrap();
    let mut keys: Vec<String> = mem.list("a/").into_iter().map(|o| o.key).collect();
    keys.sort();
    assert_eq!(keys, vec!["a/1", "a/2"]);
    assert!(matches!(mem.put_create("a/1", b"again"), Err(CoreError::AlreadyExists(_))));
    mem.delete("a/1");
    mem.delete("a/1");
    assert!(!mem.contains("a/1"));
    assert!(matches!(mem.get("a/1"), Err(CoreError::NotFound(_))));
    assert!(matches!(mem.get_limited("a/2", 0),
        Err(CoreError::ObjectTooLarge { limit: 0, actual: Some(1), .. })));
}

#[test]
fn keys_stay_below_the_root() {
    assert!(check_key("t/objects/aa/x").is_ok());
    for bad in ["", "/", "a//b", "../a", "a/..", "a/", "/a"] {
        assert!(matches!(check_key(bad), Err(CoreError::InvalidFormat(_))), "{bad}");
    }
    assert!(check_key("a/...").is_ok());
    let local = LocalBackend::new("/srv/comb");
    assert_eq!(local.path_for("t/x").unwrap(), "/srv/comb/t/x");
    assert_eq!(LocalBackend::new("/srv/").path_for("x").unwrap(), "/srv/x");
    assert_eq!(LocalBackend::new("").path_for("x").unwrap(), "x");
    assert!(local.path_for("../x").is_err());
}

#[test]
fn file_versions_are_unkeyed_blake3() {
    assert_eq!(version_of(b"abc").0, blake3::hash(b"abc").to_hex().to_string());
    assert_ne!(version_of(b"abc"), version_of(b"abd"));
}

#[test]
fn bucket_keys_roundtrip() {
    assert_eq!(full_key("", "a/b"), "a/b");
    assert_eq!(full_key("p", "a/b"), "p/a/b");
    assert_eq!(listed_key("p", "p/a/b"), "a/b");
    assert_eq!(listed_key("", "a/b"), "a/b");
}

#[test]
fn statuses_become_errors() {
    assert!(matches!(map_put_err("k", Some(412), "PreconditionFailed", true, ""),
        CoreError::AlreadyExists(_)));
    assert!(matches!(map_put_err("k", Some(412), "PreconditionFailed", false, ""),
        CoreError::PreconditionFailed(_)));
    assert!(matches!(map_put_err("k", Some(503), "SlowDown", false, ""),
        CoreError::BackendUnavailable(_)));
    assert!(matches!(map_get_err("k", Some(404), "NoSuchKey", ""), CoreError::NotFound(_)));
    assert!(matches!(map_get_err("k", Some(500), "InternalError", ""),
        CoreError::BackendUnavailable(_)));
}

#[test]
fn bounded_reads_stop_at_the_limit() {
    assert!(matches!(read_allowance("k", 10, Some(11)),
        Err(CoreError::ObjectTooLarge { limit: 10, actual: Some(11), .. })));
    assert!(read_allowance("k", 10, Some(10)).is_ok());
    assert!(check_read("k", 10, 10).is_ok());
    assert!(matches!(check_read("k", 10, 11), Err(CoreError::ObjectTooLarge { limit: 10, .. })));
}

#[test]
fn a_dropped_request_waits_for_its_turn() {
    let mut fp = FailpointBackend::new(MemoryBackend::new());
    fp.arm(FailRule {
        method: FailMethod::PutCreate,
        key_contains: "k".to_owned(),
        successes_before_fire: 1,
        fires: 1,
        action: FailAction::DropRequest,
    });
    assert!(fp.put_create("k1", b"").is_ok());
    assert!(matches!(fp.put_create("k2", b""), Err(CoreError::BackendUnavailable(_))));
    assert!(!fp.contains("k2"));
    assert!(fp.put_create("k2", b"").is_ok());
    assert_eq!(fp.injected, 1);
}
