//! What errors say.
use comb::catalog::map_catalog_read_error;
use comb::chain::{commit_kind, load_commit_view, CommitKind, CommitObject};
use comb::commit::{CommitHeader, HEADER_SCHEMA};
use comb::digest::{Digest, DigestKey};
use comb::error::CoreError;
use comb::feed::{Cursor, InvalidReadLimit, Position, ReadError};
use comb::hamt::{
    admissions_size, check_node_size, map_node_load_err, validate_receipt, StableIndexRoot,
};
use comb::log::{check_payloads, found_manifest};
use comb::operation::{OperationId, StableKey};
use comb::plans::{reject_existing_log_manifest, TargetContent};
use comb::session::{failure_text, read_to_append, StableAppendError};
use comb::store::{Failure, KeyLayout, Store};
use comb::time::Timestamp;

fn digest() -> Digest {
    Digest::from_raw([0xab; 32])
}

fn name() -> String {
    format!("b3k:{}", "ab".repeat(32))
}

fn said<T>(r: Result<T, CoreError>) -> String {
    match r {
        Ok(_) => panic!("expected an error"),
        Err(e) => e.to_string(),
    }
}

#[test]
fn texts_of_digests_and_keys_are_refused_by_name() {
    let refused = said(Digest::parse("sha256:00"));
    assert_eq!(refused, "invalid format: digest must start with b3k: — got sha256:00");
    assert_eq!(said(Digest::parse("b3k:00")), "invalid format: malformed b3k digest: b3k:00");
    let upper = format!("b3k:{}", "AB".repeat(32));
    assert_eq!(said(Digest::parse(&upper)), format!("invalid format: malformed b3k digest: {upper}"));
    let odd = said(DigestKey::from_hex("abc").map(|k| k.to_hex()));
    assert_eq!(odd, "invalid format: digest key hex: Odd number of digits");
    let short = said(DigestKey::from_hex("abcd").map(|k| k.to_hex()));
    assert_eq!(short, "invalid format: digest key must be 32 bytes");
    assert_eq!(
        said(StableKey::from_hex("zz")),
        "invalid format: stable key hex: Invalid character 'z' at position 0"
    );
    assert_eq!(said(StableKey::from_hex("abc")), "invalid format: stable key hex must have even length");
    assert_eq!(said(StableKey::from_hex("")), "rejected: stable key must be 1..512 bytes");
    assert_eq!(said(StableKey::parse("ab")), "invalid format: stable key must start with sk_");
    assert_eq!(said(OperationId::parse("x")), "invalid format: operation id must start with op_");
    assert_eq!(
        said(OperationId::parse("op_0")),
        "invalid format: operation id body must be 39 Crockford characters"
    );
}

#[test]
fn payloads_are_refused_with_their_size() {
    assert_eq!(said(check_payloads(&[])), "rejected: empty append");
    let many = vec![vec![]; 2049];
    assert_eq!(said(check_payloads(&many)), "rejected: append of 2049 events exceeds 2048");
    let large = vec![vec![0u8; 300_000], vec![0u8; 300_000]];
    assert_eq!(said(check_payloads(&large)), "rejected: append of 600000 bytes exceeds 524288");
}

#[test]
fn index_faults_name_their_numbers() {
    let root = StableIndexRoot { schema: "v0".to_owned(), digest: digest(), entries: 0 };
    assert_eq!(said(root.validate()), "integrity error: unsupported stable index root schema v0");
    let at = |first, last, generation| said(validate_receipt(first, last, generation, 5, 9));
    assert_eq!(at(3, 2, 1), "integrity error: stable index leaf range 3..=2 is invalid");
    assert_eq!(at(1, 1, 0), "integrity error: stable index leaf generation must be > 0");
    assert_eq!(at(1, 1, 6), "integrity error: stable index leaf generation 6 is ahead of head 5");
    assert_eq!(at(1, 10, 5), "integrity error: stable index leaf last 10 is ahead of head_seq 9");
    assert!(validate_receipt(1, 9, 5, 5, 9).is_ok());
    let large = said(check_node_size(4097));
    assert_eq!(large, "rejected: stable index node encodes to 4097 bytes (max 4096)");
    assert_eq!(said(admissions_size(1025, 0)), "rejected: stable admissions 1025 exceed 1024");
    assert_eq!(
        said(admissions_size(1, 262_145)),
        "rejected: stable admissions encode to 262145 bytes (max 262144)"
    );
}

#[test]
fn failed_fetches_name_the_node() {
    let of = |e| map_node_load_err(&digest(), &e).to_string();
    let missing = of(CoreError::NotFound("k".to_owned()));
    assert_eq!(missing, format!("integrity error: stable index node {} is missing", name()));
    let io = of(CoreError::Io("eio".to_owned()));
    assert_eq!(io, format!("backend unavailable: stable index node {}: io: eio", name()));
    let other = of(CoreError::Rejected("no".to_owned()));
    assert!(other.contains("unclassified error loading stable index node"), "{other}");
    let of = |e| map_catalog_read_error(&digest(), &e).to_string();
    let missing = of(CoreError::NotFound("k".to_owned()));
    assert_eq!(missing, format!("integrity error: catalog node {} is missing", name()));
    let down = of(CoreError::BackendUnavailable("down".to_owned()));
    assert_eq!(down, format!("backend unavailable: catalog node {}: down", name()));
}

#[test]
fn commit_objects_are_told_apart_by_schema() {
    assert!(matches!(commit_kind(b"{"), CommitKind::NotJson { .. }));
    assert!(matches!(commit_kind(b"{} x"), CommitKind::NotJson { .. }));
    assert!(matches!(commit_kind(b"[]"), CommitKind::NoSchema));
    assert!(matches!(commit_kind(br#"{"schema":7}"#), CommitKind::NoSchema));
    assert!(matches!(commit_kind(br#"{"schema":"comb.commit/v1"}"#), CommitKind::Plain));
    let v2 = br#"{"schema":"comb.log.partition-manifest/v2","header":{}}"#;
    assert!(matches!(commit_kind(v2), CommitKind::Manifest));
    let v3 = br#"{"schema":"comb.log.partition-manifest/v3"}"#;
    assert!(matches!(commit_kind(v3), CommitKind::NoHeader));
    match commit_kind(br#"{"schema":"other"}"#) {
        CommitKind::Unknown { schema } => assert_eq!(schema, "other"),
        other => panic!("expected an unknown schema, got {other:?}"),
    }
}

#[test]
fn unreadable_commits_say_why() {
    let said = |object| said(load_commit_view(digest(), object));
    let label = "recovery evidence missing or malformed";
    assert_eq!(
        said(CommitObject::Unfit(CommitKind::NoSchema)),
        format!("{label}: object {} has no schema", name())
    );
    assert_eq!(
        said(CommitObject::Unfit(CommitKind::Unknown { schema: "s".to_owned() })),
        format!("{label}: object {} has unknown commit schema s", name())
    );
    assert_eq!(
        said(CommitObject::Unfit(CommitKind::NoHeader)),
        format!("{label}: manifest {} has no commit header", name())
    );
    assert_eq!(
        said(CommitObject::BadCommit { detail: "d".to_owned() }),
        format!("{label}: commit {} schema: d", name())
    );
    let failure = Failure::Core(CoreError::NotFound("k".to_owned()));
    assert_eq!(
        said(CommitObject::Unreadable(failure)),
        format!("{label}: commit {} unreadable: not found: k", name())
    );
    let header = |schema: &str| CommitHeader {
        schema: schema.to_owned(),
        resource: "r".to_owned(),
        generation: 1,
        epoch: 0,
        identity: OperationId::from_millis_and_entropy(5, [3; 18]).to_string(),
        request: digest(),
        parent: None,
        skip: None,
        at: Timestamp::epoch(),
    };
    let detail = "d".to_owned();
    assert_eq!(
        said(CommitObject::BadAdmitted { header: header(HEADER_SCHEMA), detail: detail.clone() }),
        format!("{label}: admitted in {}: d", name())
    );
    let both = said(CommitObject::BadRefState { header: header("h"), detail });
    assert!(!both.contains("ref_state"), "{both}");
}

#[test]
fn failures_of_the_store_say_why() {
    let text = |f| failure_text(&f);
    assert_eq!(text(Failure::NoSuchRef { name: "a".to_owned() }), "ref a does not exist");
    assert_eq!(text(Failure::NoLease { name: "a".to_owned() }), "ref a has no lease to renew");
    assert_eq!(
        text(Failure::DigestMismatch { digest: digest() }),
        format!("backend returned object whose digest does not match {}", name())
    );
    assert_eq!(
        text(Failure::PublicationNotConverged),
        "publication did not converge after 128 attempts"
    );
    let lost = Err(Failure::Core(CoreError::NotFound("k".to_owned())));
    assert_eq!(
        said(found_manifest(&digest(), "l", lost)),
        format!("recovery evidence missing or malformed: manifest {} unreadable: not found: k", name())
    );
    let torn = Err(Failure::Unreadable { detail: "eof".to_owned() });
    assert_eq!(
        said(found_manifest(&digest(), "l", torn)),
        format!("recovery evidence missing or malformed: manifest {}: eof", name())
    );
    let failure = Failure::NothingToCompact;
    let target = TargetContent::Unreadable { digest: digest(), failure };
    assert_eq!(
        said(reject_existing_log_manifest(&target)),
        format!(
            "rejected: core set-target cannot overwrite a ref whose target {} cannot be read: \
             nothing to compact",
            name()
        )
    );
}

#[test]
fn key_spaces_are_apart() {
    let v2 = Store::new("t", DigestKey::from_bytes([1; 32]));
    let v3 = Store::new("t", DigestKey::from_bytes([1; 32])).with_layout(KeyLayout::V3);
    assert_eq!(v2.ref_key("a"), "comb/v2/tenants/t/refs/a.json");
    assert_eq!(v3.ref_key("a"), "comb/v3/tenants/t/refs/a.json");
    assert_ne!(v2.object_key(&digest()), v3.object_key(&digest()));
    assert_ne!(v2.object_key(&digest()), v2.object_key(&Digest::from_raw([0xac; 32])));
    let refused = said(v2.reject_v1("a", Ok(true)));
    assert!(refused.starts_with("invalid format: comb/v1 ref a exists;"), "{refused}");
    assert!(v2.reject_v1("a", Ok(false)).is_ok());
}

#[test]
fn page_errors_are_shown_to_an_append() {
    let at = |next_seq: u64| Cursor { partition: 3, next_seq };
    let make: Vec<fn(Cursor, Cursor) -> ReadError> = vec![
        |a, b| ReadError::Trimmed { requested: a, resume_at: b },
        |a, b| ReadError::InvalidCursor { requested: a, next_at_head: b },
        |a, b| ReadError::EventTooLarge {
            cursor: a,
            position: Position { partition: a.partition, seq: b.next_seq },
            event_bytes: 70_000,
            max_bytes: 10,
        },
        |_, _| ReadError::InvalidLimit(InvalidReadLimit),
    ];
    for f in make {
        let want = format!("{:?}", f(at(7), at(19)));
        match read_to_append(f(at(7), at(19))) {
            StableAppendError::Integrity(e) => assert_eq!(e.0, want),
            other => panic!("expected {want}, got {other:?}"),
        }
    }
    assert!(matches!(
        read_to_append(ReadError::Unavailable { operation: "head" }),
        StableAppendError::Unavailable
    ));
}
