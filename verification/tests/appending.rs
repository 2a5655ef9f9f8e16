//! Appends under a stable key, step by step.
use comb::appending::{
    Acquisition, LeasePhase, LogAppend, LogAppendPhase, SessionAppend, SessionAppendPhase,
};
use comb::digest::{Digest, DigestKey};
use comb::error::CoreError;
use comb::group::{settle_refused, settle_unread, StableCommit, Submission, MAX_STABLE_ATTEMPTS};
use comb::hamt::{Lookup, StableIndexEntry};
use comb::log::FeedMode;
use comb::operation::{OpIdentity, StableKey};
use comb::refs::{Lease, RefValue};
use comb::session::{
    LeaseError, LeasePolicy, SessionCommit, SessionLoss, StableAppendError, Terminal, WriterLabel,
    WriterSession, WriterState, MAX_SESSION_ATTEMPTS,
};
use comb::store::Failure;
use comb::time::Timestamp;

fn hash(text: &[u8]) -> Digest {
    DigestKey::from_bytes([4u8; 32]).digest(text)
}

fn found(payload_hash: Digest) -> Lookup {
    Lookup::Found(StableIndexEntry {
        key: StableKey::try_from_canonical(b"k".to_vec()).unwrap(),
        payload_hash,
        first: 5,
        last: 5,
        generation: 3,
    })
}

fn session() -> WriterSession {
    let label = WriterLabel::try_from("bridge").unwrap();
    WriterSession::new(label, LeasePolicy::bridge_default()).unwrap()
}

/// A head under which the session holds the lease.
fn owned(session: &WriterSession, epoch: u64, now: Timestamp) -> RefValue {
    let mut value = RefValue::new("org", "log/a/p0", now);
    value.epoch = epoch;
    value.generation = 7;
    value.lease = Some(Lease {
        writer: session.instance.canonical(),
        lease_until: now.plus(20_000_000_000),
    });
    value
}

#[test]
fn a_log_append_publishes_only_absent_keys() {
    let payload = b"bytes".to_vec();
    assert!(matches!(LogAppend::new(FeedMode::Trimmable, &payload, hash(b"h")), Err(CoreError::Rejected(_))));
    assert!(matches!(LogAppend::new(FeedMode::Complete, &Vec::new(), hash(b"h")), Err(CoreError::Rejected(_))));

    let mut known = LogAppend::new(FeedMode::Complete, &payload, hash(b"h")).unwrap();
    let receipt = known.on_lookup(&found(hash(b"h"))).unwrap().unwrap();
    assert_eq!((receipt.range.first, receipt.generation), (5, 3));
    assert_eq!(known.phase, LogAppendPhase::Done);

    let mut taken = LogAppend::new(FeedMode::Complete, &payload, hash(b"h")).unwrap();
    assert!(matches!(taken.on_lookup(&found(hash(b"other"))), Err(CoreError::StableKeyConflict { .. })));

    let mut new = LogAppend::new(FeedMode::Complete, &payload, hash(b"h")).unwrap();
    assert_eq!(new.on_lookup(&Lookup::Absent).unwrap(), None);
    assert_eq!(new.phase, LogAppendPhase::Commit);
    let lost = CoreError::BackendUnavailable("lost".to_owned());
    assert!(!new.on_commit(StableCommit::Failed(Failure::Core(lost))).unwrap());
    assert_eq!(new.phase, LogAppendPhase::Lookup);
    new.on_lookup(&Lookup::Absent).unwrap();
    assert!(!new.on_commit(StableCommit::Conflict).unwrap());
    new.on_lookup(&Lookup::Absent).unwrap();
    assert!(new.on_commit(StableCommit::Committed).unwrap());
    assert_eq!(new.phase, LogAppendPhase::Done);
}

#[test]
fn a_log_append_gives_up() {
    let mut a = LogAppend::new(FeedMode::Complete, &b"x".to_vec(), hash(b"h")).unwrap();
    for _ in 1..MAX_STABLE_ATTEMPTS {
        a.on_lookup(&Lookup::Absent).unwrap();
        assert!(!a.on_commit(StableCommit::Conflict).unwrap());
    }
    a.on_lookup(&Lookup::Absent).unwrap();
    assert!(matches!(a.on_commit(StableCommit::Conflict), Err(Failure::AppendNotConverged)));

    let mut b = LogAppend::new(FeedMode::Complete, &b"x".to_vec(), hash(b"h")).unwrap();
    b.on_lookup(&Lookup::Absent).unwrap();
    let refused = CoreError::Rejected("no".to_owned());
    assert!(matches!(b.on_commit(StableCommit::Failed(Failure::Core(refused))), Err(Failure::Core(CoreError::Rejected(_)))));
}

#[test]
fn a_lease_is_waited_for_and_confirmed() {
    let now = Timestamp::now();
    let mut s = session();
    let mut a = match Acquisition::begin(&mut s, now).unwrap() {
        Err(a) => a,
        Ok(epoch) => panic!("active under {epoch}"),
    };
    assert!(matches!(s.state, WriterState::Acquiring { .. }));
    let other = session();
    let until = now.plus(1_000_000_000);
    let held = CoreError::LeaseHeld { holder: other.instance.canonical(), until: until.to_rfc3339() };
    a.on_claim(Err(Failure::Core(held))).unwrap();
    assert_eq!(a.phase, LeasePhase::Wait { owner: other.instance, until });
    a.on_wait(false).unwrap();
    assert_eq!(a.phase, LeasePhase::Claim);
    a.on_claim(Ok(4)).unwrap();
    assert_eq!(a.phase, LeasePhase::Confirm { epoch: 4 });
    let head = owned(&s, 4, now);
    assert_eq!(a.on_head(&mut s, Some(&head)).unwrap(), 4);
    assert!(matches!(s.state, WriterState::Active { epoch: 4, .. }));
    assert!(matches!(Acquisition::begin(&mut s, now), Ok(Ok(4))));
    let late = now.plus(19_000_000_000);
    match Acquisition::begin(&mut s, late) {
        Err(LeaseError::ReacquireRequired { cause }) => assert_eq!(cause, SessionLoss::LeaseExpired),
        other => panic!("{other:?}"),
    }
}

#[test]
fn a_lease_that_is_held_too_long_is_reported() {
    let now = Timestamp::now();
    let mut s = session();
    let other = session();
    let mut a = Acquisition::begin(&mut s, now).unwrap().unwrap_err();
    let held = CoreError::LeaseHeld { holder: other.instance.canonical(), until: now.to_rfc3339() };
    a.on_claim(Err(Failure::Core(held))).unwrap();
    match a.on_wait(true) {
        Err(LeaseError::LeaseHeld { owner, until }) => assert_eq!((owner, until), (other.instance, now)),
        other => panic!("{other:?}"),
    }
    let mut b = Acquisition { phase: LeasePhase::Claim };
    let fenced = CoreError::Fenced { caller: 1, live: 2 };
    assert!(matches!(b.on_claim(Err(Failure::Core(fenced))), Err(LeaseError::Fenced { session_epoch: 1, live_epoch: 2 })));
    let mut c = Acquisition { phase: LeasePhase::Confirm { epoch: 4 } };
    let stolen = owned(&other, 4, now);
    assert!(matches!(c.on_head(&mut s, Some(&stolen)), Err(LeaseError::ReacquireRequired { .. })));
    assert!(s.lost);
}

#[test]
fn a_session_append_takes_its_steps_in_order() {
    let now = Timestamp::now();
    let mut s = session();
    let mut a = SessionAppend::new(&b"bytes".to_vec(), hash(b"h"), None).unwrap();
    for round in 0..2 {
        assert_eq!((a.phase, a.attempts), (SessionAppendPhase::Lookup, round));
        assert_eq!(a.on_lookup(&Lookup::Absent).unwrap(), None);
        a.on_acquired(Ok(6)).unwrap();
        let head = owned(&s, 6, now);
        a.on_head(&mut s, Some(&head), now).unwrap();
        assert_eq!(a.on_lookup(&Lookup::Absent).unwrap(), None);
        assert_eq!(a.phase, SessionAppendPhase::Commit { epoch: 6 });
        if round == 0 {
            assert!(!a.on_commit(&mut s, SessionCommit::Conflict, None).unwrap());
        }
    }
    assert!(a.on_commit(&mut s, SessionCommit::Committed, None).unwrap());
    assert_eq!(a.phase, SessionAppendPhase::Done);

    let mut late = SessionAppend::new(&b"bytes".to_vec(), hash(b"h"), None).unwrap();
    late.on_lookup(&Lookup::Absent).unwrap();
    late.on_acquired(Ok(6)).unwrap();
    let head = owned(&s, 6, now);
    late.on_head(&mut s, Some(&head), now).unwrap();
    let receipt = late.on_lookup(&found(hash(b"h"))).unwrap().unwrap();
    assert_eq!((receipt.range.last, receipt.payload_hash), (5, hash(b"h")));
}

#[test]
fn an_event_appended_twice_is_appended_once() {
    let payload = b"bytes".to_vec();
    let mut again = SessionAppend::new(&payload, hash(b"h"), None).unwrap();
    let receipt = again.on_lookup(&found(hash(b"h"))).unwrap().unwrap();
    assert_eq!((receipt.range.first, receipt.range.last, receipt.generation), (5, 5, 3));
    assert_eq!((again.phase, again.attempts), (SessionAppendPhase::Done, 0));

    let mut other = SessionAppend::new(&payload, hash(b"o"), None).unwrap();
    match other.on_lookup(&found(hash(b"h"))) {
        Err(StableAppendError::StableKeyConflict { existing, supplied }) => {
            assert_eq!((existing, supplied), (hash(b"h"), hash(b"o")));
        }
        other => panic!("{other:?}"),
    }
}

#[test]
fn a_session_append_ends_as_it_must() {
    let now = Timestamp::now();
    let payload = b"bytes".to_vec();
    assert!(matches!(SessionAppend::new(&Vec::new(), hash(b"h"), None), Err(StableAppendError::InvalidInput)));
    assert!(matches!(SessionAppend::new(&payload, hash(b"h"), Some(Terminal::Cancelled)), Err(StableAppendError::Cancelled)));
    assert!(matches!(SessionAppend::new(&payload, hash(b"h"), Some(Terminal::DeadlineExceeded)), Err(StableAppendError::DeadlineExceeded)));

    let mut s = session();
    let mut conflict = SessionAppend::new(&payload, hash(b"h"), None).unwrap();
    assert!(matches!(conflict.on_lookup(&found(hash(b"o"))), Err(StableAppendError::StableKeyConflict { .. })));

    let mut refused = SessionAppend::new(&payload, hash(b"h"), None).unwrap();
    refused.on_lookup(&Lookup::Absent).unwrap();
    assert!(matches!(refused.on_acquired(Err(LeaseError::Unavailable)), Err(StableAppendError::Lease(LeaseError::Unavailable))));

    let at_commit = || SessionAppend {
        payload_hash: hash(b"h"),
        phase: SessionAppendPhase::Commit { epoch: 2 },
        attempts: 0,
    };
    let mut given_up = at_commit();
    let ended = Some(Terminal::DeadlineExceeded);
    assert!(matches!(given_up.on_commit(&mut s, SessionCommit::Conflict, ended), Err(StableAppendError::DeadlineExceeded)));
    let mut last = at_commit();
    last.attempts = MAX_SESSION_ATTEMPTS - 1;
    assert!(matches!(last.on_commit(&mut s, SessionCommit::Conflict, None), Err(StableAppendError::Unavailable)));
    let fenced = StableAppendError::Lease(LeaseError::Fenced { session_epoch: 2, live_epoch: 3 });
    let mut lost = at_commit();
    assert!(lost.on_commit(&mut s, SessionCommit::Failed(fenced), None).is_err());
    assert!(matches!(s.state, WriterState::Lost { cause: SessionLoss::Fenced { live_epoch: 3 }, .. }));

    let mut other = session();
    let mut gone = SessionAppend {
        payload_hash: hash(b"h"),
        phase: SessionAppendPhase::Head { epoch: 2 },
        attempts: 0,
    };
    let stolen = owned(&session(), 2, now);
    assert!(matches!(gone.on_head(&mut other, Some(&stolen), now), Err(StableAppendError::Lease(LeaseError::ReacquireRequired { .. }))));
    assert!(other.lost);
}

#[test]
fn whole_batches_are_answered() {
    let identity = |n: u8| OpIdentity::Stable(StableKey::try_from_canonical(vec![n]).unwrap());
    let batch = vec![
        Submission { identity: identity(1), payloads: Vec::new() },
        Submission { identity: identity(2), payloads: Vec::new() },
    ];
    let replies = settle_unread(&batch, "away");
    assert_eq!(replies, vec![(0, Err("away".to_owned())), (1, Err("away".to_owned()))]);
    let refused = settle_refused(&vec![(3, CoreError::Rejected("empty append".to_owned()))]);
    assert_eq!(refused, vec![(3, Err("rejected: empty append".to_owned()))]);
}
