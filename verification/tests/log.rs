//! Trimmable logs: appends, reads, trims, compaction, takeover and groups.
use std::collections::HashMap;

use comb::append::{
    append_manifest, append_material, needs_empty_index, plan_generic, prepared_append, GenericItem,
};
use comb::chain::{Published, RecordedOutcome};
use comb::digest::{Digest, DigestKey};
use comb::error::{CoreError, Result};
use comb::group::{
    answer_stable, check_stable_append, group_batch, group_requests, read_range, settle_admissions,
    settle_failed, settle_published, stable_again, wants_more, GroupStats, StableCommit, Submission,
};
use comb::hamt::{Lookup, StableIndexEntry, StableIndexRoot};
use comb::log::{
    check_manifest, check_payloads, check_trim, has_chunks_to_merge, head_of, log_ref_name,
    next_writer, prepared_compact, prepared_trim, read, sort_frames, AppendRange, ChunkBody,
    CompactPlan, FeedMode, Frame, LogFollower, LogManifest, TakeoverPlan, TrimPlan,
    MAX_APPEND_BYTES, MAX_APPEND_EVENTS,
};
use comb::operation::{OpIdentity, OperationId, StableKey};
use comb::plans::PrepareCtx;
use comb::publication::IntentAdmission;
use comb::refs::RefValue;
use comb::store::{Failure, HeadSnapshot};
use comb::table::{Fetched, Step, Table};
use comb::time::Timestamp;

fn key() -> DigestKey {
    DigestKey::from_bytes([6u8; 32])
}

fn op(n: u8) -> OpIdentity {
    OpIdentity::Generic(OperationId::from_millis_and_entropy(1_704_000_000_000, [n; 18]))
}

struct Log {
    value: RefValue,
    manifest: Option<LogManifest>,
    chunks: HashMap<Digest, ChunkBody>,
    now: Timestamp,
}

fn copy_body(c: &ChunkBody) -> ChunkBody {
    ChunkBody { schema: c.schema.clone(), frames: c.frames.iter().map(Frame::clone).collect() }
}

impl Log {
    fn new() -> Self {
        let now = Timestamp::now();
        Log {
            value: RefValue::new("org", &log_ref_name("demo"), now),
            manifest: None,
            chunks: HashMap::new(),
            now,
        }
    }

    fn snapshot(&self) -> HeadSnapshot {
        HeadSnapshot { value: self.value.clone(), version: None }
    }

    fn append(&mut self, writer: &str, items: Vec<GenericItem>) -> Result<AppendRange> {
        let snapshot = self.snapshot();
        let id = OpIdentity::parse(&items[0].identity.canonical()).unwrap();
        let ctx = ctx(&snapshot, &id, self.now);
        let none = StableIndexRoot::new(key().digest(b"none"), 0);
        let plan = plan_generic(&ctx, self.manifest.as_ref(), writer, 60, FeedMode::Trimmable, &items, false, &none)?;
        let bytes = format!("{:?}", plan.chunk).into_bytes();
        let manifest = append_manifest(&plan, &ctx, self.manifest.as_ref(), &key(), &bytes, 2)?;
        self.chunks.insert(key().digest(&bytes), copy_body(&plan.chunk));
        let prepared = prepared_append(plan, &ctx, bytes, format!("{manifest:?}").into_bytes());
        check_manifest(None, &manifest, &self.value.name).unwrap();
        self.manifest = Some(manifest);
        self.value = prepared.next;
        Ok(prepared.outcome)
    }

    fn texts(&mut self, writer: &str, texts: &[&str]) -> Result<AppendRange> {
        let payloads: Vec<Vec<u8>> = texts.iter().map(|t| t.as_bytes().to_vec()).collect();
        let request = append_material(&payloads).hash(&key(), "org", &self.value.name);
        let n = self.value.generation as u8 + 1;
        self.append(writer, vec![GenericItem { identity: op(n), request, payloads }])
    }

    fn table(&self, mut step: impl FnMut(&Table<ChunkBody>) -> std::result::Result<Step<Vec<Frame>>, Failure>) -> std::result::Result<Vec<Frame>, Failure> {
        let mut table = Table::new();
        loop {
            match step(&table)? {
                Step::Done(f) => return Ok(f),
                Step::Fetch(d) => {
                    let f = match self.chunks.get(&d) {
                        Some(c) => Fetched::Object { len: 10, object: copy_body(c) },
                        None => Fetched::Failed(CoreError::NotFound(d.to_string())),
                    };
                    table.insert(d, f);
                }
            }
        }
    }

    fn read(&self, from: u64) -> std::result::Result<Vec<String>, Failure> {
        let m = self.manifest.as_ref().unwrap();
        let frames = self.table(|t| read(m, from, t))?;
        Ok(frames.into_iter().map(|f| format!("{}:{}", f.seq, String::from_utf8(f.payload).unwrap())).collect())
    }
}

fn ctx<'a>(snapshot: &'a HeadSnapshot, identity: &'a OpIdentity, now: Timestamp) -> PrepareCtx<'a> {
    PrepareCtx {
        snapshot,
        identity,
        request: key().digest(b"request"),
        generation: snapshot.value.generation + 1,
        parent: snapshot.value.head_commit,
        skip: None,
        now,
    }
}

#[test]
fn appended_events_are_read_in_order() {
    let mut log = Log::new();
    assert_eq!(log.texts("w", &["a", "b"]).unwrap(), AppendRange { first: 1, last: 2 });
    assert_eq!(log.texts("w", &["c"]).unwrap(), AppendRange { first: 3, last: 3 });
    assert_eq!(log.read(1).unwrap(), vec!["1:a", "2:b", "3:c"]);
    assert_eq!(log.read(3).unwrap(), vec!["3:c"]);
    assert_eq!(log.read(4).unwrap(), Vec::<String>::new());
    let head = head_of(Some((&log.value, log.manifest.as_ref().unwrap())));
    assert_eq!((head.head_seq, head.next_seq, head.epoch), (3, 4, 1));
    assert_eq!(head_of(None).next_seq, 1);
    assert_eq!(log.value.generation, 2);
}

#[test]
fn one_writer_at_a_time() {
    let mut log = Log::new();
    log.texts("w", &["a"]).unwrap();
    assert!(matches!(log.texts("v", &["b"]), Err(CoreError::LeaseHeld { holder, .. }) if holder == "w"));
    let (epoch, lease) = next_writer(&log.value, "v", log.now, 60, true).unwrap();
    assert_eq!((epoch, lease.writer.as_str()), (2, "v"));
    log.now = log.now.plus(61_000_000_000);
    assert_eq!(log.texts("v", &["b"]).unwrap().first, 2);
    assert_eq!(log.value.epoch, 2);
}

#[test]
fn taking_over_fences_the_writer() {
    let mut log = Log::new();
    log.texts("w", &["a"]).unwrap();
    let snapshot = log.snapshot();
    let id = op(9);
    let plan = TakeoverPlan { resource: log.value.name.clone(), writer: "v".to_owned(), lease_secs: 60 };
    let prepared = plan.prepare(&ctx(&snapshot, &id, log.now)).unwrap();
    assert_eq!(prepared.outcome.epoch, 2);
    log.value = prepared.next;
    assert!(matches!(log.texts("w", &["b"]), Err(CoreError::LeaseHeld { .. })));
    log.texts("v", &["b"]).unwrap();
}

#[test]
fn trimmed_events_are_not_read() {
    let mut log = Log::new();
    log.texts("w", &["a", "b"]).unwrap();
    log.texts("w", &["c"]).unwrap();
    let snapshot = log.snapshot();
    let id = op(9);
    let at = ctx(&snapshot, &id, log.now);
    let plan = TrimPlan { resource: log.value.name.clone(), before: 2 };
    let (manifest, floor) = plan.trim(&at, log.manifest.take().unwrap()).unwrap();
    let prepared = prepared_trim(&at, floor, b"manifest".to_vec());
    assert_eq!(prepared.outcome, floor);
    log.manifest = Some(manifest);
    match log.read(1) {
        Err(Failure::Core(CoreError::Trimmed { resume_at })) => {
            assert_eq!(resume_at, floor + 1);
            let rest = log.read(resume_at).unwrap();
            assert_eq!(rest.last().unwrap(), "3:c");
        }
        other => panic!("{other:?}"),
    }
    // A lower floor changes nothing.
    let again = TrimPlan { resource: log.value.name.clone(), before: 1 };
    let (_, kept) = again.trim(&at, log.manifest.take().unwrap()).unwrap();
    assert_eq!(kept, floor);
}

#[test]
fn compaction_keeps_what_is_read() {
    let mut log = Log::new();
    for t in ["a", "b", "c"] {
        log.texts("w", &[t]).unwrap();
    }
    let before: Vec<_> = (0..6).map(|from| log.read(from).unwrap()).collect();
    let head = log.manifest.as_ref().unwrap().head_seq;
    let plan = CompactPlan { resource: log.value.name.clone(), feed: FeedMode::Trimmable };
    let manifest = log.manifest.take().unwrap();
    let mut table = Table::new();
    let segment = loop {
        match plan.merge(&manifest, &table).unwrap() {
            Step::Done(s) => break s,
            Step::Fetch(d) => {
                table.insert(d, Fetched::Object { len: 10, object: copy_body(&log.chunks[&d]) })
            }
        }
    };
    let count = manifest.chunks.len();
    let bytes = format!("{segment:?}").into_bytes();
    let snapshot = log.snapshot();
    let id = op(9);
    let at = ctx(&snapshot, &id, log.now);
    let compacted = plan.compacted(&at, &key(), manifest, &segment, &bytes);
    let prepared = prepared_compact(&at, count, bytes.clone(), b"manifest".to_vec());
    assert_eq!(prepared.outcome, 3);
    log.chunks.insert(key().digest(&bytes), segment);
    assert_eq!((compacted.chunks.len(), compacted.segments.len()), (0, 1));
    assert_eq!((compacted.head_seq, compacted.trim_before_seq), (head, 0));
    log.manifest = Some(compacted);
    let after: Vec<_> = (0..6).map(|from| log.read(from).unwrap()).collect();
    assert_eq!(after, before);
}

#[test]
fn payloads_are_bounded() {
    assert!(matches!(check_payloads(&[]), Err(CoreError::Rejected(_))));
    assert!(check_payloads(&[b"x".to_vec()]).is_ok());
    assert!(check_payloads(&vec![b"x".to_vec(); MAX_APPEND_EVENTS + 1]).is_err());
    assert!(check_payloads(&[vec![0u8; MAX_APPEND_BYTES + 1]]).is_err());
    assert!(check_stable_append(FeedMode::Trimmable, &b"x".to_vec()).is_err());
    assert!(check_stable_append(FeedMode::Complete, &b"x".to_vec()).is_ok());
    assert!(needs_empty_index(None, FeedMode::Complete, false));
    assert!(!needs_empty_index(None, FeedMode::Trimmable, false));
}

#[test]
fn frames_are_sorted_stably() {
    let at = Timestamp::epoch();
    let frame = |seq: u64, p: &[u8]| Frame { seq, at, payload: p.to_vec() };
    let sorted = sort_frames(vec![frame(3, b"c"), frame(1, b"a"), frame(3, b"d"), frame(2, b"b")]);
    let got: Vec<(u64, Vec<u8>)> = sorted.into_iter().map(|f| (f.seq, f.payload)).collect();
    assert_eq!(got, vec![(1, b"a".to_vec()), (2, b"b".to_vec()), (3, b"c".to_vec()), (3, b"d".to_vec())]);
}

fn submission(n: u8, text: &str) -> Submission {
    Submission { identity: op(n), payloads: vec![text.as_bytes().to_vec()] }
}

#[test]
fn a_group_is_published_once_for_all() {
    let mut log = Log::new();
    let name = log.value.name.clone();
    let batch = vec![
        submission(1, "one"),
        submission(2, "two"),
        submission(1, "one"),
        submission(1, "other"),
        Submission { identity: op(3), payloads: vec![] },
    ];
    let grouped = group_batch(&batch, &key(), "org", &name);
    assert_eq!(grouped.items.len(), 2);
    assert_eq!(grouped.items[0].waiting, vec![0, 2]);
    assert_eq!(grouped.items[1].waiting, vec![1]);
    let refused: Vec<usize> = grouped.refused.iter().map(|r| r.0).collect();
    assert_eq!(refused, vec![3, 4]);
    assert!(matches!(grouped.refused[0].1, CoreError::IdempotencyConflict { .. }));
    assert!(matches!(grouped.refused[1].1, CoreError::Rejected(_)));

    let admissions = vec![
        Ok(IntentAdmission::Pending { base: 0 }),
        Ok(IntentAdmission::Pending { base: 0 }),
    ];
    let (early, pending) = settle_admissions(&grouped.items, &admissions);
    assert!(early.is_empty());
    let range = log.append("w", group_requests(&pending)).unwrap();
    // The outcome is that of the first request; the others are admitted beside it.
    assert_eq!(range, AppendRange { first: 1, last: 1 });
    let admitted = log.manifest.as_ref().unwrap().admitted.iter().map(|a| a.clone()).collect();
    let published = Published {
        outcome: range,
        generation: 1,
        epoch: 1,
        commit: key().digest(b"commit"),
        value: log.value.clone(),
        first_delivery: true,
        admitted,
    };
    let mut stats = GroupStats::default();
    let replies = settle_published(&pending, &published, &mut stats);
    let got: Vec<(usize, u64, u64)> = replies
        .iter()
        .map(|(i, r)| (*i, r.as_ref().unwrap().first, r.as_ref().unwrap().last))
        .collect();
    assert_eq!(got, vec![(0, 1, 1), (2, 1, 1), (1, 2, 2)]);
    assert_eq!((stats.commits, stats.events, stats.conflicts), (1, 2, 0));
}

#[test]
fn a_group_that_was_applied_is_answered_early() {
    let name = log_ref_name("demo");
    let grouped = group_batch(&vec![submission(1, "one"), submission(2, "two")], &key(), "org", &name);
    let admissions = vec![
        Ok(IntentAdmission::Applied {
            generation: 4,
            commit: key().digest(b"c"),
            result: RecordedOutcome::Range { first: 7, last: 7 },
        }),
        Err("backend unavailable: x".to_owned()),
    ];
    let (early, pending) = settle_admissions(&grouped.items, &admissions);
    assert!(pending.is_empty());
    assert_eq!(early.len(), 2);
    let a = early[0].1.as_ref().unwrap();
    assert_eq!((a.first, a.last, a.generation, a.first_delivery), (7, 7, 4, false));
    assert_eq!(early[1].1.as_ref().unwrap_err(), "backend unavailable: x");
    let mut stats = GroupStats::default();
    let failed = settle_failed(&grouped.items, "lost", &mut stats);
    assert_eq!(failed.len(), 2);
    assert!(failed.iter().all(|(_, r)| r.is_err()));
    assert_eq!(stats.conflicts, 1);
}

#[test]
fn stable_appends_are_answered() {
    let k = StableKey::try_from_canonical(b"k".to_vec()).unwrap();
    let hash = StableKey::payload_hash(&key(), b"x");
    let other = StableKey::payload_hash(&key(), b"y");
    let found = Lookup::Found(StableIndexEntry { key: k, payload_hash: hash, first: 3, last: 3, generation: 2 });
    let receipt = answer_stable(&found, &hash).unwrap().unwrap();
    assert_eq!((receipt.range.first, receipt.generation), (3, 2));
    assert!(matches!(answer_stable(&found, &other), Err(CoreError::StableKeyConflict { .. })));
    assert!(answer_stable(&Lookup::Absent, &hash).unwrap().is_none());
    assert!(matches!(stable_again(1, StableCommit::Conflict), Ok(false)));
    assert!(matches!(stable_again(1, StableCommit::Committed), Ok(true)));
    let text = RecordedOutcome::Result(r#"{"first":2,"last":5}"#.to_owned());
    assert_eq!(read_range(&text), Some(AppendRange { first: 2, last: 5 }));
    assert_eq!(read_range(&RecordedOutcome::Result("{}".to_owned())), None);
}

#[test]
fn complete_feeds_are_not_trimmed_at_all() {
    assert!(check_trim(FeedMode::Trimmable).is_ok());
    assert!(matches!(check_trim(FeedMode::Complete), Err(CoreError::Rejected(_))));
}

#[test]
fn one_chunk_is_not_merged() {
    let mut log = Log::new();
    log.texts("w", &["a"]).unwrap();
    assert!(!has_chunks_to_merge(log.manifest.as_ref().unwrap()));
    log.texts("w", &["b"]).unwrap();
    assert!(has_chunks_to_merge(log.manifest.as_ref().unwrap()));
}

#[test]
fn a_follower_reads_each_event_once() {
    let mut f = LogFollower::new(3);
    assert!(!f.on_head(2));
    assert!(f.on_head(4));
    f.on_frame(3);
    f.on_frame(4);
    assert_eq!(f.cursor, 5);
    assert!(!f.on_head(4));
    assert!(f.on_head(5));
}

#[test]
fn a_batch_is_committed_once_it_is_full() {
    let mut batch = vec![submission(1, "a")];
    assert!(wants_more(&batch, 3));
    batch.push(submission(2, "b"));
    assert!(wants_more(&batch, 3));
    batch.push(submission(3, "c"));
    assert!(!wants_more(&batch, 3));
    assert!(!wants_more(&batch, 1));
    assert!(!wants_more(&Vec::new(), 0));
    assert!(wants_more(&batch, usize::MAX));
}
