//! Complete feeds and the sessions that write them.
use std::collections::HashMap;

use comb::append::StableItem;
use comb::catalog::CatalogNode;
use comb::chain::CommitView;
use comb::commit::CommitHeader;
use comb::complete::{feed_state, CompleteAppendPlan, CompleteStep, FeedState};
use comb::digest::{Digest, DigestKey};
use comb::error::{CoreError, Result};
use comb::feed::{
    check_manifest_text, check_unpublished, head, read_page, validate_complete_manifest,
    validated_publication, CompleteLogManifest, Cursor, FeedChunk, FollowWait, FoundManifest,
    OpenLogError, PageStep, PublishedFeed, ReadError, ReadLimits, ReadPage,
    COMPLETE_MANIFEST_SCHEMA, MAX_CHUNK_RAW_BYTES, MAX_PAGE_RAW_BYTES,
};
use comb::hamt::{empty_root, lookup, HamtNode, IndexHead, LogScope, Lookup, StableIndexRoot};
use comb::log::{log_ref_name, Frame, StableAppendReceipt};
use comb::operation::{OpIdentity, StableKey};
use comb::plans::{ClaimPlan, PrepareCtx, ReleasePlan};
use comb::refs::RefValue;
use comb::session::{
    check_session_payload, follow_again, follow_first, follow_timer, lookup_committed, retry_page,
    terminal, ClaimStep, FollowStep, LeaseError, LeasePolicy, PageRetry, RenewTick, SessionLoss,
    StableAppendError, Terminal, WriterInstanceId, WriterLabel, WriterSession, WriterState,
};
use comb::store::{Failure, HeadSnapshot, KeyLayout, Store};
use comb::table::{Fetched, Step, Table};
use comb::time::{Span, Timestamp};

/// A feed in memory: its ref, and its objects by digest.
struct Feed {
    store: Store,
    scope: LogScope,
    value: RefValue,
    manifest: Option<CompleteLogManifest>,
    catalog: HashMap<Digest, CatalogNode>,
    index: HashMap<Digest, HamtNode>,
    chunks: HashMap<Digest, (usize, FeedChunk)>,
    empty: StableIndexRoot,
    now: Timestamp,
}

fn copy_catalog(n: &CatalogNode) -> CatalogNode {
    match n {
        CatalogNode::Leaf { schema, refs } => {
            CatalogNode::Leaf { schema: *schema, refs: refs.clone() }
        }
        CatalogNode::Branch { schema, height, children } => {
            CatalogNode::Branch { schema: *schema, height: *height, children: children.clone() }
        }
    }
}

fn copy_index(n: &HamtNode) -> HamtNode {
    match n {
        HamtNode::Branch { schema, depth, prefix, children } => HamtNode::Branch {
            schema: schema.clone(),
            depth: *depth,
            prefix: *prefix,
            children: children.clone(),
        },
        HamtNode::Leaf { schema, entry } => {
            HamtNode::Leaf { schema: schema.clone(), entry: entry.clone() }
        }
    }
}

fn fetched<N>(found: Option<N>, d: &Digest) -> Fetched<N> {
    match found {
        Some(object) => Fetched::Object { len: 100, object },
        None => Fetched::Failed(CoreError::NotFound(d.to_string())),
    }
}

impl Feed {
    fn new(log: &str) -> Self {
        let store = Store::new("org_t", DigestKey::from_bytes([9u8; 32])).with_layout(KeyLayout::V3);
        let name = log_ref_name(log);
        let now = Timestamp::now();
        let key = store.key;
        let made = empty_root(&|n: &HamtNode| Ok(key.digest(format!("{n:?}").as_bytes()))).unwrap();
        Feed {
            scope: LogScope { key, tenant: "org_t".to_owned(), log: name.clone() },
            value: RefValue::new("org_t", &name, now),
            store,
            manifest: None,
            catalog: HashMap::new(),
            index: made.uploads.into_iter().collect(),
            chunks: HashMap::new(),
            empty: made.root,
            now,
        }
    }

    fn snapshot(&self) -> HeadSnapshot {
        HeadSnapshot { value: self.value.clone(), version: None }
    }

    /// Claims or releases, as a publication would.
    fn claim(&mut self, writer: &str, ttl_secs: i64) -> std::result::Result<u64, Failure> {
        let snapshot = self.snapshot();
        let identity = identity();
        let plan = ClaimPlan {
            name: self.value.name.clone(),
            writer: writer.to_owned(),
            ttl_secs,
            steal: false,
        };
        let ctx = ctx(&snapshot, &identity, self);
        let next = plan.prepare(&ctx).map_err(Failure::Core)?.next;
        self.value = next;
        Ok(self.value.epoch)
    }

    fn release(&mut self, fence: u64) {
        let snapshot = self.snapshot();
        let identity = identity();
        let plan = ReleasePlan { name: self.value.name.clone(), fence };
        let ctx = ctx(&snapshot, &identity, self);
        self.value = plan.prepare(&ctx).unwrap().next;
    }

    fn index_drive<T>(&self, mut step: impl FnMut(&Table<HamtNode>) -> Result<Step<T>>) -> Result<T> {
        let mut table = Table::new();
        loop {
            match step(&table)? {
                Step::Done(t) => return Ok(t),
                Step::Fetch(d) => table.insert(d, fetched(self.index.get(&d).map(copy_index), &d)),
            }
        }
    }

    fn committed(&self, key: &StableKey, hash: &Digest) -> std::result::Result<Option<StableAppendReceipt>, StableAppendError> {
        let found = match &self.manifest {
            None => Lookup::Absent,
            Some(m) => {
                let at = IndexHead { generation: self.value.generation, head_seq: m.head_seq };
                self.index_drive(|t| lookup(t, &self.scope, &m.stable_index, key, at)).unwrap()
            }
        };
        lookup_committed(&found, hash)
    }

    fn append(&mut self, session: &mut WriterSession, key: &[u8], payload: Vec<u8>) -> std::result::Result<StableAppendReceipt, StableAppendError> {
        check_session_payload(&payload)?;
        let key = StableKey::try_from_canonical(key.to_vec()).unwrap();
        let hash = StableKey::payload_hash(&self.store.key, &payload);
        let epoch = ready(session, self).map_err(StableAppendError::Lease)?;
        if let Some(receipt) = self.committed(&key, &hash)? {
            return Ok(receipt);
        }
        session.check_owned(Some(&self.value), epoch, self.now)?;
        let plan = CompleteAppendPlan {
            resource: self.value.name.clone(),
            instance: session.instance.canonical(),
            epoch,
            item: StableItem { key: key.clone(), payload, payload_hash: hash },
        };
        let snapshot = self.snapshot();
        let identity = OpIdentity::Stable(key);
        plan.check(&snapshot.value, self.now).unwrap();
        let state: FeedState = feed_state(self.manifest.as_ref(), &self.empty);
        let chunk = plan.chunk(state.head_seq, self.now).unwrap();
        let bytes = format!("{chunk:?}").into_bytes();
        let generation = self.value.generation + 1;
        let secret = self.store.key;
        let catalog_address = move |n: &CatalogNode| Ok(secret.digest(format!("{n:?}").as_bytes()));
        let index_address = move |n: &HamtNode| Ok(secret.digest(format!("{n:?}").as_bytes()));
        let mut nodes = Table::new();
        let mut entries = Table::new();
        let done = loop {
            match plan
                .plan(&self.store, generation, &state, &bytes, &nodes, &catalog_address, &self.scope, &entries, &index_address)
                .unwrap()
            {
                CompleteStep::Done(p) => break p,
                CompleteStep::FetchCatalog(d) => {
                    nodes.insert(d, fetched(self.catalog.get(&d).map(copy_catalog), &d))
                }
                CompleteStep::FetchIndex(d) => {
                    entries.insert(d, fetched(self.index.get(&d).map(copy_index), &d))
                }
            }
        };
        let ctx = ctx(&snapshot, &identity, self);
        let manifest = plan.manifest(&ctx, &done, 200).unwrap();
        validate_complete_manifest(&self.value.name, &manifest).unwrap();
        let text = format!("{manifest:?}").into_bytes();
        let len = bytes.len();
        let digest = self.store.key.digest(&bytes);
        let prepared = plan.prepared(&self.store, &ctx, &done, bytes, text).unwrap();
        self.catalog.extend(done.catalog_nodes);
        self.index.extend(done.index_nodes);
        self.chunks.insert(digest, (len, chunk));
        self.manifest = Some(manifest);
        self.value = prepared.next;
        Ok(prepared.outcome)
    }

    fn page(&self, cursor: Cursor, limits: ReadLimits) -> std::result::Result<ReadPage, ReadError> {
        let mut nodes = Table::new();
        let mut chunks = Table::new();
        loop {
            match read_page(self.manifest.as_ref(), cursor, limits, &nodes, &chunks)? {
                PageStep::Done(p) => return Ok(p),
                PageStep::FetchNode(d) => {
                    nodes.insert(d, fetched(self.catalog.get(&d).map(copy_catalog), &d))
                }
                PageStep::FetchChunk(d) => {
                    let found = match self.chunks.get(&d) {
                        Some((len, c)) => Fetched::Object {
                            len: *len,
                            object: FeedChunk {
                                schema: c.schema.clone(),
                                frames: c.frames.iter().map(Frame::clone).collect(),
                            },
                        },
                        None => Fetched::Failed(CoreError::NotFound(d.to_string())),
                    };
                    chunks.insert(d, found);
                }
            }
        }
    }
}

fn identity() -> OpIdentity {
    OpIdentity::Stable(StableKey::try_from_canonical(b"claim".to_vec()).unwrap())
}

fn ctx<'a>(snapshot: &'a HeadSnapshot, identity: &'a OpIdentity, feed: &Feed) -> PrepareCtx<'a> {
    PrepareCtx {
        snapshot,
        identity,
        request: feed.store.key.digest(b"request"),
        generation: snapshot.value.generation + 1,
        parent: snapshot.value.head_commit,
        skip: None,
        now: feed.now,
    }
}

/// The epoch of a session, which acquires the lease if it has none yet.
fn ready(session: &mut WriterSession, feed: &mut Feed) -> std::result::Result<u64, LeaseError> {
    if let Some(epoch) = session.active_epoch(feed.now)? {
        return Ok(epoch);
    }
    session.begin_acquire();
    let writer = session.instance.canonical();
    match WriterSession::claim_step(feed.claim(&writer, session.policy.ttl_secs())) {
        ClaimStep::Taken { epoch } => {
            let value = feed.value.clone();
            session.on_claimed(epoch, Some(&value))
        }
        ClaimStep::Held { owner, until } => Err(LeaseError::LeaseHeld { owner, until }),
        ClaimStep::Failed(e) => Err(e),
    }
}

fn session(policy: LeasePolicy) -> WriterSession {
    WriterSession::new(WriterLabel::try_from("bridge").unwrap(), policy).unwrap()
}

fn short_policy() -> LeasePolicy {
    LeasePolicy {
        ttl: Span::from_secs(2),
        renew_every: Span::from_millis(200),
        clock_slack: Span::from_millis(100),
        initial_acquire_budget: Span::from_secs(2),
    }
    .validate()
    .unwrap()
}

const MILLI: i128 = 1_000_000;

#[test]
fn overflowing_lease_policy_is_rejected() {
    let mut policy = LeasePolicy::bridge_default();
    policy.renew_every = Span { nanos: comb::time::MAX_SPAN_NANOS };
    assert!(policy.validate().is_err());
}

#[test]
fn lease_policies_are_judged() {
    assert!(LeasePolicy::bridge_default().validate().is_ok());
    let mut long = LeasePolicy::bridge_default();
    long.ttl = Span::from_secs(601);
    long.initial_acquire_budget = Span::from_secs(601);
    assert!(long.validate().is_err());
    let mut hasty = LeasePolicy::bridge_default();
    hasty.initial_acquire_budget = Span::from_secs(29);
    assert!(hasty.validate().is_err());
    let mut late = LeasePolicy::bridge_default();
    late.renew_every = Span::from_secs(25);
    assert!(late.validate().is_err());
    assert_eq!(LeasePolicy::bridge_default().ttl_secs(), 30);
    assert!(WriterLabel::try_from("").is_err());
    assert!(WriterLabel::try_from(&"x".repeat(65)).is_err());
}

#[test]
fn v2_and_v3_are_isolated_and_v2_is_not_opened() {
    match check_unpublished(true, false) {
        Err(OpenLogError::UnsupportedManifestSchema { found, required }) => {
            assert_eq!(found, "comb.log.partition-manifest/v2");
            assert_eq!(required, COMPLETE_MANIFEST_SCHEMA);
        }
        other => panic!("expected unsupported, got {other:?}"),
    }
    assert!(check_unpublished(false, false).is_ok());
    match check_manifest_text(br#"{"schema":"comb.log.partition-manifest/v2"}"#) {
        Err(OpenLogError::UnsupportedManifestSchema { .. }) => {}
        other => panic!("{other:?}"),
    }
    assert!(matches!(check_manifest_text(b"not json"), Err(OpenLogError::Integrity(_))));
    assert!(check_manifest_text(br#"{"schema":"comb.log.partition-manifest/v3"}"#).is_ok());
    let v2 = Store::new("org_t", DigestKey::from_bytes([9u8; 32]));
    let d = v2.key.digest(b"x");
    assert!(v2.object_key(&d).starts_with("comb/v2/"));
    assert!(v2.with_layout(KeyLayout::V3).object_key(&d).starts_with("comb/v3/"));
}

#[test]
fn append_and_page_replay() {
    let mut feed = Feed::new("p");
    let mut writer = session(LeasePolicy::bridge_default());
    for i in 1..=20u64 {
        let receipt =
            feed.append(&mut writer, format!("k{i}").as_bytes(), format!("b{i}").into_bytes()).unwrap();
        assert_eq!((receipt.range.first, receipt.range.last), (i, i));
    }
    let limits = ReadLimits::try_new(7, 4096).unwrap();
    let mut cursor = Cursor::first(0);
    let mut seqs = Vec::new();
    loop {
        let page = feed.page(cursor, limits).unwrap();
        for e in &page.events {
            assert_eq!(e.payload, format!("b{}", e.position.seq).into_bytes());
            seqs.push(e.position.seq);
        }
        if page.at_head {
            break;
        }
        cursor = page.next;
    }
    assert_eq!(seqs, (1..=20).collect::<Vec<_>>());
    let too = feed.page(Cursor { partition: 0, next_seq: 0 }, limits);
    assert!(matches!(too, Err(ReadError::InvalidCursor { .. })));
    assert!(matches!(feed.page(Cursor { partition: 0, next_seq: 22 }, limits),
        Err(ReadError::InvalidCursor { .. })));
    assert!(matches!(feed.page(Cursor::first(1), limits), Err(ReadError::InvalidCursor { .. })));
    let at = head(Some((feed.value.generation, feed.manifest.as_ref()))).unwrap();
    assert_eq!((at.head_seq, at.next.next_seq, at.trim_before_seq), (20, 21, 0));
}

#[test]
fn a_repeated_append_gives_the_first_receipt() {
    let mut feed = Feed::new("again");
    let mut writer = session(LeasePolicy::bridge_default());
    let first = feed.append(&mut writer, b"k", b"bytes".to_vec()).unwrap();
    feed.append(&mut writer, b"other", b"bytes".to_vec()).unwrap();
    let again = feed.append(&mut writer, b"k", b"bytes".to_vec()).unwrap();
    assert_eq!(again, first);
    match feed.append(&mut writer, b"k", b"different".to_vec()) {
        Err(StableAppendError::StableKeyConflict { .. }) => {}
        other => panic!("{other:?}"),
    }
    assert_eq!(feed.manifest.as_ref().unwrap().head_seq, 2);
}

#[test]
fn two_sessions_same_label_distinct_instances() {
    let mut feed = Feed::new("s");
    let mut a = session(LeasePolicy::bridge_default());
    let mut b = session(LeasePolicy::bridge_default());
    assert_ne!(a.instance.canonical(), b.instance.canonical());
    ready(&mut a, &mut feed).unwrap();
    match ready(&mut b, &mut feed) {
        Err(LeaseError::LeaseHeld { owner, .. }) => {
            assert_eq!(owner.canonical(), a.instance.canonical())
        }
        other => panic!("{other:?}"),
    }
}

#[test]
fn all_0xff_payload_stays_within_encoded_upload_cap() {
    let mut feed = Feed::new("ff");
    let mut writer = session(short_policy());
    let payload = vec![0xff; 64 * 1024];
    let receipt = feed.append(&mut writer, b"ff-key", payload.clone()).unwrap();
    assert_eq!(receipt.range.first, 1);
    let page = feed.page(Cursor::first(0), ReadLimits::try_new(1, MAX_PAGE_RAW_BYTES).unwrap()).unwrap();
    assert_eq!(page.events.len(), 1);
    assert_eq!(page.events[0].payload, payload);
    let over = feed.append(&mut writer, b"too-big", vec![0xff; MAX_CHUNK_RAW_BYTES as usize + 1]);
    assert!(matches!(over, Err(StableAppendError::InvalidInput)));
}

#[test]
fn first_event_too_large_does_not_advance_cursor() {
    let mut feed = Feed::new("big");
    let mut writer = session(short_policy());
    feed.append(&mut writer, b"big1", vec![b'x'; 64]).unwrap();
    let cursor = Cursor::first(0);
    match feed.page(cursor, ReadLimits::try_new(8, 8).unwrap()).unwrap_err() {
        ReadError::EventTooLarge { cursor: got, event_bytes, max_bytes, .. } => {
            assert_eq!(got, cursor);
            assert_eq!(event_bytes, 64);
            assert_eq!(max_bytes, 8);
        }
        other => panic!("expected EventTooLarge, got {other:?}"),
    }
    let page = feed.page(cursor, ReadLimits::try_new(8, 4096).unwrap()).unwrap();
    assert_eq!(page.events[0].position.seq, 1);
    assert_eq!(page.next.next_seq, 2);
}

#[test]
fn idle_renewal_extends_lease_without_new_session() {
    let mut feed = Feed::new("idle");
    let mut writer = session(short_policy());
    let epoch = ready(&mut writer, &mut feed).unwrap();
    let first = match writer.state {
        WriterState::Active { lease_until, .. } => lease_until,
        other => panic!("expected active, got {other:?}"),
    };
    let later = feed.now.plus(500 * MILLI);
    assert!(matches!(writer.on_tick(epoch, later), RenewTick::Renew { .. }));
    let mut renewed = feed.value.clone();
    renewed.lease.as_mut().unwrap().lease_until = later.plus(2_000 * MILLI);
    assert!(writer.on_renewed(epoch, Some(Ok(&renewed))));
    match writer.state {
        WriterState::Active { epoch: e2, lease_until: second } => {
            assert_eq!(e2, epoch);
            assert!(second.after(&first), "renewal must extend lease_until");
        }
        other => panic!("expected still active after idle renew, got {other:?}"),
    }
}

#[test]
fn an_uncertain_renewal_loses_the_session() {
    let mut feed = Feed::new("uncertain");
    let mut writer = session(short_policy());
    let epoch = ready(&mut writer, &mut feed).unwrap();
    let gone = Failure::Core(CoreError::BackendUnavailable("x".to_owned()));
    assert!(!writer.on_renewed(epoch, Some(Err(&gone))));
    assert!(matches!(writer.state, WriterState::Lost { cause: SessionLoss::RenewalUncertain, .. }));
    assert!(matches!(writer.on_tick(epoch, feed.now), RenewTick::Stop));
    assert!(matches!(ready(&mut writer, &mut feed),
        Err(LeaseError::ReacquireRequired { cause: SessionLoss::RenewalUncertain })));
}

#[test]
fn fresh_instance_takes_over_after_close() {
    let mut feed = Feed::new("take-close");
    let mut a = session(short_policy());
    ready(&mut a, &mut feed).unwrap();
    let fence = a.close().expect("an active session has a lease to release");
    feed.release(fence);
    let mut b = session(short_policy());
    assert_eq!(ready(&mut b, &mut feed).unwrap(), 2);
    assert!(ready(&mut a, &mut feed).is_err());
}

#[test]
fn fresh_instance_takes_over_after_expiry() {
    let mut feed = Feed::new("take-exp");
    let mut c = session(short_policy());
    ready(&mut c, &mut feed).unwrap();
    feed.now = feed.now.plus(2_500 * MILLI);
    match c.state {
        WriterState::Active { lease_until, .. } => assert!(!lease_until.after(&feed.now)),
        other => panic!("{other:?}"),
    }
    let err = ready(&mut c, &mut feed).unwrap_err();
    assert!(matches!(err, LeaseError::ReacquireRequired { cause: SessionLoss::LeaseExpired }), "{err:?}");
    let mut d = session(short_policy());
    ready(&mut d, &mut feed).unwrap();
    // The old session stays lost, and its writes are refused.
    assert!(ready(&mut c, &mut feed).is_err());
    assert!(feed.append(&mut c, b"late", b"x".to_vec()).is_err());
    assert!(feed.append(&mut d, b"good", b"x".to_vec()).is_ok());
}

#[test]
fn close_of_unacquired_session_does_not_deadlock() {
    let mut writer = session(short_policy());
    assert_eq!(writer.close(), None);
    assert!(matches!(writer.state, WriterState::Closed));
}

fn page(events: bool, at_head: bool) -> ReadPage {
    let mut feed = Feed::new("f");
    let mut writer = session(short_policy());
    feed.append(&mut writer, b"a", b"x".to_vec()).unwrap();
    let from = if events { 1 } else { 2 };
    let mut p = feed
        .page(Cursor { partition: 0, next_seq: from }, ReadLimits::try_new(5, 100).unwrap())
        .unwrap();
    p.at_head = at_head;
    p
}

#[test]
fn following_waits_only_at_an_empty_head() {
    assert!(matches!(follow_first(page(true, true)), FollowStep::Return(f) if !f.timed_out));
    assert!(matches!(follow_first(page(false, false)), FollowStep::Return(f) if !f.timed_out));
    assert!(matches!(follow_first(page(false, true)), FollowStep::Wait(_)));
    assert!(matches!(follow_again(page(true, true), false), FollowStep::Return(f) if !f.timed_out));
    assert!(matches!(follow_again(page(false, true), false), FollowStep::Wait(_)));
    assert!(matches!(follow_again(page(false, true), true), FollowStep::Return(f) if f.timed_out));
    assert!(matches!(follow_timer(page(false, true), true), Ok(f) if f.timed_out));
    assert!(matches!(follow_timer(page(false, true), false), Err(ReadError::DeadlineExceeded)));
    assert!(FollowWait::try_new(Span::from_secs(30)).is_ok());
    assert!(FollowWait::try_new(Span::from_secs(31)).is_err());
    assert!(FollowWait::try_new(Span::from_secs(0)).is_err());
}

#[test]
fn unavailable_pages_are_read_again() {
    let gone = || ReadError::Unavailable { operation: "read_head" };
    match retry_page(1, 25, gone()) {
        PageRetry::Again { pause_millis, next_pause_millis } => {
            assert_eq!((pause_millis, next_pause_millis), (25, 50))
        }
        other => panic!("{other:?}"),
    }
    assert!(matches!(retry_page(1, 25, ReadError::Cancelled), PageRetry::Return(ReadError::Cancelled)));
    assert_eq!(terminal(false, false), None);
    assert_eq!(terminal(true, true), Some(Terminal::Cancelled));
    assert_eq!(terminal(false, true), Some(Terminal::DeadlineExceeded));
}

#[test]
fn instances_read_back() {
    let id = WriterInstanceId::generate();
    assert_eq!(id.canonical().len(), 32);
    assert_eq!(WriterInstanceId::try_from_canonical(&id.canonical()), Some(id));
    assert_eq!(WriterInstanceId::try_from_canonical("xyz"), None);
}

#[test]
fn a_foreign_manifest_is_refused() {
    let mut feed = Feed::new("mine");
    let mut writer = session(short_policy());
    feed.append(&mut writer, b"a", b"x".to_vec()).unwrap();
    let m = feed.manifest.as_mut().unwrap();
    assert!(validate_complete_manifest("log/other/p0", m).is_err());
    let at: &CommitHeader = &m.header;
    assert_eq!(at.generation, feed.value.generation);
    m.head_seq = 7;
    assert!(validate_complete_manifest(&feed.value.name, m).is_err());
}

#[test]
fn a_publication_is_borne_out_by_its_commit() {
    let mut feed = Feed::new("borne");
    let mut writer = session(LeasePolicy::bridge_default());
    assert!(matches!(
        validated_publication(&feed.value.name, &RefValue::new("org_t", &feed.value.name, feed.now), None, None),
        Ok(PublishedFeed::Nothing)
    ));
    feed.append(&mut writer, b"k", b"bytes".to_vec()).unwrap();
    let manifest = feed.manifest.take().unwrap();
    let digest = feed.store.key.digest(b"manifest");
    let mut value = feed.value.clone();
    value.head_commit = Some(digest);
    value.target = Some(digest);
    let view = CommitView {
        digest,
        header: manifest.header.clone(),
        result: None,
        admitted: Vec::new(),
        ref_state: None,
        target_follows_commit: true,
    };
    let name = value.name.clone();
    match validated_publication(&name, &value, None, None) {
        Ok(PublishedFeed::FetchCommit(d)) => assert_eq!(d, digest),
        _ => panic!("expected the commit to be fetched"),
    }
    match validated_publication(&name, &value, Some(&view), None) {
        Ok(PublishedFeed::FetchManifest(d)) => assert_eq!(d, digest),
        _ => panic!("expected the manifest to be fetched"),
    }
    let mut found = FoundManifest { payload: b"{}".to_vec(), manifest: Ok(manifest) };
    match validated_publication(&name, &value, Some(&view), Some(&found)) {
        Ok(PublishedFeed::Manifest(m)) => assert_eq!(m.head_seq, 1),
        _ => panic!("expected the manifest"),
    }
    let mut moved = value.clone();
    moved.target = Some(feed.store.key.digest(b"other"));
    assert!(matches!(
        validated_publication(&name, &moved, Some(&view), Some(&found)),
        Err(OpenLogError::Integrity(_))
    ));
    found.payload = br#"{"schema":"comb.log.partition-manifest/v2"}"#.to_vec();
    assert!(matches!(
        validated_publication(&name, &value, Some(&view), Some(&found)),
        Err(OpenLogError::UnsupportedManifestSchema { .. })
    ));
    found.payload = b"{}".to_vec();
    found.manifest = Err("missing field `log`".to_owned());
    match validated_publication(&name, &value, Some(&view), Some(&found)) {
        Err(OpenLogError::Integrity(e)) => assert_eq!(e.0, "v3 manifest: missing field `log`"),
        _ => panic!("expected an unreadable manifest"),
    }
    found.payload = b"not json".to_vec();
    match validated_publication(&name, &value, Some(&view), Some(&found)) {
        Err(OpenLogError::Integrity(e)) => {
            assert_eq!(e.0, "manifest json: expected ident at line 1 column 2")
        }
        _ => panic!("expected text that is no JSON"),
    }
}

#[test]
fn an_append_starts_from_what_its_commit_bears_out() {
    let mut feed = Feed::new("base");
    let mut writer = session(LeasePolicy::bridge_default());
    let plan = CompleteAppendPlan {
        resource: feed.value.name.clone(),
        instance: writer.instance.canonical(),
        epoch: 1,
        item: StableItem {
            key: StableKey::try_from_canonical(b"k".to_vec()).unwrap(),
            payload: b"x".to_vec(),
            payload_hash: StableKey::payload_hash(&feed.store.key, b"x"),
        },
    };
    let fresh = RefValue::new("org_t", &feed.value.name, feed.now);
    assert!(matches!(plan.base(&fresh, None, None), Ok(PublishedFeed::Nothing)));
    feed.append(&mut writer, b"k", b"bytes".to_vec()).unwrap();
    let manifest = feed.manifest.take().unwrap();
    let digest = feed.store.key.digest(b"manifest");
    let mut value = feed.value.clone();
    value.head_commit = None;
    match plan.base(&value, None, None) {
        Err(Failure::Core(CoreError::IntegrityError(m))) => {
            assert_eq!(m, "missing head_commit with published generation")
        }
        _ => panic!("expected a ref without a commit"),
    }
    value.head_commit = Some(digest);
    value.target = Some(digest);
    assert!(matches!(plan.base(&value, None, None), Ok(PublishedFeed::FetchCommit(d)) if d == digest));
    let view = CommitView {
        digest,
        header: manifest.header.clone(),
        result: None,
        admitted: Vec::new(),
        ref_state: None,
        target_follows_commit: true,
    };
    let found = plan.base(&value, Some(&view), None);
    assert!(matches!(found, Ok(PublishedFeed::FetchManifest(d)) if d == digest));
    let mut read = FoundManifest { payload: Vec::new(), manifest: Ok(manifest) };
    match plan.base(&value, Some(&view), Some(&read)) {
        Ok(PublishedFeed::Manifest(m)) => assert_eq!(m.head_seq, 1),
        _ => panic!("expected the manifest"),
    }
    if let Ok(m) = &mut read.manifest {
        m.head_seq = 7;
    }
    match plan.base(&value, Some(&view), Some(&read)) {
        Err(Failure::Core(CoreError::IntegrityError(m))) => {
            assert_eq!(m, "catalog last_seq disagrees with manifest head_seq")
        }
        _ => panic!("expected a manifest that is not sound"),
    }
    read.manifest = Err("EOF".to_owned());
    match plan.base(&value, Some(&view), Some(&read)) {
        Err(Failure::Unreadable { detail }) => assert_eq!(detail, "EOF"),
        _ => panic!("expected a manifest that cannot be read"),
    }
}

#[test]
fn pages_of_any_size_replay_the_feed() {
    let mut feed = Feed::new("replay");
    let mut writer = session(LeasePolicy::bridge_default());
    let mut want = Vec::new();
    for i in 0..9u8 {
        let body = vec![i; 3 + i as usize];
        feed.append(&mut writer, &[i + 1], body.clone()).unwrap();
        want.push((u64::from(i) + 1, body));
    }
    for max_events in 1..=10 {
        for max_raw in [11, 20, 64] {
            let limits = ReadLimits::try_new(max_events, max_raw).unwrap();
            let mut got = Vec::new();
            let mut cursor = Cursor::first(0);
            loop {
                let page = feed.page(cursor, limits).unwrap();
                if page.events.is_empty() {
                    break;
                }
                got.extend(page.events.iter().map(|e| (e.position.seq, e.payload.clone())));
                cursor = page.next;
            }
            assert_eq!(got, want, "pages of {max_events} events and {max_raw} bytes");
        }
    }
}
