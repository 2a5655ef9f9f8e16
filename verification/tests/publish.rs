//! The commit chain, stored blobs, and publications from end to end.
use std::collections::HashMap;

use comb::chain::{
    compute_skip, history_chain, load_commit_view, outcome_from_view, published_from_view,
    recover_without_intent, seek_generation, CommitObject, CommitView, Published, RecordedOutcome,
};
use comb::commit::{
    Admission, Commit, CommitHeader, HistoryEntry, OpIntent, COMMIT_SCHEMA, HEADER_SCHEMA,
};
use comb::digest::{Digest, DigestKey};
use comb::envelope::ObjectKind;
use comb::error::{CoreError, Result};
use comb::object::{MemoryBackend, Version};
use comb::operation::{Material, OpIdentity, OperationId, OperationPolicy, SystemClock};
use comb::plans::{
    ClaimPlan, MutationOutcome, MutationResult, OwnedReleasePlan, PrepareCtx, PreparedMutation,
    ReleasePlan, SetTargetPlan, TargetContent,
};
use comb::publication::{renew_again, renew_lease, Finding, Publication, PublishPhase};
use comb::publish::{
    commit_object, finalize_intent, load_intent, open_attempt, resolve_pending, Attempt,
    AttemptPhase, IntentFetch, PendingResolution,
};
use comb::refs::{Lease, RefValue};
use comb::store::{
    cache_read_limited, cached_bytes, CacheUse, CachedRead, EnvelopeReadSpec, Failure, HeadSnapshot,
    RefFetch, Store,
};
use comb::table::{Fetched, Step, Table};
use comb::time::Timestamp;

fn store() -> Store {
    Store::new("org_t", DigestKey::from_bytes([9u8; 32]))
}

fn mint() -> OperationId {
    store().mint_operation(&SystemClock)
}

fn commit(generation: u64, resource: &str, parent: Option<Digest>, skip: Option<Digest>) -> CommitObject {
    let mut ref_state = RefValue::new("org_t", resource, Timestamp::epoch());
    ref_state.generation = generation;
    CommitObject::Plain(Commit {
        schema: COMMIT_SCHEMA.to_owned(),
        header: CommitHeader {
            schema: HEADER_SCHEMA.to_owned(),
            resource: resource.to_owned(),
            generation,
            epoch: 0,
            identity: OperationId::from_millis_and_entropy(5, [3u8; 18]).to_string(),
            request: store().key.digest(b"req"),
            parent,
            skip,
            at: Timestamp::epoch(),
        },
        change: r#"{"kind":"set-target"}"#.to_owned(),
        result: format!("{{\"generation\":{generation},\"epoch\":0}}"),
        ref_state,
    })
}

struct Chain(HashMap<Digest, CommitView>);

impl Chain {
    fn put(&mut self, name: &[u8], object: CommitObject) -> Digest {
        let d = store().key.digest(name);
        self.0.insert(d, load_commit_view(d, object).unwrap());
        d
    }

    fn drive<T>(&self, mut step: impl FnMut(&Table<CommitView>) -> Result<Step<T>>) -> Result<T> {
        let mut table = Table::new();
        loop {
            match step(&table)? {
                Step::Done(t) => return Ok(t),
                Step::Fetch(d) => {
                    let fetched = match self.0.get(&d) {
                        Some(v) => Fetched::Object { len: 100, object: v.clone() },
                        None => Fetched::Failed(CoreError::NotFound(d.to_string())),
                    };
                    table.insert(d, fetched);
                }
            }
        }
    }

    fn seek(&self, start: &Digest, target: u64) -> Result<u64> {
        self.drive(|t| seek_generation(t, start, target, "r")).map(|(v, _)| v.header.generation)
    }
}

#[test]
fn seek_rejects_bad_skips_and_foreign_resource() {
    let mut chain = Chain(HashMap::new());
    let g1 = chain.put(b"g1", commit(1, "r", None, None));
    let foreign = chain.put(b"foreign", commit(8, "other", None, None));
    let same = chain.put(b"same", commit(3, "r", Some(g1), None));
    let mismatch = chain.put(b"mismatch", commit(12, "r", Some(g1), Some(g1)));

    let err = chain.seek(&mismatch, 1).unwrap_err();
    assert!(matches!(&err, CoreError::RecoveryFailed(m) if m.contains("skip claimed")), "{err:?}");

    let looped = chain.put(b"looped", commit(3, "r", Some(g1), Some(same)));
    let text = chain.seek(&looped, 1).unwrap_err().to_string();
    assert!(text.contains("strictly decrease") || text.contains("skip"), "{text}");

    let text = chain.seek(&foreign, 8).unwrap_err().to_string();
    assert!(text.contains("resource"), "{text}");
}

fn header(identity: &OperationId, generation: u64, epoch: u64) -> CommitHeader {
    CommitHeader {
        schema: HEADER_SCHEMA.to_owned(),
        resource: "r".to_owned(),
        generation,
        epoch,
        identity: identity.to_string(),
        request: store().key.digest(b"req"),
        parent: None,
        skip: None,
        at: Timestamp::now(),
    }
}

fn number(o: &RecordedOutcome, name: &str) -> u64 {
    match o {
        RecordedOutcome::Result(text) => {
            serde_json::from_str::<serde_json::Value>(text).unwrap()[name].as_u64().unwrap()
        }
        RecordedOutcome::Range { first, last } => match name {
            "first" => *first,
            "last" => *last,
            _ => panic!("{name}"),
        },
    }
}

#[test]
fn outcome_from_view_does_not_return_foreign_result() {
    let a = mint();
    let b = mint();
    let request = DigestKey::from_bytes([9u8; 32]).digest(b"req");
    let view = CommitView {
        digest: request,
        header: header(&a, 1, 0),
        result: Some(r#"{"generation":1,"epoch":0}"#.to_owned()),
        admitted: vec![Admission { identity: b.to_string(), request, first: 3, last: 4 }],
        ref_state: None,
        target_follows_commit: false,
    };
    let other = mint();
    let err = outcome_from_view(&view, &OpIdentity::Generic(other)).unwrap_err();
    assert!(matches!(err, CoreError::RecoveryFailed(_)), "{err:?}");
    let leader = outcome_from_view(&view, &OpIdentity::Generic(a)).unwrap();
    assert_eq!(number(&leader, "generation"), 1);
    let companion = outcome_from_view(&view, &OpIdentity::Generic(b)).unwrap();
    assert_eq!(number(&companion, "first"), 3);
    assert_eq!(number(&companion, "last"), 4);
}

#[test]
fn published_from_view_keeps_lease_and_retained_target() {
    let op = mint();
    let request = DigestKey::from_bytes([9u8; 32]).digest(b"req");
    let target = DigestKey::from_bytes([2u8; 32]).digest(b"blob");
    let until = Timestamp::now();
    let mut ref_state = RefValue::new("org_t", "r", until);
    ref_state.generation = 2;
    ref_state.epoch = 1;
    ref_state.target = Some(target);
    ref_state.lease = Some(Lease { writer: "w".to_owned(), lease_until: until });
    let view = CommitView {
        digest: request,
        header: header(&op, 2, 1),
        result: Some(r#"{"generation":2,"epoch":1}"#.to_owned()),
        admitted: Vec::new(),
        ref_state: Some(ref_state),
        target_follows_commit: false,
    };
    let published = published_from_view(&view, &OpIdentity::Generic(op), "org_t", false).unwrap();
    let lease = published.value.lease.unwrap();
    assert_eq!((lease.writer.as_str(), lease.lease_until), ("w", until));
    assert_eq!(published.value.target, Some(target));
    assert_eq!(published.value.head_commit, Some(view.digest));
}

// ------------------------------------------------------------------ blobs
fn blob_spec(enc: u64, pt: u64) -> EnvelopeReadSpec<'static> {
    EnvelopeReadSpec {
        tenant: "org_t",
        kind: ObjectKind::Blob,
        schema: "comb.object/v1",
        max_encoded_bytes: enc,
        max_plaintext_bytes: pt,
    }
}

fn blob_store() -> Store {
    Store::new("org_t", DigestKey::from_bytes([3u8; 32]))
}

#[test]
fn get_blob_limited_exact_encoded_cap() {
    let store = blob_store();
    let payload = b"hello-limited".to_vec();
    let (digest, encoded) = store.put_blob(payload.clone()).unwrap();
    let n = encoded.len() as u64;
    let mut mem = MemoryBackend::new();
    mem.put_create(&store.object_key(&digest), &encoded).unwrap();
    let spec = blob_spec(n, payload.len() as u64);
    let (bytes, _) = mem.get_limited(&store.object_key(&digest), n).unwrap();
    assert_eq!(store.open_blob_limited(&digest, &bytes, &spec).unwrap(), payload);
    match mem.get_limited(&store.object_key(&digest), n - 1).unwrap_err() {
        CoreError::ObjectTooLarge { limit, actual: Some(actual), .. } => {
            assert_eq!(limit, n - 1);
            assert_eq!(actual, n);
        }
        other => panic!("expected ObjectTooLarge, got {other:?}"),
    }
    match store.open_blob_limited(&digest, &bytes, &blob_spec(n - 1, payload.len() as u64)) {
        Err(Failure::Core(CoreError::ObjectTooLarge { key, limit, actual: Some(actual) })) => {
            assert_eq!(key, store.object_key(&digest));
            assert_eq!((limit, actual), (n - 1, n));
        }
        other => panic!("expected ObjectTooLarge, got {other:?}"),
    }
}

#[test]
fn get_blob_limited_plaintext_cap() {
    let store = blob_store();
    let (digest, encoded) = store.put_blob(vec![0xff; 64]).unwrap();
    match store.open_blob_limited(&digest, &encoded, &blob_spec(4 * 1024, 63)) {
        Err(Failure::Core(CoreError::ObjectTooLarge { limit: 63, actual: Some(64), .. })) => {}
        other => panic!("expected plaintext ObjectTooLarge, got {other:?}"),
    }
}

#[test]
fn oversized_cache_is_bounded_quarantined_and_refetched() {
    let store = blob_store();
    let payload = b"tiny".to_vec();
    let (digest, encoded) = store.put_blob(payload.clone()).unwrap();
    let spec = blob_spec(1024, 1024);
    assert_eq!(cache_read_limited(256 * 1024, 1024), None);
    assert_eq!(cache_read_limited(1024, 1024), Some(1025));
    let grown = cached_bytes(vec![0u8; 1025], 1024);
    assert!(matches!(grown, CachedRead::Oversized));
    assert!(matches!(store.get_blob_limited(&digest, &grown, &spec), CacheUse::Quarantine));
    assert_eq!(store.open_blob_limited(&digest, &encoded, &spec).unwrap(), payload);
    let corrupt = cached_bytes(vec![0u8; 100], 1024);
    assert!(matches!(store.get_blob_limited(&digest, &corrupt, &spec), CacheUse::Quarantine));
}

#[test]
fn cache_hit_uses_limited_decode() {
    let store = blob_store();
    let payload = b"cached".to_vec();
    let (digest, encoded) = store.put_blob(payload.clone()).unwrap();
    let spec = blob_spec(4096, 4096);
    assert!(matches!(store.get_blob_limited(&digest, &CachedRead::Absent, &spec), CacheUse::Absent));
    match store.get_blob_limited(&digest, &cached_bytes(encoded.clone(), 4096), &spec) {
        CacheUse::Hit(got) => assert_eq!(got, payload),
        other => panic!("{other:?}"),
    }
    match store.get_blob(&digest, &encoded) {
        CacheUse::Hit(got) => assert_eq!(got, payload),
        other => panic!("{other:?}"),
    }
    let (_, foreign) = store.put_blob(b"another".to_vec()).unwrap();
    assert!(matches!(store.get_blob(&digest, &foreign), CacheUse::Quarantine));
    assert!(matches!(store.open_blob(&digest, &foreign), Err(Failure::DigestMismatch { .. })));
}

#[test]
fn keys_of_a_store() {
    let store = store();
    let d = store.key.digest(b"x");
    assert_eq!(store.object_key(&d),
        format!("comb/v2/tenants/org_t/objects/b3k/{}/{}", d.key_prefix(), d.hex()));
    assert_eq!(store.ref_key("log/a/p0"), "comb/v2/tenants/org_t/refs/log/a/p0.json");
    assert_eq!(store.v1_ref_key("r"), "comb/v1/tenants/org_t/refs/r.json");
}

// ----------------------------------------------------------- publications
struct World {
    store: Store,
    backend: MemoryBackend,
    refs: HashMap<String, RefValue>,
    intents: HashMap<String, OpIntent>,
    chain: Chain,
    /// Writes of the ref that are still to be lost.
    lose_ref: u32,
}

enum Outcome<R> {
    New(Published<R>),
    Known(Published<RecordedOutcome>),
}

impl World {
    fn new() -> Self {
        World {
            store: store(),
            backend: MemoryBackend::new(),
            refs: HashMap::new(),
            intents: HashMap::new(),
            chain: Chain(HashMap::new()),
            lose_ref: 0,
        }
    }

    fn head(&self, name: &str) -> Result<Option<HeadSnapshot>> {
        let key = self.store.ref_key(name);
        let v1 = Ok(self.backend.contains(&self.store.v1_ref_key(name)));
        let fetched = match self.backend.get(&key) {
            Err(e) => RefFetch::Failed(e),
            Ok((_, version)) => RefFetch::Value { value: self.refs[&key].clone(), version },
        };
        self.store.read_head(name, v1, fetched)
    }

    fn snapshot(&self, name: &str, now: Timestamp) -> Result<HeadSnapshot> {
        Ok(self.head(name)?.unwrap_or_else(|| self.store.empty_head(name, now)))
    }

    fn intent(&self, identity: &OpIdentity) -> Result<Option<(OpIntent, Version)>> {
        let key = self.store.intent_key(identity);
        let fetched = match self.backend.get(&key) {
            Err(e) => IntentFetch::Failed(e),
            Ok((_, version)) => IntentFetch::Value { intent: copy_intent(&self.intents[&key]), version },
        };
        load_intent(identity, fetched)
    }

    fn put_intent(&mut self, identity: &OpIdentity, intent: &OpIntent, version: Option<&Version>) -> Result<Version> {
        let key = self.store.intent_key(identity);
        let v = self.backend.put_update(&key, version, b"intent")?;
        self.intents.insert(key, copy_intent(intent));
        Ok(v)
    }

    fn attempt<R: Copy>(
        &mut self,
        p: &Publication,
        base: u64,
        prepare: &dyn Fn(&PrepareCtx<'_>) -> Result<PreparedMutation<R>>,
    ) -> std::result::Result<Option<Published<R>>, Failure> {
        let now = Timestamp::now();
        let core = Failure::Core;
        let snapshot = self.snapshot(&p.resource, now).map_err(core)?;
        let generation = match open_attempt(&snapshot, base).map_err(core)? {
            None => return Ok(None),
            Some(g) => g,
        };
        let parent = snapshot.value.head_commit;
        let skip = self
            .chain
            .drive(|t| compute_skip(t, generation, parent, &p.resource))
            .map_err(core)?;
        let ctx = PrepareCtx {
            snapshot: &snapshot,
            identity: &p.identity,
            request: p.request,
            generation,
            parent,
            skip,
            now,
        };
        let prepared = prepare(&ctx).map_err(core)?;
        let commit = commit_object(&ctx, &p.resource, &prepared).map_err(core)?;
        let text = format!("{commit:?}").into_bytes();
        let intent = copy_intent(p.intent.as_ref().unwrap());
        let mut a = Attempt::start(&self.store, &ctx, prepared, Some(text), intent, p.version.clone(), base)?;
        let mut held = Some(commit);
        loop {
            let answer = match a.phase {
                AttemptPhase::Committed => {
                    let done = a.published();
                    return Ok(Some(done));
                }
                AttemptPhase::Lost => return Ok(None),
                AttemptPhase::Intent => {
                    let (intent, version) = a.intent.as_ref().unwrap();
                    let identity = OpIdentity::parse(&intent.identity).unwrap();
                    let (intent, version) = (copy_intent(intent), version.clone());
                    self.put_intent(&identity, &intent, version.as_ref())
                }
                AttemptPhase::Object(i) => {
                    let (digest, bytes) = &a.staged[i];
                    let r = self.backend.put_create(&self.store.object_key(digest), bytes);
                    if let Some(c) = held.take() {
                        let view = load_commit_view(*digest, CommitObject::Plain(c)).unwrap();
                        self.chain.0.insert(*digest, view);
                    }
                    r
                }
                AttemptPhase::Ref => {
                    let key = self.store.ref_key(&p.resource);
                    if self.lose_ref > 0 {
                        self.lose_ref -= 1;
                        Err(CoreError::PreconditionFailed("race".to_owned()))
                    } else {
                        let r = self.backend.put_update(&key, a.expected.as_ref(), b"ref");
                        if r.is_ok() {
                            self.refs.insert(key, a.next.clone());
                        }
                        r
                    }
                }
                other => panic!("{other:?}"),
            };
            a.on_put(answer).map_err(core)?;
        }
    }

    fn find(&self, p: &Publication) -> Result<Finding> {
        let head = self.snapshot(&p.resource, Timestamp::now())?.value;
        self.chain.drive(|t| p.find(t, &head, "org_t"))
    }

    /// The phases of a publication up to the first that writes, and what was
    /// found on the way.
    fn phases(&self, op: OperationId, target: Digest) -> (Vec<PublishPhase>, Result<Option<Published<RecordedOutcome>>>) {
        let policy = OperationPolicy::default();
        let plan = SetTargetPlan { name: "main".to_owned(), target, fence: None };
        let request = plan.material().hash(&self.store.key, &self.store.tenant, "main");
        let identity = OpIdentity::Generic(op);
        let mut p = Publication::new(identity.clone(), "main", request, &policy);
        let loaded = self.intent(&identity).unwrap();
        if let Err(e) = p.on_intent(loaded, Timestamp::now(), &policy) {
            return (Vec::new(), Err(e));
        }
        let mut seen = Vec::new();
        loop {
            seen.push(p.phase);
            if matches!(p.phase, PublishPhase::Create | PublishPhase::Attempt { .. }) {
                return (seen, Ok(None));
            }
            match self.find(&p) {
                Err(e) => return (seen, Err(e)),
                Ok(found) => {
                    if let Some(done) = p.on_found(found) {
                        assert_eq!(p.phase, PublishPhase::Done);
                        return (seen, Ok(Some(done)));
                    }
                }
            }
        }
    }

    fn publish<R: Copy>(
        &mut self,
        op: OperationId,
        resource: &str,
        material: Material,
        prepare: &dyn Fn(&PrepareCtx<'_>) -> Result<PreparedMutation<R>>,
    ) -> std::result::Result<Outcome<R>, Failure> {
        let identity = OpIdentity::Generic(op);
        let policy = OperationPolicy::default();
        let request = material.hash(&self.store.key, &self.store.tenant, resource);
        let core = Failure::Core;
        let mut p = Publication::new(identity.clone(), resource, request, &policy);
        loop {
            match p.phase {
                PublishPhase::Load => {
                    let loaded = self.intent(&identity).map_err(core)?;
                    p.on_intent(loaded, Timestamp::now(), &policy).map_err(core)?;
                }
                PublishPhase::Cached { .. }
                | PublishPhase::Recover
                | PublishPhase::Base
                | PublishPhase::Resolve => {
                    let found = self.find(&p).map_err(core)?;
                    if let Some(done) = p.on_found(found) {
                        return Ok(Outcome::Known(done));
                    }
                }
                PublishPhase::Create => {
                    let intent = copy_intent(p.intent.as_ref().unwrap());
                    let answer = self.put_intent(&identity, &intent, None);
                    p.on_created(answer)?;
                }
                PublishPhase::Attempt { base } => {
                    let done = self.attempt(&p, base, prepare)?;
                    p.on_attempt(done.is_some())?;
                    if let Some(done) = done {
                        return Ok(Outcome::New(done));
                    }
                }
                PublishPhase::Done => panic!("published twice"),
            }
        }
    }

    fn change(
        &mut self,
        op: OperationId,
        material: Material,
        prepare: &dyn Fn(&PrepareCtx<'_>) -> Result<PreparedMutation<MutationResult>>,
    ) -> std::result::Result<MutationOutcome, Failure> {
        match self.publish(op, "main", material, prepare)? {
            Outcome::New(p) => Ok(MutationOutcome::from_published(p)),
            Outcome::Known(p) => {
                let generation = number(&p.outcome, "generation");
                let epoch = number(&p.outcome, "epoch");
                Ok(MutationOutcome::from_published(Published {
                    outcome: MutationResult { generation, epoch },
                    generation: p.generation,
                    epoch: p.epoch,
                    commit: p.commit,
                    value: p.value,
                    first_delivery: p.first_delivery,
                    admitted: p.admitted,
                }))
            }
        }
    }

    fn set(&mut self, op: OperationId, target: Digest, fence: Option<u64>) -> std::result::Result<MutationOutcome, Failure> {
        let plan = SetTargetPlan { name: "main".to_owned(), target, fence };
        self.change(op, plan.material(), &|ctx| plan.prepare(ctx, &TargetContent::Absent))
    }

    fn claim(&mut self, writer: &str, steal: bool) -> std::result::Result<MutationOutcome, Failure> {
        let plan = ClaimPlan { name: "main".to_owned(), writer: writer.to_owned(), ttl_secs: 60, steal };
        self.change(mint(), plan.material(), &|ctx| plan.prepare(ctx))
    }

    fn release(&mut self, fence: u64) -> std::result::Result<MutationOutcome, Failure> {
        let plan = ReleasePlan { name: "main".to_owned(), fence };
        self.change(mint(), plan.material(), &|ctx| plan.prepare(ctx))
    }

    fn release_owned(&mut self, writer: &str, fence: u64) -> std::result::Result<MutationOutcome, Failure> {
        let release = ReleasePlan { name: "main".to_owned(), fence };
        let plan = OwnedReleasePlan { release, writer: writer.to_owned() };
        self.change(mint(), plan.material(), &|ctx| plan.prepare(ctx))
    }

    fn history(&self) -> Vec<HistoryEntry> {
        let head = self.snapshot("main", Timestamp::now()).unwrap().value;
        self.chain.drive(|t| history_chain(t, &head, "main", usize::MAX)).unwrap()
    }
}

fn copy_intent(i: &OpIntent) -> OpIntent {
    OpIntent {
        schema: i.schema.clone(),
        identity: i.identity.clone(),
        resource: i.resource.clone(),
        request: i.request,
        base_generation: i.base_generation,
        proposed: i.proposed.clone(),
        state: i.state.clone(),
        expires_at: i.expires_at,
    }
}

fn blob(n: u8) -> Digest {
    store().key.digest(&[n])
}

#[test]
fn publications_advance_by_one_and_are_in_the_history() {
    let mut w = World::new();
    for n in 1..=9u8 {
        let done = w.set(mint(), blob(n), None).unwrap();
        assert_eq!(done.generation, n as u64);
        assert!(done.first_delivery);
        assert_eq!(done.value.target, Some(blob(n)));
        assert_eq!(done.value.head_commit, Some(done.commit));
    }
    let history = w.history();
    assert_eq!(history.iter().map(|e| e.generation).collect::<Vec<_>>(), (1..=9).rev().collect::<Vec<_>>());
    assert_eq!(history[0].target, Some(blob(9)));
    // Skips reach every generation.
    let head = w.snapshot("main", Timestamp::now()).unwrap().value.head_commit.unwrap();
    for g in 1..=9 {
        let found = w.chain.drive(|t| seek_generation(t, &head, g, "main")).unwrap().0;
        assert_eq!(found.header.generation, g);
    }
}

#[test]
fn a_repeated_operation_is_answered_from_the_chain() {
    let mut w = World::new();
    let op = mint();
    let first = w.set(op, blob(1), None).unwrap();
    w.set(mint(), blob(2), None).unwrap();
    let again = w.set(op, blob(1), None).unwrap();
    assert!(!again.first_delivery);
    assert_eq!(again.generation, first.generation);
    assert_eq!(again.commit, first.commit);
    assert_eq!(again.value.target, Some(blob(1)));
    assert_eq!(w.snapshot("main", Timestamp::now()).unwrap().value.generation, 2);
    match w.set(op, blob(3), None) {
        Err(Failure::Core(CoreError::IdempotencyConflict { .. })) => {}
        other => panic!("{other:?}"),
    }
    assert_eq!(w.snapshot("main", Timestamp::now()).unwrap().value.generation, 2);
}

#[test]
fn an_operation_without_its_intent_is_still_found() {
    let mut w = World::new();
    let op = mint();
    w.set(op, blob(1), None).unwrap();
    let key = w.store.intent_key(&OpIdentity::Generic(op));
    w.backend.delete(&key);
    let again = w.set(op, blob(1), None).unwrap();
    assert!(!again.first_delivery);
    assert_eq!(again.generation, 1);
    match w.set(op, blob(3), None) {
        Err(Failure::Core(CoreError::IdempotencyConflict { .. })) => {}
        other => panic!("{other:?}"),
    }
    assert_eq!(w.snapshot("main", Timestamp::now()).unwrap().value.generation, 1);
}

#[test]
fn the_phases_of_a_publication_come_to_its_answer() {
    let mut w = World::new();
    let op = mint();
    let (seen, found) = w.phases(op, blob(1));
    assert_eq!(seen, vec![PublishPhase::Recover, PublishPhase::Base, PublishPhase::Create]);
    assert!(found.unwrap().is_none());

    let first = w.set(op, blob(1), None).unwrap();
    w.set(mint(), blob(2), None).unwrap();
    let (seen, found) = w.phases(op, blob(1));
    assert_eq!(seen, vec![PublishPhase::Resolve]);
    let found = found.unwrap().unwrap();
    assert_eq!((found.generation, found.commit, found.first_delivery), (1, first.commit, false));
    let (seen, found) = w.phases(op, blob(3));
    assert!(seen.is_empty());
    assert!(matches!(found, Err(CoreError::IdempotencyConflict { .. })));

    let identity = OpIdentity::Generic(op);
    let (intent, version) = w.intent(&identity).unwrap().unwrap();
    let applied = finalize_intent(intent, 1, first.commit, r#"{"generation":1,"epoch":0}"#.to_owned());
    let version = w.put_intent(&identity, &applied, Some(&version)).unwrap();
    let (seen, found) = w.phases(op, blob(1));
    assert_eq!(seen, vec![PublishPhase::Cached { generation: 1, commit: first.commit }]);
    assert_eq!(found.unwrap().unwrap().commit, first.commit);

    // A mark that the chain does not confirm is passed over.
    let wrong = finalize_intent(copy_intent(&applied), 2, first.commit, r#"{"generation":2,"epoch":0}"#.to_owned());
    w.put_intent(&identity, &wrong, Some(&version)).unwrap();
    let (seen, found) = w.phases(op, blob(1));
    assert_eq!(seen, vec![
        PublishPhase::Cached { generation: 2, commit: first.commit },
        PublishPhase::Recover,
    ]);
    assert_eq!(found.unwrap().unwrap().commit, first.commit);

    w.backend.delete(&w.store.intent_key(&identity));
    let (seen, found) = w.phases(op, blob(1));
    assert_eq!(seen, vec![PublishPhase::Recover]);
    assert_eq!(found.unwrap().unwrap().generation, 1);
    let (seen, found) = w.phases(op, blob(3));
    assert_eq!(seen, vec![PublishPhase::Recover]);
    assert!(matches!(found, Err(CoreError::IdempotencyConflict { .. })));
}

#[test]
fn a_commit_records_its_request() {
    let mut w = World::new();
    w.set(mint(), blob(1), None).unwrap();
    let op = mint();
    let done = w.set(op, blob(2), None).unwrap();
    let plan = SetTargetPlan { name: "main".to_owned(), target: blob(2), fence: None };
    let record = &w.chain.0[&done.commit];
    assert_eq!(record.header.identity, op.to_string());
    assert_eq!(record.header.request, plan.material().hash(&w.store.key, &w.store.tenant, "main"));
    assert_eq!((record.header.generation, record.header.resource.as_str()), (2, "main"));
    assert_eq!(record.ref_state.as_ref().unwrap().target, Some(blob(2)));
}

#[test]
fn an_attempt_without_an_intent_starts_at_its_snapshot() {
    let mut w = World::new();
    w.set(mint(), blob(1), None).unwrap();
    let now = Timestamp::now();
    let snapshot = w.snapshot("main", now).unwrap();
    let identity = OpIdentity::Generic(mint());
    let plan = SetTargetPlan { name: "main".to_owned(), target: blob(2), fence: None };
    let ctx = PrepareCtx {
        snapshot: &snapshot,
        identity: &identity,
        request: plan.material().hash(&w.store.key, &w.store.tenant, "main"),
        generation: 2,
        parent: snapshot.value.head_commit,
        skip: None,
        now,
    };
    let prepared = plan.prepare(&ctx, &TargetContent::Absent).unwrap();
    let a = Attempt::start_at_snapshot(&w.store, &ctx, prepared, Some(b"commit".to_vec())).unwrap();
    assert_eq!((a.base, a.generation), (1, 2));
    assert_eq!(a.phase, AttemptPhase::Object(0));
    assert!(a.intent.is_none());
    assert_eq!(a.next.head_commit, Some(a.commit));
}

#[test]
fn a_finalized_intent_is_looked_up() {
    let mut w = World::new();
    let op = mint();
    let first = w.set(op, blob(1), None).unwrap();
    let identity = OpIdentity::Generic(op);
    let (intent, version) = w.intent(&identity).unwrap().unwrap();
    let done = finalize_intent(intent, 1, first.commit, r#"{"generation":1,"epoch":0}"#.to_owned());
    w.put_intent(&identity, &done, Some(&version)).unwrap();
    let again = w.set(op, blob(1), None).unwrap();
    assert!(!again.first_delivery);
    assert_eq!(again.commit, first.commit);
}

#[test]
fn a_lost_race_is_tried_again() {
    let mut w = World::new();
    w.lose_ref = 3;
    let done = w.set(mint(), blob(1), None).unwrap();
    assert_eq!(done.generation, 1);
    w.lose_ref = u32::MAX;
    match w.set(mint(), blob(2), None) {
        Err(Failure::PublicationNotConverged) => {}
        other => panic!("{other:?}"),
    }
    w.lose_ref = 0;
    assert_eq!(w.snapshot("main", Timestamp::now()).unwrap().value.generation, 1);
}

#[test]
fn leases_fence_earlier_writers() {
    let mut w = World::new();
    let a = w.claim("a", false).unwrap();
    assert_eq!(a.epoch, 1);
    match w.claim("b", false) {
        Err(Failure::Core(CoreError::LeaseHeld { holder, .. })) => assert_eq!(holder, "a"),
        other => panic!("{other:?}"),
    }
    match w.set(mint(), blob(1), None) {
        Err(Failure::Core(CoreError::LeaseHeld { .. })) => {}
        other => panic!("{other:?}"),
    }
    w.set(mint(), blob(1), Some(1)).unwrap();
    let b = w.claim("b", true).unwrap();
    assert_eq!(b.epoch, 2);
    match w.set(mint(), blob(2), Some(1)) {
        Err(Failure::Core(CoreError::Fenced { caller: 1, live: 2 })) => {}
        other => panic!("{other:?}"),
    }
    match w.release(1) {
        Err(Failure::Core(CoreError::Fenced { .. })) => {}
        other => panic!("{other:?}"),
    }
    let gone = w.release(2).unwrap();
    assert!(gone.value.lease.is_none());
    w.set(mint(), blob(3), None).unwrap();
}

#[test]
fn a_lease_is_given_back_by_its_owner() {
    let mut w = World::new();
    w.claim("a", false).unwrap();
    match w.release_owned("b", 1) {
        Err(Failure::Core(CoreError::LeaseHeld { holder, .. })) => assert_eq!(holder, "a"),
        other => panic!("{other:?}"),
    }
    match w.release_owned("a", 2) {
        Err(Failure::Core(CoreError::Fenced { caller: 2, live: 1 })) => {}
        other => panic!("{other:?}"),
    }
    let gone = w.release_owned("a", 1).unwrap();
    assert!(gone.value.lease.is_none());
    assert_eq!((gone.generation, gone.value.epoch), (2, 1));
    match w.release_owned("a", 1) {
        Err(Failure::Core(CoreError::LeaseExpired)) => {}
        other => panic!("{other:?}"),
    }
}

#[test]
fn a_lease_is_renewed_without_a_generation() {
    let mut w = World::new();
    let now = Timestamp::now();
    assert!(matches!(renew_lease("main", &w.head("main").unwrap(), 1, 60, now), Err(Failure::NoSuchRef { .. })));
    let a = w.claim("a", false).unwrap();
    let later = now.plus(30_000_000_000);
    let next = renew_lease("main", &w.head("main").unwrap(), 1, 60, later).unwrap();
    assert_eq!(next.generation, a.generation);
    assert_eq!(next.lease.as_ref().unwrap().lease_until, later.plus(60_000_000_000));
    assert!(matches!(renew_lease("main", &w.head("main").unwrap(), 7, 60, later),
        Err(Failure::Core(CoreError::Fenced { caller: 7, live: 1 }))));
    w.release(1).unwrap();
    assert!(matches!(renew_lease("main", &w.head("main").unwrap(), 1, 60, later), Err(Failure::NoLease { .. })));
    let raced = || Err(CoreError::PreconditionFailed("x".to_owned()));
    assert!(matches!(renew_again(1, Ok(Version("1".to_owned()))), Ok(true)));
    assert!(matches!(renew_again(1, raced()), Ok(false)));
    assert!(matches!(renew_again(16, raced()), Err(Failure::LostRace)));
}

#[test]
fn an_earlier_layout_is_not_read() {
    let mut w = World::new();
    let key = w.store.v1_ref_key("main");
    w.backend.put_create(&key, b"old").unwrap();
    assert!(matches!(w.head("main"), Err(CoreError::InvalidFormat(_))));
}

#[test]
fn an_object_is_sealed_within_a_limit() {
    let store = Store::new("org_t", DigestKey::from_bytes([7u8; 32]));
    let body = vec![1u8; 100];
    let (digest, bytes) = store.seal(ObjectKind::Blob, "s/v1", body.clone()).unwrap();
    // The time of sealing is part of the object, and is written with more or
    // fewer digits.
    let size = bytes.len() as u64 + 16;
    let kept = store.seal_limited(ObjectKind::Blob, "s/v1", body.clone(), size).unwrap();
    assert_eq!(kept.0, digest);
    assert!(kept.1.len() as u64 <= size);
    match store.seal_limited(ObjectKind::Blob, "s/v1", body, 99) {
        Err(CoreError::ObjectTooLarge { key, limit: 99, actual: Some(n) }) => {
            assert_eq!(key, store.object_key(&digest));
            assert!(n > 99);
        }
        other => panic!("expected a refusal, got {other:?}"),
    }
}

#[test]
fn every_generation_is_found_again() {
    let mut chain = Chain(HashMap::new());
    let mut commits: Vec<Digest> = Vec::new();
    for generation in 1..=300u64 {
        let parent = commits.last().copied();
        let skip = chain.drive(|t| compute_skip(t, generation, parent, "r")).unwrap();
        let low = generation & generation.wrapping_neg();
        let behind = (generation - low) as usize;
        assert_eq!(skip, if behind == 0 { None } else { Some(commits[behind - 1]) });
        let name = generation.to_string();
        commits.push(chain.put(name.as_bytes(), commit(generation, "r", parent, skip)));
    }
    let last = commits[299];
    for generation in 1..=300 {
        let (found, reads) =
            chain.drive(|t| seek_generation(t, &last, generation, "r")).unwrap();
        assert_eq!(found.digest, commits[generation as usize - 1]);
        assert!(reads < 90, "generation {generation} took {reads} reads");
    }
    let mut head = RefValue::new("org_t", "r", Timestamp::epoch());
    head.generation = 300;
    head.head_commit = Some(last);
    let entries = chain.drive(|t| history_chain(t, &head, "r", 5)).unwrap();
    let generations: Vec<u64> = entries.iter().map(|e| e.generation).collect();
    assert_eq!(generations, vec![300, 299, 298, 297, 296]);
    let id = OpIdentity::Generic(OperationId::from_millis_and_entropy(5, [3u8; 18]));
    let request = store().key.digest(b"req");
    let found = chain
        .drive(|t| resolve_pending(t, &head, 17, &id, &request, "r", "org_t"))
        .unwrap();
    match found {
        PendingResolution::Done(p) => assert_eq!(p.commit, commits[17]),
        other => panic!("expected the publication, got {other:?}"),
    }
    let newest = chain
        .drive(|t| recover_without_intent(t, Some(last), &id, &request, "r", "org_t"))
        .unwrap();
    assert_eq!(newest.unwrap().commit, last);
}
