//! The publication engine: every logical change of a ref goes through here.
//!
//! Recovery truth is the immutable commit chain linked from the ref. The
//! per-identity intent is an attempt record, guarded by compare-and-swap,
//! and a cache of the result. Each machine below says what to read or write
//! next and takes in what came of it.
use vstd::prelude::*;

use crate::chain::{
    idempotency_conflict, identity_in_commit, is_conflict, is_publication, outcome_of,
    published_from_view, records, records_request, request_in_commit, restorable, seek,
    seek_generation, unrecorded, ChainSeek, CommitRecord, CommitView, Published, RecordedOutcome,
};
use crate::commit::{
    Admission, Commit, CommitHeader, IntentState, OpIntent, COMMIT_SCHEMA, HEADER_SCHEMA,
};
use crate::digest::Digest;
use crate::envelope::ObjectKind;
use crate::error::{recovery_failed, rejected, CoreError, ErrorView, Result};
use crate::object::Version;
use crate::operation::{
    id_millis, identity_fault, is_identity_text, OpIdentity, OperationPolicy,
};
use crate::plans::{Companion, PrepareCtx, PreparedMutation, Upload};
use crate::refs::{RefValue, REF_SCHEMA};
use crate::store::{
    copy_version, heavy_meta, oversized_meta, stored_as, Failure, HeadSnapshot, Store,
};
use crate::table::{FetchedView, Step, Table};
use crate::text::{decimal, decimal_text, join3, join4, join5, same_text};
use crate::time::{is_moment, Timestamp};

verus! {

/// How often a publication is tried.
pub const MAX_PUBLISH_ATTEMPTS: u32 = 128;

/// How often the renewal of a lease is tried.
pub const MAX_RENEWALS: u32 = 16;

// ---------------------------------------------------------------- intents
/// What came of fetching an intent.
#[derive(Debug)]
pub enum IntentFetch {
    Failed(CoreError),
    Malformed { detail: String },
    Value { intent: OpIntent, version: Version },
}

/// What is recorded in an intent.
pub struct IntentRecord {
    pub schema: Seq<char>,
    pub identity: Seq<char>,
    pub resource: Seq<char>,
    pub request: Digest,
    pub base_generation: u64,
    pub proposed: Seq<Digest>,
    pub state: IntentState,
    pub expires_at: Option<Timestamp>,
}

pub open spec fn intent_view(i: OpIntent) -> IntentRecord {
    IntentRecord {
        schema: i.schema@,
        identity: i.identity@,
        resource: i.resource@,
        request: i.request,
        base_generation: i.base_generation,
        proposed: i.proposed@,
        state: i.state,
        expires_at: i.expires_at,
    }
}

/// The intent of the identity, from what came of fetching it. An intent that
/// is not readable, not valid or of another identity is never ignored.
pub fn load_intent(identity: &OpIdentity, fetched: IntentFetch) -> (r: Result<
    Option<(OpIntent, Version)>,
>)
    ensures
        match fetched {
            IntentFetch::Failed(e) => if e is NotFound {
                r matches Ok(None)
            } else {
                r matches Err(f) && f == e
            },
            IntentFetch::Malformed { detail } => r matches Err(e) && e@
                == ErrorView::RecoveryFailed(
                "malformed intent "@ + identity.text() + ": "@ + detail@,
            ),
            IntentFetch::Value { intent, version } => if intent.valid() && intent.identity@
                == identity.text() {
                r matches Ok(Some(p)) && p.0 == intent && p.1 == version
            } else {
                r matches Err(e) && e@ == ErrorView::RecoveryFailed(
                    if intent.valid() {
                        "intent "@ + identity.text() + " stored identity "@ + intent.identity@
                    } else {
                        "intent "@ + identity.text() + ": "@ + (intent.fault()->0).text()
                    },
                )
            },
        },
{
    match fetched {
        IntentFetch::Failed(CoreError::NotFound(_)) => Ok(None),
        IntentFetch::Failed(e) => Err(e),
        IntentFetch::Malformed { detail } => Err(
            CoreError::RecoveryFailed(
                join4("malformed intent ", &identity.canonical(), ": ", &detail),
            ),
        ),
        IntentFetch::Value { intent, version } => {
            match intent.validate() {
                Err(e) => {
                    let m: String = join4(
                        "intent ",
                        &identity.canonical(),
                        ": ",
                        &e.to_string(),
                    );
                    return Err(CoreError::RecoveryFailed(m));
                },
                Ok(_) => {},
            }
            let id: String = identity.canonical();
            if !same_text(&intent.identity, &id) {
                let m: String = join4("intent ", &id, " stored identity ", &intent.identity);
                return Err(CoreError::RecoveryFailed(m));
            }
            Ok(Some((intent, version)))
        },
    }
}

/// Whether an intent is for this request of this resource.
pub fn check_intent(
    intent: &OpIntent,
    identity: &OpIdentity,
    resource: &str,
    request: &Digest,
) -> (r: Result<()>)
    ensures
        if intent.identity@ != identity.text() {
            r matches Err(CoreError::RecoveryFailed(m)) && m@ == "intent "@ + identity.text()
                + " stored identity "@ + intent.identity@
        } else if intent.resource@ != resource@ || intent.request != *request {
            r matches Err(e) && is_conflict(e, identity.text(), intent.request, *request)
        } else {
            r is Ok
        },
{
    let id: String = identity.canonical();
    if !same_text(&intent.identity, &id) {
        let m: String = join4("intent ", &id, " stored identity ", &intent.identity);
        return Err(CoreError::RecoveryFailed(m));
    }
    if !same_text(&intent.resource, resource) || intent.request != *request {
        return Err(idempotency_conflict(identity, &intent.request, request));
    }
    Ok(())
}

/// When the intent of an identity expires.
pub fn intent_expiry(identity: &OpIdentity, policy: &OperationPolicy) -> (r: Option<Timestamp>)
    requires
        identity matches OpIdentity::Generic(op) ==> is_moment(
            id_millis(op@) * 1_000_000 + policy.window,
        ),
    ensures
        match identity {
            OpIdentity::Generic(op) => r matches Some(t) && t@ == id_millis(op@) * 1_000_000
                + policy.window,
            OpIdentity::Stable(_) => r is None,
        },
{
    match identity {
        OpIdentity::Generic(op) => Some(op.expires_at(policy)),
        OpIdentity::Stable(_) => None,
    }
}

/// The intent to be written once its request is published.
pub fn finalize_intent(intent: OpIntent, generation: u64, commit: Digest, result: String) -> (r:
    OpIntent)
    ensures
        r == (OpIntent { state: IntentState::Applied { generation, commit, result }, ..intent }),
{
    let mut done: OpIntent = intent;
    done.state = IntentState::Applied { generation, commit, result };
    done
}

// -------------------------------------------------------------- resolving
/// What is to be done about a pending intent.
#[derive(Debug)]
pub enum PendingResolution {
    Done(Published<RecordedOutcome>),
    Attempt { base: u64 },
}

/// What a pending intent with base `base` comes to once the head is read.
pub enum Resolution {
    Fetch(Digest),
    Fail(ErrorView),
    Conflict { original: Digest },
    Attempt { base: u64 },
    Found(CommitRecord),
}

/// What is said of a ref that is behind the base of an intent.
pub open spec fn behind_base(resource: Seq<char>, generation: u64, base: u64) -> Seq<char> {
    "ref "@ + resource + " generation "@ + decimal(generation as nat) + " is behind intent base "@
        + decimal(base as nat)
}

/// What is said of a ref that is past the base of an intent and names no
/// commit.
pub open spec fn no_commit_past(resource: Seq<char>, base: u64) -> Seq<char> {
    "ref "@ + resource + " advanced past "@ + decimal(base as nat) + " without a commit"@
}

/// The generation after the base decides: if the head is still there,
/// nothing was published; if the commit there is of this identity, it was;
/// otherwise another request won, and the head is the new base.
pub open spec fn resolution(
    m: Map<Digest, FetchedView<CommitRecord>>,
    head: RefValue,
    base: u64,
    id: Seq<char>,
    request: Digest,
    resource: Seq<char>,
) -> Resolution {
    if head.generation == base {
        Resolution::Attempt { base }
    } else if head.generation < base {
        Resolution::Fail(
            ErrorView::RecoveryFailed(behind_base(resource, head.generation, base)),
        )
    } else if head.head_commit is None {
        Resolution::Fail(ErrorView::RecoveryFailed(no_commit_past(resource, base)))
    } else {
        match seek(m, head.head_commit->0, (base + 1) as u64, resource) {
            ChainSeek::Fetch(d) => Resolution::Fetch(d),
            ChainSeek::Fail(c) => Resolution::Fail(c),
            ChainSeek::Found(v, _) => if !records(v, id) {
                Resolution::Attempt { base: head.generation }
            } else if !records_request(v, id, request) {
                Resolution::Conflict { original: v.header.request }
            } else {
                Resolution::Found(v)
            },
        }
    }
}

/// Finds out whether a pending intent was published.
pub fn resolve_pending(
    table: &Table<CommitView>,
    head: &RefValue,
    base: u64,
    identity: &OpIdentity,
    request: &Digest,
    resource: &str,
    tenant: &str,
) -> (r: Result<Step<PendingResolution>>)
    ensures
        match resolution(table@, *head, base, identity.text(), *request, resource@) {
            Resolution::Fetch(d) => r matches Ok(Step::Fetch(n)) && n == d,
            Resolution::Fail(c) => r matches Err(e) && e@ == c,
            Resolution::Conflict { original } => r matches Err(e) && is_conflict(
                e,
                identity.text(),
                original,
                *request,
            ),
            Resolution::Attempt { base: b } => r matches Ok(
                Step::Done(PendingResolution::Attempt { base: x }),
            ) && x == b,
            Resolution::Found(v) => if outcome_of(v, identity.text()) is Some && restorable(
                v,
                tenant@,
            ) {
                r matches Ok(Step::Done(PendingResolution::Done(p))) && is_publication(
                    p,
                    v,
                    identity.text(),
                    false,
                )
            } else {
                r matches Err(e) && e@ == ErrorView::RecoveryFailed(
                    unrecorded(v, identity.text(), tenant@),
                )
            },
        },
{
    if head.generation == base {
        return Ok(Step::Done(PendingResolution::Attempt { base }));
    }
    if head.generation < base {
        let mut m: String = join5(
            "ref ",
            resource,
            " generation ",
            &decimal_text(head.generation),
            " is behind intent base ",
        );
        m.append(&decimal_text(base));
        return Err(CoreError::RecoveryFailed(m));
    }
    let head_commit: Digest = match head.head_commit {
        None => {
            let m: String = join5(
                "ref ",
                resource,
                " advanced past ",
                &decimal_text(base),
                " without a commit",
            );
            return Err(CoreError::RecoveryFailed(m));
        },
        Some(d) => d,
    };
    let view: CommitView = match seek_generation(table, &head_commit, base + 1, resource) {
        Err(e) => {
            return Err(e);
        },
        Ok(Step::Fetch(d)) => {
            return Ok(Step::Fetch(d));
        },
        Ok(Step::Done((v, _))) => v,
    };
    if !identity_in_commit(&view, identity) {
        return Ok(Step::Done(PendingResolution::Attempt { base: head.generation }));
    }
    if !request_in_commit(&view, identity, request) {
        return Err(idempotency_conflict(identity, &view.header.request, request));
    }
    match published_from_view(&view, identity, tenant, false) {
        Ok(p) => Ok(Step::Done(PendingResolution::Done(p))),
        Err(e) => Err(e),
    }
}

/// A pending intent is attempted only from a head that does not record it:
/// at its base nothing was published after the base, and elsewhere the
/// commit after the base is of another identity.
pub proof fn law_attempt_starts_from_the_head(
    m: Map<Digest, FetchedView<CommitRecord>>,
    head: RefValue,
    base: u64,
    id: Seq<char>,
    request: Digest,
    resource: Seq<char>,
)
    ensures
        resolution(m, head, base, id, request, resource) matches Resolution::Attempt { base: b }
            ==> b == head.generation && b >= base,
{
}

/// A pending intent at the head is attempted there. One behind the head is
/// decided by the commit right after its base: if that does not record the
/// identity, it is attempted from the head; if it records the request, it was
/// published; and if it records another, there is a conflict.
pub proof fn law_commit_after_the_base_decides(
    m: Map<Digest, FetchedView<CommitRecord>>,
    head: RefValue,
    base: u64,
    id: Seq<char>,
    request: Digest,
    resource: Seq<char>,
    v: CommitRecord,
    reads: nat,
)
    ensures
        head.generation == base ==> resolution(m, head, base, id, request, resource) == (
        Resolution::Attempt { base }),
        head.generation > base && head.head_commit is Some && seek(
            m,
            head.head_commit->0,
            (base + 1) as u64,
            resource,
        ) == ChainSeek::Found(v, reads) ==> {
            let r = resolution(m, head, base, id, request, resource);
            &&& !records(v, id) ==> r == (Resolution::Attempt { base: head.generation })
            &&& records(v, id) && records_request(v, id, request) ==> r == Resolution::Found(v)
            &&& records(v, id) && !records_request(v, id, request) ==> r == (Resolution::Conflict {
                original: v.header.request,
            })
        },
        resolution(m, head, base, id, request, resource) is Attempt ==> head.generation >= base,
{
}

// ---------------------------------------------------------------- attempt
/// The generation that an attempt from `base` publishes, or nothing if the
/// head has moved on.
pub fn open_attempt(snapshot: &HeadSnapshot, base: u64) -> (r: Result<Option<u64>>)
    ensures
        if snapshot.value.generation != base {
            r matches Ok(None)
        } else if snapshot.value.generation > 0 && snapshot.value.head_commit is None {
            r matches Err(e) && e@ == ErrorView::RecoveryFailed(
                "head has generation but no commit"@,
            )
        } else if base == u64::MAX {
            r matches Err(e) && e@ == ErrorView::Rejected("generation overflow"@)
        } else {
            r matches Ok(Some(g)) && g == base + 1
        },
{
    if snapshot.value.generation != base {
        return Ok(None);
    }
    match next_generation(snapshot) {
        Ok(g) => Ok(Some(g)),
        Err(e) => Err(e),
    }
}

/// The generation after a head.
pub fn next_generation(snapshot: &HeadSnapshot) -> (r: Result<u64>)
    ensures
        if snapshot.value.generation > 0 && snapshot.value.head_commit is None {
            r matches Err(e) && e@ == ErrorView::RecoveryFailed(
                "head has generation but no commit"@,
            )
        } else if snapshot.value.generation == u64::MAX {
            r matches Err(e) && e@ == ErrorView::Rejected("generation overflow"@)
        } else {
            r matches Ok(g) && g == snapshot.value.generation + 1
        },
{
    if snapshot.value.generation > 0 && snapshot.value.head_commit.is_none() {
        return Err(recovery_failed("head has generation but no commit"));
    }
    if snapshot.value.generation == u64::MAX {
        return Err(rejected("generation overflow"));
    }
    Ok(snapshot.value.generation + 1)
}

/// Whether `c` is the commit of a prepared change.
pub open spec fn is_commit_of<R>(
    c: Commit,
    ctx: PrepareCtx<'_>,
    resource: Seq<char>,
    prepared: PreparedMutation<R>,
) -> bool {
    &&& c.schema@ == COMMIT_SCHEMA@
    &&& c.header.schema@ == HEADER_SCHEMA@
    &&& c.header.resource@ == resource
    &&& c.header.generation == ctx.generation
    &&& c.header.epoch == prepared.next.epoch
    &&& c.header.identity@ == ctx.identity.text()
    &&& c.header.request == ctx.request
    &&& c.header.parent == ctx.snapshot.value.head_commit
    &&& c.header.skip == ctx.skip
    &&& c.header.at == ctx.now
    &&& c.change == prepared.change
    &&& c.result == prepared.result
    &&& c.ref_state == (RefValue { head_commit: None, ..prepared.next })
}

/// The commit object of a prepared change that has none of its own.
pub fn commit_object<R>(ctx: &PrepareCtx<'_>, resource: &str, prepared: &PreparedMutation<R>) -> (r:
    Result<Commit>)
    ensures
        match r {
            Ok(c) => is_commit_of(c, *ctx, resource@, *prepared) && is_identity_text(
                ctx.identity.text(),
            ),
            Err(e) => !is_identity_text(ctx.identity.text()) && e@ == identity_fault(
                ctx.identity.text(),
            ),
        },
{
    let header: CommitHeader = CommitHeader {
        schema: HEADER_SCHEMA.to_owned(),
        resource: resource.to_owned(),
        generation: ctx.generation,
        epoch: prepared.next.epoch,
        identity: ctx.identity.canonical(),
        request: ctx.request,
        parent: ctx.snapshot.value.head_commit,
        skip: ctx.skip,
        at: ctx.now,
    };
    match header.validate() {
        Err(e) => {
            return Err(e);
        },
        Ok(_) => {},
    }
    Ok(
        Commit {
            schema: COMMIT_SCHEMA.to_owned(),
            header,
            change: prepared.change.clone(),
            result: prepared.result.clone(),
            ref_state: crate::chain::durable_ref_state(&prepared.next),
        },
    )
}

/// The payloads of a prepared change in the order in which they are stored,
/// the commit object last if the change has none of its own.
pub open spec fn payloads<R>(p: PreparedMutation<R>, commit: Option<Seq<u8>>) -> Seq<
    (ObjectKind, Seq<char>, Seq<u8>),
> {
    let ups = p.uploads@.map_values(|u: Upload| (u.kind, u.schema@, u.payload@));
    match commit {
        Some(c) => ups.push((ObjectKind::Blob, COMMIT_SCHEMA@, c)),
        None => ups,
    }
}

/// The text of a commit object.
pub open spec fn body_of(commit: Option<Vec<u8>>) -> Option<Seq<u8>> {
    match commit {
        Some(c) => Some(c@),
        None => None,
    }
}

/// Whether every staged object holds its payload.
pub open spec fn staged_as(
    staged: Seq<(Digest, Vec<u8>)>,
    payloads: Seq<(ObjectKind, Seq<char>, Seq<u8>)>,
    store: Store,
) -> bool {
    &&& staged.len() == payloads.len()
    &&& forall|i: int|
        0 <= i < staged.len() ==> stored_as(
            (#[trigger] staged[i]).0,
            staged[i].1@,
            payloads[i].0,
            payloads[i].1,
            payloads[i].2,
            store.tenant@,
            store.key,
        )
}

/// Whether the metadata of some payload can be too large.
pub open spec fn unstageable(
    payloads: Seq<(ObjectKind, Seq<char>, Seq<u8>)>,
    store: Store,
) -> bool {
    exists|i: int|
        0 <= i < payloads.len() && oversized_meta(
            (#[trigger] payloads[i]).0,
            payloads[i].1,
            payloads[i].2,
            store.tenant@,
            store.key,
        )
}

/// The digests of staged objects.
pub open spec fn digests_of(staged: Seq<(Digest, Vec<u8>)>) -> Seq<Digest> {
    staged.map_values(|p: (Digest, Vec<u8>)| p.0)
}

fn stage<R>(store: &Store, prepared: &PreparedMutation<R>, commit: Option<Vec<u8>>) -> (r: Result<
    Vec<(Digest, Vec<u8>)>,
>)
    ensures
        ({
            let all = payloads(
                *prepared,
                body_of(commit),
            );
            match r {
                Ok(v) => staged_as(v@, all, *store),
                Err(e) => e@ == heavy_meta() && unstageable(all, *store),
            }
        }),
{
    let ghost all = payloads(
        *prepared,
        body_of(commit),
    );
    let mut staged: Vec<(Digest, Vec<u8>)> = Vec::new();
    let mut i: usize = 0;
    while i < prepared.uploads.len()
        invariant
            i <= prepared.uploads@.len(),
            all == payloads(
                *prepared,
                body_of(commit),
            ),
            staged@.len() == i,
            forall|j: int|
                0 <= j < i ==> stored_as(
                    (#[trigger] staged@[j]).0,
                    staged@[j].1@,
                    all[j].0,
                    all[j].1,
                    all[j].2,
                    store.tenant@,
                    store.key,
                ),
        decreases prepared.uploads@.len() - i,
    {
        let u: &Upload = &prepared.uploads[i];
        assert(all[i as int] == (u.kind, u.schema@, u.payload@));
        match store.seal(u.kind, &u.schema, crate::bytes::copy_bytes(&u.payload)) {
            Ok(p) => {
                staged.push(p);
            },
            Err(e) => {
                return Err(e);
            },
        }
        i = i + 1;
    }
    match commit {
        None => {},
        Some(c) => {
            assert(all[i as int] == (ObjectKind::Blob, COMMIT_SCHEMA@, c@));
            match store.seal(ObjectKind::Blob, COMMIT_SCHEMA, c) {
                Ok(p) => {
                    staged.push(p);
                },
                Err(e) => {
                    return Err(e);
                },
            }
        },
    }
    Ok(staged)
}

fn staged_digests(staged: &Vec<(Digest, Vec<u8>)>) -> (r: Vec<Digest>)
    ensures
        r@ == digests_of(staged@),
{
    let mut out: Vec<Digest> = Vec::new();
    let mut i: usize = 0;
    while i < staged.len()
        invariant
            i <= staged@.len(),
            out@.len() == i,
            forall|j: int| 0 <= j < i ==> #[trigger] out@[j] == staged@[j].0,
        decreases staged@.len() - i,
    {
        out.push(staged[i].0);
        i = i + 1;
    }
    assert(out@ =~= digests_of(staged@));
    out
}

/// What is written next.
#[derive(Clone, Copy, Debug, PartialEq, Eq, Structural)]
pub enum AttemptPhase {
    Intent,
    Object(usize),
    LoadCompanion(usize),
    PutCompanion(usize),
    Ref,
    Committed,
    Lost,
}

/// What came of a write.
#[derive(Clone, Copy, Debug, PartialEq, Eq, Structural)]
pub enum Put {
    Done,
    Exists,
    Lost,
}

/// The phase after a write in a publication of `objects` objects with
/// `companions` companions.
pub open spec fn next_phase(
    phase: AttemptPhase,
    put: Put,
    objects: nat,
    companions: nat,
) -> AttemptPhase {
    match phase {
        AttemptPhase::Intent => match put {
            Put::Done => AttemptPhase::Object(0),
            _ => AttemptPhase::Lost,
        },
        AttemptPhase::Object(i) => match put {
            Put::Lost => phase,
            _ => if i + 1 < objects {
                AttemptPhase::Object((i + 1) as usize)
            } else {
                companion_phase(0, companions)
            },
        },
        AttemptPhase::PutCompanion(i) => match put {
            Put::Done => companion_phase(i as nat + 1, companions),
            _ => AttemptPhase::Lost,
        },
        AttemptPhase::Ref => match put {
            Put::Done => AttemptPhase::Committed,
            _ => AttemptPhase::Lost,
        },
        _ => phase,
    }
}

pub open spec fn companion_phase(i: nat, companions: nat) -> AttemptPhase {
    if i < companions {
        AttemptPhase::LoadCompanion(i as usize)
    } else {
        AttemptPhase::Ref
    }
}

/// What a write's answer means: done; somebody else was first; or an error.
pub open spec fn put_of(r: Result<Version>) -> Option<Put> {
    match r {
        Ok(_) => Some(Put::Done),
        Err(e) => if e is AlreadyExists {
            Some(Put::Exists)
        } else if e is PreconditionFailed {
            Some(Put::Lost)
        } else {
            None
        },
    }
}

fn classify_put(r: Result<Version>) -> (p: Result<Put>)
    ensures
        match put_of(r) {
            Some(x) => p matches Ok(y) && y == x,
            None => p matches Err(e) && r == Err::<Version, CoreError>(e),
        },
{
    match r {
        Ok(_) => Ok(Put::Done),
        Err(CoreError::AlreadyExists(_)) => Ok(Put::Exists),
        Err(CoreError::PreconditionFailed(_)) => Ok(Put::Lost),
        Err(e) => Err(e),
    }
}

/// One attempt to publish a prepared change: the intent names what will be
/// stored, then the objects are stored, then the intents of the companions
/// are moved along, and only then is the ref replaced.
pub struct Attempt<R> {
    pub phase: AttemptPhase,
    /// The intent to write and the version that it replaces; absent for a
    /// publication without an intent.
    pub intent: Option<(OpIntent, Option<Version>)>,
    pub staged: Vec<(Digest, Vec<u8>)>,
    pub commit: Digest,
    pub generation: u64,
    pub base: u64,
    /// The ref to write and the version that it replaces.
    pub next: RefValue,
    pub expected: Option<Version>,
    pub outcome: R,
    pub result: String,
    pub admitted: Vec<Admission>,
    pub companions: Vec<Companion>,
    /// The companion's intent to write and the version that it replaces.
    pub companion: Option<(OpIntent, Version)>,
}

/// The ref that a prepared change publishes with commit `commit`.
pub open spec fn published_ref(
    next: RefValue,
    commit: Digest,
    target_follows: bool,
    now: Timestamp,
) -> RefValue {
    RefValue {
        head_commit: Some(commit),
        target: if target_follows {
            Some(commit)
        } else {
            next.target
        },
        updated_at: now,
        schema: next.schema,
        ..next
    }
}

/// Whether `next` is the ref that a prepared change publishes.
pub open spec fn is_published_ref(
    next: RefValue,
    prepared: RefValue,
    commit: Digest,
    target_follows: bool,
    now: Timestamp,
) -> bool {
    next.schema@ == REF_SCHEMA@ && next == (RefValue {
        schema: next.schema,
        ..published_ref(prepared, commit, target_follows, now)
    })
}

/// What an attempt starts with.
pub open spec fn starts_as<R>(
    a: Attempt<R>,
    prepared: PreparedMutation<R>,
    ctx: PrepareCtx<'_>,
    store: Store,
    commit: Option<Seq<u8>>,
) -> bool {
    &&& staged_as(a.staged@, payloads(prepared, commit), store)
    &&& a.commit == match prepared.commit_upload {
        Some(i) => a.staged@[i as int].0,
        None => a.staged@.last().0,
    }
    &&& is_published_ref(
        a.next,
        prepared.next,
        a.commit,
        prepared.commit_upload is Some,
        ctx.now,
    )
    &&& a.expected == ctx.snapshot.version
    &&& a.generation == ctx.generation
    &&& a.outcome == prepared.outcome
    &&& a.result == prepared.result
    &&& a.admitted == prepared.admitted
    &&& a.companion is None
}

fn publish_ref(prepared: RefValue, commit: Digest, target_follows: bool, now: Timestamp) -> (r:
    RefValue)
    ensures
        is_published_ref(r, prepared, commit, target_follows, now),
{
    let mut next: RefValue = prepared;
    next.head_commit = Some(commit);
    if target_follows {
        next.target = Some(commit);
    }
    next.updated_at = now;
    next.schema = REF_SCHEMA.to_owned();
    next
}

impl<R> Attempt<R> {
    /// Whether the phase fits what there is to write.
    pub open spec fn wf(self) -> bool {
        &&& self.staged@.len() > 0
        &&& match self.phase {
            AttemptPhase::Intent => self.intent is Some,
            AttemptPhase::Object(i) => i < self.staged@.len(),
            AttemptPhase::LoadCompanion(i) => i < self.companions@.len(),
            AttemptPhase::PutCompanion(i) => i < self.companions@.len() && self.companion is Some,
            _ => true,
        }
    }

    /// Whether only the phase and the companion's intent may differ.
    pub open spec fn same_plan(self, other: Attempt<R>) -> bool {
        self == (Attempt { phase: self.phase, companion: self.companion, ..other })
    }

    /// Starts an attempt under an intent. `commit` is the text of the commit
    /// object, for a change that has none of its own.
    pub fn start(
        store: &Store,
        ctx: &PrepareCtx<'_>,
        prepared: PreparedMutation<R>,
        commit: Option<Vec<u8>>,
        intent: OpIntent,
        version: Option<Version>,
        base: u64,
    ) -> (r: core::result::Result<Attempt<R>, Failure>)
        requires
            commit is Some <==> prepared.commit_upload is None,
        ensures
            ({
                let body = body_of(commit);
                if prepared.next.generation != ctx.generation {
                    r matches Err(Failure::PlanGeneration { set, want }) && set
                        == prepared.next.generation && want == ctx.generation
                } else {
                    match r {
                        Ok(a) => {
                            &&& a.wf()
                            &&& a.phase == AttemptPhase::Intent
                            &&& starts_as(a, prepared, *ctx, *store, body)
                            &&& a.base == base
                            &&& a.companions == prepared.companions
                            &&& a.intent matches Some(p) && p.1 == version && intent_view(p.0) == (
                            IntentRecord {
                                base_generation: base,
                                proposed: digests_of(a.staged@),
                                ..intent_view(intent)
                            })
                        },
                        Err(Failure::NoCommitUpload) => prepared.commit_upload matches Some(i)
                            && i >= prepared.uploads@.len(),
                        Err(Failure::Core(e)) => e@ == heavy_meta() && unstageable(
                            payloads(prepared, body),
                            *store,
                        ),
                        Err(_) => false,
                    }
                }
            }),
            prepared.commit_upload matches Some(i) && i >= prepared.uploads@.len() ==> r is Err,
    {
        if prepared.next.generation != ctx.generation {
            return Err(
                Failure::PlanGeneration { set: prepared.next.generation, want: ctx.generation },
            );
        }
        let staged: Vec<(Digest, Vec<u8>)> = match stage(store, &prepared, commit) {
            Ok(v) => v,
            Err(e) => {
                return Err(Failure::Core(e));
            },
        };
        let digest: Digest = match prepared.commit_upload {
            Some(i) => {
                if i >= prepared.uploads.len() {
                    return Err(Failure::NoCommitUpload);
                }
                staged[i].0
            },
            None => staged[staged.len() - 1].0,
        };
        let mut named: OpIntent = intent;
        named.base_generation = base;
        named.proposed = staged_digests(&staged);
        let follows: bool = prepared.commit_upload.is_some();
        Ok(
            Attempt {
                phase: AttemptPhase::Intent,
                intent: Some((named, version)),
                staged,
                commit: digest,
                generation: ctx.generation,
                base,
                next: publish_ref(prepared.next, digest, follows, ctx.now),
                expected: copy_version(&ctx.snapshot.version),
                outcome: prepared.outcome,
                result: prepared.result,
                admitted: prepared.admitted,
                companions: prepared.companions,
                companion: None,
            },
        )
    }

    /// Starts a publication without an intent, against a snapshot that the
    /// caller supplies.
    pub fn start_at_snapshot(
        store: &Store,
        ctx: &PrepareCtx<'_>,
        prepared: PreparedMutation<R>,
        commit: Option<Vec<u8>>,
    ) -> (r: Result<Attempt<R>>)
        requires
            commit is Some <==> prepared.commit_upload is None,
            prepared.commit_upload matches Some(i) ==> i < prepared.uploads@.len(),
        ensures
            ({
                let body = body_of(commit);
                match r {
                    Ok(a) => {
                        &&& a.wf()
                        &&& a.phase == AttemptPhase::Object(0)
                        &&& starts_as(a, prepared, *ctx, *store, body)
                        &&& a.base == ctx.snapshot.value.generation
                        &&& a.companions@.len() == 0
                        &&& a.intent is None
                    },
                    Err(e) => e@ == heavy_meta() && unstageable(payloads(prepared, body), *store),
                }
            }),
    {
        let staged: Vec<(Digest, Vec<u8>)> = match stage(store, &prepared, commit) {
            Ok(v) => v,
            Err(e) => {
                return Err(e);
            },
        };
        let digest: Digest = match prepared.commit_upload {
            Some(i) => staged[i].0,
            None => staged[staged.len() - 1].0,
        };
        let follows: bool = prepared.commit_upload.is_some();
        Ok(
            Attempt {
                phase: AttemptPhase::Object(0),
                intent: None,
                staged,
                commit: digest,
                generation: ctx.generation,
                base: ctx.snapshot.value.generation,
                next: publish_ref(prepared.next, digest, follows, ctx.now),
                expected: copy_version(&ctx.snapshot.version),
                outcome: prepared.outcome,
                result: prepared.result,
                admitted: prepared.admitted,
                companions: Vec::new(),
                companion: None,
            },
        )
    }

    /// Takes in what came of the write that the phase asks for. Storing an
    /// object that is there already is as good as storing it.
    pub fn on_put(&mut self, answer: Result<Version>) -> (r: Result<()>)
        requires
            old(self).wf(),
            old(self).phase is Intent || old(self).phase is Object || old(self).phase
                is PutCompanion || old(self).phase is Ref,
        ensures
            final(self).wf(),
            final(self).same_plan(*old(self)),
            match put_of(answer) {
                Some(put) => if old(self).phase is Object && put == Put::Lost {
                    r matches Err(e) && answer == Err::<Version, CoreError>(e) && *final(self)
                        == *old(self)
                } else {
                    r is Ok && final(self).phase == next_phase(
                        old(self).phase,
                        put,
                        old(self).staged@.len(),
                        old(self).companions@.len(),
                    )
                },
                None => r matches Err(e) && answer == Err::<Version, CoreError>(e) && *final(self)
                    == *old(self),
            },
    {
        match self.phase {
            AttemptPhase::Object(i) => {
                match answer {
                    Ok(_) => {},
                    Err(CoreError::AlreadyExists(_)) => {},
                    Err(e) => {
                        return Err(e);
                    },
                }
                if i < self.staged.len() - 1 {
                    self.phase = AttemptPhase::Object(i + 1);
                } else {
                    self.to_companion(0);
                }
                Ok(())
            },
            phase => {
                let put: Put = match classify_put(answer) {
                    Ok(p) => p,
                    Err(e) => {
                        return Err(e);
                    },
                };
                if put != Put::Done {
                    self.phase = AttemptPhase::Lost;
                    return Ok(());
                }
                match phase {
                    AttemptPhase::Intent => {
                        self.phase = AttemptPhase::Object(0);
                    },
                    AttemptPhase::PutCompanion(i) => {
                        let last: usize = self.companions.len() - 1;
                        assert(i <= last);
                        self.to_companion(i + 1);
                    },
                    _ => {
                        self.phase = AttemptPhase::Committed;
                    },
                }
                Ok(())
            },
        }
    }

    fn to_companion(&mut self, i: usize)
        requires
            old(self).staged@.len() > 0,
        ensures
            final(self).wf(),
            final(self).same_plan(*old(self)),
            final(self).phase == companion_phase(i as nat, old(self).companions@.len()),
    {
        self.companion = None;
        if i < self.companions.len() {
            self.phase = AttemptPhase::LoadCompanion(i);
        } else {
            self.phase = AttemptPhase::Ref;
        }
    }

    /// Takes in the intent of the companion that the phase asks for. It must
    /// be there, still pending, and at the same base.
    pub fn on_companion(&mut self, loaded: Option<(OpIntent, Version)>) -> (r: Result<()>)
        requires
            old(self).wf(),
            old(self).phase is LoadCompanion,
        ensures
            final(self).wf(),
            final(self).same_plan(*old(self)),
            match loaded {
                None => r matches Err(CoreError::RecoveryFailed(m)) && m@ == "companion intent "@
                    + old(self).companions@[old(self).phase->LoadCompanion_0 as int].identity.text()
                    + " missing before ref CAS"@ && *final(self) == *old(self),
                Some(p) => r is Ok && if p.0.state is Applied || p.0.base_generation
                    != old(self).base {
                    final(self).phase == AttemptPhase::Lost
                } else {
                    &&& final(self).phase == AttemptPhase::PutCompanion(
                        old(self).phase->LoadCompanion_0,
                    )
                    &&& final(self).companion matches Some(q) && q.1 == p.1 && intent_view(q.0) == (
                    IntentRecord {
                        proposed: digests_of(old(self).staged@),
                        ..intent_view(p.0)
                    })
                },
            },
    {
        let (mut intent, version) = match loaded {
            None => {
                let id: String = match self.phase {
                    AttemptPhase::LoadCompanion(i) => self.companions[i].identity.canonical(),
                    _ => String::new(),
                };
                return Err(
                    CoreError::RecoveryFailed(
                        join3("companion intent ", &id, " missing before ref CAS"),
                    ),
                );
            },
            Some(p) => p,
        };
        let applied: bool = match &intent.state {
            IntentState::Applied { .. } => true,
            IntentState::Pending => false,
        };
        if applied || intent.base_generation != self.base {
            self.phase = AttemptPhase::Lost;
            return Ok(());
        }
        intent.proposed = staged_digests(&self.staged);
        self.companion = Some((intent, version));
        if let AttemptPhase::LoadCompanion(i) = self.phase {
            self.phase = AttemptPhase::PutCompanion(i);
        }
        Ok(())
    }

    /// What was published.
    pub fn published(self) -> (r: Published<R>)
        requires
            self.phase is Committed,
        ensures
            r.outcome == self.outcome,
            r.generation == self.generation,
            r.epoch == self.next.epoch,
            r.commit == self.commit,
            r.value == self.next,
            r.first_delivery,
            r.admitted == self.admitted,
    {
        Published {
            outcome: self.outcome,
            generation: self.generation,
            epoch: self.next.epoch,
            commit: self.commit,
            value: self.next,
            first_delivery: true,
            admitted: self.admitted,
        }
    }
}

/// How far an attempt has come.
pub open spec fn rank(phase: AttemptPhase, objects: nat, companions: nat) -> nat {
    match phase {
        AttemptPhase::Intent => 0,
        AttemptPhase::Object(i) => 1 + i as nat,
        AttemptPhase::LoadCompanion(i) => 1 + objects + 2 * (i as nat),
        AttemptPhase::PutCompanion(i) => 2 + objects + 2 * (i as nat),
        AttemptPhase::Ref => 1 + objects + 2 * companions,
        AttemptPhase::Committed => 2 + objects + 2 * companions,
        AttemptPhase::Lost => 2 + objects + 2 * companions,
    }
}

/// Every write that succeeds takes an attempt exactly one step further, so
/// that the ref is replaced only after the intent, every object and the
/// intent of every companion have been written.
pub proof fn law_ref_is_replaced_last(phase: AttemptPhase, put: Put, objects: nat, companions: nat)
    requires
        objects > 0,
        put == Put::Done,
        phase is Intent || phase is Object || phase is PutCompanion || phase is Ref,
        phase matches AttemptPhase::Object(i) ==> i < objects,
        phase matches AttemptPhase::PutCompanion(i) ==> i < companions,
        objects <= usize::MAX,
        companions <= usize::MAX,
    ensures
        rank(next_phase(phase, put, objects, companions), objects, companions) == rank(
            phase,
            objects,
            companions,
        ) + 1,
        next_phase(phase, put, objects, companions) is Committed ==> phase is Ref,
{
}

/// A lost race never replaces the ref and never goes on writing.
pub proof fn law_lost_race_writes_nothing(phase: AttemptPhase, objects: nat, companions: nat)
    requires
        phase is Intent || phase is PutCompanion || phase is Ref,
    ensures
        next_phase(phase, Put::Lost, objects, companions) is Lost,
        next_phase(phase, Put::Exists, objects, companions) is Lost,
{
}

/// A published ref has the generation after its base and points at its own
/// commit.
pub proof fn law_publication_advances_by_one<R>(
    a: Attempt<R>,
    prepared: PreparedMutation<R>,
    ctx: PrepareCtx<'_>,
    store: Store,
    commit: Option<Seq<u8>>,
    base: u64,
)
    requires
        starts_as(a, prepared, ctx, store, commit),
        prepared.next.generation == ctx.generation,
        ctx.generation == base + 1,
    ensures
        a.next.generation == base + 1,
        a.next.head_commit == Some(a.commit),
        a.next.schema@ == REF_SCHEMA@,
{
}

/// The ref that an attempt writes is the prepared one: it keeps its name, its
/// lease and its epoch, and points where it should, at the commit itself where
/// the commit is the target. It replaces exactly the version that was read.
pub proof fn law_attempt_writes_the_prepared_ref<R>(
    a: Attempt<R>,
    prepared: PreparedMutation<R>,
    ctx: PrepareCtx<'_>,
    store: Store,
    commit: Option<Seq<u8>>,
)
    requires
        starts_as(a, prepared, ctx, store, commit),
    ensures
        a.next.tenant == prepared.next.tenant,
        a.next.name == prepared.next.name,
        a.next.generation == prepared.next.generation,
        a.next.epoch == prepared.next.epoch,
        a.next.lease == prepared.next.lease,
        a.next.updated_at == ctx.now,
        a.next.head_commit == Some(a.commit),
        a.next.target == if prepared.commit_upload is Some {
            Some(a.commit)
        } else {
            prepared.next.target
        },
        a.expected == ctx.snapshot.version,
        a.generation == ctx.generation,
        a.outcome == prepared.outcome,
        a.result == prepared.result,
        a.admitted == prepared.admitted,
{
}

/// Everything that was prepared is stored, in order, and a commit object
/// behind it; the commit is the upload that was named, or that object.
pub proof fn law_everything_prepared_is_staged<R>(
    a: Attempt<R>,
    prepared: PreparedMutation<R>,
    ctx: PrepareCtx<'_>,
    store: Store,
    commit: Option<Seq<u8>>,
    i: int,
)
    requires
        starts_as(a, prepared, ctx, store, commit),
    ensures
        a.staged@.len() == prepared.uploads@.len() + if commit is Some {
            1int
        } else {
            0
        },
        0 <= i < prepared.uploads@.len() ==> stored_as(
            a.staged@[i].0,
            a.staged@[i].1@,
            prepared.uploads@[i].kind,
            prepared.uploads@[i].schema@,
            prepared.uploads@[i].payload@,
            store.tenant@,
            store.key,
        ),
        commit matches Some(body) ==> stored_as(
            a.staged@[prepared.uploads@.len() as int].0,
            a.staged@[prepared.uploads@.len() as int].1@,
            ObjectKind::Blob,
            "comb.commit/v1"@,
            body,
            store.tenant@,
            store.key,
        ),
        prepared.commit_upload is None && commit is Some ==> a.commit
            == a.staged@[prepared.uploads@.len() as int].0,
        prepared.commit_upload matches Some(k) ==> a.commit == a.staged@[k as int].0,
{
    let ups = prepared.uploads@.map_values(|u: Upload| (u.kind, u.schema@, u.payload@));
    let all = payloads(prepared, commit);
    if 0 <= i < ups.len() {
        assert(all[i] == ups[i]);
        assert(a.staged@[i] == a.staged@[i]);
    }
    if commit is Some {
        assert(all[ups.len() as int] == (ObjectKind::Blob, COMMIT_SCHEMA@, commit->0));
        assert(a.staged@[ups.len() as int] == a.staged@[ups.len() as int]);
    }
}

/// An object that is already there counts as written; a write of the ref or of
/// an intent that finds another there lost a race; and any other failure is
/// reported. No other answer stops an attempt.
pub proof fn law_answers_of_writes(
    answer: Result<Version>,
    i: usize,
    objects: nat,
    companions: nat,
)
    ensures
        put_of(answer) == Some(Put::Done) <==> answer is Ok,
        put_of(answer) == Some(Put::Exists) <==> (answer matches Err(e) && e is AlreadyExists),
        put_of(answer) == Some(Put::Lost) <==> (answer matches Err(e) && e is PreconditionFailed),
        next_phase(AttemptPhase::Object(i), Put::Exists, objects, companions) == next_phase(
            AttemptPhase::Object(i),
            Put::Done,
            objects,
            companions,
        ),
        next_phase(AttemptPhase::Ref, Put::Done, objects, companions) is Committed,
        next_phase(AttemptPhase::Intent, Put::Done, objects, companions) == AttemptPhase::Object(0),
        i + 1 >= objects && companions == 0 ==> next_phase(
            AttemptPhase::Object(i),
            Put::Done,
            objects,
            companions,
        ) is Ref,
{
}

/// A commit names the request that it is of, the commits before it, and the
/// state of the ref that it makes.
pub proof fn law_commit_is_of_its_change<R>(
    c: Commit,
    ctx: PrepareCtx<'_>,
    resource: Seq<char>,
    prepared: PreparedMutation<R>,
)
    requires
        is_commit_of(c, ctx, resource, prepared),
    ensures
        c.schema@ == "comb.commit/v1"@,
        c.header.schema@ == "comb.commit-header/v1"@,
        c.header.resource@ == resource,
        c.header.generation == ctx.generation,
        c.header.epoch == prepared.next.epoch,
        c.header.identity@ == ctx.identity.text(),
        c.header.request == ctx.request,
        c.header.parent == ctx.snapshot.value.head_commit,
        c.header.skip == ctx.skip,
        c.header.at == ctx.now,
        c.change == prepared.change,
        c.result == prepared.result,
        c.ref_state.generation == prepared.next.generation,
        c.ref_state.epoch == prepared.next.epoch,
        c.ref_state.target == prepared.next.target,
        c.ref_state.lease == prepared.next.lease,
        c.ref_state.head_commit is None,
{
}

/// Where the head went on without a commit, or is behind the intent, nothing
/// is attempted: that is a failure of recovery.
pub proof fn law_unexplained_head_is_no_attempt(
    m: Map<Digest, FetchedView<CommitRecord>>,
    head: RefValue,
    base: u64,
    id: Seq<char>,
    request: Digest,
    resource: Seq<char>,
)
    requires
        head.generation < base || (head.generation > base && head.head_commit is None),
    ensures
        resolution(m, head, base, id, request, resource) matches Resolution::Fail(c) && c
            is RecoveryFailed,
{
}

} // verus!
