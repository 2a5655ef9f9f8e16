//! The loops around the publication engine: publishing a change, admitting
//! a companion's intent, and renewing a lease.
use vstd::prelude::*;

use crate::chain::{
    cached, identity_in_commit, is_conflict, is_publication, outcome_from_view, outcome_of, records,
    recover_without_intent, restorable, scan, seek, seek_generation, try_cached_applied, unrecorded,
    CachedView, ChainSeek, CommitRecord, CommitView, Published, RecordedOutcome, ScanView,
};
use crate::commit::{IntentState, OpIntent, INTENT_SCHEMA};
use crate::digest::Digest;
use crate::error::{CoreError, ErrorView, Result};
use crate::text::{decimal_text, join5};
use crate::object::Version;
use crate::operation::{
    id_millis, time_verdict, too_early, OpIdentity, OperationPolicy, TimeVerdict,
};
use crate::publish::{
    behind_base, check_intent, intent_expiry, intent_view, no_commit_past, resolution,
    resolve_pending, IntentRecord, MAX_PUBLISH_ATTEMPTS, MAX_RENEWALS, PendingResolution,
    Resolution,
};
use crate::refs::{Lease, RefValue};
use crate::store::{Failure, HeadSnapshot};
use crate::table::{FetchedView, Step, Table};
use crate::time::{is_moment, Timestamp};

verus! {

/// Whether the times that an identity is judged by are moments.
pub open spec fn judgeable(identity: OpIdentity, policy: OperationPolicy) -> bool {
    identity matches OpIdentity::Generic(op) ==> is_moment(
        id_millis(op@) * 1_000_000 + policy.window,
    ) && is_moment(id_millis(op@) * 1_000_000 + policy.first_use)
}

/// Whether an identity is usable at `now`.
pub open spec fn usable(
    identity: OpIdentity,
    now: Timestamp,
    policy: OperationPolicy,
    had_intent: bool,
) -> bool {
    identity matches OpIdentity::Generic(op) ==> time_verdict(
        id_millis(op@),
        now@,
        policy,
        had_intent,
    ) is Usable
}

/// What a loaded intent asks for first.
pub enum Opening {
    Refused,
    Cached { generation: u64, commit: Digest },
    Pending,
    Missing,
}

/// The time and the intent decide: an identity that is not usable, or an
/// intent that is not valid or of another request, is refused; one that says
/// it was applied is looked up, one that is pending is resolved, and without
/// an intent the chain is searched.
pub open spec fn opening(
    identity: OpIdentity,
    resource: Seq<char>,
    request: Digest,
    loaded: Option<(OpIntent, Version)>,
    now: Timestamp,
    policy: OperationPolicy,
) -> Opening {
    if !usable(identity, now, policy, loaded is Some) {
        Opening::Refused
    } else {
        match loaded {
            None => Opening::Missing,
            Some(p) => if !p.0.valid() || p.0.identity@ != identity.text() || p.0.resource@
                != resource || p.0.request != request {
                Opening::Refused
            } else {
                match p.0.state {
                    IntentState::Applied { generation, commit, .. } => Opening::Cached {
                        generation,
                        commit,
                    },
                    IntentState::Pending => Opening::Pending,
                }
            },
        }
    }
}

/// A publication is refused at its opening only for its time, for an intent
/// that is not sound, or for one of another request. Otherwise the intent says
/// where to look: at the commit that it names, at the one after its base, or,
/// without an intent, through the chain.
pub proof fn law_opening_follows_the_intent(
    identity: OpIdentity,
    resource: Seq<char>,
    request: Digest,
    loaded: Option<(OpIntent, Version)>,
    now: Timestamp,
    policy: OperationPolicy,
)
    ensures
        ({
            let o = opening(identity, resource, request, loaded, now, policy);
            let timely = identity matches OpIdentity::Generic(op) ==> {
                let issued = id_millis(op@) * 1_000_000;
                issued <= now@ + policy.max_future_skew && now@ < issued + policy.window && (
                loaded is Some || now@ <= issued + policy.first_use)
            };
            let own = loaded matches Some(p) ==> p.0.fault() is None && p.0.identity@
                == identity.text() && p.0.resource@ == resource && p.0.request == request;
            &&& !(o is Refused) <==> timely && own
            &&& timely && own && loaded is None ==> o is Missing
            &&& timely && own && (loaded matches Some(p) && p.0.state is Pending) ==> o is Pending
            &&& timely && own ==> (loaded matches Some(p) ==> (p.0.state matches
                IntentState::Applied { generation, commit, .. } ==> o == (Opening::Cached {
                generation,
                commit,
            })))
        }),
{
}

/// The error of a refused opening.
pub open spec fn refusal(
    e: CoreError,
    identity: OpIdentity,
    request: Digest,
    loaded: Option<(OpIntent, Version)>,
    now: Timestamp,
    policy: OperationPolicy,
) -> bool {
    if !usable(identity, now, policy, loaded is Some) {
        match identity {
            OpIdentity::Generic(op) => match time_verdict(
                id_millis(op@),
                now@,
                policy,
                loaded is Some,
            ) {
                TimeVerdict::TooEarly => e@ == too_early(op.text()),
                _ => e matches CoreError::UnknownOperation { id, expired_at } && id@ == op.text()
                    && (forall|t: Timestamp|
                    t@ == id_millis(op@) * 1_000_000 + policy.window ==> expired_at@
                        == #[trigger] t.text()),
            },
            OpIdentity::Stable(_) => false,
        }
    } else {
        match loaded {
            Some(p) => if !p.0.valid() {
                Some(e@) == p.0.fault()
            } else if p.0.identity@ != identity.text() {
                e@ == ErrorView::RecoveryFailed(
                    "intent "@ + identity.text() + " stored identity "@ + p.0.identity@,
                )
            } else {
                is_conflict(e, identity.text(), p.0.request, request)
            },
            None => false,
        }
    }
}

fn open_intent(
    identity: &OpIdentity,
    resource: &str,
    request: &Digest,
    loaded: &Option<(OpIntent, Version)>,
    now: Timestamp,
    policy: &OperationPolicy,
) -> (r: Result<Option<(u64, Digest)>>)
    requires
        judgeable(*identity, *policy),
        identity is Generic ==> is_moment(now@ + policy.max_future_skew),
    ensures
        match opening(*identity, resource@, *request, *loaded, now, *policy) {
            Opening::Refused => r matches Err(e) && refusal(
                e,
                *identity,
                *request,
                *loaded,
                now,
                *policy,
            ),
            Opening::Cached { generation, commit } => r matches Ok(Some(p)) && p == (
                generation,
                commit,
            ),
            _ => r matches Ok(None),
        },
{
    match identity.check_time(now, policy, loaded.is_some()) {
        Err(e) => {
            return Err(e);
        },
        Ok(_) => {},
    }
    match loaded {
        None => Ok(None),
        Some(p) => {
            match p.0.validate() {
                Err(e) => {
                    return Err(e);
                },
                Ok(_) => {},
            }
            match check_intent(&p.0, identity, resource, request) {
                Err(e) => {
                    return Err(e);
                },
                Ok(_) => {},
            }
            match &p.0.state {
                IntentState::Applied { generation, commit, .. } => Ok(Some((*generation, *commit))),
                IntentState::Pending => Ok(None),
            }
        },
    }
}

fn found_or_nothing(found: Step<Option<Published<RecordedOutcome>>>) -> (r: Step<Finding>)
    ensures
        r == match found {
            Step::Fetch(d) => Step::Fetch(d),
            Step::Done(Some(p)) => Step::Done(Finding::Published(p)),
            Step::Done(None) => Step::Done(Finding::Nothing),
        },
{
    match found {
        Step::Fetch(d) => Step::Fetch(d),
        Step::Done(Some(p)) => Step::Done(Finding::Published(p)),
        Step::Done(None) => Step::Done(Finding::Nothing),
    }
}

// ------------------------------------------------------------ publication
/// What a publication needs next.
#[derive(Clone, Copy, Debug, PartialEq, Eq, Structural)]
pub enum PublishPhase {
    /// The intent of the identity.
    Load,
    /// The commit that the intent says it was applied by.
    Cached { generation: u64, commit: Digest },
    /// A search of the chain.
    Recover,
    /// The head, as the base of a pending intent.
    Base,
    /// A first write of the intent.
    Create,
    /// The head and the commit after the base.
    Resolve,
    /// An attempt from the base.
    Attempt { base: u64 },
    Done,
}

/// What the head and the chain say to a phase that asks for them.
#[derive(Debug)]
pub enum Finding {
    /// The request was published.
    Published(Published<RecordedOutcome>),
    /// The phase found no publication.
    Nothing,
    /// The head, as a base.
    Base { generation: u64 },
    /// The request is to be attempted.
    Attempt { base: u64 },
}

/// What the head and the chain say, or why they say nothing.
pub enum FindingView {
    Fetch(Digest),
    Fail(ErrorView),
    Conflict { original: Digest },
    Published(CommitRecord),
    Nothing,
    Base { generation: u64 },
    Attempt { base: u64 },
}

/// What a commit that records the request says.
pub open spec fn recorded_finding(v: CommitRecord, id: Seq<char>, tenant: Seq<char>) -> FindingView {
    if outcome_of(v, id) is Some && restorable(v, tenant) {
        FindingView::Published(v)
    } else {
        FindingView::Fail(ErrorView::RecoveryFailed(unrecorded(v, id, tenant)))
    }
}

/// The publication of one request. It goes round until the request is found
/// published, is published, or fails.
pub struct Publication {
    pub identity: OpIdentity,
    pub resource: String,
    pub request: Digest,
    pub expires_at: Option<Timestamp>,
    pub phase: PublishPhase,
    pub attempts: u32,
    pub intent: Option<OpIntent>,
    pub version: Option<Version>,
}

impl Publication {
    pub open spec fn wf(self) -> bool {
        &&& self.attempts < MAX_PUBLISH_ATTEMPTS
        &&& match self.phase {
            PublishPhase::Create => self.intent is Some && self.version is None,
            PublishPhase::Resolve => self.intent is Some,
            PublishPhase::Attempt { .. } => self.intent is Some,
            _ => true,
        }
    }

    /// Whether two states are of one request.
    pub open spec fn same_request(self, other: Publication) -> bool {
        self.identity == other.identity && self.resource == other.resource && self.request
            == other.request && self.expires_at == other.expires_at
    }

    /// Whether only the phase may differ.
    pub open spec fn moved(self, other: Publication, phase: PublishPhase) -> bool {
        self == (Publication { phase, ..other })
    }

    /// Whether the publication starts over after a lost race, or gives up
    /// after the last try.
    pub open spec fn again(self, other: Publication, r: core::result::Result<(), Failure>) -> bool {
        if other.attempts + 1 < MAX_PUBLISH_ATTEMPTS {
            r is Ok && self.same_request(other) && self.phase == PublishPhase::Load && self.attempts
                == other.attempts + 1
        } else {
            r matches Err(Failure::PublicationNotConverged) && self.moved(other, PublishPhase::Done)
        }
    }

    /// Whether the phase asks for the head and the chain.
    pub open spec fn asks(self) -> bool {
        self.phase is Cached || self.phase is Recover || self.phase is Base || self.phase is Resolve
    }

    /// What the head and the commits `m` of its chain say to the phase.
    pub open spec fn finding(
        self,
        m: Map<Digest, FetchedView<CommitRecord>>,
        head: RefValue,
        tenant: Seq<char>,
    ) -> FindingView {
        let id = self.identity.text();
        let resource = self.resource@;
        match self.phase {
            PublishPhase::Cached { generation, commit } => match cached(
                m,
                head.generation,
                head.head_commit,
                id,
                self.request,
                resource,
                tenant,
                generation,
                commit,
            ) {
                CachedView::Fetch(d) => FindingView::Fetch(d),
                CachedView::Fail(c) => FindingView::Fail(c),
                CachedView::Found(v) => FindingView::Published(v),
                CachedView::Unconfirmed => FindingView::Nothing,
            },
            PublishPhase::Recover => match head.head_commit {
                None => FindingView::Nothing,
                Some(d) => match scan(m, d, id, self.request, resource, 0) {
                    ScanView::Fetch(n) => FindingView::Fetch(n),
                    ScanView::Fail(c) => FindingView::Fail(c),
                    ScanView::Conflict { original } => FindingView::Conflict { original },
                    ScanView::Found(v) => recorded_finding(v, id, tenant),
                    ScanView::Absent => FindingView::Nothing,
                },
            },
            PublishPhase::Base => FindingView::Base { generation: head.generation },
            PublishPhase::Resolve => match resolution(
                m,
                head,
                (self.intent->0).base_generation,
                id,
                self.request,
                resource,
            ) {
                Resolution::Fetch(d) => FindingView::Fetch(d),
                Resolution::Fail(c) => FindingView::Fail(c),
                Resolution::Conflict { original } => FindingView::Conflict { original },
                Resolution::Found(v) => recorded_finding(v, id, tenant),
                Resolution::Attempt { base } => FindingView::Attempt { base },
            },
            _ => FindingView::Nothing,
        }
    }

    /// Whether `f` is what the head and the chain say to the phase.
    pub open spec fn told(
        self,
        f: Finding,
        m: Map<Digest, FetchedView<CommitRecord>>,
        head: RefValue,
        tenant: Seq<char>,
    ) -> bool {
        self.asks() && match self.finding(m, head, tenant) {
            FindingView::Published(v) => f matches Finding::Published(p) && is_publication(
                p,
                v,
                self.identity.text(),
                false,
            ),
            FindingView::Nothing => f is Nothing,
            FindingView::Base { generation } => f == (Finding::Base { generation }),
            FindingView::Attempt { base } => f == (Finding::Attempt { base }),
            _ => false,
        }
    }

    /// Whether the phase can be told `f`.
    pub open spec fn takes(self, f: Finding) -> bool {
        match self.phase {
            PublishPhase::Cached { .. } => f is Published || f is Nothing,
            PublishPhase::Recover => f is Published || f is Nothing,
            PublishPhase::Base => f is Base,
            PublishPhase::Resolve => f is Published || f is Attempt,
            _ => false,
        }
    }

    /// Whether this is where `f` leads from `other`: a publication that was
    /// found ends it; what the intent says is looked for in the whole chain,
    /// and what is not there gets the head as its base; a base is written
    /// into the intent; and an attempt is one.
    pub open spec fn led(self, other: Publication, f: Finding) -> bool {
        match f {
            Finding::Published(_) => self.moved(other, PublishPhase::Done),
            Finding::Nothing => self.moved(
                other,
                if other.phase is Cached {
                    PublishPhase::Recover
                } else {
                    PublishPhase::Base
                },
            ),
            Finding::Attempt { base } => self.moved(other, PublishPhase::Attempt { base }),
            Finding::Base { generation } => {
                &&& self.same_request(other)
                &&& self.attempts == other.attempts
                &&& match other.intent {
                    Some(i) => self.phase == PublishPhase::Resolve && self.intent == Some(
                        OpIntent { state: IntentState::Pending, base_generation: generation, ..i },
                    ) && self.version == other.version,
                    None => self.phase == PublishPhase::Create && self.version is None && (
                    self.intent matches Some(i) && intent_view(i) == (IntentRecord {
                        schema: INTENT_SCHEMA@,
                        identity: other.identity.text(),
                        resource: other.resource@,
                        request: other.request,
                        base_generation: generation,
                        proposed: Seq::empty(),
                        state: IntentState::Pending,
                        expires_at: other.expires_at,
                    })),
                }
            },
        }
    }

    /// Whether this is where the intent leads from `other`.
    pub open spec fn opened(
        self,
        other: Publication,
        loaded: Option<(OpIntent, Version)>,
        now: Timestamp,
        policy: OperationPolicy,
    ) -> bool {
        &&& self.same_request(other)
        &&& self.attempts == other.attempts
        &&& match opening(other.identity, other.resource@, other.request, loaded, now, policy) {
            Opening::Refused => false,
            Opening::Missing => self.phase == PublishPhase::Recover && self.intent is None
                && self.version is None,
            Opening::Cached { generation, commit } => self.phase == (PublishPhase::Cached {
                generation,
                commit,
            }) && self.intent == Some((loaded->0).0) && self.version == Some((loaded->0).1),
            Opening::Pending => self.phase == PublishPhase::Resolve && self.intent == Some(
                (loaded->0).0,
            ) && self.version == Some((loaded->0).1),
        }
    }

    pub fn new(
        identity: OpIdentity,
        resource: &str,
        request: Digest,
        policy: &OperationPolicy,
    ) -> (r: Self)
        requires
            judgeable(identity, *policy),
        ensures
            r.wf(),
            r.identity == identity,
            r.resource@ == resource@,
            r.request == request,
            r.phase == PublishPhase::Load,
            r.attempts == 0,
            match identity {
                OpIdentity::Generic(op) => r.expires_at matches Some(t) && t@ == id_millis(op@)
                    * 1_000_000 + policy.window,
                OpIdentity::Stable(_) => r.expires_at is None,
            },
    {
        let expires_at: Option<Timestamp> = intent_expiry(&identity, policy);
        Publication {
            identity,
            resource: resource.to_owned(),
            request,
            expires_at,
            phase: PublishPhase::Load,
            attempts: 0,
            intent: None,
            version: None,
        }
    }

    /// Takes in the intent.
    pub fn on_intent(
        &mut self,
        loaded: Option<(OpIntent, Version)>,
        now: Timestamp,
        policy: &OperationPolicy,
    ) -> (r: Result<()>)
        requires
            old(self).wf(),
            old(self).phase == PublishPhase::Load,
            judgeable(old(self).identity, *policy),
            old(self).identity is Generic ==> is_moment(now@ + policy.max_future_skew),
        ensures
            final(self).wf(),
            final(self).same_request(*old(self)),
            final(self).attempts == old(self).attempts,
            match opening(
                old(self).identity,
                old(self).resource@,
                old(self).request,
                loaded,
                now,
                *policy,
            ) {
                Opening::Refused => r matches Err(e) && refusal(
                    e,
                    old(self).identity,
                    old(self).request,
                    loaded,
                    now,
                    *policy,
                ),
                _ => r is Ok && final(self).opened(*old(self), loaded, now, *policy),
            },
    {
        let cached: Option<(u64, Digest)> = match open_intent(
            &self.identity,
            &self.resource,
            &self.request,
            &loaded,
            now,
            policy,
        ) {
            Ok(c) => c,
            Err(e) => {
                return Err(e);
            },
        };
        match loaded {
            None => {
                self.intent = None;
                self.version = None;
                self.phase = PublishPhase::Recover;
            },
            Some((intent, version)) => {
                self.intent = Some(intent);
                self.version = Some(version);
                self.phase = match cached {
                    Some((generation, commit)) => PublishPhase::Cached { generation, commit },
                    None => PublishPhase::Resolve,
                };
            },
        }
        Ok(())
    }

    /// Takes in what the chain holds of the commit that the intent names.
    pub fn on_cached(&mut self, found: Option<Published<RecordedOutcome>>) -> (r: Option<
        Published<RecordedOutcome>,
    >)
        requires
            old(self).wf(),
            old(self).phase is Cached,
        ensures
            final(self).wf(),
            r == found,
            final(self).moved(
                *old(self),
                if found is Some {
                    PublishPhase::Done
                } else {
                    PublishPhase::Recover
                },
            ),
    {
        self.phase = if found.is_some() {
            PublishPhase::Done
        } else {
            PublishPhase::Recover
        };
        found
    }

    /// Takes in what a search of the chain found.
    pub fn on_recovered(&mut self, found: Option<Published<RecordedOutcome>>) -> (r: Option<
        Published<RecordedOutcome>,
    >)
        requires
            old(self).wf(),
            old(self).phase == PublishPhase::Recover,
        ensures
            final(self).wf(),
            r == found,
            final(self).moved(
                *old(self),
                if found is Some {
                    PublishPhase::Done
                } else {
                    PublishPhase::Base
                },
            ),
    {
        self.phase = if found.is_some() {
            PublishPhase::Done
        } else {
            PublishPhase::Base
        };
        found
    }

    /// Takes in the head's generation as the base of a pending intent: a new
    /// one, or the one that was wrongly said to be applied.
    pub fn on_base(&mut self, generation: u64)
        requires
            old(self).wf(),
            old(self).phase == PublishPhase::Base,
        ensures
            final(self).wf(),
            final(self).same_request(*old(self)),
            final(self).attempts == old(self).attempts,
            match old(self).intent {
                Some(i) => final(self).phase == PublishPhase::Resolve && final(self).intent == Some(
                    OpIntent { state: IntentState::Pending, base_generation: generation, ..i },
                ) && final(self).version == old(self).version,
                None => final(self).phase == PublishPhase::Create && final(self).version is None
                    && (final(self).intent matches Some(i) && intent_view(i) == (IntentRecord {
                    schema: INTENT_SCHEMA@,
                    identity: old(self).identity.text(),
                    resource: old(self).resource@,
                    request: old(self).request,
                    base_generation: generation,
                    proposed: Seq::empty(),
                    state: IntentState::Pending,
                    expires_at: old(self).expires_at,
                })),
            },
    {
        let taken: Option<OpIntent> = self.intent.take();
        match taken {
            Some(mut intent) => {
                intent.state = IntentState::Pending;
                intent.base_generation = generation;
                self.intent = Some(intent);
                self.phase = PublishPhase::Resolve;
            },
            None => {
                self.intent = Some(
                    OpIntent::pending(
                        &self.identity,
                        &self.resource,
                        self.request,
                        generation,
                        self.expires_at,
                    ),
                );
                self.version = None;
                self.phase = PublishPhase::Create;
            },
        }
    }

    /// What the head and the fetched commits of its chain say to the phase.
    pub fn find(&self, table: &Table<CommitView>, head: &RefValue, tenant: &str) -> (r: Result<
        Step<Finding>,
    >)
        requires
            self.wf(),
            self.asks(),
        ensures
            match self.finding(table@, *head, tenant@) {
                FindingView::Fetch(d) => r matches Ok(Step::Fetch(n)) && n == d,
                FindingView::Fail(c) => r matches Err(e) && e@ == c,
                FindingView::Conflict { original } => r matches Err(e) && is_conflict(
                    e,
                    self.identity.text(),
                    original,
                    self.request,
                ),
                _ => r matches Ok(Step::Done(f)) && self.told(f, table@, *head, tenant@)
                    && self.takes(f),
            },
    {
        match &self.phase {
            PublishPhase::Cached { generation, commit } => {
                let found: Step<Option<Published<RecordedOutcome>>> = match try_cached_applied(
                    table,
                    head.generation,
                    head.head_commit,
                    &self.identity,
                    &self.request,
                    &self.resource,
                    tenant,
                    *generation,
                    commit,
                ) {
                    Err(e) => {
                        return Err(e);
                    },
                    Ok(s) => s,
                };
                Ok(found_or_nothing(found))
            },
            PublishPhase::Recover => {
                let found: Step<Option<Published<RecordedOutcome>>> = match recover_without_intent(
                    table,
                    head.head_commit,
                    &self.identity,
                    &self.request,
                    &self.resource,
                    tenant,
                ) {
                    Err(e) => {
                        return Err(e);
                    },
                    Ok(s) => s,
                };
                Ok(found_or_nothing(found))
            },
            PublishPhase::Resolve => {
                let base: u64 = match &self.intent {
                    Some(i) => i.base_generation,
                    None => 0,
                };
                match resolve_pending(
                    table,
                    head,
                    base,
                    &self.identity,
                    &self.request,
                    &self.resource,
                    tenant,
                ) {
                    Err(e) => Err(e),
                    Ok(Step::Fetch(d)) => Ok(Step::Fetch(d)),
                    Ok(Step::Done(PendingResolution::Done(p))) => Ok(
                        Step::Done(Finding::Published(p)),
                    ),
                    Ok(Step::Done(PendingResolution::Attempt { base })) => Ok(
                        Step::Done(Finding::Attempt { base }),
                    ),
                }
            },
            _ => Ok(Step::Done(Finding::Base { generation: head.generation })),
        }
    }

    /// Takes in what the head and the chain say: the publication, if it was
    /// found.
    pub fn on_found(&mut self, found: Finding) -> (r: Option<Published<RecordedOutcome>>)
        requires
            old(self).wf(),
            old(self).takes(found),
        ensures
            final(self).wf(),
            final(self).led(*old(self), found),
            match found {
                Finding::Published(p) => r == Some(p),
                _ => r is None,
            },
    {
        match found {
            Finding::Base { generation } => {
                self.on_base(generation);
                None
            },
            Finding::Attempt { base } => self.on_resolved(PendingResolution::Attempt { base }),
            Finding::Nothing => match self.phase {
                PublishPhase::Cached { .. } => self.on_cached(None),
                _ => self.on_recovered(None),
            },
            Finding::Published(p) => match self.phase {
                PublishPhase::Cached { .. } => self.on_cached(Some(p)),
                PublishPhase::Recover => self.on_recovered(Some(p)),
                _ => self.on_resolved(PendingResolution::Done(p)),
            },
        }
    }

    /// Takes in what came of writing a new intent. Whatever it was, unless
    /// it is a lasting error, the intent is loaded again.
    pub fn on_created(&mut self, answer: Result<Version>) -> (r: core::result::Result<(), Failure>)
        requires
            old(self).wf(),
            old(self).phase == PublishPhase::Create,
        ensures
            r is Ok ==> final(self).wf(),
            match answer {
                Err(e) => if e is AlreadyExists || e is PreconditionFailed
                    || e is BackendUnavailable {
                    final(self).again(*old(self), r)
                } else {
                    r == Err::<(), Failure>(Failure::Core(e)) && *final(self) == *old(self)
                },
                Ok(_) => final(self).again(*old(self), r),
            },
    {
        match answer {
            Ok(_) => self.retry(),
            Err(CoreError::AlreadyExists(_)) => self.retry(),
            Err(CoreError::PreconditionFailed(_)) => self.retry(),
            Err(CoreError::BackendUnavailable(_)) => self.retry(),
            Err(e) => Err(Failure::Core(e)),
        }
    }

    /// Takes in what the pending intent was found to be.
    pub fn on_resolved(&mut self, found: PendingResolution) -> (r: Option<
        Published<RecordedOutcome>,
    >)
        requires
            old(self).wf(),
            old(self).phase == PublishPhase::Resolve,
        ensures
            final(self).wf(),
            match found {
                PendingResolution::Done(p) => r == Some(p) && final(self).moved(
                    *old(self),
                    PublishPhase::Done,
                ),
                PendingResolution::Attempt { base } => r is None && final(self).moved(
                    *old(self),
                    PublishPhase::Attempt { base },
                ),
            },
    {
        match found {
            PendingResolution::Done(p) => {
                self.phase = PublishPhase::Done;
                Some(p)
            },
            PendingResolution::Attempt { base } => {
                self.phase = PublishPhase::Attempt { base };
                None
            },
        }
    }

    /// Takes in whether the attempt was committed or lost a race.
    pub fn on_attempt(&mut self, committed: bool) -> (r: core::result::Result<(), Failure>)
        requires
            old(self).wf(),
            old(self).phase is Attempt,
        ensures
            r is Ok ==> final(self).wf(),
            if committed {
                r is Ok && final(self).moved(*old(self), PublishPhase::Done)
            } else {
                final(self).again(*old(self), r)
            },
    {
        if committed {
            self.phase = PublishPhase::Done;
            Ok(())
        } else {
            self.retry()
        }
    }

    fn retry(&mut self) -> (r: core::result::Result<(), Failure>)
        requires
            old(self).wf(),
        ensures
            r is Ok ==> final(self).wf(),
            final(self).again(*old(self), r),
    {
        if self.attempts + 1 < MAX_PUBLISH_ATTEMPTS {
            self.attempts = self.attempts + 1;
            self.phase = PublishPhase::Load;
            Ok(())
        } else {
            self.phase = PublishPhase::Done;
            Err(Failure::PublicationNotConverged)
        }
    }
}

/// A request that conflicts with its intent is refused whatever the intent
/// says of its state: neither looked up, nor resolved, nor attempted.
pub proof fn law_conflicting_request_is_refused(
    identity: OpIdentity,
    resource: Seq<char>,
    request: Digest,
    intent: OpIntent,
    version: Version,
    now: Timestamp,
    policy: OperationPolicy,
)
    requires
        intent.request != request || intent.resource@ != resource,
    ensures
        opening(identity, resource, request, Some((intent, version)), now, policy) is Refused,
{
}

/// A publication that lost a race starts over, up to 128 attempts, and gives
/// up only after the last.
pub proof fn law_lost_publication_starts_over(
    p: Publication,
    before: Publication,
    r: core::result::Result<(), Failure>,
)
    requires
        p.again(before, r),
    ensures
        r is Ok <==> before.attempts + 1 < 128,
        r is Ok ==> p.phase is Load && p.attempts == before.attempts + 1 && p.identity
            == before.identity && p.resource == before.resource && p.request == before.request,
        r is Err ==> r->Err_0 is PublicationNotConverged,
{
}

/// Where a pending intent of a shared publication stands: at the head it is
/// current; behind it, the commit right after its base says whether it was
/// applied, and otherwise it moves to the head.
pub proof fn law_pending_intent_is_placed(
    m: Map<Digest, FetchedView<CommitRecord>>,
    head: RefValue,
    base: u64,
    id: Seq<char>,
    resource: Seq<char>,
    v: CommitRecord,
    reads: nat,
)
    ensures
        pending_view(m, head, base, id, resource) is Current <==> head.generation == base,
        head.generation > base && head.head_commit is Some && seek(
            m,
            head.head_commit->0,
            (base + 1) as u64,
            resource,
        ) == ChainSeek::Found(v, reads) ==> {
            let r = pending_view(m, head, base, id, resource);
            &&& !records(v, id) <==> r == (PendingView::Rebase { base: head.generation })
            &&& records(v, id) && outcome_of(v, id) is Some <==> r == PendingView::Applied(v)
        },
        pending_view(m, head, base, id, resource) is Rebase ==> head.generation > base,
{
}

// -------------------------------------------------------------- admission
/// Where an identity stands before a shared publication.
#[derive(Debug)]
pub enum IntentAdmission {
    Applied { generation: u64, commit: Digest, result: RecordedOutcome },
    Pending { base: u64 },
}

/// Where a pending intent stands.
#[derive(Debug)]
pub enum PendingCheck {
    Current,
    Applied { generation: u64, commit: Digest, result: RecordedOutcome },
    Rebase { base: u64 },
}

/// What the head and the commit after the base say of a pending intent.
pub enum PendingView {
    Fetch(Digest),
    Fail(ErrorView),
    Current,
    Applied(CommitRecord),
    Rebase { base: u64 },
}

pub open spec fn pending_view(
    m: Map<Digest, FetchedView<CommitRecord>>,
    head: RefValue,
    base: u64,
    id: Seq<char>,
    resource: Seq<char>,
) -> PendingView {
    if head.generation == base {
        PendingView::Current
    } else if head.generation < base {
        PendingView::Fail(
            ErrorView::RecoveryFailed(behind_base(resource, head.generation, base)),
        )
    } else if head.head_commit is None {
        PendingView::Fail(ErrorView::RecoveryFailed(no_commit_past(resource, base)))
    } else {
        match seek(m, head.head_commit->0, (base + 1) as u64, resource) {
            ChainSeek::Fetch(d) => PendingView::Fetch(d),
            ChainSeek::Fail(c) => PendingView::Fail(c),
            ChainSeek::Found(v, _) => if !records(v, id) {
                PendingView::Rebase { base: head.generation }
            } else if outcome_of(v, id) is None {
                PendingView::Fail(ErrorView::RecoveryFailed("commit does not record "@ + id))
            } else {
                PendingView::Applied(v)
            },
        }
    }
}

/// Finds out where a pending intent stands.
pub fn check_pending(
    table: &Table<CommitView>,
    head: &RefValue,
    base: u64,
    identity: &OpIdentity,
    resource: &str,
) -> (r: Result<Step<PendingCheck>>)
    ensures
        match pending_view(table@, *head, base, identity.text(), resource@) {
            PendingView::Fetch(d) => r matches Ok(Step::Fetch(n)) && n == d,
            PendingView::Fail(c) => r matches Err(e) && e@ == c,
            PendingView::Current => r matches Ok(Step::Done(PendingCheck::Current)),
            PendingView::Rebase { base: b } => r matches Ok(
                Step::Done(PendingCheck::Rebase { base: x }),
            ) && x == b,
            PendingView::Applied(v) => r matches Ok(
                Step::Done(PendingCheck::Applied { generation, commit, result }),
            ) && generation == v.header.generation && commit == v.digest && Some(result)
                == outcome_of(v, identity.text()),
        },
{
    if head.generation == base {
        return Ok(Step::Done(PendingCheck::Current));
    }
    if head.generation < base {
        let mut m: String = join5(
            "ref ",
            resource,
            " generation ",
            &decimal_text(head.generation),
            " is behind intent base ",
        );
        m.append(&decimal_text(base));
        return Err(CoreError::RecoveryFailed(m));
    }
    let head_commit: Digest = match head.head_commit {
        None => {
            let m: String = join5(
                "ref ",
                resource,
                " advanced past ",
                &decimal_text(base),
                " without a commit",
            );
            return Err(CoreError::RecoveryFailed(m));
        },
        Some(d) => d,
    };
    let view: CommitView = match seek_generation(table, &head_commit, base + 1, resource) {
        Err(e) => {
            return Err(e);
        },
        Ok(Step::Fetch(d)) => {
            return Ok(Step::Fetch(d));
        },
        Ok(Step::Done((v, _))) => v,
    };
    if !identity_in_commit(&view, identity) {
        return Ok(Step::Done(PendingCheck::Rebase { base: head.generation }));
    }
    match outcome_from_view(&view, identity) {
        Err(e) => Err(e),
        Ok(result) => Ok(
            Step::Done(
                PendingCheck::Applied {
                    generation: view.header.generation,
                    commit: view.digest,
                    result,
                },
            ),
        ),
    }
}

/// What an admission needs next.
#[derive(Clone, Copy, Debug, PartialEq, Eq, Structural)]
pub enum AdmitPhase {
    Load,
    Cached { generation: u64, commit: Digest },
    Recover,
    Base,
    Check,
    /// A write of the intent over the version that was loaded.
    Update,
    /// A first write of the intent.
    Create,
    Done,
}

/// Sees to it that an identity has an intent before a shared publication.
pub struct IntentAdmitter {
    pub identity: OpIdentity,
    pub resource: String,
    pub request: Digest,
    pub expires_at: Option<Timestamp>,
    pub base_generation: u64,
    pub phase: AdmitPhase,
    pub attempts: u32,
    pub intent: Option<OpIntent>,
    pub version: Option<Version>,
}

impl IntentAdmitter {
    pub open spec fn wf(self) -> bool {
        &&& self.attempts < MAX_PUBLISH_ATTEMPTS
        &&& match self.phase {
            AdmitPhase::Load | AdmitPhase::Done => true,
            AdmitPhase::Recover => self.intent is Some <==> self.version is Some,
            AdmitPhase::Create => self.intent is Some && self.version is None,
            _ => self.intent is Some && self.version is Some,
        }
    }

    pub open spec fn same_request(self, other: IntentAdmitter) -> bool {
        self.identity == other.identity && self.resource == other.resource && self.request
            == other.request && self.expires_at == other.expires_at && self.base_generation
            == other.base_generation
    }

    pub open spec fn moved(self, other: IntentAdmitter, phase: AdmitPhase) -> bool {
        self == (IntentAdmitter { phase, ..other })
    }

    pub open spec fn again(
        self,
        other: IntentAdmitter,
        r: core::result::Result<Option<IntentAdmission>, Failure>,
    ) -> bool {
        if other.attempts + 1 < MAX_PUBLISH_ATTEMPTS {
            (r matches Ok(None)) && self.same_request(other) && self.phase == AdmitPhase::Load
                && self.attempts == other.attempts + 1
        } else {
            (r matches Err(Failure::AdmissionNotConverged)) && self.moved(other, AdmitPhase::Done)
        }
    }

    pub fn new(
        identity: OpIdentity,
        resource: &str,
        request: Digest,
        base_generation: u64,
        policy: &OperationPolicy,
    ) -> (r: Self)
        requires
            judgeable(identity, *policy),
        ensures
            r.wf(),
            r.identity == identity,
            r.resource@ == resource@,
            r.request == request,
            r.base_generation == base_generation,
            r.phase == AdmitPhase::Load,
            r.attempts == 0,
            match identity {
                OpIdentity::Generic(op) => r.expires_at matches Some(t) && t@ == id_millis(op@)
                    * 1_000_000 + policy.window,
                OpIdentity::Stable(_) => r.expires_at is None,
            },
    {
        let expires_at: Option<Timestamp> = intent_expiry(&identity, policy);
        IntentAdmitter {
            identity,
            resource: resource.to_owned(),
            request,
            expires_at,
            base_generation,
            phase: AdmitPhase::Load,
            attempts: 0,
            intent: None,
            version: None,
        }
    }

    /// Takes in the intent.
    pub fn on_intent(
        &mut self,
        loaded: Option<(OpIntent, Version)>,
        now: Timestamp,
        policy: &OperationPolicy,
    ) -> (r: Result<()>)
        requires
            old(self).wf(),
            old(self).phase == AdmitPhase::Load,
            judgeable(old(self).identity, *policy),
            old(self).identity is Generic ==> is_moment(now@ + policy.max_future_skew),
        ensures
            final(self).wf(),
            final(self).same_request(*old(self)),
            final(self).attempts == old(self).attempts,
            match opening(
                old(self).identity,
                old(self).resource@,
                old(self).request,
                loaded,
                now,
                *policy,
            ) {
                Opening::Refused => r matches Err(e) && refusal(
                    e,
                    old(self).identity,
                    old(self).request,
                    loaded,
                    now,
                    *policy,
                ),
                Opening::Missing => {
                    &&& r is Ok
                    &&& final(self).phase == AdmitPhase::Recover
                    &&& final(self).intent is None
                    &&& final(self).version is None
                },
                Opening::Cached { generation, commit } => r is Ok && final(self).phase == (
                AdmitPhase::Cached { generation, commit }) && final(self).intent == Some(
                    (loaded->0).0,
                ) && final(self).version == Some((loaded->0).1),
                Opening::Pending => {
                    &&& r is Ok
                    &&& final(self).phase == AdmitPhase::Check
                    &&& final(self).intent == Some((loaded->0).0)
                    &&& final(self).version == Some((loaded->0).1)
                },
            },
    {
        let cached: Option<(u64, Digest)> = match open_intent(
            &self.identity,
            &self.resource,
            &self.request,
            &loaded,
            now,
            policy,
        ) {
            Ok(c) => c,
            Err(e) => {
                return Err(e);
            },
        };
        match loaded {
            None => {
                self.intent = None;
                self.version = None;
                self.phase = AdmitPhase::Recover;
            },
            Some((intent, version)) => {
                self.intent = Some(intent);
                self.version = Some(version);
                self.phase = match cached {
                    Some((generation, commit)) => AdmitPhase::Cached { generation, commit },
                    None => AdmitPhase::Check,
                };
            },
        }
        Ok(())
    }

    /// Takes in what the chain holds of the commit that the intent names.
    pub fn on_cached(&mut self, found: Option<Published<RecordedOutcome>>) -> (r: Option<
        IntentAdmission,
    >)
        requires
            old(self).wf(),
            old(self).phase is Cached,
        ensures
            final(self).wf(),
            match found {
                Some(p) => r == Some(
                    IntentAdmission::Applied {
                        generation: p.generation,
                        commit: p.commit,
                        result: p.outcome,
                    },
                ) && final(self).moved(*old(self), AdmitPhase::Done),
                None => r is None && final(self).moved(*old(self), AdmitPhase::Recover),
            },
    {
        match found {
            Some(p) => {
                self.phase = AdmitPhase::Done;
                Some(
                    IntentAdmission::Applied {
                        generation: p.generation,
                        commit: p.commit,
                        result: p.outcome,
                    },
                )
            },
            None => {
                self.phase = AdmitPhase::Recover;
                None
            },
        }
    }

    /// Takes in what a search of the chain found. Where nothing was found, a
    /// missing intent is written at the caller's base, and one that was
    /// wrongly said to be applied at the head.
    pub fn on_recovered(&mut self, found: Option<Published<RecordedOutcome>>) -> (r: Option<
        IntentAdmission,
    >)
        requires
            old(self).wf(),
            old(self).phase == AdmitPhase::Recover,
        ensures
            final(self).wf(),
            match found {
                Some(p) => r == Some(
                    IntentAdmission::Applied {
                        generation: p.generation,
                        commit: p.commit,
                        result: p.outcome,
                    },
                ) && final(self).moved(*old(self), AdmitPhase::Done),
                None => r is None && match old(self).intent {
                    Some(_) => final(self).moved(*old(self), AdmitPhase::Base),
                    None => {
                        &&& final(self).phase == AdmitPhase::Create
                        &&& final(self).same_request(*old(self))
                        &&& final(self).attempts == old(self).attempts
                        &&& final(self).version is None
                        &&& final(self).intent matches Some(i) && intent_view(i) == (IntentRecord {
                            schema: INTENT_SCHEMA@,
                            identity: old(self).identity.text(),
                            resource: old(self).resource@,
                            request: old(self).request,
                            base_generation: old(self).base_generation,
                            proposed: Seq::empty(),
                            state: IntentState::Pending,
                            expires_at: old(self).expires_at,
                        })
                    },
                },
            },
    {
        match found {
            Some(p) => {
                self.phase = AdmitPhase::Done;
                return Some(
                    IntentAdmission::Applied {
                        generation: p.generation,
                        commit: p.commit,
                        result: p.outcome,
                    },
                );
            },
            None => {},
        }
        if self.intent.is_some() {
            self.phase = AdmitPhase::Base;
        } else {
            self.intent = Some(
                OpIntent::pending(
                    &self.identity,
                    &self.resource,
                    self.request,
                    self.base_generation,
                    self.expires_at,
                ),
            );
            self.phase = AdmitPhase::Create;
        }
        None
    }

    fn rebase(&mut self, generation: u64)
        requires
            old(self).attempts < MAX_PUBLISH_ATTEMPTS,
            old(self).intent is Some,
            old(self).version is Some,
        ensures
            final(self).wf(),
            *final(self) == (IntentAdmitter {
                phase: AdmitPhase::Update,
                intent: Some(
                    OpIntent {
                        state: IntentState::Pending,
                        base_generation: generation,
                        ..old(self).intent->0
                    },
                ),
                ..*old(self)
            }),
    {
        let taken: Option<OpIntent> = self.intent.take();
        if let Some(mut intent) = taken {
            intent.state = IntentState::Pending;
            intent.base_generation = generation;
            self.intent = Some(intent);
        }
        self.phase = AdmitPhase::Update;
    }

    /// Takes in the head's generation as the base of an intent that was
    /// wrongly said to be applied.
    pub fn on_base(&mut self, generation: u64)
        requires
            old(self).wf(),
            old(self).phase == AdmitPhase::Base,
        ensures
            final(self).wf(),
            *final(self) == (IntentAdmitter {
                phase: AdmitPhase::Update,
                intent: Some(
                    OpIntent {
                        state: IntentState::Pending,
                        base_generation: generation,
                        ..old(self).intent->0
                    },
                ),
                ..*old(self)
            }),
    {
        self.rebase(generation);
    }

    /// Takes in where the pending intent stands.
    pub fn on_checked(&mut self, check: PendingCheck) -> (r: Option<IntentAdmission>)
        requires
            old(self).wf(),
            old(self).phase == AdmitPhase::Check,
        ensures
            final(self).wf(),
            match check {
                PendingCheck::Current => r == Some(
                    IntentAdmission::Pending { base: old(self).intent->0.base_generation },
                ) && final(self).moved(*old(self), AdmitPhase::Done),
                PendingCheck::Applied { generation, commit, result } => r == Some(
                    IntentAdmission::Applied { generation, commit, result },
                ) && final(self).moved(*old(self), AdmitPhase::Done),
                PendingCheck::Rebase { base } => r is None && *final(self) == (IntentAdmitter {
                    phase: AdmitPhase::Update,
                    intent: Some(
                        OpIntent {
                            state: IntentState::Pending,
                            base_generation: base,
                            ..old(self).intent->0
                        },
                    ),
                    ..*old(self)
                }),
            },
    {
        match check {
            PendingCheck::Current => {
                let base: u64 = match &self.intent {
                    Some(i) => i.base_generation,
                    None => 0,
                };
                self.phase = AdmitPhase::Done;
                Some(IntentAdmission::Pending { base })
            },
            PendingCheck::Applied { generation, commit, result } => {
                self.phase = AdmitPhase::Done;
                Some(IntentAdmission::Applied { generation, commit, result })
            },
            PendingCheck::Rebase { base } => {
                self.rebase(base);
                None
            },
        }
    }

    /// Takes in what came of writing the intent. A first write that the
    /// backend did not answer may have happened, so the intent is loaded
    /// again.
    pub fn on_put(&mut self, answer: Result<Version>) -> (r: core::result::Result<
        Option<IntentAdmission>,
        Failure,
    >)
        requires
            old(self).wf(),
            old(self).phase == AdmitPhase::Update || old(self).phase == AdmitPhase::Create,
        ensures
            r is Ok ==> final(self).wf(),
            match answer {
                Ok(_) => r == Ok::<Option<IntentAdmission>, Failure>(
                    Some(IntentAdmission::Pending { base: old(self).intent->0.base_generation }),
                ) && final(self).moved(*old(self), AdmitPhase::Done),
                Err(e) => if e is AlreadyExists || e is PreconditionFailed || (
                e is BackendUnavailable && old(self).phase == AdmitPhase::Create) {
                    final(self).again(*old(self), r)
                } else {
                    r == Err::<Option<IntentAdmission>, Failure>(Failure::Core(e)) && *final(self)
                        == *old(self)
                },
            },
    {
        match answer {
            Ok(_) => {
                let base: u64 = match &self.intent {
                    Some(i) => i.base_generation,
                    None => 0,
                };
                self.phase = AdmitPhase::Done;
                Ok(Some(IntentAdmission::Pending { base }))
            },
            Err(CoreError::AlreadyExists(_)) => self.retry(),
            Err(CoreError::PreconditionFailed(_)) => self.retry(),
            Err(e) => {
                let unanswered: bool = match &e {
                    CoreError::BackendUnavailable(_) => true,
                    _ => false,
                };
                if unanswered && self.phase == AdmitPhase::Create {
                    self.retry()
                } else {
                    Err(Failure::Core(e))
                }
            },
        }
    }

    fn retry(&mut self) -> (r: core::result::Result<Option<IntentAdmission>, Failure>)
        requires
            old(self).wf(),
        ensures
            r is Ok ==> final(self).wf(),
            final(self).again(*old(self), r),
    {
        if self.attempts + 1 < MAX_PUBLISH_ATTEMPTS {
            self.attempts = self.attempts + 1;
            self.phase = AdmitPhase::Load;
            Ok(None)
        } else {
            self.phase = AdmitPhase::Done;
            Err(Failure::AdmissionNotConverged)
        }
    }
}

// ---------------------------------------------------------------- renewal
/// Whether `next` renews the lease of `current` until `ttl_secs` seconds
/// after `now`, and changes nothing else.
pub open spec fn is_renewal(next: RefValue, current: RefValue, ttl_secs: i64, now: Timestamp) -> bool {
    next == (RefValue { lease: next.lease, updated_at: now, ..current }) && (next.lease matches Some(
        l,
    ) && l.writer == current.lease->0.writer && l.lease_until@ == now@ + ttl_secs * 1_000_000_000)
}

/// The ref to write to renew the lease: no new generation and no commit.
pub fn renew_lease(
    name: &str,
    snapshot: &Option<HeadSnapshot>,
    fence: u64,
    ttl_secs: i64,
    now: Timestamp,
) -> (r: core::result::Result<RefValue, Failure>)
    requires
        is_moment(now@ + ttl_secs * 1_000_000_000),
    ensures
        match snapshot {
            None => r matches Err(Failure::NoSuchRef { name: n }) && n@ == name@,
            Some(s) => if s.value.epoch != fence {
                r == Err::<RefValue, Failure>(
                    Failure::Core(CoreError::Fenced { caller: fence, live: s.value.epoch }),
                )
            } else if s.value.lease is None {
                r matches Err(Failure::NoLease { name: n }) && n@ == name@
            } else {
                r matches Ok(next) && is_renewal(next, s.value, ttl_secs, now)
            },
        },
{
    let current: &RefValue = match snapshot {
        None => {
            return Err(Failure::NoSuchRef { name: name.to_owned() });
        },
        Some(s) => &s.value,
    };
    if current.epoch != fence {
        return Err(Failure::Core(CoreError::Fenced { caller: fence, live: current.epoch }));
    }
    let writer: String = match &current.lease {
        None => {
            return Err(Failure::NoLease { name: name.to_owned() });
        },
        Some(l) => l.writer.clone(),
    };
    let mut next: RefValue = current.clone();
    next.lease = Some(Lease { writer, lease_until: now.plus(ttl_secs as i128 * 1_000_000_000) });
    next.updated_at = now;
    Ok(next)
}

/// Whether a renewal is done after its `tries`-th write; if not, it is tried
/// again from a fresh head.
pub fn renew_again(tries: u32, answer: Result<Version>) -> (r: core::result::Result<bool, Failure>)
    requires
        tries >= 1,
    ensures
        match answer {
            Ok(_) => r == Ok::<bool, Failure>(true),
            Err(e) => if e is PreconditionFailed || e is AlreadyExists {
                if tries < MAX_RENEWALS {
                    r == Ok::<bool, Failure>(false)
                } else {
                    r matches Err(Failure::LostRace)
                }
            } else {
                r == Err::<bool, Failure>(Failure::Core(e))
            },
        },
{
    let lost: bool = match answer {
        Ok(_) => {
            return Ok(true);
        },
        Err(CoreError::PreconditionFailed(_)) => true,
        Err(CoreError::AlreadyExists(_)) => true,
        Err(e) => {
            return Err(Failure::Core(e));
        },
    };
    if lost && tries < MAX_RENEWALS {
        Ok(false)
    } else {
        Err(Failure::LostRace)
    }
}

/// A renewal keeps generation, epoch, target and head commit.
pub proof fn law_renewal_changes_only_the_lease(
    next: RefValue,
    current: RefValue,
    ttl_secs: i64,
    now: Timestamp,
)
    requires
        is_renewal(next, current, ttl_secs, now),
    ensures
        next.generation == current.generation,
        next.epoch == current.epoch,
        next.target == current.target,
        next.head_commit == current.head_commit,
        next.tenant == current.tenant,
        next.name == current.name,
        next.schema == current.schema,
        next.updated_at == now,
        next.lease is Some,
        next.lease->0.writer == current.lease->0.writer,
        next.lease->0.lease_until@ - now@ == ttl_secs * 1_000_000_000,
        ttl_secs > 0 ==> next.leased(now),
{
}

/// An admission that lost its race starts over from the stored intent, up to
/// 128 times, and stays the same request.
pub proof fn law_lost_admission_starts_over(
    p: IntentAdmitter,
    before: IntentAdmitter,
    r: core::result::Result<Option<IntentAdmission>, Failure>,
)
    requires
        p.again(before, r),
    ensures
        r is Ok <==> before.attempts + 1 < 128,
        r is Ok ==> r->Ok_0 is None && p.phase is Load && p.attempts == before.attempts + 1
            && p.identity == before.identity && p.resource == before.resource && p.request
            == before.request && p.base_generation == before.base_generation && p.expires_at
            == before.expires_at,
        r is Err ==> r->Err_0 is AdmissionNotConverged && p.phase is Done,
{
}

/// Where the head went on without a commit, or is behind the intent, a pending
/// intent cannot be placed.
pub proof fn law_unexplained_head_places_nothing(
    m: Map<Digest, FetchedView<CommitRecord>>,
    head: RefValue,
    base: u64,
    id: Seq<char>,
    resource: Seq<char>,
)
    requires
        head.generation < base || (head.generation > base && head.head_commit is None),
    ensures
        pending_view(m, head, base, id, resource) matches PendingView::Fail(c) && c
            is RecoveryFailed,
{
}

} // verus!
