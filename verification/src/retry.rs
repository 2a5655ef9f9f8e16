//! Publishing one request twice: the second time it is found, or refused, and
//! never attempted.
use vstd::prelude::*;

use crate::ancestry::{
    is_ancestry, law_retry_finds_its_publication, law_seek_reaches_every_generation,
};
use crate::chain::{
    cached, is_conflict, is_publication, load, outcome_of, plain_record, records, records_request,
    restorable, restored, scan, unrecorded, CachedView, ChainLoad, CommitRecord, MAX_SEEK_HOPS,
    Published, RecordedOutcome, ScanView,
};
use crate::commit::{Commit, IntentState, OpIntent};
use crate::digest::Digest;
use crate::error::{CoreError, ErrorView};
use crate::object::Version;
use crate::operation::{OpIdentity, OperationPolicy};
use crate::plans::{PrepareCtx, PreparedMutation};
use crate::publication::{
    opening, refusal, usable, Finding, FindingView, Opening, Publication, PublishPhase,
};
use crate::publish::{is_commit_of, resolution, starts_as, Attempt, Resolution};
use crate::refs::RefValue;
use crate::store::Store;
use crate::table::FetchedView;
use crate::time::Timestamp;

verus! {

/// What a publication comes to before it writes anything. Only an attempt
/// goes on to replace the ref.
pub enum Answer {
    Fetch(Digest),
    Fail(ErrorView),
    /// The time or the intent speaks against the request.
    Refused,
    /// The chain records another request under the identity.
    Conflict { original: Digest },
    /// The chain records the request.
    Published(CommitRecord),
    Attempt,
}

/// What a commit that records the request gives back.
pub open spec fn given_back(v: CommitRecord, id: Seq<char>, tenant: Seq<char>) -> Answer {
    if outcome_of(v, id) is Some && restorable(v, tenant) {
        Answer::Published(v)
    } else {
        Answer::Fail(ErrorView::RecoveryFailed(unrecorded(v, id, tenant)))
    }
}

/// What a search of the whole chain comes to.
pub open spec fn searched(
    m: Map<Digest, FetchedView<CommitRecord>>,
    head: RefValue,
    id: Seq<char>,
    request: Digest,
    resource: Seq<char>,
    tenant: Seq<char>,
) -> Answer {
    match head.head_commit {
        None => Answer::Attempt,
        Some(d) => match scan(m, d, id, request, resource, 0) {
            ScanView::Fetch(n) => Answer::Fetch(n),
            ScanView::Fail(c) => Answer::Fail(c),
            ScanView::Conflict { original } => Answer::Conflict { original },
            ScanView::Found(v) => given_back(v, id, tenant),
            ScanView::Absent => Answer::Attempt,
        },
    }
}

/// What a publication comes to that loaded the intent `loaded` and reads the
/// ref `head`: the intent opens it, and the chain of the ref decides.
pub open spec fn answer(
    m: Map<Digest, FetchedView<CommitRecord>>,
    head: RefValue,
    identity: OpIdentity,
    request: Digest,
    resource: Seq<char>,
    tenant: Seq<char>,
    loaded: Option<(OpIntent, Version)>,
    now: Timestamp,
    policy: OperationPolicy,
) -> Answer {
    let id = identity.text();
    match opening(identity, resource, request, loaded, now, policy) {
        Opening::Refused => Answer::Refused,
        Opening::Missing => searched(m, head, id, request, resource, tenant),
        Opening::Cached { generation, commit } => match cached(
            m,
            head.generation,
            head.head_commit,
            id,
            request,
            resource,
            tenant,
            generation,
            commit,
        ) {
            CachedView::Fetch(d) => Answer::Fetch(d),
            CachedView::Fail(c) => Answer::Fail(c),
            CachedView::Found(v) => Answer::Published(v),
            CachedView::Unconfirmed => searched(m, head, id, request, resource, tenant),
        },
        Opening::Pending => match resolution(
            m,
            head,
            (loaded->0).0.base_generation,
            id,
            request,
            resource,
        ) {
            Resolution::Fetch(d) => Answer::Fetch(d),
            Resolution::Fail(c) => Answer::Fail(c),
            Resolution::Conflict { original } => Answer::Conflict { original },
            Resolution::Found(v) => given_back(v, id, tenant),
            Resolution::Attempt { .. } => Answer::Attempt,
        },
    }
}

/// How many phases at most are left that ask for the chain.
spec fn left(phase: PublishPhase) -> nat {
    match phase {
        PublishPhase::Cached { .. } => 4,
        PublishPhase::Recover => 3,
        PublishPhase::Base => 2,
        PublishPhase::Resolve => 1,
        _ => 0,
    }
}

/// What a publication comes to from where it stands, if the chain stays as it
/// is: it writes the intent or attempts the change once no phase is left that
/// asks.
spec fn comes_to(
    p: Publication,
    m: Map<Digest, FetchedView<CommitRecord>>,
    head: RefValue,
    tenant: Seq<char>,
) -> Answer
    decreases left(p.phase),
{
    if !p.asks() {
        Answer::Attempt
    } else {
        match p.finding(m, head, tenant) {
            FindingView::Fetch(d) => Answer::Fetch(d),
            FindingView::Fail(c) => Answer::Fail(c),
            FindingView::Conflict { original } => Answer::Conflict { original },
            FindingView::Published(v) => Answer::Published(v),
            FindingView::Attempt { .. } => Answer::Attempt,
            FindingView::Nothing => if p.phase is Cached {
                comes_to(Publication { phase: PublishPhase::Recover, ..p }, m, head, tenant)
            } else if p.phase is Recover {
                comes_to(Publication { phase: PublishPhase::Base, ..p }, m, head, tenant)
            } else {
                Answer::Attempt
            },
            FindingView::Base { generation } => match p.intent {
                Some(i) => if p.phase is Base {
                    comes_to(
                        Publication {
                            phase: PublishPhase::Resolve,
                            intent: Some(
                                OpIntent {
                                    state: IntentState::Pending,
                                    base_generation: generation,
                                    ..i
                                },
                            ),
                            ..p
                        },
                        m,
                        head,
                        tenant,
                    )
                } else {
                    Answer::Attempt
                },
                None => Answer::Attempt,
            },
        }
    }
}

/// Whether `run` is a publication that goes from phase to phase, told
/// `findings` by one head and its chain.
pub open spec fn runs(
    run: Seq<Publication>,
    findings: Seq<Finding>,
    m: Map<Digest, FetchedView<CommitRecord>>,
    head: RefValue,
    tenant: Seq<char>,
) -> bool {
    &&& run.len() == findings.len() + 1
    &&& forall|i: int|
        0 <= i < findings.len() ==> (#[trigger] run[i]).told(findings[i], m, head, tenant)
            && run[i + 1].led(run[i], findings[i])
}

/// What is told to a phase leads on to what the publication comes to, or ends
/// it there.
proof fn lemma_step(
    p: Publication,
    f: Finding,
    q: Publication,
    m: Map<Digest, FetchedView<CommitRecord>>,
    head: RefValue,
    tenant: Seq<char>,
)
    requires
        p.told(f, m, head, tenant),
        q.led(p, f),
    ensures
        match f {
            Finding::Published(x) => comes_to(p, m, head, tenant) matches Answer::Published(v)
                && is_publication(x, v, p.identity.text(), false) && q.phase is Done,
            _ => comes_to(p, m, head, tenant) == comes_to(q, m, head, tenant) && !(q.phase is Done)
                && !(q.phase is Load),
        },
        q.same_request(p),
{
    if f is Base {
        match p.intent {
            Some(i) => {
                let next = Publication {
                    phase: PublishPhase::Resolve,
                    intent: Some(
                        OpIntent {
                            state: IntentState::Pending,
                            base_generation: head.generation,
                            ..i
                        },
                    ),
                    ..p
                };
                assert(q == next);
            },
            None => {},
        }
    }
}

proof fn lemma_run(
    run: Seq<Publication>,
    findings: Seq<Finding>,
    m: Map<Digest, FetchedView<CommitRecord>>,
    head: RefValue,
    tenant: Seq<char>,
    n: int,
)
    requires
        runs(run, findings, m, head, tenant),
        0 <= n <= findings.len(),
        run[0].asks(),
    ensures
        run[n].same_request(run[0]),
        n > 0 && findings[n - 1] is Published ==> (comes_to(run[0], m, head, tenant) matches
            Answer::Published(v) && is_publication(
            findings[n - 1]->Published_0,
            v,
            run[0].identity.text(),
            false,
        ) && run[n].phase is Done),
        n == 0 || !(findings[n - 1] is Published) ==> comes_to(run[n], m, head, tenant) == comes_to(
            run[0],
            m,
            head,
            tenant,
        ) && !(run[n].phase is Done) && !(run[n].phase is Load),
    decreases n,
{
    if n > 0 {
        lemma_run(run, findings, m, head, tenant, n - 1);
        assert(run[n - 1].told(findings[n - 1], m, head, tenant));
        assert(run[n - 1 + 1].led(run[n - 1], findings[n - 1]));
        lemma_step(run[n - 1], findings[n - 1], run[n], m, head, tenant);
    }
}

/// A publication that is taken through its phases comes to its answer. From
/// the intent on, told by one head and its chain what each phase asks, it
/// ends with the publication that was found exactly if that is the answer. It
/// comes to write the intent or to attempt the change only if an attempt is
/// the answer; and where the answer is anything else, it stands in a phase
/// that is told just that.
pub proof fn law_phases_come_to_the_answer(
    fresh: Publication,
    run: Seq<Publication>,
    findings: Seq<Finding>,
    m: Map<Digest, FetchedView<CommitRecord>>,
    head: RefValue,
    tenant: Seq<char>,
    loaded: Option<(OpIntent, Version)>,
    now: Timestamp,
    policy: OperationPolicy,
)
    requires
        runs(run, findings, m, head, tenant),
        run[0].opened(fresh, loaded, now, policy),
    ensures
        ({
            let id = fresh.identity.text();
            let last = run.last();
            let a = answer(
                m,
                head,
                fresh.identity,
                fresh.request,
                fresh.resource@,
                tenant,
                loaded,
                now,
                policy,
            );
            &&& last.phase is Done ==> findings.len() > 0 && (findings.last() matches
                Finding::Published(x) && (a matches Answer::Published(v) && is_publication(
                x,
                v,
                id,
                false,
            )))
            &&& last.phase is Create || last.phase is Attempt ==> a == Answer::Attempt
            &&& last.phase is Done || last.phase is Create || last.phase is Attempt || last.asks()
            &&& last.asks() ==> match last.finding(m, head, tenant) {
                FindingView::Fetch(d) => a == Answer::Fetch(d),
                FindingView::Fail(c) => a == Answer::Fail(c),
                FindingView::Conflict { original } => a == (Answer::Conflict { original }),
                FindingView::Published(v) => a == Answer::Published(v),
                FindingView::Attempt { .. } => a == Answer::Attempt,
                _ => true,
            }
        }),
{
    let n = findings.len() as int;
    lemma_opened(run[0], fresh, m, head, tenant, loaded, now, policy);
    lemma_run(run, findings, m, head, tenant, n);
    assert(run.last() == run[n]);
    if run[n].phase is Done {
        assert(n > 0 && findings[n - 1] is Published);
    }
    lemma_run_phase(run, findings, m, head, tenant, n);
}

proof fn lemma_run_phase(
    run: Seq<Publication>,
    findings: Seq<Finding>,
    m: Map<Digest, FetchedView<CommitRecord>>,
    head: RefValue,
    tenant: Seq<char>,
    n: int,
)
    requires
        runs(run, findings, m, head, tenant),
        0 <= n <= findings.len(),
        run[0].asks(),
    ensures
        run[n].phase is Done || run[n].phase is Create || run[n].phase is Attempt || run[n].asks(),
{
    if n > 0 {
        assert(run[n - 1].told(findings[n - 1], m, head, tenant));
        assert(run[n - 1 + 1].led(run[n - 1], findings[n - 1]));
    }
}

proof fn lemma_opened(
    p: Publication,
    fresh: Publication,
    m: Map<Digest, FetchedView<CommitRecord>>,
    head: RefValue,
    tenant: Seq<char>,
    loaded: Option<(OpIntent, Version)>,
    now: Timestamp,
    policy: OperationPolicy,
)
    requires
        p.opened(fresh, loaded, now, policy),
    ensures
        p.asks(),
        comes_to(p, m, head, tenant) == answer(
            m,
            head,
            fresh.identity,
            fresh.request,
            fresh.resource@,
            tenant,
            loaded,
            now,
            policy,
        ),
{
    reveal_with_fuel(comes_to, 5);
    if p.phase is Cached {
        let r = Publication { phase: PublishPhase::Recover, ..p };
        lemma_searched(r, m, head, tenant);
    } else if p.phase is Recover {
        lemma_searched(p, m, head, tenant);
    }
}

/// A search that finds nothing ends in an attempt, whatever the intent said.
proof fn lemma_searched(
    p: Publication,
    m: Map<Digest, FetchedView<CommitRecord>>,
    head: RefValue,
    tenant: Seq<char>,
)
    requires
        p.phase is Recover,
    ensures
        comes_to(p, m, head, tenant) == searched(
            m,
            head,
            p.identity.text(),
            p.request,
            p.resource@,
            tenant,
        ),
{
    reveal_with_fuel(comes_to, 4);
}

/// Whether `loaded` is what a publication of the request from `base` may have
/// left of its intent: it is still pending, it says it was applied by
/// `commit`, or it is gone.
pub open spec fn left_by(
    loaded: Option<(OpIntent, Version)>,
    identity: OpIdentity,
    request: Digest,
    resource: Seq<char>,
    base: u64,
    commit: Digest,
) -> bool {
    loaded matches Some(p) ==> p.0.valid() && p.0.identity@ == identity.text() && p.0.resource@
        == resource && p.0.request == request && match p.0.state {
        IntentState::Pending => p.0.base_generation == base,
        IntentState::Applied { generation, commit: c, .. } => generation == base + 1 && c == commit,
    }
}

/// Whether only the commit at `i` of a chain records `id`, and a search from
/// the last commit comes that far.
pub open spec fn recorded_once(chain: Seq<CommitRecord>, id: Seq<char>, i: int) -> bool {
    &&& 0 <= i < chain.len()
    &&& chain.len() - i <= MAX_SEEK_HOPS
    &&& records(chain[i], id)
    &&& forall|j: int| i < j < chain.len() ==> !records(#[trigger] chain[j], id)
}

proof fn lemma_scan_meets(
    m: Map<Digest, FetchedView<CommitRecord>>,
    chain: Seq<CommitRecord>,
    resource: Seq<char>,
    id: Seq<char>,
    request: Digest,
    i: int,
    n: int,
    hops: nat,
)
    requires
        is_ancestry(m, chain, resource),
        0 <= i <= n < chain.len(),
        hops + (n - i) < MAX_SEEK_HOPS,
        records(chain[i], id),
        forall|j: int| i < j <= n ==> !records(#[trigger] chain[j], id),
    ensures
        scan(m, chain[n].digest, id, request, resource, hops) == if records_request(
            chain[i],
            id,
            request,
        ) {
            ScanView::Found(chain[i])
        } else {
            ScanView::Conflict { original: chain[i].header.request }
        },
    decreases n - i,
{
    assert(load(m, chain[n].digest) == ChainLoad::View(chain[n]));
    if i < n {
        lemma_scan_meets(m, chain, resource, id, request, i, n - 1, hops + 1);
    }
}

/// A request that was published is published once. Whatever is left of its
/// intent, and however many publications came after it, a second publication
/// attempts nothing, so that the ref stays as it is. It gives back the
/// generation and the commit of the first and the outcome that was recorded,
/// and says that it is not the first delivery.
pub proof fn law_second_publication_gives_the_first<R>(
    first: Attempt<R>,
    m: Map<Digest, FetchedView<CommitRecord>>,
    chain: Seq<CommitRecord>,
    head: RefValue,
    identity: OpIdentity,
    request: Digest,
    resource: Seq<char>,
    tenant: Seq<char>,
    loaded: Option<(OpIntent, Version)>,
    now: Timestamp,
    policy: OperationPolicy,
    second: Published<RecordedOutcome>,
)
    requires
        is_ancestry(m, chain, resource),
        head.generation == chain.len(),
        head.head_commit == Some(chain.last().digest),
        first.generation == first.base + 1,
        first.base < chain.len(),
        ({
            let v = chain[first.base as int];
            &&& v.digest == first.commit
            &&& records(v, identity.text())
            &&& records_request(v, identity.text(), request)
            &&& outcome_of(v, identity.text()) is Some
            &&& restorable(v, tenant)
        }),
        left_by(loaded, identity, request, resource, first.base, first.commit),
        loaded is None ==> recorded_once(chain, identity.text(), first.base as int),
        usable(identity, now, policy, loaded is Some),
    ensures
        ({
            let v = chain[first.base as int];
            &&& answer(m, head, identity, request, resource, tenant, loaded, now, policy)
                == Answer::Published(v)
            &&& is_publication(second, v, identity.text(), false) ==> {
                &&& second.generation == first.generation
                &&& second.commit == first.commit
                &&& !second.first_delivery
                &&& second.value == restored(v)
                &&& v.header.identity@ == identity.text() && v.result == Some(first.result)
                    ==> second.outcome == RecordedOutcome::Result(first.result)
            }
        }),
{
    let id = identity.text();
    let k = first.base as int;
    law_seek_reaches_every_generation(m, chain, resource, (first.base + 1) as u64);
    law_retry_finds_its_publication(m, chain, head, first.base, id, request, resource);
    assert(chain[k].header.generation == k + 1);
    if loaded is None {
        lemma_scan_meets(m, chain, resource, id, request, k, chain.len() - 1, 0);
    }
}

/// The commit of a prepared change says all that a second publication of the
/// request gives back: the identity, the request, the result and the ref.
pub proof fn law_commit_records_the_change<R>(
    c: Commit,
    ctx: PrepareCtx<'_>,
    resource: Seq<char>,
    prepared: PreparedMutation<R>,
    digest: Digest,
)
    requires
        is_commit_of(c, ctx, resource, prepared),
        prepared.next.generation == ctx.generation,
        prepared.next.name@ == resource,
        prepared.result@ != "null"@,
    ensures
        ({
            let v = plain_record(digest, c);
            let id = ctx.identity.text();
            &&& records(v, id)
            &&& records_request(v, id, ctx.request)
            &&& outcome_of(v, id) == Some(RecordedOutcome::Result(prepared.result))
            &&& restorable(v, prepared.next.tenant@)
            &&& restored(v) == (RefValue { head_commit: Some(digest), ..prepared.next })
        }),
{
    assert(restored(plain_record(digest, c)) == (RefValue {
        head_commit: Some(digest),
        ..prepared.next
    }));
}

/// Publishing one request twice publishes it once. The first publication was
/// an attempt at a prepared change, whose commit is in the chain behind the
/// head, with any number of others after it. Then a second one, taken through
/// its phases from whatever the first left of its intent, never comes to
/// write an intent or to attempt a change, so that the ref stays as it is. It
/// ends with the generation and the commit of the first and with its result,
/// and says that it is not the first delivery.
pub proof fn law_publishing_twice_publishes_once<R>(
    first: Attempt<R>,
    prepared: PreparedMutation<R>,
    ctx: PrepareCtx<'_>,
    store: Store,
    body: Seq<u8>,
    c: Commit,
    m: Map<Digest, FetchedView<CommitRecord>>,
    chain: Seq<CommitRecord>,
    head: RefValue,
    fresh: Publication,
    run: Seq<Publication>,
    findings: Seq<Finding>,
    loaded: Option<(OpIntent, Version)>,
    now: Timestamp,
    policy: OperationPolicy,
)
    requires
        prepared.commit_upload is None,
        starts_as(first, prepared, ctx, store, Some(body)),
        is_commit_of(c, ctx, fresh.resource@, prepared),
        ctx.generation == first.base + 1,
        prepared.next.generation == ctx.generation,
        prepared.next.name@ == fresh.resource@,
        prepared.next.tenant@ == store.tenant@,
        prepared.result@ != "null"@,
        is_ancestry(m, chain, fresh.resource@),
        head.generation == chain.len(),
        head.head_commit == Some(chain.last().digest),
        first.base < chain.len(),
        chain[first.base as int] == plain_record(first.commit, c),
        fresh.identity == *ctx.identity,
        fresh.request == ctx.request,
        left_by(loaded, fresh.identity, fresh.request, fresh.resource@, first.base, first.commit),
        loaded is None ==> recorded_once(chain, fresh.identity.text(), first.base as int),
        run[0].opened(fresh, loaded, now, policy),
        runs(run, findings, m, head, store.tenant@),
    ensures
        ({
            let last = run.last();
            let v = chain[first.base as int];
            &&& !(last.phase is Create) && !(last.phase is Attempt)
            &&& last.phase is Done ==> findings.len() > 0 && (findings.last() matches
                Finding::Published(second) && ({
                &&& second.generation == first.generation
                &&& second.commit == first.commit
                &&& second.outcome == RecordedOutcome::Result(first.result)
                &&& second.value == (RefValue { head_commit: Some(first.commit), ..prepared.next })
                &&& !second.first_delivery
            }))
            &&& last.asks() ==> match last.finding(m, head, store.tenant@) {
                FindingView::Published(found) => found == v,
                FindingView::Nothing => true,
                FindingView::Base { .. } => true,
                _ => false,
            }
        }),
{
    let v = chain[first.base as int];
    law_commit_records_the_change(c, ctx, fresh.resource@, prepared, first.commit);
    law_phases_come_to_the_answer(
        fresh,
        run,
        findings,
        m,
        head,
        store.tenant@,
        loaded,
        now,
        policy,
    );
    let second = if findings.len() > 0 && findings.last() is Published {
        findings.last()->Published_0
    } else {
        arbitrary()
    };
    law_second_publication_gives_the_first(
        first,
        m,
        chain,
        head,
        fresh.identity,
        fresh.request,
        fresh.resource@,
        store.tenant@,
        loaded,
        now,
        policy,
        second,
    );
}

/// A request under an identity that was used for another request, or on
/// another resource, attempts nothing, so that the ref stays as it is. It is
/// told of the conflict, by the intent or, where that is gone, by the chain.
pub proof fn law_other_request_is_a_conflict(
    m: Map<Digest, FetchedView<CommitRecord>>,
    chain: Seq<CommitRecord>,
    head: RefValue,
    identity: OpIdentity,
    request: Digest,
    resource: Seq<char>,
    tenant: Seq<char>,
    loaded: Option<(OpIntent, Version)>,
    now: Timestamp,
    policy: OperationPolicy,
    i: int,
    e: CoreError,
)
    requires
        usable(identity, now, policy, loaded is Some),
        match loaded {
            Some(p) => p.0.valid() && p.0.identity@ == identity.text() && (p.0.request != request
                || p.0.resource@ != resource),
            None => {
                &&& is_ancestry(m, chain, resource)
                &&& head.head_commit == Some(chain.last().digest)
                &&& recorded_once(chain, identity.text(), i)
                &&& !records_request(chain[i], identity.text(), request)
            },
        },
    ensures
        match loaded {
            Some(p) => {
                &&& answer(m, head, identity, request, resource, tenant, loaded, now, policy)
                    is Refused
                &&& refusal(e, identity, request, loaded, now, policy) ==> is_conflict(
                    e,
                    identity.text(),
                    p.0.request,
                    request,
                )
            },
            None => answer(m, head, identity, request, resource, tenant, loaded, now, policy) == (
            Answer::Conflict { original: chain[i].header.request }),
        },
{
    if loaded is None {
        lemma_scan_meets(m, chain, resource, identity.text(), request, i, chain.len() - 1, 0);
    }
}

/// A publication of another request under a used identity goes nowhere. Where
/// the intent is still there, it is refused before its phases begin. Where it
/// is gone, the first phase is told of the conflict by the chain, and no
/// other follows.
pub proof fn law_conflict_stops_the_phases(
    m: Map<Digest, FetchedView<CommitRecord>>,
    chain: Seq<CommitRecord>,
    head: RefValue,
    tenant: Seq<char>,
    fresh: Publication,
    run: Seq<Publication>,
    findings: Seq<Finding>,
    loaded: Option<(OpIntent, Version)>,
    now: Timestamp,
    policy: OperationPolicy,
    i: int,
)
    requires
        is_ancestry(m, chain, fresh.resource@),
        head.head_commit == Some(chain.last().digest),
        recorded_once(chain, fresh.identity.text(), i),
        !records_request(chain[i], fresh.identity.text(), fresh.request),
        loaded matches Some(p) ==> p.0.request != fresh.request || p.0.resource@ != fresh.resource@,
        runs(run, findings, m, head, tenant),
    ensures
        run[0].opened(fresh, loaded, now, policy) ==> loaded is None && findings.len() == 0
            && run[0].finding(m, head, tenant) == (FindingView::Conflict {
            original: chain[i].header.request,
        }),
{
    if run[0].opened(fresh, loaded, now, policy) {
        lemma_scan_meets(
            m,
            chain,
            fresh.resource@,
            fresh.identity.text(),
            fresh.request,
            i,
            chain.len() - 1,
            0,
        );
        if findings.len() > 0 {
            assert(run[0].told(findings[0], m, head, tenant));
        }
    }
}

proof fn lemma_scan_misses(
    m: Map<Digest, FetchedView<CommitRecord>>,
    chain: Seq<CommitRecord>,
    resource: Seq<char>,
    id: Seq<char>,
    request: Digest,
    n: int,
    hops: nat,
)
    requires
        is_ancestry(m, chain, resource),
        0 <= n < chain.len(),
        hops + n < MAX_SEEK_HOPS,
        forall|j: int| 0 <= j <= n ==> !records(#[trigger] chain[j], id),
    ensures
        scan(m, chain[n].digest, id, request, resource, hops) is Absent,
    decreases n,
{
    assert(load(m, chain[n].digest) == ChainLoad::View(chain[n]));
    if n > 0 {
        lemma_scan_misses(m, chain, resource, id, request, n - 1, hops + 1);
    }
}

/// A request that nobody published is attempted: with no intent, or with one
/// that is still pending from the head or from before it, as long as no commit
/// of the chain records its identity.
pub proof fn law_new_request_is_attempted(
    m: Map<Digest, FetchedView<CommitRecord>>,
    chain: Seq<CommitRecord>,
    head: RefValue,
    identity: OpIdentity,
    request: Digest,
    resource: Seq<char>,
    tenant: Seq<char>,
    loaded: Option<(OpIntent, Version)>,
    now: Timestamp,
    policy: OperationPolicy,
)
    requires
        is_ancestry(m, chain, resource),
        chain.len() <= 10_000,
        head.generation == chain.len(),
        head.head_commit == if chain.len() == 0 {
            None
        } else {
            Some(chain.last().digest)
        },
        forall|j: int| 0 <= j < chain.len() ==> !records(#[trigger] chain[j], identity.text()),
        loaded matches Some(p) ==> p.0.fault() is None && p.0.identity@ == identity.text()
            && p.0.resource@ == resource && p.0.request == request && p.0.state is Pending
            && p.0.base_generation <= chain.len(),
        usable(identity, now, policy, loaded is Some),
    ensures
        answer(m, head, identity, request, resource, tenant, loaded, now, policy)
            == Answer::Attempt,
{
    let id = identity.text();
    match loaded {
        None => {
            if chain.len() > 0 {
                lemma_scan_misses(m, chain, resource, id, request, chain.len() - 1, 0);
            }
        },
        Some(p) => {
            let base = p.0.base_generation;
            if base < chain.len() {
                law_seek_reaches_every_generation(m, chain, resource, (base + 1) as u64);
                assert(!records(chain[base as int], id));
            }
        },
    }
}

} // verus!
