//! Appends that are retried safely: stable keys, and groups of requests
//! that share one publication.
use vstd::prelude::*;
use vstd::utf8::encode_utf8;

use crate::append::{append_material, append_material_view, stable_receipt, GenericItem, StableItem};
use crate::bytes::same_bytes;
use crate::chain::{Published, RecordedOutcome};
use crate::commit::Admission;
use crate::digest::{Digest, DigestKey};
use crate::error::{integrity, rejected, CoreError, ErrorView, Result};
use crate::hamt::{
    check_root_against_head, found, grafted, index_grows, index_lookup, law_inserted_key_is_found,
    law_lookup_is_stable, law_receipts_last, root_fault, root_fits, EntryView, IndexHead, IndexStep,
    LogScope, Lookup, LookupView, MAX_NODE_BYTES, NodeView, ROOT_SCHEMA, StableIndexRoot,
};
use crate::json::{
    field, fields_view, get_field, json_of, lemma_list_view, lemma_object_view, parse, reads_as,
    Json, JsonFaultView, JsonView,
};
use crate::log::{
    append_refusal, appendable, check_payloads, payload_seqs, range_fields, AppendRange, Appended,
    FeedMode, StableAppendReceipt,
};
use crate::operation::{material_hash, Material, OpIdentity};
use crate::publication::IntentAdmission;
use crate::store::Failure;
use crate::table::{extends, stored, FetchedView};
use crate::text::{join3, same_text};

verus! {

/// How often a stable append is tried.
pub const MAX_STABLE_ATTEMPTS: u32 = 128;

// ------------------------------------------------------------ stable keys
/// Why one event may not be appended under a stable key.
pub open spec fn stable_refusal(feed: FeedMode, payload: Seq<u8>) -> Seq<char> {
    if feed != FeedMode::Complete {
        "stable append requires a retained complete feed"@
    } else if payload.len() == 0 {
        "empty append"@
    } else {
        append_refusal(seq![payload])
    }
}

/// Whether one event may be appended under a stable key.
pub fn check_stable_append(feed: FeedMode, payload: &Vec<u8>) -> (r: Result<()>)
    ensures
        r is Ok <==> feed == FeedMode::Complete && payload@.len() > 0 && appendable(seq![payload@]),
        r matches Err(e) ==> e@ == ErrorView::Rejected(stable_refusal(feed, payload@)),
{
    if feed != FeedMode::Complete {
        return Err(rejected("stable append requires a retained complete feed"));
    }
    if payload.len() == 0 {
        return Err(rejected("empty append"));
    }
    let mut one: Vec<Vec<u8>> = Vec::new();
    one.push(crate::bytes::copy_bytes(payload));
    assert(payload_seqs(one@) =~= seq![payload@]);
    check_payloads(&one)
}

/// The index of a complete feed at a head.
pub fn index_at<'a>(root: Option<&'a StableIndexRoot>, head: IndexHead) -> (r: Result<&'a StableIndexRoot>)
    ensures
        match root {
            None => r matches Err(e) && e@ == ErrorView::IntegrityError(
                "complete feed is missing its stable-key index"@,
            ),
            Some(x) => if root_fits(*x, head) {
                r matches Ok(y) && *y == *x
            } else {
                r matches Err(e) && e@ == root_fault(*x, head)
            },
        },
{
    match root {
        None => Err(integrity("complete feed is missing its stable-key index")),
        Some(x) => match check_root_against_head(x, head) {
            Err(e) => Err(e),
            Ok(_) => Ok(x),
        },
    }
}

/// What a stable append is answered.
pub enum StableAnswer {
    Receipt(StableAppendReceipt),
    Conflict { existing: Digest, supplied: Digest },
    Append,
}

/// The receipt of an entry.
pub open spec fn receipt_of(e: EntryView) -> StableAppendReceipt {
    StableAppendReceipt {
        payload_hash: e.payload_hash,
        range: AppendRange { first: e.first, last: e.last },
        generation: e.generation,
    }
}

/// What is found under the key decides: the same bytes get the receipt of
/// the first append, other bytes conflict, and an absent key is appended.
pub open spec fn stable_answer(found: Option<EntryView>, payload_hash: Digest) -> StableAnswer {
    match found {
        Some(e) => if e.payload_hash == payload_hash {
            StableAnswer::Receipt(receipt_of(e))
        } else {
            StableAnswer::Conflict { existing: e.payload_hash, supplied: payload_hash }
        },
        None => StableAnswer::Append,
    }
}

/// What an index lookup found.
pub open spec fn entry_of(found: Lookup) -> Option<EntryView> {
    match found {
        Lookup::Found(e) => Some(e@),
        Lookup::Absent => None,
    }
}

/// Whether `e` says that the key is taken by other bytes.
pub open spec fn is_key_conflict(e: CoreError, existing: Digest, supplied: Digest) -> bool {
    e matches CoreError::StableKeyConflict { existing: a, supplied: b } && a@ == existing.text()
        && b@ == supplied.text()
}

/// The receipt under which the event was appended already, if it was.
pub fn answer_stable(found: &Lookup, payload_hash: &Digest) -> (r: Result<
    Option<StableAppendReceipt>,
>)
    ensures
        match stable_answer(entry_of(*found), *payload_hash) {
            StableAnswer::Receipt(x) => r matches Ok(Some(y)) && y == x,
            StableAnswer::Conflict { existing, supplied } => r matches Err(e) && is_key_conflict(
                e,
                existing,
                supplied,
            ),
            StableAnswer::Append => r matches Ok(None),
        },
{
    match found {
        Lookup::Absent => Ok(None),
        Lookup::Found(e) => {
            if e.payload_hash == *payload_hash {
                Ok(
                    Some(
                        StableAppendReceipt {
                            payload_hash: *payload_hash,
                            range: AppendRange { first: e.first, last: e.last },
                            generation: e.generation,
                        },
                    ),
                )
            } else {
                Err(
                    CoreError::StableKeyConflict {
                        existing: e.payload_hash.to_string(),
                        supplied: payload_hash.to_string(),
                    },
                )
            }
        },
    }
}

/// What came of publishing a stable append.
#[derive(Debug)]
pub enum StableCommit {
    Committed,
    Conflict,
    Failed(Failure),
}

/// Whether a stable append is done after its `tries`-th publication; if not,
/// it starts over from a fresh head. A lost race and an unanswered backend
/// are tried again.
pub fn stable_again(tries: u32, outcome: StableCommit) -> (r: core::result::Result<bool, Failure>)
    requires
        tries >= 1,
    ensures
        match outcome {
            StableCommit::Committed => r == Ok::<bool, Failure>(true),
            StableCommit::Failed(f) => if f matches Failure::Core(CoreError::BackendUnavailable(_)) {
                if tries < MAX_STABLE_ATTEMPTS {
                    r == Ok::<bool, Failure>(false)
                } else {
                    r matches Err(Failure::AppendNotConverged)
                }
            } else {
                r == Err::<bool, Failure>(f)
            },
            StableCommit::Conflict => if tries < MAX_STABLE_ATTEMPTS {
                r == Ok::<bool, Failure>(false)
            } else {
                r matches Err(Failure::AppendNotConverged)
            },
        },
{
    match outcome {
        StableCommit::Committed => {
            return Ok(true);
        },
        StableCommit::Conflict => {},
        StableCommit::Failed(Failure::Core(CoreError::BackendUnavailable(_))) => {},
        StableCommit::Failed(f) => {
            return Err(f);
        },
    }
    if tries < MAX_STABLE_ATTEMPTS {
        Ok(false)
    } else {
        Err(Failure::AppendNotConverged)
    }
}

/// Retrying a stable append with the same bytes returns the receipt of the
/// first one, and other bytes under the key conflict: at the publication
/// that appended the event and, as long as the index is kept, ever after.
pub proof fn law_stable_append_is_idempotent(
    t: Map<Digest, FetchedView<NodeView>>,
    ups: Seq<(Digest, NodeView)>,
    m: Map<Digest, FetchedView<NodeView>>,
    scope: LogScope,
    at: IndexHead,
    later: IndexHead,
    was: StableIndexRoot,
    now: StableIndexRoot,
    item: StableItem,
    head: u64,
    retry: Digest,
)
    requires
        head < u64::MAX,
        at.head_seq == head + 1,
        at.generation <= later.generation,
        at.head_seq <= later.head_seq,
        grafted(
            t,
            ups,
            scope,
            at,
            was.digest,
            now.digest,
            0,
            stable_receipt(item, head, at.generation),
        ),
        extends(m, t),
        stored(m, ups, MAX_NODE_BYTES as nat),
        now.schema@ == ROOT_SCHEMA@,
        now.entries == was.entries + 1,
    ensures
        index_lookup(m, scope, later, now, item.key@) == LookupView::Found(
            stable_receipt(item, head, at.generation),
        ),
        stable_answer(Some(stable_receipt(item, head, at.generation)), retry) == if retry
            == item.payload_hash {
            StableAnswer::Receipt(
                StableAppendReceipt {
                    payload_hash: item.payload_hash,
                    range: AppendRange { first: (head + 1) as u64, last: (head + 1) as u64 },
                    generation: at.generation,
                },
            )
        } else {
            StableAnswer::Conflict { existing: item.payload_hash, supplied: retry }
        },
{
    let entry = stable_receipt(item, head, at.generation);
    law_inserted_key_is_found(t, ups, m, scope, at, was, now, entry);
    law_lookup_is_stable(m, m, scope, at, later, now.digest, 0, entry.key);
}

/// A retry is answered in the same way after any number of further stable
/// appends: the same bytes get the receipt of the first append, and other
/// bytes under the key conflict.
pub proof fn law_retry_outlives_later_appends(
    m: Map<Digest, FetchedView<NodeView>>,
    scope: LogScope,
    first: StableIndexRoot,
    steps: Seq<IndexStep>,
    j: int,
    retry: Digest,
)
    requires
        index_grows(m, scope, first, steps),
        0 <= j < steps.len(),
    ensures
        index_lookup(m, scope, steps.last().at, steps.last().root, steps[j].entry.key) matches
            LookupView::Found(e) && stable_answer(Some(e), retry) == if retry
            == steps[j].entry.payload_hash {
            StableAnswer::Receipt(receipt_of(steps[j].entry))
        } else {
            StableAnswer::Conflict { existing: steps[j].entry.payload_hash, supplied: retry }
        },
{
    law_receipts_last(m, scope, first, steps, j);
}

// ----------------------------------------------------------------- groups
/// A request that waits to be grouped.
#[derive(Debug)]
pub struct Submission {
    pub identity: OpIdentity,
    pub payloads: Vec<Vec<u8>>,
}

/// How many events some submissions bring.
pub open spec fn events_in(batch: Seq<Submission>) -> nat
    decreases batch.len(),
{
    if batch.len() == 0 {
        0
    } else {
        events_in(batch.drop_last()) + batch.last().payloads@.len()
    }
}

proof fn lemma_events_grow(batch: Seq<Submission>, i: int)
    requires
        0 <= i <= batch.len(),
    ensures
        events_in(batch.take(i)) <= events_in(batch),
    decreases batch.len() - i,
{
    if i < batch.len() {
        lemma_events_grow(batch, i + 1);
        assert(batch.take(i + 1).drop_last() =~= batch.take(i));
    } else {
        assert(batch.take(i) =~= batch);
    }
}

/// Whether a batch waits for more submissions before it is committed: while
/// it has fewer than `max_events` events.
pub fn wants_more(batch: &Vec<Submission>, max_events: usize) -> (r: bool)
    ensures
        r == (events_in(batch@) < max_events),
{
    let mut events: usize = 0;
    let mut i: usize = 0;
    assert(batch@.take(0).len() == 0);
    while i < batch.len()
        invariant
            i <= batch@.len(),
            events == events_in(batch@.take(i as int)),
            i > 0 ==> events < max_events,
        decreases batch@.len() - i,
    {
        let n: usize = batch[i].payloads.len();
        assert(batch@.take(i + 1).drop_last() =~= batch@.take(i as int));
        proof {
            lemma_events_grow(batch@, i + 1);
        }
        if events >= max_events || n >= max_events - events {
            return false;
        }
        events = events + n;
        i = i + 1;
    }
    assert(batch@.take(i as int) =~= batch@);
    events < max_events
}

/// A request of a group and the submissions that wait for it.
#[derive(Debug)]
pub struct GroupItem {
    pub item: GenericItem,
    pub waiting: Vec<usize>,
}

/// A request of a group, by what identifies it.
pub struct GroupView {
    pub id: Seq<char>,
    pub request: Digest,
    pub payloads: Seq<Seq<u8>>,
    pub waiting: Seq<usize>,
}

pub open spec fn group_view(g: GroupItem) -> GroupView {
    GroupView {
        id: g.item.identity.text(),
        request: g.item.request,
        payloads: payload_seqs(g.item.payloads@),
        waiting: g.waiting@,
    }
}

pub open spec fn groups_view(s: Seq<GroupItem>) -> Seq<GroupView> {
    s.map_values(|g: GroupItem| group_view(g))
}

/// Why a submission is not grouped.
pub enum NotGrouped {
    Rejected(Seq<char>),
    Conflict { original: Digest, supplied: Digest },
}

/// Where the request with the given identity is.
pub open spec fn place_of(s: Seq<GroupView>, id: Seq<char>) -> Option<int>
    decreases s.len(),
{
    if s.len() == 0 {
        None
    } else {
        match place_of(s.drop_last(), id) {
            Some(i) => Some(i),
            None => if s.last().id == id {
                Some(s.len() - 1)
            } else {
                None
            },
        }
    }
}

/// The hash of an append request.
pub open spec fn append_request(
    key: DigestKey,
    tenant: Seq<char>,
    resource: Seq<char>,
    payloads: Seq<Seq<u8>>,
) -> Digest {
    material_hash(key, append_material_view(payloads), tenant, resource)
}

/// The requests of a batch, each identity once and in the order in which
/// they came, and the submissions that are refused: those that cannot be
/// appended, and those whose payloads differ from the first ones under
/// their identity.
pub open spec fn grouped(
    batch: Seq<Submission>,
    key: DigestKey,
    tenant: Seq<char>,
    resource: Seq<char>,
) -> (Seq<GroupView>, Seq<(usize, NotGrouped)>)
    decreases batch.len(),
{
    if batch.len() == 0 {
        (Seq::empty(), Seq::empty())
    } else {
        let (g, refused) = grouped(batch.drop_last(), key, tenant, resource);
        let s = batch.last();
        let k = (batch.len() - 1) as usize;
        let payloads = payload_seqs(s.payloads@);
        let request = append_request(key, tenant, resource, payloads);
        if !appendable(payloads) {
            (g, refused.push((k, NotGrouped::Rejected(append_refusal(payloads)))))
        } else {
            match place_of(g, s.identity.text()) {
                None => (
                    g.push(
                        GroupView {
                            id: s.identity.text(),
                            request,
                            payloads,
                            waiting: seq![k],
                        },
                    ),
                    refused,
                ),
                Some(i) => if g[i].payloads != payloads {
                    (
                        g,
                        refused.push(
                            (k, NotGrouped::Conflict { original: g[i].request, supplied: request }),
                        ),
                    )
                } else {
                    (
                        g.update(i, GroupView { waiting: g[i].waiting.push(k), ..g[i] }),
                        refused,
                    )
                },
            }
        }
    }
}

/// Whether an error says why a submission is not grouped.
pub open spec fn refuses(e: CoreError, id: Seq<char>, why: NotGrouped) -> bool {
    match why {
        NotGrouped::Rejected(m) => e@ == ErrorView::Rejected(m),
        NotGrouped::Conflict { original, supplied } => crate::chain::is_conflict(
            e,
            id,
            original,
            supplied,
        ),
    }
}

fn same_payloads(a: &Vec<Vec<u8>>, b: &Vec<Vec<u8>>) -> (r: bool)
    ensures
        r == (payload_seqs(a@) == payload_seqs(b@)),
{
    if a.len() != b.len() {
        assert(payload_seqs(a@).len() != payload_seqs(b@).len());
        return false;
    }
    let mut i: usize = 0;
    while i < a.len()
        invariant
            i <= a@.len(),
            a@.len() == b@.len(),
            forall|j: int| 0 <= j < i ==> (#[trigger] a@[j])@ == b@[j]@,
        decreases a@.len() - i,
    {
        if !same_bytes(&a[i], &b[i]) {
            assert(payload_seqs(a@)[i as int] != payload_seqs(b@)[i as int]);
            return false;
        }
        i = i + 1;
    }
    assert(payload_seqs(a@) =~= payload_seqs(b@));
    true
}

fn find_item(items: &Vec<GroupItem>, id: &str) -> (r: Option<usize>)
    ensures
        match place_of(groups_view(items@), id@) {
            Some(i) => r matches Some(n) && n == i && n < items@.len(),
            None => r is None,
        },
{
    let ghost all = groups_view(items@);
    let mut i: usize = 0;
    while i < items.len()
        invariant
            i <= items@.len(),
            all == groups_view(items@),
            place_of(all.take(i as int), id@) is None,
        decreases items@.len() - i,
    {
        let text: String = items[i].item.identity.canonical();
        proof {
            assert(all.take(i + 1).drop_last() =~= all.take(i as int));
            assert(all.take(i + 1).last() == group_view(items@[i as int]));
        }
        if same_text(&text, id) {
            proof {
                lemma_place_found(all, id@, i + 1);
            }
            return Some(i);
        }
        i = i + 1;
    }
    assert(all.take(i as int) =~= all);
    None
}

proof fn lemma_place_found(s: Seq<GroupView>, id: Seq<char>, n: int)
    requires
        0 <= n <= s.len(),
        place_of(s.take(n), id) is Some,
    ensures
        place_of(s, id) == place_of(s.take(n), id),
    decreases s.len() - n,
{
    if n < s.len() {
        assert(s.take(n + 1).drop_last() =~= s.take(n));
        lemma_place_found(s, id, n + 1);
    } else {
        assert(s.take(n) =~= s);
    }
}

/// A batch, sorted out: the requests, and the submissions that are refused.
#[derive(Debug)]
pub struct GroupBatch {
    pub items: Vec<GroupItem>,
    pub refused: Vec<(usize, CoreError)>,
}

/// Whether the refusals are those of the batch.
pub open spec fn refusals_match(
    r: Seq<(usize, CoreError)>,
    want: Seq<(usize, NotGrouped)>,
    batch: Seq<Submission>,
) -> bool {
    &&& r.len() == want.len()
    &&& forall|i: int|
        0 <= i < r.len() ==> (#[trigger] r[i]).0 == want[i].0 && 0 <= r[i].0 < batch.len()
            && refuses(r[i].1, batch[r[i].0 as int].identity.text(), want[i].1)
}

/// Sorts out a batch.
pub fn group_batch(batch: &Vec<Submission>, key: &DigestKey, tenant: &str, resource: &str) -> (r:
    GroupBatch)
    ensures
        groups_view(r.items@) == grouped(batch@, *key, tenant@, resource@).0,
        refusals_match(r.refused@, grouped(batch@, *key, tenant@, resource@).1, batch@),
{
    let mut items: Vec<GroupItem> = Vec::new();
    let mut refused: Vec<(usize, CoreError)> = Vec::new();
    let mut k: usize = 0;
    proof {
        assert(batch@.take(0).len() == 0);
        assert(groups_view(items@) =~= Seq::empty());
    }
    while k < batch.len()
        invariant
            k <= batch@.len(),
            groups_view(items@) == grouped(batch@.take(k as int), *key, tenant@, resource@).0,
            refusals_match(
                refused@,
                grouped(batch@.take(k as int), *key, tenant@, resource@).1,
                batch@,
            ),
        decreases batch@.len() - k,
    {
        let s: &Submission = &batch[k];
        let ghost before = groups_view(items@);
        proof {
            assert(batch@.take(k + 1).drop_last() =~= batch@.take(k as int));
            assert(batch@.take(k + 1).last() == *s);
        }
        match check_payloads(&s.payloads) {
            Err(e) => {
                refused.push((k, e));
            },
            Ok(_) => {
                let id: String = s.identity.canonical();
                let material: Material = append_material(&s.payloads);
                let request: Digest = material.hash(key, tenant, resource);
                match find_item(&items, &id) {
                    Some(i) => {
                        if !same_payloads(&items[i].item.payloads, &s.payloads) {
                            let e: CoreError = crate::chain::idempotency_conflict(
                                &s.identity,
                                &items[i].item.request,
                                &request,
                            );
                            refused.push((k, e));
                        } else {
                            wait_for(&mut items, i, k);
                        }
                    },
                    None => {
                        let mut waiting: Vec<usize> = Vec::new();
                        waiting.push(k);
                        let item: GenericItem = GenericItem {
                            identity: s.identity.clone(),
                            request,
                            payloads: crate::append::copy_payloads(&s.payloads),
                        };
                        let g: GroupItem = GroupItem { item, waiting };
                        proof {
                            lemma_same_text(s.identity, item.identity);
                            assert(waiting@ =~= seq![k]);
                        }
                        let ghost was = items@;
                        items.push(g);
                        assert(groups_view(items@) =~= groups_view(was).push(group_view(g)));
                    },
                }
            },
        }
        k = k + 1;
    }
    assert(batch@.take(k as int) =~= batch@);
    GroupBatch { items, refused }
}

/// Identities that are the same have the same text.
proof fn lemma_same_text(a: OpIdentity, b: OpIdentity)
    requires
        b.same(a),
    ensures
        a.text() == b.text(),
{
}

fn wait_for(items: &mut Vec<GroupItem>, i: usize, k: usize)
    requires
        i < old(items)@.len(),
    ensures
        groups_view(final(items)@) == groups_view(old(items)@).update(
            i as int,
            GroupView {
                waiting: group_view(old(items)@[i as int]).waiting.push(k),
                ..group_view(old(items)@[i as int])
            },
        ),
{
    let ghost was = items@;
    let g: &mut GroupItem = &mut items[i];
    g.waiting.push(k);
    assert(groups_view(items@) =~= groups_view(was).update(
        i as int,
        GroupView {
            waiting: group_view(was[i as int]).waiting.push(k),
            ..group_view(was[i as int])
        },
    ));
}

/// Which submissions are answered by a request or a refusal.
pub open spec fn answers(g: Seq<GroupView>, refused: Seq<(usize, NotGrouped)>, k: usize) -> bool {
    (exists|i: int, j: int|
        0 <= i < g.len() && 0 <= j < g[i].waiting.len() && #[trigger] g[i].waiting[j] == k) || (
    exists|i: int| 0 <= i < refused.len() && (#[trigger] refused[i]).0 == k)
}

proof fn lemma_place_of(s: Seq<GroupView>, id: Seq<char>)
    ensures
        match place_of(s, id) {
            Some(i) => 0 <= i < s.len() && s[i].id == id,
            None => forall|i: int| 0 <= i < s.len() ==> (#[trigger] s[i]).id != id,
        },
    decreases s.len(),
{
    if s.len() > 0 {
        lemma_place_of(s.drop_last(), id);
        match place_of(s, id) {
            None => {
                assert forall|i: int| 0 <= i < s.len() implies (#[trigger] s[i]).id != id by {
                    if i < s.len() - 1 {
                        assert(s.drop_last()[i].id != id);
                    }
                }
            },
            Some(i) => {
                if i < s.len() - 1 {
                    assert(s.drop_last()[i].id == id);
                }
            },
        }
    }
}

/// Every submission of a batch is answered, by its request or by a refusal.
pub proof fn law_every_submission_is_answered(
    batch: Seq<Submission>,
    key: DigestKey,
    tenant: Seq<char>,
    resource: Seq<char>,
    k: usize,
)
    requires
        k < batch.len() <= usize::MAX,
    ensures
        answers(
            grouped(batch, key, tenant, resource).0,
            grouped(batch, key, tenant, resource).1,
            k,
        ),
    decreases batch.len(),
{
    let (g, refused) = grouped(batch.drop_last(), key, tenant, resource);
    let (g2, refused2) = grouped(batch, key, tenant, resource);
    let s = batch.last();
    let id = s.identity.text();
    lemma_place_of(g, id);
    if k == batch.len() - 1 {
        let payloads = payload_seqs(s.payloads@);
        if !appendable(payloads) {
            assert(refused2.last().0 == k);
        } else {
            match place_of(g, id) {
                None => {
                    assert(g2.last().waiting[0] == k);
                },
                Some(i) => {
                    if g[i].payloads != payloads {
                        assert(refused2.last().0 == k);
                    } else {
                        assert(g2[i].waiting[g[i].waiting.len() as int] == k);
                    }
                },
            }
        }
    } else {
        law_every_submission_is_answered(batch.drop_last(), key, tenant, resource, k);
        if exists|i: int| 0 <= i < refused.len() && (#[trigger] refused[i]).0 == k {
            let i = choose|i: int| 0 <= i < refused.len() && (#[trigger] refused[i]).0 == k;
            assert(refused2[i] == refused[i]);
        } else {
            let (i, j) = choose|i: int, j: int|
                0 <= i < g.len() && 0 <= j < g[i].waiting.len() && #[trigger] g[i].waiting[j] == k;
            assert(g2[i].waiting[j] == k);
        }
    }
}

/// No identity stands in a group twice, so that no request is published
/// twice in one publication.
pub proof fn law_identities_are_grouped_once(
    batch: Seq<Submission>,
    key: DigestKey,
    tenant: Seq<char>,
    resource: Seq<char>,
)
    ensures
        ({
            let g = grouped(batch, key, tenant, resource).0;
            forall|i: int, j: int|
                0 <= i < j < g.len() ==> (#[trigger] g[i]).id != (#[trigger] g[j]).id
        }),
    decreases batch.len(),
{
    if batch.len() > 0 {
        law_identities_are_grouped_once(batch.drop_last(), key, tenant, resource);
        let g = grouped(batch.drop_last(), key, tenant, resource).0;
        lemma_place_of(g, batch.last().identity.text());
    }
}

/// The range that a recorded outcome tells.
pub open spec fn recorded_range(o: RecordedOutcome) -> Option<AppendRange> {
    match o {
        RecordedOutcome::Range { first, last } => Some(AppendRange { first, last }),
        RecordedOutcome::Result(text) => if exists|r: AppendRange| #[trigger] tells(text@, r) {
            Some(choose|r: AppendRange| #[trigger] tells(text@, r))
        } else {
            None
        },
    }
}

/// Whether a JSON text tells a range: an object with `first` and `last`, or
/// a pair.
pub open spec fn tells(text: Seq<char>, r: AppendRange) -> bool {
    (exists|f: Seq<(Seq<char>, JsonView)>| #[trigger]
        reads_as(encode_utf8(text), JsonView::Object(f)) && field(f, "first"@) == Some(
            JsonView::Number(r.first),
        ) && field(f, "last"@) == Some(JsonView::Number(r.last))) || reads_as(
        encode_utf8(text),
        JsonView::List(seq![JsonView::Number(r.first), JsonView::Number(r.last)]),
    )
}

/// The range that a recorded outcome tells.
pub fn read_range(o: &RecordedOutcome) -> (r: Option<AppendRange>)
    ensures
        r == recorded_range(*o),
{
    match o {
        RecordedOutcome::Range { first, last } => Some(AppendRange { first: *first, last: *last }),
        RecordedOutcome::Result(text) => {
            let value: Json = match parse(text.as_str().as_bytes()) {
                Ok(v) => v,
                Err(_) => {
                    return None;
                },
            };
            match &value {
                Json::Object(fields) => {
                    proof {
                        lemma_object_view(*fields);
                    }
                    match (get_field(fields, "first"), get_field(fields, "last")) {
                        (Some(Json::Number(first)), Some(Json::Number(last))) => {
                            let range: AppendRange = AppendRange { first: *first, last: *last };
                            proof {
                                assert(reads_as(
                                    encode_utf8(text@),
                                    JsonView::Object(fields_view(fields@)),
                                ));
                                assert(tells(text@, range));
                            }
                            Some(range)
                        },
                        _ => None,
                    }
                },
                Json::List(items) => {
                    proof {
                        lemma_list_view(*items);
                    }
                    if items.len() == 2 {
                        match (&items[0], &items[1]) {
                            (Json::Number(first), Json::Number(last)) => {
                                let range: AppendRange = AppendRange { first: *first, last: *last };
                                proof {
                                    assert(items@.map_values(|j: Json| j@) =~= seq![
                                        JsonView::Number(range.first),
                                        JsonView::Number(range.last),
                                    ]);
                                    assert(tells(text@, range));
                                }
                                Some(range)
                            },
                            _ => {
                                proof {
                                    let v = items@.map_values(|j: Json| j@);
                                    assert(v[0] == items@[0]@ && v[1] == items@[1]@);
                                }
                                None
                            },
                        }
                    } else {
                        None
                    }
                },
                _ => None,
            }
        },
    }
}

// --------------------------------------------------------------- settling
/// How often groups were published, with how many events, and how often a
/// request was not.
#[derive(Clone, Copy, Debug, PartialEq, Eq, Structural)]
pub struct GroupStats {
    pub commits: u64,
    pub events: u64,
    pub conflicts: u64,
}

impl Default for GroupStats {
    fn default() -> (r: Self)
        ensures
            r == (GroupStats { commits: 0, events: 0, conflicts: 0 }),
    {
        GroupStats { commits: 0, events: 0, conflicts: 0 }
    }
}

/// What a submission is answered: what was appended, or a message.
pub type Reply = core::result::Result<Appended, String>;

/// What a submission is answered, by view.
pub enum ReplyView {
    Appended(Appended),
    Failed(Seq<char>),
}

pub open spec fn reply_view(r: Reply) -> ReplyView {
    match r {
        Ok(a) => ReplyView::Appended(a),
        Err(m) => ReplyView::Failed(m@),
    }
}

pub open spec fn replies_view(s: Seq<(usize, Reply)>) -> Seq<(usize, ReplyView)> {
    s.map_values(|p: (usize, Reply)| (p.0, reply_view(p.1)))
}

/// The same answer for everyone who waits.
pub open spec fn to_all(waiting: Seq<usize>, answer: ReplyView) -> Seq<(usize, ReplyView)> {
    waiting.map_values(|k: usize| (k, answer))
}

fn copy_reply(r: &Reply) -> (c: Reply)
    ensures
        c == *r,
{
    match r {
        Ok(a) => Ok(*a),
        Err(m) => Err(m.clone()),
    }
}

fn answer_all(out: &mut Vec<(usize, Reply)>, waiting: &Vec<usize>, answer: Reply)
    ensures
        replies_view(final(out)@) == replies_view(old(out)@) + to_all(
            waiting@,
            reply_view(answer),
        ),
{
    let ghost before = replies_view(out@);
    let ghost all = to_all(waiting@, reply_view(answer));
    let mut i: usize = 0;
    assert(before + all.take(0) =~= before);
    while i < waiting.len()
        invariant
            i <= waiting@.len(),
            all == to_all(waiting@, reply_view(answer)),
            replies_view(out@) == before + all.take(i as int),
        decreases waiting@.len() - i,
    {
        let ghost was = out@;
        out.push((waiting[i], copy_reply(&answer)));
        proof {
            assert(replies_view(out@) =~= replies_view(was).push(all[i as int]));
            assert(before + all.take(i + 1) =~= (before + all.take(i as int)).push(all[i as int]));
        }
        i = i + 1;
    }
    assert(all.take(i as int) =~= all);
}

/// Answers a batch whose log could not be read.
pub fn settle_unread(batch: &Vec<Submission>, message: &str) -> (r: Vec<(usize, Reply)>)
    ensures
        replies_view(r@) == Seq::new(
            batch@.len(),
            |i: int| (i as usize, ReplyView::Failed(message@)),
        ),
{
    let mut out: Vec<(usize, Reply)> = Vec::new();
    let mut i: usize = 0;
    while i < batch.len()
        invariant
            i <= batch@.len(),
            out@.len() == i,
            forall|k: int|
                0 <= k < i ==> (#[trigger] out@[k]).0 == k && reply_view(out@[k].1)
                    == ReplyView::Failed(message@),
        decreases batch@.len() - i,
    {
        out.push((i, Err(message.to_owned())));
        i = i + 1;
    }
    assert(replies_view(out@) =~= Seq::new(
        batch@.len(),
        |i: int| (i as usize, ReplyView::Failed(message@)),
    ));
    out
}

/// Answers the submissions that were refused when a batch was grouped.
pub fn settle_refused(refused: &Vec<(usize, CoreError)>) -> (r: Vec<(usize, Reply)>)
    ensures
        replies_view(r@) == refused@.map_values(
            |p: (usize, CoreError)| (p.0, ReplyView::Failed(p.1.text())),
        ),
{
    let mut out: Vec<(usize, Reply)> = Vec::new();
    let mut i: usize = 0;
    while i < refused.len()
        invariant
            i <= refused@.len(),
            out@.len() == i,
            forall|k: int|
                0 <= k < i ==> (#[trigger] out@[k]).0 == refused@[k].0 && reply_view(out@[k].1)
                    == ReplyView::Failed(refused@[k].1.text()),
        decreases refused@.len() - i,
    {
        out.push((refused[i].0, Err(refused[i].1.to_string())));
        i = i + 1;
    }
    assert(replies_view(out@) =~= refused@.map_values(
        |p: (usize, CoreError)| (p.0, ReplyView::Failed(p.1.text())),
    ));
    out
}

/// What a request of a group was found to be.
pub type Admitted = core::result::Result<IntentAdmission, String>;

/// What those who wait for a request are answered before it is published,
/// if they are: that its intent cannot be had, or what was appended before.
pub open spec fn early_answer(a: Admitted) -> Option<ReplyView> {
    match a {
        Err(m) => Some(ReplyView::Failed(m@)),
        Ok(IntentAdmission::Pending { .. }) => None,
        Ok(IntentAdmission::Applied { generation, result, .. }) => match recorded_range(result) {
            Some(range) => Some(
                ReplyView::Appended(
                    Appended {
                        first: range.first,
                        last: range.last,
                        generation,
                        first_delivery: false,
                    },
                ),
            ),
            None => Some(ReplyView::Failed("applied intent does not tell a range"@)),
        },
    }
}

/// The early answers of a group, in order.
pub open spec fn early_answers(g: Seq<GroupView>, a: Seq<Admitted>) -> Seq<(usize, ReplyView)>
    decreases g.len(),
{
    if g.len() == 0 {
        Seq::empty()
    } else {
        let before = early_answers(g.drop_last(), a);
        match early_answer(a[g.len() - 1]) {
            Some(x) => before + to_all(g.last().waiting, x),
            None => before,
        }
    }
}

/// The requests of a group that are left to be published, in order.
pub open spec fn left_over(g: Seq<GroupView>, a: Seq<Admitted>) -> Seq<GroupView>
    decreases g.len(),
{
    if g.len() == 0 {
        Seq::empty()
    } else {
        let before = left_over(g.drop_last(), a);
        match early_answer(a[g.len() - 1]) {
            Some(_) => before,
            None => before.push(g.last()),
        }
    }
}

fn copy_waiting(v: &Vec<usize>) -> (r: Vec<usize>)
    ensures
        r@ == v@,
{
    let mut out: Vec<usize> = Vec::new();
    let mut i: usize = 0;
    while i < v.len()
        invariant
            i <= v@.len(),
            out@ == v@.take(i as int),
        decreases v@.len() - i,
    {
        out.push(v[i]);
        assert(v@.take(i + 1) =~= v@.take(i as int).push(v@[i as int]));
        i = i + 1;
    }
    assert(v@.take(i as int) =~= v@);
    out
}

fn copy_item(g: &GroupItem) -> (r: GroupItem)
    ensures
        group_view(r) == group_view(*g),
{
    let item: GenericItem = GenericItem {
        identity: g.item.identity.clone(),
        request: g.item.request,
        payloads: crate::append::copy_payloads(&g.item.payloads),
    };
    proof {
        lemma_same_text(g.item.identity, item.identity);
    }
    GroupItem { item, waiting: copy_waiting(&g.waiting) }
}

/// Answers whoever can be answered before the group is published, and
/// returns the requests that are left.
pub fn settle_admissions(items: &Vec<GroupItem>, admissions: &Vec<Admitted>) -> (r: (
    Vec<(usize, Reply)>,
    Vec<GroupItem>,
))
    requires
        items@.len() == admissions@.len(),
    ensures
        replies_view(r.0@) == early_answers(groups_view(items@), admissions@),
        groups_view(r.1@) == left_over(groups_view(items@), admissions@),
{
    let ghost all = groups_view(items@);
    let mut replies: Vec<(usize, Reply)> = Vec::new();
    let mut left: Vec<GroupItem> = Vec::new();
    let mut i: usize = 0;
    proof {
        assert(all.take(0).len() == 0);
        assert(replies_view(replies@) =~= Seq::empty());
        assert(groups_view(left@) =~= Seq::empty());
    }
    while i < items.len()
        invariant
            i <= items@.len(),
            items@.len() == admissions@.len(),
            all == groups_view(items@),
            replies_view(replies@) == early_answers(all.take(i as int), admissions@),
            groups_view(left@) == left_over(all.take(i as int), admissions@),
        decreases items@.len() - i,
    {
        proof {
            assert(all.take(i + 1).drop_last() =~= all.take(i as int));
            assert(all.take(i + 1).last() == group_view(items@[i as int]));
        }
        let waiting: &Vec<usize> = &items[i].waiting;
        match &admissions[i] {
            Err(m) => {
                answer_all(&mut replies, waiting, Err(m.clone()));
            },
            Ok(IntentAdmission::Pending { .. }) => {
                let ghost was = left@;
                let g: GroupItem = copy_item(&items[i]);
                left.push(g);
                assert(groups_view(left@) =~= groups_view(was).push(group_view(g)));
            },
            Ok(IntentAdmission::Applied { generation, result, .. }) => {
                match read_range(result) {
                    Some(range) => {
                        answer_all(
                            &mut replies,
                            waiting,
                            Ok(
                                Appended {
                                    first: range.first,
                                    last: range.last,
                                    generation: *generation,
                                    first_delivery: false,
                                },
                            ),
                        );
                    },
                    None => {
                        answer_all(
                            &mut replies,
                            waiting,
                            Err("applied intent does not tell a range".to_owned()),
                        );
                    },
                }
            },
        }
        i = i + 1;
    }
    assert(all.take(i as int) =~= all);
    (replies, left)
}

/// What those who wait for a request are answered once the group was
/// published with the given admissions.
pub open spec fn late_answer(
    g: GroupView,
    admitted: Seq<Admission>,
    generation: u64,
    first_delivery: bool,
) -> ReplyView {
    match crate::chain::admission_of(admitted, g.id) {
        Some(a) => ReplyView::Appended(
            Appended { first: a.first, last: a.last, generation, first_delivery },
        ),
        None => ReplyView::Failed(
            "grouped identity "@ + g.id + " was not admitted in this publication"@,
        ),
    }
}

pub open spec fn late_answers(
    g: Seq<GroupView>,
    admitted: Seq<Admission>,
    generation: u64,
    first_delivery: bool,
) -> Seq<(usize, ReplyView)>
    decreases g.len(),
{
    if g.len() == 0 {
        Seq::empty()
    } else {
        late_answers(g.drop_last(), admitted, generation, first_delivery) + to_all(
            g.last().waiting,
            late_answer(g.last(), admitted, generation, first_delivery),
        )
    }
}

/// How many events of a group were admitted.
pub open spec fn admitted_events(g: Seq<GroupView>, admitted: Seq<Admission>) -> nat
    decreases g.len(),
{
    if g.len() == 0 {
        0
    } else {
        admitted_events(g.drop_last(), admitted) + match crate::chain::admission_of(
            admitted,
            g.last().id,
        ) {
            Some(_) => g.last().payloads.len(),
            None => 0,
        }
    }
}

/// How many requests of a group were not admitted.
pub open spec fn missing(g: Seq<GroupView>, admitted: Seq<Admission>) -> nat
    decreases g.len(),
{
    if g.len() == 0 {
        0
    } else {
        missing(g.drop_last(), admitted) + match crate::chain::admission_of(admitted, g.last().id) {
            Some(_) => 0nat,
            None => 1nat,
        }
    }
}

proof fn lemma_counts_grow(g: Seq<GroupView>, admitted: Seq<Admission>, n: int)
    requires
        0 <= n <= g.len(),
    ensures
        admitted_events(g.take(n), admitted) <= admitted_events(g, admitted),
        missing(g.take(n), admitted) <= missing(g, admitted),
    decreases g.len() - n,
{
    if n < g.len() {
        lemma_counts_grow(g, admitted, n + 1);
        assert(g.take(n + 1).drop_last() =~= g.take(n));
    } else {
        assert(g.take(n) =~= g);
    }
}

/// Answers everyone who waits for a request of a published group.
pub fn settle_published(
    pending: &Vec<GroupItem>,
    published: &Published<AppendRange>,
    stats: &mut GroupStats,
) -> (r: Vec<(usize, Reply)>)
    requires
        old(stats).commits < u64::MAX,
        old(stats).events + admitted_events(groups_view(pending@), published.admitted@) <= u64::MAX,
        old(stats).conflicts + missing(groups_view(pending@), published.admitted@) <= u64::MAX,
    ensures
        replies_view(r@) == late_answers(
            groups_view(pending@),
            published.admitted@,
            published.generation,
            published.first_delivery,
        ),
        final(stats).commits == old(stats).commits + 1,
        final(stats).events == old(stats).events + admitted_events(
            groups_view(pending@),
            published.admitted@,
        ),
        final(stats).conflicts == old(stats).conflicts + missing(
            groups_view(pending@),
            published.admitted@,
        ),
{
    let ghost all = groups_view(pending@);
    let ghost start = *stats;
    let mut replies: Vec<(usize, Reply)> = Vec::new();
    let mut events: u64 = stats.events;
    let mut conflicts: u64 = stats.conflicts;
    let mut i: usize = 0;
    proof {
        assert(all.take(0).len() == 0);
        assert(replies_view(replies@) =~= Seq::empty());
    }
    while i < pending.len()
        invariant
            i <= pending@.len(),
            all == groups_view(pending@),
            start.events + admitted_events(all, published.admitted@) <= u64::MAX,
            start.conflicts + missing(all, published.admitted@) <= u64::MAX,
            replies_view(replies@) == late_answers(
                all.take(i as int),
                published.admitted@,
                published.generation,
                published.first_delivery,
            ),
            events == start.events + admitted_events(all.take(i as int), published.admitted@),
            conflicts == start.conflicts + missing(all.take(i as int), published.admitted@),
        decreases pending@.len() - i,
    {
        proof {
            assert(all.take(i + 1).drop_last() =~= all.take(i as int));
            assert(all.take(i + 1).last() == group_view(pending@[i as int]));
            lemma_counts_grow(all, published.admitted@, i + 1);
            assert(all[i as int].payloads.len() == pending@[i as int].item.payloads@.len());
        }
        let g: &GroupItem = &pending[i];
        let id: String = g.item.identity.canonical();
        match crate::chain::find_admission(&published.admitted, &id) {
            Some(a) => {
                events = events + g.item.payloads.len() as u64;
                answer_all(
                    &mut replies,
                    &g.waiting,
                    Ok(
                        Appended {
                            first: a.first,
                            last: a.last,
                            generation: published.generation,
                            first_delivery: published.first_delivery,
                        },
                    ),
                );
            },
            None => {
                conflicts = conflicts + 1;
                answer_all(
                    &mut replies,
                    &g.waiting,
                    Err(join3("grouped identity ", &id, " was not admitted in this publication")),
                );
            },
        }
        i = i + 1;
    }
    assert(all.take(i as int) =~= all);
    stats.commits = stats.commits + 1;
    stats.events = events;
    stats.conflicts = conflicts;
    replies
}

/// The same message for everyone who waits for a request of a group.
pub open spec fn failed_answers(g: Seq<GroupView>, message: Seq<char>) -> Seq<(usize, ReplyView)>
    decreases g.len(),
{
    if g.len() == 0 {
        Seq::empty()
    } else {
        failed_answers(g.drop_last(), message) + to_all(
            g.last().waiting,
            ReplyView::Failed(message),
        )
    }
}

/// Answers everyone who waits for a request of a group that was not
/// published.
pub fn settle_failed(pending: &Vec<GroupItem>, message: &str, stats: &mut GroupStats) -> (r: Vec<
    (usize, Reply),
>)
    requires
        old(stats).conflicts < u64::MAX,
    ensures
        replies_view(r@) == failed_answers(groups_view(pending@), message@),
        *final(stats) == (GroupStats { conflicts: (old(stats).conflicts + 1) as u64, ..*old(stats) }),
{
    let ghost all = groups_view(pending@);
    let mut replies: Vec<(usize, Reply)> = Vec::new();
    let mut i: usize = 0;
    proof {
        assert(all.take(0).len() == 0);
        assert(replies_view(replies@) =~= Seq::empty());
    }
    while i < pending.len()
        invariant
            i <= pending@.len(),
            all == groups_view(pending@),
            replies_view(replies@) == failed_answers(all.take(i as int), message@),
        decreases pending@.len() - i,
    {
        proof {
            assert(all.take(i + 1).drop_last() =~= all.take(i as int));
            assert(all.take(i + 1).last() == group_view(pending@[i as int]));
        }
        answer_all(&mut replies, &pending[i].waiting, Err(message.to_owned()));
        i = i + 1;
    }
    assert(all.take(i as int) =~= all);
    stats.conflicts = stats.conflicts + 1;
    replies
}

/// The requests of a group, to be appended in one publication. The first
/// one leads.
pub fn group_requests(pending: &Vec<GroupItem>) -> (r: Vec<GenericItem>)
    ensures
        r@.len() == pending@.len(),
        forall|i: int|
            0 <= i < r@.len() ==> (#[trigger] r@[i]).identity.same(pending@[i].item.identity)
                && r@[i].request == pending@[i].item.request && payload_seqs(r@[i].payloads@)
                == payload_seqs(pending@[i].item.payloads@),
{
    let mut out: Vec<GenericItem> = Vec::new();
    let mut i: usize = 0;
    while i < pending.len()
        invariant
            i <= pending@.len(),
            out@.len() == i,
            forall|j: int|
                0 <= j < i ==> (#[trigger] out@[j]).identity.same(pending@[j].item.identity)
                    && out@[j].request == pending@[j].item.request && payload_seqs(out@[j].payloads@)
                    == payload_seqs(pending@[j].item.payloads@),
        decreases pending@.len() - i,
    {
        let g: &GenericItem = &pending[i].item;
        out.push(
            GenericItem {
                identity: g.identity.clone(),
                request: g.request,
                payloads: crate::append::copy_payloads(&g.payloads),
            },
        );
        i = i + 1;
    }
    out
}

// ------------------------------------------------------------ group laws
/// Whether a request of a group is what all who wait for it submitted.
pub open spec fn is_submitted(
    g: GroupView,
    batch: Seq<Submission>,
    key: DigestKey,
    tenant: Seq<char>,
    resource: Seq<char>,
) -> bool {
    &&& g.waiting.len() > 0
    &&& appendable(g.payloads)
    &&& g.request == append_request(key, tenant, resource, g.payloads)
    &&& forall|j: int|
        0 <= j < g.waiting.len() ==> (#[trigger] g.waiting[j]) < batch.len()
            && batch[g.waiting[j] as int].identity.text() == g.id && payload_seqs(
            batch[g.waiting[j] as int].payloads@,
        ) == g.payloads
}

/// Whether submission `k` brings other events than submission `j` under the
/// same identity.
pub open spec fn clashes(batch: Seq<Submission>, j: int, k: int) -> bool {
    &&& batch[j].identity.text() == batch[k].identity.text()
    &&& payload_seqs(batch[j].payloads@) != payload_seqs(batch[k].payloads@)
    &&& appendable(payload_seqs(batch[j].payloads@))
}

/// Whether a submission is refused for a reason: it cannot be appended, or an
/// earlier one brings other events under its identity.
pub open spec fn is_refused_rightly(
    r: (usize, NotGrouped),
    batch: Seq<Submission>,
    key: DigestKey,
    tenant: Seq<char>,
    resource: Seq<char>,
) -> bool {
    let k = r.0 as int;
    let own = payload_seqs(batch[k].payloads@);
    0 <= k < batch.len() && match r.1 {
        NotGrouped::Rejected(m) => !appendable(own) && m == append_refusal(own),
        NotGrouped::Conflict { original, supplied } => appendable(own) && supplied
            == append_request(key, tenant, resource, own) && exists|j: int|
            0 <= j < k && #[trigger] clashes(batch, j, k) && original == append_request(
                key,
                tenant,
                resource,
                payload_seqs(batch[j].payloads@),
            ),
    }
}

/// How many submissions wait for the requests of a group.
pub open spec fn waiting_for(g: Seq<GroupView>) -> nat
    decreases g.len(),
{
    if g.len() == 0 {
        0
    } else {
        waiting_for(g.drop_last()) + g.last().waiting.len()
    }
}

proof fn lemma_waiting_update(g: Seq<GroupView>, i: int, k: usize)
    requires
        0 <= i < g.len(),
    ensures
        waiting_for(g.update(i, GroupView { waiting: g[i].waiting.push(k), ..g[i] })) == waiting_for(
            g,
        ) + 1,
    decreases g.len(),
{
    let x = GroupView { waiting: g[i].waiting.push(k), ..g[i] };
    let u = g.update(i, x);
    if i < g.len() - 1 {
        lemma_waiting_update(g.drop_last(), i, k);
        assert(u.drop_last() =~= g.drop_last().update(i, x));
    } else {
        assert(u.drop_last() =~= g.drop_last());
    }
}

/// A batch is grouped by identity. Every request of the group is what all who
/// wait for it submitted, with the hash of those events; a submission is
/// refused only if it cannot be appended, or if an earlier one brings other
/// events under its identity. Requests and refusals together are as many as
/// the submissions.
pub proof fn law_batch_is_grouped_by_identity(
    batch: Seq<Submission>,
    key: DigestKey,
    tenant: Seq<char>,
    resource: Seq<char>,
)
    requires
        batch.len() <= usize::MAX,
    ensures
        ({
            let (g, refused) = grouped(batch, key, tenant, resource);
            &&& forall|i: int|
                0 <= i < g.len() ==> is_submitted(#[trigger] g[i], batch, key, tenant, resource)
            &&& forall|i: int|
                0 <= i < refused.len() ==> is_refused_rightly(
                    #[trigger] refused[i],
                    batch,
                    key,
                    tenant,
                    resource,
                )
            &&& waiting_for(g) + refused.len() == batch.len()
        }),
    decreases batch.len(),
{
    if batch.len() > 0 {
        let b = batch.drop_last();
        let n = batch.len() - 1;
        let s = batch[n];
        let k = n as usize;
        law_batch_is_grouped_by_identity(b, key, tenant, resource);
        let (g, refused) = grouped(b, key, tenant, resource);
        let (g2, refused2) = grouped(batch, key, tenant, resource);
        let own = payload_seqs(s.payloads@);
        lemma_place_of(g, s.identity.text());
        assert(forall|i: int| 0 <= i < n ==> b[i] == batch[i]);
        assert forall|i: int| 0 <= i < g.len() implies is_submitted(
            #[trigger] g[i],
            batch,
            key,
            tenant,
            resource,
        ) by {
            assert(is_submitted(g[i], b, key, tenant, resource));
        }
        assert forall|i: int| 0 <= i < refused.len() implies is_refused_rightly(
            #[trigger] refused[i],
            batch,
            key,
            tenant,
            resource,
        ) by {
            let r = refused[i];
            assert(is_refused_rightly(r, b, key, tenant, resource));
            if r.1 is Conflict {
                let j = choose|j: int|
                    0 <= j < r.0 && #[trigger] clashes(b, j, r.0 as int) && r.1->original
                        == append_request(key, tenant, resource, payload_seqs(b[j].payloads@));
                assert(clashes(batch, j, r.0 as int));
            }
        }
        if !appendable(own) {
            assert(refused2.drop_last() =~= refused);
        } else {
            match place_of(g, s.identity.text()) {
                None => {
                    assert(g2.drop_last() =~= g);
                    assert(g2.last().waiting[0] == k);
                },
                Some(i) => {
                    assert(is_submitted(g[i], batch, key, tenant, resource));
                    if g[i].payloads != own {
                        let j = g[i].waiting[0] as int;
                        assert(is_submitted(g[i], b, key, tenant, resource));
                        assert(j < n);
                        assert(clashes(batch, j, n));
                        assert(refused2.drop_last() =~= refused);
                        assert(is_refused_rightly(refused2.last(), batch, key, tenant, resource));
                    } else {
                        lemma_waiting_update(g, i, k);
                        let w = g[i].waiting.push(k);
                        assert forall|j: int| 0 <= j < w.len() implies (#[trigger] w[j])
                            < batch.len() && batch[w[j] as int].identity.text() == g[i].id
                            && payload_seqs(batch[w[j] as int].payloads@) == g[i].payloads by {
                            if j < g[i].waiting.len() {
                                assert(w[j] == g[i].waiting[j]);
                            }
                        }
                        assert(is_submitted(g2[i], batch, key, tenant, resource));
                    }
                },
            }
        }
    }
}

/// Whether submission `k` waits for request `i` of a group.
pub open spec fn waits_for(g: Seq<GroupView>, i: int, k: usize) -> bool {
    0 <= i < g.len() && g[i].waiting.contains(k)
}

proof fn lemma_to_all(waiting: Seq<usize>, x: ReplyView, k: usize, y: ReplyView)
    ensures
        to_all(waiting, x).contains((k, y)) <==> waiting.contains(k) && x == y,
        to_all(waiting, x).len() == waiting.len(),
{
    let s = to_all(waiting, x);
    if s.contains((k, y)) {
        let i = choose|i: int| 0 <= i < s.len() && s[i] == (k, y);
        assert(waiting[i] == k);
    }
    if waiting.contains(k) && x == y {
        let i = choose|i: int| 0 <= i < waiting.len() && waiting[i] == k;
        assert(s[i] == (k, y));
    }
}

proof fn lemma_either<A>(a: Seq<A>, b: Seq<A>, x: A)
    ensures
        (a + b).contains(x) <==> a.contains(x) || b.contains(x),
{
    let s = a + b;
    if s.contains(x) {
        let i = choose|i: int| 0 <= i < s.len() && s[i] == x;
        if i < a.len() {
            assert(a[i] == x);
        } else {
            assert(b[i - a.len()] == x);
        }
    }
    if a.contains(x) {
        let i = choose|i: int| 0 <= i < a.len() && a[i] == x;
        assert(s[i] == x);
    }
    if b.contains(x) {
        let i = choose|i: int| 0 <= i < b.len() && b[i] == x;
        assert(s[a.len() + i] == x);
    }
}

/// What an admission says at once: a failure, or the range and the generation
/// under which the request was published before. A pending request is not
/// answered yet.
pub proof fn law_admission_is_answered_at_once(a: Admitted)
    ensures
        early_answer(a) is None <==> (a matches Ok(IntentAdmission::Pending { .. })),
        a matches Err(m) ==> early_answer(a) == Some(ReplyView::Failed(m@)),
        a matches Ok(IntentAdmission::Applied { generation, result, .. }) ==> match recorded_range(
            result,
        ) {
            Some(range) => early_answer(a) matches Some(ReplyView::Appended(x)) && x.first
                == range.first && x.last == range.last && x.generation == generation
                && !x.first_delivery,
            None => early_answer(a) matches Some(ReplyView::Failed(_)),
        },
{
}

/// After the admissions everybody who waits for a request that is settled is
/// told its answer, nobody else is told anything, and the others go on.
pub proof fn law_settled_requests_are_answered(
    g: Seq<GroupView>,
    a: Seq<Admitted>,
    k: usize,
    x: ReplyView,
    y: GroupView,
)
    requires
        a.len() == g.len(),
    ensures
        early_answers(g, a).contains((k, x)) <==> exists|i: int| #[trigger]
            waits_for(g, i, k) && early_answer(a[i]) == Some(x),
        left_over(g, a).contains(y) <==> exists|i: int|
            0 <= i < g.len() && #[trigger] g[i] == y && early_answer(a[i]) is None,
        early_answers(g, a).len() + waiting_for(left_over(g, a)) == waiting_for(g),
    decreases g.len(),
{
    lemma_settled(g, a, g.len() as int, k, x, y);
    assert(g.take(g.len() as int) =~= g);
}

proof fn lemma_settled(
    g: Seq<GroupView>,
    a: Seq<Admitted>,
    n: int,
    k: usize,
    x: ReplyView,
    y: GroupView,
)
    requires
        a.len() == g.len(),
        0 <= n <= g.len(),
    ensures
        early_answers(g.take(n), a).contains((k, x)) <==> exists|i: int|
            i < n && #[trigger] waits_for(g, i, k) && early_answer(a[i]) == Some(x),
        left_over(g.take(n), a).contains(y) <==> exists|i: int|
            0 <= i < n && #[trigger] g[i] == y && early_answer(a[i]) is None,
        early_answers(g.take(n), a).len() + waiting_for(left_over(g.take(n), a)) == waiting_for(
            g.take(n),
        ),
    decreases n,
{
    if n > 0 {
        lemma_settled(g, a, n - 1, k, x, y);
        let t = g.take(n);
        assert(t.drop_last() =~= g.take(n - 1));
        let before = early_answers(g.take(n - 1), a);
        let rest = left_over(g.take(n - 1), a);
        match early_answer(a[n - 1]) {
            Some(z) => {
                lemma_to_all(t.last().waiting, z, k, x);
                lemma_either(before, to_all(t.last().waiting, z), (k, x));
                if t.last().waiting.contains(k) {
                    assert(waits_for(g, n - 1, k));
                }
            },
            None => {
                let more = rest.push(t.last());
                assert(more.drop_last() =~= rest);
                assert(more =~= rest + seq![t.last()]);
                lemma_either(rest, seq![t.last()], y);
                assert(seq![t.last()][0] == t.last());
                if y == t.last() {
                    assert(g[n - 1] == y);
                }
            },
        }
    }
}

/// A published group tells everybody who waits for a request the range that
/// was admitted under its identity, in the generation that was published; and
/// one that was not admitted fails. Nobody else is told anything.
pub proof fn law_published_requests_are_answered(
    g: Seq<GroupView>,
    admitted: Seq<Admission>,
    generation: u64,
    first_delivery: bool,
    k: usize,
    x: ReplyView,
)
    ensures
        late_answers(g, admitted, generation, first_delivery).contains((k, x)) <==> exists|i: int|
            #[trigger] waits_for(g, i, k) && late_answer(
                g[i],
                admitted,
                generation,
                first_delivery,
            ) == x,
        late_answers(g, admitted, generation, first_delivery).len() == waiting_for(g),
    decreases g.len(),
{
    if g.len() > 0 {
        let h = g.drop_last();
        let n = g.len() - 1;
        law_published_requests_are_answered(h, admitted, generation, first_delivery, k, x);
        let z = late_answer(g[n], admitted, generation, first_delivery);
        lemma_to_all(g[n].waiting, z, k, x);
        lemma_either(
            late_answers(h, admitted, generation, first_delivery),
            to_all(g[n].waiting, z),
            (k, x),
        );
        assert forall|i: int| 0 <= i < n implies (#[trigger] waits_for(h, i, k) <==> waits_for(
            g,
            i,
            k,
        )) by {}
        if g[n].waiting.contains(k) {
            assert(waits_for(g, n, k));
        }
        if exists|i: int| #[trigger] waits_for(h, i, k) && late_answer(
            h[i],
            admitted,
            generation,
            first_delivery,
        ) == x {
            let i = choose|i: int| #[trigger]
                waits_for(h, i, k) && late_answer(h[i], admitted, generation, first_delivery) == x;
            assert(waits_for(g, i, k));
        }
        if exists|i: int| #[trigger] waits_for(g, i, k) && late_answer(
            g[i],
            admitted,
            generation,
            first_delivery,
        ) == x {
            let i = choose|i: int| #[trigger]
                waits_for(g, i, k) && late_answer(g[i], admitted, generation, first_delivery) == x;
            if i < n {
                assert(waits_for(h, i, k));
            }
        }
    }
}

/// The answer to a request of a published group is the first range that was
/// admitted under its identity.
pub proof fn law_published_range_is_the_admitted_one(
    g: GroupView,
    admitted: Seq<Admission>,
    generation: u64,
    first_delivery: bool,
)
    ensures
        late_answer(g, admitted, generation, first_delivery) is Failed <==> forall|i: int|
            0 <= i < admitted.len() ==> (#[trigger] admitted[i]).identity@ != g.id,
        late_answer(g, admitted, generation, first_delivery) matches ReplyView::Appended(x)
            ==> x.generation == generation && x.first_delivery == first_delivery && exists|i: int|
            0 <= i < admitted.len() && (#[trigger] admitted[i]).identity@ == g.id
                && admitted[i].first == x.first && admitted[i].last == x.last && forall|j: int|
                0 <= j < i ==> (#[trigger] admitted[j]).identity@ != g.id,
{
    crate::chain::lemma_admission_of(admitted, g.id);
    match crate::chain::admission_of(admitted, g.id) {
        Some(a) => {
            let i = choose|i: int|
                0 <= i < admitted.len() && admitted[i] == a && a.identity@ == g.id && forall|
                    j: int,
                |
                    0 <= j < i ==> (#[trigger] admitted[j]).identity@ != g.id;
            assert(admitted[i].identity@ == g.id);
        },
        None => {},
    }
}

/// If a publication fails, everybody who waits for it is told why, and nobody
/// else.
pub proof fn law_failure_is_told_to_all(
    g: Seq<GroupView>,
    message: Seq<char>,
    k: usize,
    x: ReplyView,
)
    ensures
        failed_answers(g, message).contains((k, x)) <==> x == ReplyView::Failed(message) && exists|
            i: int,
        | #[trigger] waits_for(g, i, k),
        failed_answers(g, message).len() == waiting_for(g),
    decreases g.len(),
{
    if g.len() > 0 {
        let h = g.drop_last();
        let n = g.len() - 1;
        law_failure_is_told_to_all(h, message, k, x);
        let z = ReplyView::Failed(message);
        lemma_to_all(g[n].waiting, z, k, x);
        lemma_either(failed_answers(h, message), to_all(g[n].waiting, z), (k, x));
        if g[n].waiting.contains(k) {
            assert(waits_for(g, n, k));
        }
        if exists|i: int| #[trigger] waits_for(h, i, k) {
            let i = choose|i: int| #[trigger] waits_for(h, i, k);
            assert(waits_for(g, i, k));
        }
        if exists|i: int| #[trigger] waits_for(g, i, k) {
            let i = choose|i: int| #[trigger] waits_for(g, i, k);
            if i < n {
                assert(waits_for(h, i, k));
            }
        }
    }
}

/// What is counted: the events of every submission of a batch, and of a
/// published group the events of each request that was admitted, and each
/// request that was not.
pub proof fn law_events_are_counted(
    batch: Seq<Submission>,
    s: Submission,
    g: Seq<GroupView>,
    x: GroupView,
    admitted: Seq<Admission>,
)
    ensures
        events_in(Seq::empty()) == 0,
        events_in(batch.push(s)) == events_in(batch) + s.payloads@.len(),
        ({
            let there = exists|i: int|
                0 <= i < admitted.len() && (#[trigger] admitted[i]).identity@ == x.id;
            &&& there ==> admitted_events(g.push(x), admitted) == admitted_events(g, admitted)
                + x.payloads.len() && missing(g.push(x), admitted) == missing(g, admitted)
            &&& !there ==> admitted_events(g.push(x), admitted) == admitted_events(g, admitted)
                && missing(g.push(x), admitted) == missing(g, admitted) + 1
            &&& admitted_events(Seq::empty(), admitted) == 0 && missing(Seq::empty(), admitted) == 0
        }),
{
    assert(batch.push(s).drop_last() =~= batch);
    assert(g.push(x).drop_last() =~= g);
    crate::chain::lemma_admission_of(admitted, x.id);
    match crate::chain::admission_of(admitted, x.id) {
        Some(a) => {
            let i = choose|i: int|
                0 <= i < admitted.len() && admitted[i] == a && a.identity@ == x.id && forall|
                    j: int,
                |
                    0 <= j < i ==> (#[trigger] admitted[j]).identity@ != x.id;
            assert(admitted[i].identity@ == x.id);
        },
        None => {},
    }
}

/// A key that is in the index is answered from it, with the receipt that it
/// holds for the same bytes and with a conflict for others; only a key that is
/// not there is appended.
pub proof fn law_stable_key_is_answered_from_the_index(
    found: Option<EntryView>,
    payload_hash: Digest,
)
    ensures
        stable_answer(found, payload_hash) is Append <==> found is None,
        found matches Some(e) ==> {
            &&& e.payload_hash != payload_hash ==> stable_answer(found, payload_hash) == (
            StableAnswer::Conflict { existing: e.payload_hash, supplied: payload_hash })
            &&& e.payload_hash == payload_hash ==> (stable_answer(found, payload_hash) matches
                StableAnswer::Receipt(x) && x.payload_hash == payload_hash && x.range.first
                == e.first && x.range.last == e.last && x.generation == e.generation)
        },
{
}

/// A range that was written for an outcome is told again.
pub proof fn law_recorded_range_is_told(r: AppendRange, text: String, f: u64, l: u64)
    requires
        reads_as(encode_utf8(text@), JsonView::Object(range_fields(r))),
    ensures
        recorded_range(RecordedOutcome::Result(text)) == Some(r),
        recorded_range(RecordedOutcome::Range { first: f, last: l }) == Some(
            AppendRange { first: f, last: l },
        ),
{
    let fields = range_fields(r);
    reveal_strlit("first");
    reveal_strlit("last");
    assert("first"@.len() != "last"@.len());
    reveal_with_fuel(field, 3);
    assert(field(fields, "first"@) == Some(JsonView::Number(r.first)));
    assert(fields.drop_first()[0] == fields[1]);
    assert(field(fields, "last"@) == Some(JsonView::Number(r.last)));
    assert(tells(text@, r));
    let j = JsonView::Object(fields);
    assert(json_of(encode_utf8(text@)) == Ok::<JsonView, JsonFaultView>(j));
    assert forall|o: AppendRange| #[trigger] tells(text@, o) implies o == r by {
        if exists|f: Seq<(Seq<char>, JsonView)>| #[trigger]
            reads_as(encode_utf8(text@), JsonView::Object(f)) && field(f, "first"@) == Some(
                JsonView::Number(o.first),
            ) && field(f, "last"@) == Some(JsonView::Number(o.last)) {
            let f = choose|f: Seq<(Seq<char>, JsonView)>| #[trigger]
                reads_as(encode_utf8(text@), JsonView::Object(f)) && field(f, "first"@) == Some(
                    JsonView::Number(o.first),
                ) && field(f, "last"@) == Some(JsonView::Number(o.last));
            assert(JsonView::Object(f) == j);
            assert(f == fields);
        } else {
            assert(JsonView::List(seq![JsonView::Number(o.first), JsonView::Number(o.last)]) == j);
        }
    }
}

} // verus!
