//! Appending to a log: one request, one stable key, or a group of requests
//! in one publication.
use vstd::prelude::*;
use vstd::utf8::encode_utf8;

use crate::bytes::copy_bytes;
use crate::chain::copy_admissions;
use crate::commit::Admission;
use crate::digest::{digest_of, Digest, DigestKey};
use crate::envelope::ObjectKind;
use crate::error::{integrity, rejected, ErrorView, Result};
use crate::hamt::{
    admissions_fault, admissions_size, grafted, insert, insert_failed, obstacle, receipt_ok,
    EntryView, HamtNode, IndexHead, Insertion, LogScope, MAX_STABLE_ADMISSIONS,
    MAX_STABLE_ADMISSION_BYTES, Obstacle, ROOT_SCHEMA, StableIndexEntry, StableIndexRoot,
};
use crate::json::{object_json, object_string, scalars_view, JsonView, Scalar};
use crate::log::{
    append_refusal, appendable, by_seq, check_manifest, check_payloads, collected, concat_chunks,
    entries_view, frames_view, is_header, is_lease, law_added_chunk_is_read, lemma_kept_all,
    manifest_verdict, next_writer, payload_seqs, range_fields, range_json, record_state,
    recorded_state, total_bytes, writer_view, AppendRange, CHUNK_SCHEMA, ChunkBody, ChunkRef,
    FeedMode, Frame, FrameView, LogManifest, MANIFEST_SCHEMA, MAX_ADMISSIONS, ManifestView,
    ReadView, RetentionMode, StableAppendReceipt, WriterView,
};
use crate::operation::{Material, MaterialView, OpIdentity, StableKey};
use crate::plans::{refused_as, Companion, PrepareCtx, PreparedMutation, Refusal, Upload};
use crate::refs::{Lease, RefValue};
use crate::table::{addressed, uploads_view, FetchedView, Step, Table};
use crate::time::{is_moment, Timestamp};

verus! {

/// One request of an append.
#[derive(Debug)]
pub struct GenericItem {
    pub identity: OpIdentity,
    pub request: Digest,
    pub payloads: Vec<Vec<u8>>,
}

/// One event under a stable key.
#[derive(Debug)]
pub struct StableItem {
    pub key: StableKey,
    pub payload: Vec<u8>,
    pub payload_hash: Digest,
}

/// How many events the requests hold.
pub open spec fn event_count(items: Seq<GenericItem>) -> nat
    decreases items.len(),
{
    if items.len() == 0 {
        0
    } else {
        event_count(items.drop_last()) + items.last().payloads@.len()
    }
}

/// The events of the requests, in order.
pub open spec fn events_of(items: Seq<GenericItem>) -> Seq<Seq<u8>>
    decreases items.len(),
{
    if items.len() == 0 {
        Seq::empty()
    } else {
        events_of(items.drop_last()) + payload_seqs(items.last().payloads@)
    }
}

/// The range that the `i`-th request gets behind `head`.
pub open spec fn range_of(head: u64, items: Seq<GenericItem>, i: int) -> AppendRange {
    AppendRange {
        first: (head + 1 + event_count(items.take(i))) as u64,
        last: (head + event_count(items.take(i + 1))) as u64,
    }
}

proof fn lemma_event_count(items: Seq<GenericItem>, n: int)
    requires
        0 <= n <= items.len(),
    ensures
        event_count(items.take(n)) <= event_count(items),
        events_of(items).len() == event_count(items),
    decreases items.len() - n, items.len(),
{
    lemma_events_len(items);
    if n < items.len() {
        lemma_event_count(items, n + 1);
        assert(items.take(n + 1).drop_last() =~= items.take(n));
    } else {
        assert(items.take(n) =~= items);
    }
}

proof fn lemma_events_len(items: Seq<GenericItem>)
    ensures
        events_of(items).len() == event_count(items),
    decreases items.len(),
{
    if items.len() > 0 {
        lemma_events_len(items.drop_last());
    }
}

/// What the manifest of a log says of the log's state.
pub struct DomainView {
    pub head_seq: u64,
    pub retention: RetentionMode,
    pub stable_index: Option<StableIndexRoot>,
}

/// The state that an append starts from; an unpublished log is empty.
pub open spec fn domain_of(m: Option<LogManifest>, feed: FeedMode) -> DomainView {
    match m {
        None => DomainView { head_seq: 0, retention: feed.as_retention(), stable_index: None },
        Some(m) => DomainView {
            head_seq: m.head_seq,
            retention: if feed == FeedMode::Complete || m.retention == RetentionMode::Complete {
                RetentionMode::Complete
            } else {
                RetentionMode::Trimmable
            },
            stable_index: m.stable_index,
        },
    }
}

/// Whether the manifest after the append keeps an index of stable keys.
pub open spec fn keeps_index(m: Option<LogManifest>, feed: FeedMode, stable: bool) -> bool {
    feed == FeedMode::Complete || domain_of(m, feed).retention == RetentionMode::Complete || stable
}

/// What an append comes to before the index is asked.
pub enum Opening {
    Refused(crate::plans::Refusal),
    Fail(ErrorView),
    Open(u64),
}

/// The writer, the manifest, the index of a complete feed, the requests and
/// the sequence numbers are looked at in this order.
pub open spec fn opening(
    current: RefValue,
    m: Option<LogManifest>,
    writer: Seq<char>,
    now: Timestamp,
    feed: FeedMode,
    items: Seq<GenericItem>,
    steal: bool,
) -> Opening {
    match writer_view(current, writer, now, steal) {
        WriterView::Refused(why) => Opening::Refused(why),
        WriterView::Epoch(epoch) => {
            let verdict = match m {
                Some(m) => manifest_verdict(None, m@, current.name@),
                None => None,
            };
            let d = domain_of(m, feed);
            if verdict is Some {
                Opening::Fail(verdict->0)
            } else if m is Some && d.retention == RetentionMode::Complete && d.stable_index is None {
                Opening::Fail(
                    ErrorView::IntegrityError("complete feed is missing its stable-key index"@),
                )
            } else if !all_appendable(items) || d.head_seq + event_count(items) > u64::MAX {
                Opening::Fail(ErrorView::Rejected(items_fault(items, d.head_seq as int, 0)->0))
            } else {
                Opening::Open(epoch)
            }
        },
    }
}

/// Whether every request may be appended.
pub open spec fn all_appendable(items: Seq<GenericItem>) -> bool {
    forall|i: int|
        0 <= i < items.len() ==> appendable(payload_seqs((#[trigger] items[i]).payloads@))
}

/// Why the requests from the `i`-th on cannot be appended behind `seq`.
pub open spec fn items_fault(items: Seq<GenericItem>, seq: int, i: nat) -> Option<Seq<char>>
    decreases items.len() - i,
{
    if i >= items.len() {
        None
    } else {
        let p = payload_seqs(items[i as int].payloads@);
        if !appendable(p) {
            Some(append_refusal(p))
        } else if seq + p.len() > u64::MAX {
            Some("sequence overflow"@)
        } else {
            items_fault(items, seq + p.len(), i + 1)
        }
    }
}

/// What an append will publish, before anything is written.
pub struct EventPlan {
    pub epoch: u64,
    pub lease: Lease,
    pub chunk: ChunkBody,
    pub range: AppendRange,
    pub admitted: Vec<Admission>,
    pub companions: Vec<Companion>,
    pub index: Option<StableIndexRoot>,
    pub nodes: Vec<(Digest, HamtNode)>,
    pub stable_admissions: Vec<StableIndexEntry>,
}

/// Whether `a` records the `i`-th request.
pub open spec fn is_admission(a: Admission, items: Seq<GenericItem>, head: u64, i: int) -> bool {
    a.identity@ == items[i].identity.text() && a.request == items[i].request && a.first == range_of(
        head,
        items,
        i,
    ).first && a.last == range_of(head, items, i).last
}

/// Whether `c` is the companion of the `i`-th request.
pub open spec fn is_companion(c: Companion, items: Seq<GenericItem>, head: u64, i: int) -> bool {
    c.identity.same(items[i].identity) && c.result@ == object_string(
        range_fields(range_of(head, items, i)),
    )
}

/// The frames of events that start behind `head`.
pub open spec fn frames_from(head: u64, at: Timestamp, events: Seq<Seq<u8>>) -> Seq<FrameView> {
    Seq::new(
        events.len(),
        |i: int| FrameView { seq: (head + 1 + i) as u64, at, payload: events[i] },
    )
}

/// Whether the plan holds the requests, in order, right behind the head.
pub open spec fn places(
    p: EventPlan,
    items: Seq<GenericItem>,
    extra: Seq<Seq<u8>>,
    head: u64,
    now: Timestamp,
) -> bool {
    &&& p.chunk.schema@ == CHUNK_SCHEMA@
    &&& p.chunk@ == frames_from(head, now, events_of(items) + extra)
    &&& p.admitted@.len() == items.len()
    &&& forall|i: int|
        0 <= i < items.len() ==> is_admission(#[trigger] p.admitted@[i], items, head, i)
    &&& p.companions@.len() == if items.len() == 0 {
        0
    } else {
        items.len() - 1
    }
    &&& forall|i: int|
        0 <= i < p.companions@.len() ==> is_companion(
            #[trigger] p.companions@[i],
            items,
            head,
            i + 1,
        )
    &&& items.len() > 0 ==> p.range == range_of(head, items, 0)
}

fn place_events(
    items: &Vec<GenericItem>,
    head: u64,
    now: Timestamp,
) -> (r: Result<(Vec<Admission>, Vec<Companion>, Vec<Frame>)>)
    ensures
        if all_appendable(items@) && head + event_count(items@) <= u64::MAX {
            r matches Ok(p) && {
                &&& p.0@.len() == items@.len()
                &&& forall|i: int|
                    0 <= i < items@.len() ==> is_admission(#[trigger] p.0@[i], items@, head, i)
                &&& p.1@.len() == if items@.len() == 0 {
                    0
                } else {
                    items@.len() - 1
                }
                &&& forall|i: int|
                    0 <= i < p.1@.len() ==> is_companion(#[trigger] p.1@[i], items@, head, i + 1)
                &&& frames_view(p.2@) == frames_from(head, now, events_of(items@))
            }
        } else {
            r matches Err(e) && e@ == ErrorView::Rejected(items_fault(items@, head as int, 0)->0)
        },
{
    let mut admitted: Vec<Admission> = Vec::new();
    let mut companions: Vec<Companion> = Vec::new();
    let mut frames: Vec<Frame> = Vec::new();
    let mut seq: u64 = head;
    let mut i: usize = 0;
    proof {
        assert(items@.take(0) =~= Seq::<GenericItem>::empty());
        assert(frames_view(frames@) =~= frames_from(head, now, events_of(items@.take(0))));
    }
    while i < items.len()
        invariant
            i <= items@.len(),
            seq == head + event_count(items@.take(i as int)),
            items_fault(items@, head as int, 0) == items_fault(items@, seq as int, i as nat),
            forall|j: int|
                0 <= j < i ==> appendable(payload_seqs((#[trigger] items@[j]).payloads@)),
            admitted@.len() == i,
            forall|j: int|
                0 <= j < i ==> is_admission(#[trigger] admitted@[j], items@, head, j),
            companions@.len() == if i == 0 {
                0
            } else {
                i - 1
            },
            forall|j: int|
                0 <= j < companions@.len() ==> is_companion(
                    #[trigger] companions@[j],
                    items@,
                    head,
                    j + 1,
                ),
            frames_view(frames@) == frames_from(head, now, events_of(items@.take(i as int))),
        decreases items@.len() - i,
    {
        let item: &GenericItem = &items[i];
        proof {
            assert(items@.take(i + 1).drop_last() =~= items@.take(i as int));
            assert(items@.take(i + 1).last() == *item);
            lemma_event_count(items@, i + 1);
            lemma_events_len(items@.take(i as int));
        }
        match check_payloads(&item.payloads) {
            Err(e) => {
                return Err(e);
            },
            Ok(_) => {},
        }
        if item.payloads.len() as u64 > u64::MAX - seq {
            return Err(rejected("sequence overflow"));
        }
        let first: u64 = seq + 1;
        let last: u64 = seq + item.payloads.len() as u64;
        let range: AppendRange = AppendRange { first, last };
        assert(range == range_of(head, items@, i as int));
        push_events(&mut frames, &item.payloads, first, now);
        proof {
            let before = events_of(items@.take(i as int));
            let added = payload_seqs(item.payloads@);
            assert(frames_from(head, now, before) + frames_from(seq, now, added) =~= frames_from(
                head,
                now,
                before + added,
            ));
        }
        admitted.push(
            Admission { identity: item.identity.canonical(), request: item.request, first, last },
        );
        if i > 0 {
            companions.push(
                Companion { identity: item.identity.clone(), result: range_json(range) },
            );
        }
        seq = last;
        i = i + 1;
    }
    assert(items@.take(i as int) =~= items@);
    Ok((admitted, companions, frames))
}

fn push_events(frames: &mut Vec<Frame>, payloads: &Vec<Vec<u8>>, first: u64, now: Timestamp)
    requires
        first > 0,
        first + payloads@.len() - 1 <= u64::MAX,
    ensures
        frames_view(final(frames)@) == frames_view(old(frames)@) + frames_from(
            (first - 1) as u64,
            now,
            payload_seqs(payloads@),
        ),
{
    let ghost before = frames_view(frames@);
    let ghost all = frames_from((first - 1) as u64, now, payload_seqs(payloads@));
    let mut i: usize = 0;
    assert(before + all.take(0) =~= before);
    while i < payloads.len()
        invariant
            i <= payloads@.len(),
            first > 0,
            first + payloads@.len() - 1 <= u64::MAX,
            all == frames_from((first - 1) as u64, now, payload_seqs(payloads@)),
            frames_view(frames@) == before + all.take(i as int),
        decreases payloads@.len() - i,
    {
        let ghost was = frames@;
        let f: Frame = Frame { seq: first + i as u64, at: now, payload: copy_bytes(&payloads[i]) };
        frames.push(f);
        proof {
            assert(f@ == all[i as int]);
            assert(frames_view(frames@) =~= frames_view(was).push(f@));
            assert(before + all.take(i + 1) =~= (before + all.take(i as int)).push(all[i as int]));
        }
        i = i + 1;
    }
    assert(all.take(i as int) =~= all);
}

/// What opens an append: the epoch and lease, and the head it starts from.
fn open_append(
    ctx: &PrepareCtx<'_>,
    manifest: Option<&LogManifest>,
    writer: &str,
    lease_secs: i64,
    feed: FeedMode,
    steal: bool,
    Ghost(items): Ghost<Seq<GenericItem>>,
) -> (r: Result<(u64, Lease)>)
    requires
        is_moment(ctx.now@ + lease_secs * 1_000_000_000),
    ensures
        ({
            let m = owned(manifest);
            match opening(ctx.snapshot.value, m, writer@, ctx.now, feed, items, steal) {
                Opening::Refused(why) => r matches Err(e) && refused_as(e, why),
                Opening::Open(epoch) => r matches Ok(p) && p.0 == epoch && is_lease(
                    p.1,
                    writer@,
                    ctx.now,
                    lease_secs,
                ),
                Opening::Fail(c) => match r {
                    Err(e) => e@ == c,
                    Ok(_) => {
                        let head = domain_of(m, feed).head_seq;
                        c == ErrorView::Rejected(items_fault(items, head as int, 0)->0) && (
                        !all_appendable(items) || head + event_count(items) > u64::MAX)
                    },
                },
            }
        }),
{
    let (epoch, lease) = match next_writer(
        &ctx.snapshot.value,
        writer,
        ctx.now,
        lease_secs,
        steal,
    ) {
        Err(e) => {
            return Err(e);
        },
        Ok(p) => p,
    };
    if let Some(m) = manifest {
        match check_manifest(None, m, &ctx.snapshot.value.name) {
            Err(e) => {
                return Err(e);
            },
            Ok(_) => {},
        }
        if (feed == FeedMode::Complete || m.retention == RetentionMode::Complete)
            && m.stable_index.is_none() {
            return Err(integrity("complete feed is missing its stable-key index"));
        }
    }
    Ok((epoch, lease))
}

/// The manifest that a reference points at.
pub open spec fn owned(m: Option<&LogManifest>) -> Option<LogManifest> {
    match m {
        Some(x) => Some(*x),
        None => None,
    }
}

/// The index that an append starts from: the log's, or the empty one.
pub open spec fn base_index(m: Option<LogManifest>, feed: FeedMode, stable: bool, empty: StableIndexRoot) -> Option<
    StableIndexRoot,
> {
    if !keeps_index(m, feed, stable) {
        None
    } else {
        match domain_of(m, feed).stable_index {
            Some(r) => Some(r),
            None => Some(empty),
        }
    }
}

/// Whether the empty index has to be stored before the append.
pub fn needs_empty_index(manifest: Option<&LogManifest>, feed: FeedMode, stable: bool) -> (r: bool)
    ensures
        r == (keeps_index(owned(manifest), feed, stable) && domain_of(
            owned(manifest),
            feed,
        ).stable_index is None),
{
    match manifest {
        None => feed == FeedMode::Complete || stable,
        Some(m) => (feed == FeedMode::Complete || m.retention == RetentionMode::Complete || stable)
            && m.stable_index.is_none(),
    }
}

/// Plans an append of requests.
pub fn plan_generic(
    ctx: &PrepareCtx<'_>,
    manifest: Option<&LogManifest>,
    writer: &str,
    lease_secs: i64,
    feed: FeedMode,
    items: &Vec<GenericItem>,
    steal: bool,
    empty: &StableIndexRoot,
) -> (r: Result<EventPlan>)
    requires
        is_moment(ctx.now@ + lease_secs * 1_000_000_000),
    ensures
        ({
            let m = owned(manifest);
            let head = domain_of(m, feed).head_seq;
            match opening(ctx.snapshot.value, m, writer@, ctx.now, feed, items@, steal) {
                Opening::Refused(why) => r matches Err(e) && refused_as(e, why),
                Opening::Fail(c) => r matches Err(e) && e@ == c,
                Opening::Open(epoch) => if items@.len() == 0 {
                    r matches Err(e) && e@ == ErrorView::Rejected("empty append"@)
                } else if items@.len() > MAX_ADMISSIONS {
                    r matches Err(e) && e@ == ErrorView::Rejected("admission cap exceeded"@)
                } else {
                    r matches Ok(p) && {
                        &&& p.epoch == epoch
                        &&& is_lease(p.lease, writer@, ctx.now, lease_secs)
                        &&& places(p, items@, Seq::empty(), head, ctx.now)
                        &&& p.index == base_index(m, feed, false, *empty)
                        &&& p.nodes@.len() == 0
                        &&& p.stable_admissions@.len() == 0
                    }
                },
            }
        }),
{
    let (epoch, lease) = match open_append(
        ctx,
        manifest,
        writer,
        lease_secs,
        feed,
        steal,
        Ghost(items@),
    ) {
        Err(e) => {
            return Err(e);
        },
        Ok(p) => p,
    };
    let head: u64 = match manifest {
        Some(m) => m.head_seq,
        None => 0,
    };
    let (admitted, companions, frames) = match place_events(items, head, ctx.now) {
        Err(e) => {
            return Err(e);
        },
        Ok(p) => p,
    };
    if items.len() > MAX_ADMISSIONS {
        return Err(rejected("admission cap exceeded"));
    }
    if items.len() == 0 {
        return Err(rejected("empty append"));
    }
    let range: AppendRange = AppendRange { first: admitted[0].first, last: admitted[0].last };
    assert(is_admission(admitted@[0], items@, head, 0));
    let index: Option<StableIndexRoot> = pick_index(manifest, feed, false, empty);
    assert(events_of(items@) + Seq::<Seq<u8>>::empty() =~= events_of(items@));
    Ok(
        EventPlan {
            epoch,
            lease,
            chunk: ChunkBody { schema: CHUNK_SCHEMA.to_owned(), frames },
            range,
            admitted,
            companions,
            index,
            nodes: Vec::new(),
            stable_admissions: Vec::new(),
        },
    )
}

fn pick_index(
    manifest: Option<&LogManifest>,
    feed: FeedMode,
    stable: bool,
    empty: &StableIndexRoot,
) -> (r: Option<StableIndexRoot>)
    ensures
        r == base_index(owned(manifest), feed, stable, *empty),
{
    match manifest {
        None => {
            if feed == FeedMode::Complete || stable {
                Some(empty.clone())
            } else {
                None
            }
        },
        Some(m) => {
            if feed == FeedMode::Complete || m.retention == RetentionMode::Complete || stable {
                match &m.stable_index {
                    Some(r) => Some(r.clone()),
                    None => Some(empty.clone()),
                }
            } else {
                None
            }
        },
    }
}

/// The receipt of an event under a stable key behind `head`.
pub open spec fn stable_receipt(item: StableItem, head: u64, generation: u64) -> EntryView {
    EntryView {
        key: item.key@,
        payload_hash: item.payload_hash,
        first: (head + 1) as u64,
        last: (head + 1) as u64,
        generation,
    }
}

/// Plans an append of one event under a stable key.
pub fn plan_stable<F: Fn(&HamtNode) -> Result<Digest>>(
    ctx: &PrepareCtx<'_>,
    manifest: Option<&LogManifest>,
    writer: &str,
    lease_secs: i64,
    item: &StableItem,
    scope: &LogScope,
    empty: &StableIndexRoot,
    table: &Table<HamtNode>,
    address: &F,
) -> (r: Result<Step<EventPlan>>)
    requires
        is_moment(ctx.now@ + lease_secs * 1_000_000_000),
        ctx.generation > 0,
        forall|n: &HamtNode| call_requires(*address, (n,)),
    ensures
        ({
            let m = owned(manifest);
            let feed = FeedMode::Complete;
            let head = domain_of(m, feed).head_seq;
            let root = base_index(m, feed, true, *empty)->0;
            let at = IndexHead { generation: ctx.generation, head_seq: (head + 1) as u64 };
            match opening(
                ctx.snapshot.value,
                m,
                writer@,
                ctx.now,
                feed,
                Seq::empty(),
                false,
            ) {
                Opening::Refused(why) => r matches Err(e) && refused_as(e, why),
                Opening::Fail(c) => r matches Err(e) && e@ == c,
                Opening::Open(epoch) => if !appendable(seq![item.payload@]) {
                    r matches Err(e) && e@ == ErrorView::Rejected(
                        append_refusal(seq![item.payload@]),
                    )
                } else if head == u64::MAX {
                    r matches Err(e) && e@ == ErrorView::Rejected("sequence overflow"@)
                } else if root.schema@ != ROOT_SCHEMA@ {
                    r matches Err(e) && e@ == ErrorView::IntegrityError(
                        "unsupported stable index root schema "@ + root.schema@,
                    )
                } else {
                    match obstacle(table@, *scope, at, root.digest, 0, item.key@) {
                        Obstacle::Fetch(d) => r matches Ok(Step::Fetch(n)) && n == d,
                        Obstacle::Fail(c) => r matches Err(e) && e@ == c,
                        Obstacle::Clear => match r {
                            Ok(Step::Done(p)) => {
                                &&& p.epoch == epoch
                                &&& is_lease(p.lease, writer@, ctx.now, lease_secs)
                                &&& places(p, Seq::empty(), seq![item.payload@], head, ctx.now)
                                &&& p.range == (AppendRange {
                                    first: (head + 1) as u64,
                                    last: (head + 1) as u64,
                                })
                                &&& addressed(*address, p.nodes@)
                                &&& p.index matches Some(now) && now.schema@ == ROOT_SCHEMA@
                                    && now.entries == root.entries + 1 && grafted(
                                    table@,
                                    uploads_view(p.nodes@),
                                    *scope,
                                    at,
                                    root.digest,
                                    now.digest,
                                    0,
                                    stable_receipt(*item, head, ctx.generation),
                                )
                                &&& entries_view(p.stable_admissions@) == seq![
                                    stable_receipt(*item, head, ctx.generation),
                                ]
                            },
                            Ok(Step::Fetch(_)) => false,
                            Err(e) => insert_failed(
                                *address,
                                table@,
                                *scope,
                                at,
                                root,
                                stable_receipt(*item, head, ctx.generation),
                                e,
                            ),
                        },
                    }
                },
            }
        }),
{
    let ghost none = Seq::<GenericItem>::empty();
    let feed: FeedMode = FeedMode::Complete;
    let (epoch, lease) = match open_append(
        ctx,
        manifest,
        writer,
        lease_secs,
        feed,
        false,
        Ghost(none),
    ) {
        Err(e) => {
            return Err(e);
        },
        Ok(p) => p,
    };
    let head: u64 = match manifest {
        Some(m) => m.head_seq,
        None => 0,
    };
    let root: StableIndexRoot = match pick_index(manifest, feed, true, empty) {
        Some(r) => r,
        None => empty.clone(),
    };
    let mut payloads: Vec<Vec<u8>> = Vec::new();
    payloads.push(copy_bytes(&item.payload));
    assert(payload_seqs(payloads@) =~= seq![item.payload@]);
    match check_payloads(&payloads) {
        Err(e) => {
            return Err(e);
        },
        Ok(_) => {},
    }
    if head == u64::MAX {
        return Err(rejected("sequence overflow"));
    }
    let first: u64 = head + 1;
    let entry: StableIndexEntry = StableIndexEntry {
        key: item.key.clone(),
        payload_hash: item.payload_hash,
        first,
        last: first,
        generation: ctx.generation,
    };
    assert(entry@ == stable_receipt(*item, head, ctx.generation));
    let at: IndexHead = IndexHead { generation: ctx.generation, head_seq: first };
    let ins: Insertion = match insert(address, table, scope, &root, &entry, at) {
        Err(e) => {
            return Err(e);
        },
        Ok(Step::Fetch(d)) => {
            return Ok(Step::Fetch(d));
        },
        Ok(Step::Done(i)) => i,
    };
    assert(receipt_ok(entry@, at));
    let mut frames: Vec<Frame> = Vec::new();
    assert(frames_view(frames@) =~= Seq::empty());
    push_events(&mut frames, &payloads, first, ctx.now);
    let mut stable_admissions: Vec<StableIndexEntry> = Vec::new();
    stable_admissions.push(entry);
    proof {
        assert(entries_view(stable_admissions@) =~= seq![stable_receipt(*item, head, ctx.generation)]);
        assert(events_of(none) + seq![item.payload@] =~= seq![item.payload@]);
        assert(frames_view(frames@) =~= frames_from(head, ctx.now, seq![item.payload@]));
    }
    Ok(
        Step::Done(
            EventPlan {
                epoch,
                lease,
                chunk: ChunkBody { schema: CHUNK_SCHEMA.to_owned(), frames },
                range: AppendRange { first, last: first },
                admitted: Vec::new(),
                companions: Vec::new(),
                index: Some(ins.root),
                nodes: ins.uploads,
                stable_admissions,
            },
        ),
    )
}

/// Every event of an append gets the next sequence number: the events of a
/// log are numbered without a gap from where its head was.
pub proof fn law_appended_events_are_dense(
    head: u64,
    at: Timestamp,
    events: Seq<Seq<u8>>,
    i: int,
)
    requires
        head + events.len() <= u64::MAX,
        0 <= i < events.len(),
    ensures
        frames_from(head, at, events)[i].seq == head + 1 + i,
        frames_from(head, at, events)[i].payload == events[i],
{
}

/// What a log's append appended is read back: behind everything that was
/// read before, in order, with its bytes, and nothing else.
pub proof fn law_log_append_is_read_back(
    m: Map<Digest, FetchedView<Seq<FrameView>>>,
    chunks: Seq<ChunkRef>,
    added: ChunkRef,
    head: u64,
    at: Timestamp,
    events: Seq<Seq<u8>>,
    from: u64,
    floor: u64,
)
    requires
        0 < events.len(),
        head + events.len() <= u64::MAX,
        from <= head + 1,
        floor <= head,
        collected(m, chunks, from, floor) matches ReadView::Frames(f) && forall|i: int|
            0 <= i < f.len() ==> (#[trigger] f[i]).seq <= head,
        m.contains_key(added.digest),
        m[added.digest] matches FetchedView::Object { object, .. } && object == frames_from(
            head,
            at,
            events,
        ),
        added.last == head + events.len(),
    ensures
        collected(m, chunks.push(added), from, floor) is Frames,
        by_seq(collected(m, chunks.push(added), from, floor)->Frames_0) == by_seq(
            collected(m, chunks, from, floor)->Frames_0,
        ) + frames_from(head, at, events),
{
    let new = frames_from(head, at, events);
    law_added_chunk_is_read(m, chunks, added, from, floor);
    lemma_kept_all(new, from, floor);
}

/// The ranges of the requests of a group follow each other without a gap
/// and without an overlap, and each holds exactly the events of its request.
pub proof fn law_group_ranges_partition(items: Seq<GenericItem>, head: u64, i: int)
    requires
        all_appendable(items),
        head + event_count(items) <= u64::MAX,
        0 <= i < items.len(),
    ensures
        range_of(head, items, i).last - range_of(head, items, i).first + 1
            == items[i].payloads@.len(),
        i == 0 ==> range_of(head, items, i).first == head + 1,
        i + 1 < items.len() ==> range_of(head, items, i + 1).first == range_of(head, items, i).last
            + 1,
        i + 1 == items.len() ==> range_of(head, items, i).last == head + event_count(items),
{
    lemma_event_count(items, i);
    lemma_event_count(items, i + 1);
    assert(items.take(i + 1).drop_last() =~= items.take(i));
    assert(items.take(0) =~= Seq::<GenericItem>::empty());
    assert(payload_seqs(items[i].payloads@).len() == items[i].payloads@.len());
    assert(appendable(payload_seqs(items[i].payloads@)));
    if i + 1 == items.len() {
        assert(items.take(i + 1) =~= items);
    } else {
        lemma_event_count(items, i + 2);
        assert(items.take(i + 2).drop_last() =~= items.take(i + 1));
        assert(payload_seqs(items[i + 1].payloads@).len() == items[i + 1].payloads@.len());
        assert(appendable(payload_seqs(items[i + 1].payloads@)));
    }
}

proof fn lemma_event_place(items: Seq<GenericItem>, i: int, j: int)
    requires
        0 <= i < items.len(),
        0 <= j < items[i].payloads@.len(),
    ensures
        event_count(items.take(i)) + j < events_of(items).len(),
        events_of(items)[event_count(items.take(i)) + j] == items[i].payloads@[j]@,
        events_of(items).len() == event_count(items),
    decreases items.len(),
{
    let h = items.drop_last();
    lemma_events_len(items);
    lemma_events_len(h);
    let own = payload_seqs(items.last().payloads@);
    if i < items.len() - 1 {
        lemma_event_place(h, i, j);
        assert(h.take(i) =~= items.take(i));
        assert(h[i] == items[i]);
    } else {
        assert(items.take(i) =~= h);
        assert(own[j] == items[i].payloads@[j]@);
    }
}

/// Every event of every request of a group is in the chunk, at the sequence
/// that its request's range says, with its bytes and the time of the append;
/// and the chunk holds as many events as the requests together.
pub proof fn law_group_events_are_in_their_ranges(
    items: Seq<GenericItem>,
    head: u64,
    at: Timestamp,
    i: int,
    j: int,
)
    requires
        all_appendable(items),
        head + event_count(items) <= u64::MAX,
        0 <= i < items.len(),
        0 <= j < items[i].payloads@.len(),
    ensures
        ({
            let frames = frames_from(head, at, events_of(items));
            let place = range_of(head, items, i).first - head - 1 + j;
            &&& frames.len() == event_count(items)
            &&& 0 <= place < frames.len()
            &&& frames[place].seq == range_of(head, items, i).first + j
            &&& frames[place].payload == items[i].payloads@[j]@
            &&& frames[place].at == at
            &&& event_count(items) == event_count(items.drop_last()) + items.last().payloads@.len()
            &&& event_count(Seq::empty()) == 0
        }),
{
    lemma_event_place(items, i, j);
    lemma_event_count(items, i);
}

/// A log is open to a writer exactly if no other holds its lease, or it is
/// stolen; if there is an epoch to write under; if what is there of the log is
/// sound; if every request may be appended; and if there are sequences left.
/// Nothing else keeps a writer out.
pub proof fn law_log_is_open_to_its_writer(
    current: RefValue,
    m: Option<LogManifest>,
    writer: Seq<char>,
    now: Timestamp,
    feed: FeedMode,
    items: Seq<GenericItem>,
    steal: bool,
)
    ensures
        ({
            let held = current.lease matches Some(l) && l.lease_until@ > now@;
            let own = held && current.lease->0.writer@ == writer;
            let o = opening(current, m, writer, now, feed, items, steal);
            let epoch = if own && !steal {
                current.epoch as int
            } else {
                current.epoch + 1
            };
            let head: int = match m {
                Some(x) => x.head_seq as int,
                None => 0,
            };
            let complete = m matches Some(x) && (x.retention == RetentionMode::Complete || feed
                == FeedMode::Complete);
            let ready = (!held || own || steal) && epoch <= u64::MAX && (m matches Some(x)
                ==> x.schema@ == "comb.log.partition-manifest/v2"@ && x.header.fault() is None
                && x.header.resource@ == current.name@ && x.log@ == current.name@ && (complete
                ==> x.stable_index is Some)) && (forall|i: int|
                0 <= i < items.len() ==> 1 <= (#[trigger] items[i]).payloads@.len() <= 2048
                    && total_bytes(payload_seqs(items[i].payloads@)) <= 512 * 1024) && head
                + event_count(items) <= u64::MAX;
            &&& o is Open <==> ready
            &&& o matches Opening::Open(e) ==> e == epoch
            &&& (o matches Opening::Refused(Refusal::Held(_))) <==> held && !own && !steal
        }),
{
    assert forall|i: int| 0 <= i < items.len() implies payload_seqs(
        (#[trigger] items[i]).payloads@,
    ).len() == items[i].payloads@.len() by {}
    if all_appendable(items) {
        assert forall|i: int| 0 <= i < items.len() implies 1 <= (#[trigger] items[i]).payloads@.len()
            <= 2048 && total_bytes(payload_seqs(items[i].payloads@)) <= 512 * 1024 by {
            assert(appendable(payload_seqs(items[i].payloads@)));
        }
    }
}

/// A log goes on from its head, and a complete one stays complete and keeps
/// its index. Only a log that is not there begins at the beginning.
pub proof fn law_log_goes_on_from_its_head(
    m: Option<LogManifest>,
    feed: FeedMode,
    stable: bool,
    empty: StableIndexRoot,
)
    ensures
        ({
            let d = domain_of(m, feed);
            let i = base_index(m, feed, stable, empty);
            &&& m is None ==> d.head_seq == 0 && d.stable_index is None
            &&& m matches Some(x) ==> d.head_seq == x.head_seq && d.stable_index == x.stable_index
            &&& d.retention == RetentionMode::Complete <==> feed == FeedMode::Complete || (
            m matches Some(x) && x.retention == RetentionMode::Complete)
            &&& i is Some <==> stable || d.retention == RetentionMode::Complete
            &&& i is Some && d.stable_index is Some ==> i == d.stable_index
            &&& i is Some && d.stable_index is None ==> i == Some(empty)
        }),
{
}

/// An append takes the ref on under the writer's epoch and lease, and leaves
/// the rest of it as it is. The chunk is named by the digest of its bytes and
/// says which sequences it holds.
pub proof fn law_append_takes_the_ref_on(
    p: EventPlan,
    ctx: PrepareCtx<'_>,
    key: DigestKey,
    bytes: Seq<u8>,
)
    requires
        p.chunk@.len() > 0,
        bytes.len() <= u64::MAX,
    ensures
        ({
            let next = appended_ref(p, ctx);
            let current = ctx.snapshot.value;
            let c = chunk_ref(p, key, bytes, ctx.now);
            &&& next.generation == ctx.generation && next.updated_at == ctx.now
            &&& next.epoch == p.epoch && next.lease == Some(p.lease)
            &&& next.tenant == current.tenant && next.name == current.name && next.schema
                == current.schema && next.target == current.target && next.head_commit
                == current.head_commit
            &&& c.digest == digest_of(key, bytes) && c.bytes == bytes.len() && c.at == ctx.now
            &&& c.first == p.chunk@[0].seq && c.last == p.chunk@[p.chunk@.len() - 1].seq
        }),
{
}

/// What is admitted of a request, and the receipt of a stable one: its own
/// identity and request, and the sequences behind the head that it got.
pub proof fn law_admission_is_of_its_request(
    a: Admission,
    items: Seq<GenericItem>,
    head: u64,
    i: int,
    item: StableItem,
    generation: u64,
)
    requires
        0 <= i < items.len(),
        head + event_count(items) < u64::MAX,
    ensures
        is_admission(a, items, head, i) ==> a.identity@ == items[i].identity.text() && a.request
            == items[i].request && a.first == head + 1 + event_count(items.take(i)) && a.last
            == a.first + items[i].payloads@.len() - 1,
        ({
            let r = stable_receipt(item, head, generation);
            r.key == item.key@ && r.payload_hash == item.payload_hash && r.first == head + 1
                && r.last == head + 1 && r.generation == generation
        }),
{
    lemma_event_count(items, i);
    lemma_event_count(items, i + 1);
    assert(items.take(i + 1).drop_last() =~= items.take(i));
}

// --------------------------------------------------------------- manifest
/// The ref after an append.
pub open spec fn appended_ref(p: EventPlan, ctx: PrepareCtx<'_>) -> RefValue {
    RefValue {
        generation: ctx.generation,
        epoch: p.epoch,
        lease: Some(p.lease),
        updated_at: ctx.now,
        ..ctx.snapshot.value
    }
}

fn append_ref(plan: &EventPlan, ctx: &PrepareCtx<'_>) -> (r: RefValue)
    ensures
        r == appended_ref(*plan, *ctx),
{
    let mut next: RefValue = ctx.snapshot.value.clone();
    next.generation = ctx.generation;
    next.epoch = plan.epoch;
    next.lease = Some(plan.lease.clone());
    next.updated_at = ctx.now;
    next
}

fn copy_entries(v: &Vec<StableIndexEntry>) -> (r: Vec<StableIndexEntry>)
    ensures
        entries_view(r@) == entries_view(v@),
{
    let mut out: Vec<StableIndexEntry> = Vec::new();
    let mut i: usize = 0;
    while i < v.len()
        invariant
            i <= v@.len(),
            out@.len() == i,
            forall|j: int| 0 <= j < i ==> (#[trigger] out@[j])@ == v@[j]@,
        decreases v@.len() - i,
    {
        out.push(v[i].clone());
        i = i + 1;
    }
    assert(entries_view(out@) =~= entries_view(v@));
    out
}

/// The chunk of the plan, written as `bytes`.
pub open spec fn chunk_ref(p: EventPlan, key: DigestKey, bytes: Seq<u8>, now: Timestamp) -> ChunkRef {
    ChunkRef {
        digest: digest_of(key, bytes),
        first: p.chunk@[0].seq,
        last: p.chunk@.last().seq,
        bytes: bytes.len() as u64,
        at: now,
    }
}

/// The manifest of an append whose chunk was written as `bytes`, with the
/// stable admissions of `encoded` bytes.
pub fn append_manifest(
    plan: &EventPlan,
    ctx: &PrepareCtx<'_>,
    manifest: Option<&LogManifest>,
    key: &DigestKey,
    bytes: &[u8],
    encoded: usize,
) -> (r: Result<LogManifest>)
    requires
        plan.chunk.frames@.len() > 0,
    ensures
        if plan.stable_admissions@.len() > MAX_STABLE_ADMISSIONS || encoded
            > MAX_STABLE_ADMISSION_BYTES {
            r matches Err(e) && e@ == admissions_fault(
                plan.stable_admissions@.len(),
                encoded as nat,
            )
        } else {
            r matches Ok(m) && is_header(m.header, *ctx, plan.epoch) && m@ == (ManifestView {
                schema: MANIFEST_SCHEMA@,
                header: m.header,
                log: ctx.snapshot.value.name@,
                epoch: plan.epoch,
                head_seq: plan.chunk@.last().seq,
                chunks: (match manifest {
                    Some(x) => x.chunks@,
                    None => Seq::empty(),
                }).push(chunk_ref(*plan, *key, bytes@, ctx.now)),
                segments: match manifest {
                    Some(x) => x.segments@,
                    None => Seq::empty(),
                },
                trim_before_seq: match manifest {
                    Some(x) => x.trim_before_seq,
                    None => 0,
                },
                admitted: plan.admitted@,
                retention: if plan.index is Some {
                    RetentionMode::Complete
                } else {
                    RetentionMode::Trimmable
                },
                stable_index: plan.index,
                stable_admissions: entries_view(plan.stable_admissions@),
                result: Some(object_string(range_fields(plan.range))),
                ref_state: Some(recorded_state(appended_ref(*plan, *ctx))),
            })
        },
{
    match admissions_size(plan.stable_admissions.len(), encoded) {
        Err(e) => {
            return Err(e);
        },
        Ok(_) => {},
    }
    let n: usize = plan.chunk.frames.len();
    let last: u64 = plan.chunk.frames[n - 1].seq;
    let empty: Vec<ChunkRef> = Vec::new();
    let (mut chunks, segments, trim_before_seq) = match manifest {
        Some(m) => (
            concat_chunks(&m.chunks, &empty),
            concat_chunks(&m.segments, &empty),
            m.trim_before_seq,
        ),
        None => (Vec::new(), Vec::new(), 0),
    };
    proof {
        match manifest {
            Some(m) => {
                assert(m.chunks@ + empty@ =~= m.chunks@);
                assert(m.segments@ + empty@ =~= m.segments@);
            },
            None => {
                assert(chunks@ =~= Seq::<ChunkRef>::empty());
                assert(segments@ =~= Seq::<ChunkRef>::empty());
            },
        }
    }
    chunks.push(
        ChunkRef {
            digest: key.digest(bytes),
            first: plan.chunk.frames[0].seq,
            last,
            bytes: bytes.len() as u64,
            at: ctx.now,
        },
    );
    let next: RefValue = append_ref(plan, ctx);
    Ok(
        LogManifest {
            schema: MANIFEST_SCHEMA.to_owned(),
            header: ctx.header(plan.epoch),
            log: ctx.snapshot.value.name.clone(),
            epoch: plan.epoch,
            head_seq: last,
            chunks,
            segments,
            trim_before_seq,
            admitted: copy_admissions(&plan.admitted),
            retention: if plan.index.is_some() {
                RetentionMode::Complete
            } else {
                RetentionMode::Trimmable
            },
            stable_index: match &plan.index {
                Some(r) => Some(r.clone()),
                None => None,
            },
            stable_admissions: copy_entries(&plan.stable_admissions),
            result: Some(range_json(plan.range)),
            ref_state: Some(record_state(&next)),
        },
    )
}

/// The change of an append.
pub open spec fn append_change(r: AppendRange) -> Seq<(Seq<char>, JsonView)> {
    seq![
        ("kind"@, JsonView::Text("append"@)),
        ("first"@, JsonView::Number(r.first)),
        ("last"@, JsonView::Number(r.last)),
    ]
}

/// The publication of an append whose chunk and manifest were written as
/// `chunk` and `manifest`.
pub fn prepared_append(
    plan: EventPlan,
    ctx: &PrepareCtx<'_>,
    chunk: Vec<u8>,
    manifest: Vec<u8>,
) -> (r: PreparedMutation<AppendRange>)
    ensures
        r.next == appended_ref(plan, *ctx),
        r.uploads@.map_values(|u: Upload| (u.kind, u.schema@, u.payload@)) == seq![
            (ObjectKind::Blob, CHUNK_SCHEMA@, chunk@),
            (ObjectKind::Blob, MANIFEST_SCHEMA@, manifest@),
        ],
        r.commit_upload == Some(1usize),
        r.change@ == object_string(append_change(plan.range)),
        r.outcome == plan.range,
        r.result@ == object_string(range_fields(plan.range)),
        r.admitted == plan.admitted,
        r.companions == plan.companions,
{
    let next: RefValue = append_ref(&plan, ctx);
    let ghost want = seq![
        (ObjectKind::Blob, CHUNK_SCHEMA@, chunk@),
        (ObjectKind::Blob, MANIFEST_SCHEMA@, manifest@),
    ];
    let mut uploads: Vec<Upload> = Vec::new();
    uploads.push(
        Upload { kind: ObjectKind::Blob, schema: CHUNK_SCHEMA.to_owned(), payload: chunk },
    );
    uploads.push(
        Upload { kind: ObjectKind::Blob, schema: MANIFEST_SCHEMA.to_owned(), payload: manifest },
    );
    assert(uploads@.map_values(|u: Upload| (u.kind, u.schema@, u.payload@)) =~= want);
    let mut fields: Vec<(String, Scalar)> = Vec::new();
    fields.push(("kind".to_owned(), Scalar::Text("append".to_owned())));
    fields.push(("first".to_owned(), Scalar::Number(plan.range.first)));
    fields.push(("last".to_owned(), Scalar::Number(plan.range.last)));
    proof {
        reveal_strlit("kind");
        reveal_strlit("first");
        reveal_strlit("last");
        assert("kind"@[0] == 'k' && "first"@[0] == 'f' && "last"@[0] == 'l');
        assert(scalars_view(fields@) =~= append_change(plan.range));
    }
    PreparedMutation {
        next,
        uploads,
        commit_upload: Some(1),
        change: object_json(fields),
        outcome: plan.range,
        result: range_json(plan.range),
        admitted: plan.admitted,
        companions: plan.companions,
    }
}

/// The material of an append.
pub open spec fn append_material_view(payloads: Seq<Seq<u8>>) -> MaterialView {
    MaterialView { kind: "append"@, preconditions: Seq::empty(), payload: payloads }
}

pub fn copy_payloads(v: &Vec<Vec<u8>>) -> (r: Vec<Vec<u8>>)
    ensures
        payload_seqs(r@) == payload_seqs(v@),
{
    let mut out: Vec<Vec<u8>> = Vec::new();
    let mut i: usize = 0;
    while i < v.len()
        invariant
            i <= v@.len(),
            out@.len() == i,
            forall|j: int| 0 <= j < i ==> (#[trigger] out@[j])@ == v@[j]@,
        decreases v@.len() - i,
    {
        out.push(copy_bytes(&v[i]));
        i = i + 1;
    }
    assert(payload_seqs(out@) =~= payload_seqs(v@));
    out
}

/// What the request of an append is hashed of: its payloads alone.
pub fn append_material(payloads: &Vec<Vec<u8>>) -> (r: Material)
    ensures
        r@ == append_material_view(payload_seqs(payloads@)),
{
    let m: Material = Material {
        kind: "append".to_owned(),
        preconditions: Vec::new(),
        payload: copy_payloads(payloads),
    };
    assert(m@.preconditions =~= Seq::empty());
    assert(m@.payload =~= payload_seqs(payloads@));
    m
}

/// What the request of a stable append is hashed of.
pub fn stable_material(key: &StableKey, payload: &Vec<u8>) -> (r: Material)
    ensures
        r@.kind == "append-stable"@,
        r@.preconditions == seq![(encode_utf8("stable-key"@), key@)],
        r@.payload == seq![payload@],
{
    let mut preconditions: Vec<(String, Vec<u8>)> = Vec::new();
    preconditions.push(("stable-key".to_owned(), copy_bytes(key.as_bytes())));
    let mut body: Vec<Vec<u8>> = Vec::new();
    body.push(copy_bytes(payload));
    let m: Material = Material { kind: "append-stable".to_owned(), preconditions, payload: body };
    assert(m@.preconditions =~= seq![(encode_utf8("stable-key"@), key@)]);
    assert(m@.payload =~= seq![payload@]);
    m
}

/// The publication of a stable append, with its receipt as the outcome.
pub fn prepared_stable(
    inner: PreparedMutation<AppendRange>,
    payload_hash: Digest,
    generation: u64,
) -> (r: PreparedMutation<StableAppendReceipt>)
    ensures
        r.next == inner.next,
        r.uploads == inner.uploads,
        r.commit_upload == inner.commit_upload,
        r.change == inner.change,
        r.outcome == (StableAppendReceipt { payload_hash, range: inner.outcome, generation }),
        r.result == inner.result,
        r.admitted == inner.admitted,
        r.companions == inner.companions,
{
    PreparedMutation {
        next: inner.next,
        uploads: inner.uploads,
        commit_upload: inner.commit_upload,
        change: inner.change,
        outcome: StableAppendReceipt { payload_hash, range: inner.outcome, generation },
        result: inner.result,
        admitted: inner.admitted,
        companions: inner.companions,
    }
}

/// A plan holds every event of every request, in order and without a gap, an
/// admission for each request and a companion for each but the first, each
/// with the range of its own request.
pub proof fn law_plan_places_every_request(
    p: EventPlan,
    items: Seq<GenericItem>,
    extra: Seq<Seq<u8>>,
    head: u64,
    now: Timestamp,
    i: int,
)
    requires
        places(p, items, extra, head, now),
        0 <= i < items.len(),
    ensures
        p.chunk@ == frames_from(head, now, events_of(items) + extra),
        p.chunk.schema@ == "comb.log.chunk/v1"@,
        p.range == range_of(head, items, 0),
        p.admitted@.len() == items.len(),
        p.admitted@[i].identity@ == items[i].identity.text(),
        p.admitted@[i].request == items[i].request,
        p.admitted@[i].first == range_of(head, items, i).first,
        p.admitted@[i].last == range_of(head, items, i).last,
        p.companions@.len() == items.len() - 1,
        i > 0 ==> p.companions@[i - 1].identity.text() == items[i].identity.text(),
        i > 0 ==> p.companions@[i - 1].result@ == object_string(
            range_fields(range_of(head, items, i)),
        ),
{
    assert(is_admission(p.admitted@[i], items, head, i));
    if i > 0 {
        assert(is_companion(p.companions@[i - 1], items, head, i - 1 + 1));
    }
}

} // verus!
