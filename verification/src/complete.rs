//! Appending one event under a stable key to a complete feed.
use vstd::prelude::*;

use crate::append::{stable_receipt, StableItem};
use crate::bytes::copy_bytes;
use crate::catalog::{
    append, append_failed, contents, covers, extended, law_seek_finds_the_chunk, misplaced, next_seq,
    ref_ok, root_child, spine, CatalogAppend, CatalogChunkRef, CatalogNode, CatalogNodeView,
    CatalogState, MAX_CATALOG_NODE_OBJECT_BYTES, Spine,
};
use crate::chain::{CommitRecord, CommitView};
use crate::digest::{digest_of, Digest};
use crate::envelope::{ObjectKind, MAX_MANIFEST_OBJECT_BYTES};
use crate::error::{integrity, rejected, CoreError, ErrorView, Result};
use crate::feed::{
    bind_published_target, bound, chunk_fits, manifest_fault, manifest_fits, page_from, page_view,
    taken, unbound, validate_complete_manifest, COMPLETE_MANIFEST_SCHEMA, ChunkView,
    CompleteLogManifest, CompleteManifestSchemaV3, CompleteView, FeedChunk, FoundManifest,
    MAX_CHUNK_OBJECT_BYTES, MAX_CHUNK_PLAINTEXT_BYTES, MAX_CHUNK_RAW_BYTES, PageView, PublishedFeed,
    Taken,
};
use crate::hamt::{
    admissions_fault, admissions_size, grafted, index_lookup, insert, insert_failed, obstacle,
    receipt_ok, HamtNode, IndexHead, Insertion, LogScope, LookupView, MAX_NODE_BYTES,
    MAX_STABLE_ADMISSION_BYTES, NodeView, Obstacle, ROOT_SCHEMA, StableIndexEntry, StableIndexRoot,
};
use crate::group::{law_stable_append_is_idempotent, stable_answer, StableAnswer};
use crate::json::{object_json, object_string, scalars_view, JsonView, Scalar};
use crate::log::{
    entries_view, frames_view, is_header, log_next, range_fields, range_json, record_state,
    recorded_state, AppendRange, Frame, FrameView, RetentionMode, StableAppendReceipt, CHUNK_SCHEMA,
};
use crate::plans::{is_held, PrepareCtx, PreparedMutation, Upload};
use crate::refs::RefValue;
use crate::session::owns;
use crate::store::{heavy_meta, oversized_meta, stored_as, Failure, Store};
use crate::table::{addressed, extends, stored, uploads_view, FetchedView, Step, Table};
use crate::text::same_text;
use crate::time::Timestamp;

verus! {

/// Appends one event through a session that holds the lease.
#[derive(Debug)]
pub struct CompleteAppendPlan {
    pub resource: String,
    pub instance: String,
    pub epoch: u64,
    pub item: StableItem,
}

/// What an append starts from: the catalog, the index and the head of the
/// feed, which are empty before the first publication.
#[derive(Debug)]
pub struct FeedState {
    pub catalog: CatalogState,
    pub index: StableIndexRoot,
    pub head_seq: u64,
}

/// What an append finds at the ref of its feed, by view.
pub enum BaseView {
    Nothing,
    FetchCommit(Digest),
    FetchManifest(Digest),
    Fail(ErrorView),
    Unreadable(Seq<char>),
    Manifest(CompleteView),
}

/// What an append finds at the ref of the feed `resource`, given the commit
/// that the ref names and the manifest that the commit bears out, as far as
/// they are known.
pub open spec fn base_view(
    resource: Seq<char>,
    value: RefValue,
    view: Option<CommitRecord>,
    found: Option<FoundManifest>,
) -> BaseView {
    if value.generation == 0 && value.head_commit is None && value.target is None {
        BaseView::Nothing
    } else {
        match value.head_commit {
            None => BaseView::Fail(
                ErrorView::IntegrityError("missing head_commit with published generation"@),
            ),
            Some(commit) => match view {
                None => BaseView::FetchCommit(commit),
                Some(v) => if !bound(resource, value, v) {
                    BaseView::Fail(ErrorView::IntegrityError(unbound(resource, value, v)))
                } else {
                    match value.target {
                        None => BaseView::Nothing,
                        Some(target) => match found {
                            None => BaseView::FetchManifest(target),
                            Some(f) => match f.manifest {
                                Err(detail) => BaseView::Unreadable(detail@),
                                Ok(m) => if manifest_fits(m@, resource) {
                                    BaseView::Manifest(m@)
                                } else {
                                    BaseView::Fail(manifest_fault(m@, resource))
                                },
                            },
                        },
                    }
                },
            },
        }
    }
}

/// What an append will publish, before anything is written.
#[derive(Debug)]
pub struct CompletePlan {
    pub seq: u64,
    pub catalog: CatalogState,
    pub catalog_nodes: Vec<(Digest, CatalogNode)>,
    pub index: StableIndexRoot,
    pub index_nodes: Vec<(Digest, HamtNode)>,
    pub entry: StableIndexEntry,
}

/// A plan, or the node that it needs first.
#[derive(Debug)]
pub enum CompleteStep {
    Done(CompletePlan),
    FetchCatalog(Digest),
    FetchIndex(Digest),
}

/// Whether some stored form of a payload has a property of its length.
pub open spec fn sealed_over(
    store: Store,
    schema: Seq<char>,
    payload: Seq<u8>,
    limit: u64,
    actual: Option<u64>,
) -> bool {
    exists|d: Digest, b: Seq<u8>| #[trigger]
        stored_as(d, b, ObjectKind::Blob, schema, payload, store.tenant@, store.key) && b.len()
            > limit && actual == Some(b.len() as u64)
}

/// Whether a payload can be stored within `limit` bytes.
pub open spec fn sealed_within(store: Store, schema: Seq<char>, payload: Seq<u8>, limit: u64) -> bool {
    exists|d: Digest, b: Seq<u8>| #[trigger]
        stored_as(d, b, ObjectKind::Blob, schema, payload, store.tenant@, store.key) && b.len()
            <= limit
}

/// Whether `e` says that a payload is too large once it is stored.
pub open spec fn is_oversized(
    e: CoreError,
    store: Store,
    schema: Seq<char>,
    payload: Seq<u8>,
    limit: u64,
) -> bool {
    ||| e@ == heavy_meta() && oversized_meta(
        ObjectKind::Blob,
        schema,
        payload,
        store.tenant@,
        store.key,
    )
    ||| e matches CoreError::ObjectTooLarge { key, limit: l, actual } && key@ == ""@ && l
        == limit && sealed_over(store, schema, payload, limit, actual)
}

/// Whether a payload can be stored within `limit` bytes.
fn check_sealed(store: &Store, schema: &str, payload: &Vec<u8>, limit: u64) -> (r: Result<()>)
    ensures
        match r {
            Ok(_) => sealed_within(*store, schema@, payload@, limit),
            Err(e) => is_oversized(e, *store, schema@, payload@, limit),
        },
{
    match store.seal(ObjectKind::Blob, schema, copy_bytes(payload)) {
        Err(e) => Err(e),
        Ok((d, bytes)) => {
            assert(stored_as(
                d,
                bytes@,
                ObjectKind::Blob,
                schema@,
                payload@,
                store.tenant@,
                store.key,
            ));
            if bytes.len() as u64 > limit {
                return Err(
                    CoreError::ObjectTooLarge {
                        key: "".to_owned(),
                        limit,
                        actual: Some(bytes.len() as u64),
                    },
                );
            }
            Ok(())
        },
    }
}

/// The chunk that the event becomes, written as `bytes`.
pub open spec fn event_chunk(store: Store, seq: u64, payload: Seq<u8>, bytes: Seq<u8>) -> CatalogChunkRef {
    CatalogChunkRef {
        digest: digest_of(store.key, bytes),
        first_seq: seq,
        last_seq: seq,
        event_count: 1,
        raw_payload_bytes: payload.len() as u64,
        plaintext_bytes: bytes.len() as u64,
    }
}

impl CompleteAppendPlan {
    /// Whether the session still holds the lease, and the event fits a chunk.
    pub fn check(&self, current: &RefValue, now: Timestamp) -> (r: Result<()>)
        ensures
            match current.lease {
                None => r matches Err(e) && e@ == ErrorView::Rejected(
                    "complete-feed append requires a live lease"@,
                ),
                Some(l) => if !owns(*current, self.instance@, self.epoch, now) {
                    r matches Err(e) && is_held(e, l)
                } else if self.item.payload@.len() > MAX_CHUNK_RAW_BYTES {
                    r matches Err(e) && e@ == ErrorView::Rejected("event exceeds chunk raw cap"@)
                } else {
                    r is Ok
                },
            },
    {
        match &current.lease {
            None => Err(rejected("complete-feed append requires a live lease")),
            Some(l) => {
                if !same_text(&l.writer, &self.instance) || current.epoch != self.epoch
                    || !l.lease_until.after(&now) {
                    return Err(
                        CoreError::LeaseHeld {
                            holder: l.writer.clone(),
                            until: l.lease_until.to_rfc3339(),
                        },
                    );
                }
                if self.item.payload.len() as u64 > MAX_CHUNK_RAW_BYTES {
                    return Err(rejected("event exceeds chunk raw cap"));
                }
                Ok(())
            },
        }
    }

    /// What is published at the ref of the feed, or what has to be fetched
    /// to tell.
    pub fn base<'a>(
        &self,
        value: &RefValue,
        view: Option<&CommitView>,
        found: Option<&'a FoundManifest>,
    ) -> (r: core::result::Result<PublishedFeed<'a>, Failure>)
        ensures
            match base_view(
                self.resource@,
                *value,
                match view {
                    Some(v) => Some(v@),
                    None => None,
                },
                match found {
                    Some(f) => Some(*f),
                    None => None,
                },
            ) {
                BaseView::Nothing => r matches Ok(PublishedFeed::Nothing),
                BaseView::FetchCommit(d) => r matches Ok(PublishedFeed::FetchCommit(x)) && x == d,
                BaseView::FetchManifest(d) => r matches Ok(PublishedFeed::FetchManifest(x)) && x
                    == d,
                BaseView::Fail(c) => r matches Err(Failure::Core(e)) && e@ == c,
                BaseView::Unreadable(t) => r matches Err(Failure::Unreadable { detail }) && detail@
                    == t,
                BaseView::Manifest(m) => r matches Ok(PublishedFeed::Manifest(x)) && x@ == m,
            },
    {
        if value.generation == 0 && value.head_commit.is_none() && value.target.is_none() {
            return Ok(PublishedFeed::Nothing);
        }
        let commit: Digest = match value.head_commit {
            None => {
                return Err(
                    Failure::Core(integrity("missing head_commit with published generation")),
                );
            },
            Some(d) => d,
        };
        let view: &CommitView = match view {
            None => {
                return Ok(PublishedFeed::FetchCommit(commit));
            },
            Some(v) => v,
        };
        let target: Digest = match bind_published_target(&self.resource, value, view) {
            Err(e) => {
                return Err(Failure::Core(e));
            },
            Ok(None) => {
                return Ok(PublishedFeed::Nothing);
            },
            Ok(Some(d)) => d,
        };
        let found: &'a FoundManifest = match found {
            None => {
                return Ok(PublishedFeed::FetchManifest(target));
            },
            Some(f) => f,
        };
        match &found.manifest {
            Err(detail) => Err(Failure::Unreadable { detail: detail.clone() }),
            Ok(m) => match validate_complete_manifest(&self.resource, m) {
                Err(e) => Err(Failure::Core(e)),
                Ok(_) => Ok(PublishedFeed::Manifest(m)),
            },
        }
    }

    /// The chunk of the one event behind `head_seq`.
    pub fn chunk(&self, head_seq: u64, now: Timestamp) -> (r: Result<FeedChunk>)
        ensures
            if head_seq == u64::MAX {
                r matches Err(e) && e@ == ErrorView::IntegrityError("sequence overflow"@)
            } else {
                r matches Ok(c) && c.schema@ == CHUNK_SCHEMA@ && frames_view(c.frames@) == seq![
                    FrameView {
                        seq: (head_seq + 1) as u64,
                        at: now,
                        payload: self.item.payload@,
                    },
                ]
            },
    {
        if head_seq == u64::MAX {
            return Err(integrity("sequence overflow"));
        }
        let mut frames: Vec<Frame> = Vec::new();
        frames.push(
            Frame { seq: head_seq + 1, at: now, payload: copy_bytes(&self.item.payload) },
        );
        assert(frames_view(frames@) =~= seq![
            FrameView { seq: (head_seq + 1) as u64, at: now, payload: self.item.payload@ },
        ]);
        Ok(FeedChunk { schema: CHUNK_SCHEMA.to_owned(), frames })
    }

    /// Puts the chunk, written as `bytes`, behind the catalog, and the key
    /// into the index.
    pub fn plan<C: Fn(&CatalogNode) -> Result<Digest>, H: Fn(&HamtNode) -> Result<Digest>>(
        &self,
        store: &Store,
        generation: u64,
        state: &FeedState,
        bytes: &Vec<u8>,
        nodes: &Table<CatalogNode>,
        catalog_address: &C,
        scope: &LogScope,
        entries: &Table<HamtNode>,
        index_address: &H,
    ) -> (r: Result<CompleteStep>)
        requires
            state.head_seq < u64::MAX,
            generation > 0,
            forall|n: &CatalogNode| call_requires(*catalog_address, (n,)),
            forall|n: &HamtNode| call_requires(*index_address, (n,)),
        ensures
            ({
                let seq = (state.head_seq + 1) as u64;
                let chunk = event_chunk(*store, seq, self.item.payload@, bytes@);
                let at = IndexHead { generation, head_seq: seq };
                let receipt = stable_receipt(self.item, state.head_seq, generation);
                let edge = match state.catalog {
                    CatalogState::Empty => Spine::Known,
                    CatalogState::Root { root } => spine(nodes@, root.digest, root.height as nat),
                };
                if bytes@.len() > MAX_CHUNK_PLAINTEXT_BYTES {
                    r matches Err(e) && e@ == (ErrorView::ObjectTooLarge {
                        key: ""@,
                        limit: MAX_CHUNK_PLAINTEXT_BYTES,
                        actual: Some(bytes@.len() as u64),
                    })
                } else {
                    match r {
                        Ok(CompleteStep::Done(p)) => {
                            &&& p.seq == seq
                            &&& p.entry@ == receipt
                            &&& sealed_within(*store, CHUNK_SCHEMA@, bytes@, MAX_CHUNK_OBJECT_BYTES)
                            &&& seq == next_seq(state.catalog)
                            &&& addressed(*catalog_address, p.catalog_nodes@)
                            &&& extended(
                                nodes@,
                                uploads_view(p.catalog_nodes@),
                                state.catalog,
                                p.catalog,
                                chunk,
                            )
                            &&& p.catalog matches CatalogState::Root { root } && root.last_seq
                                == seq
                            &&& addressed(*index_address, p.index_nodes@)
                            &&& p.index.schema@ == ROOT_SCHEMA@
                            &&& p.index.entries == state.index.entries + 1
                            &&& obstacle(entries@, *scope, at, state.index.digest, 0, self.item.key@)
                                is Clear
                            &&& grafted(
                                entries@,
                                uploads_view(p.index_nodes@),
                                *scope,
                                at,
                                state.index.digest,
                                p.index.digest,
                                0,
                                receipt,
                            )
                        },
                        Ok(CompleteStep::FetchCatalog(d)) => seq == next_seq(state.catalog) && edge
                            == Spine::Fetch(d),
                        Ok(CompleteStep::FetchIndex(d)) => seq == next_seq(state.catalog) && edge
                            == Spine::Known && obstacle(
                            entries@,
                            *scope,
                            at,
                            state.index.digest,
                            0,
                            self.item.key@,
                        ) == Obstacle::Fetch(d),
                        Err(e) => {
                            ||| is_oversized(
                                e,
                                *store,
                                CHUNK_SCHEMA@,
                                bytes@,
                                MAX_CHUNK_OBJECT_BYTES,
                            )
                            ||| if seq != next_seq(state.catalog) {
                                e@ == ErrorView::IntegrityError(misplaced(state.catalog, seq))
                            } else {
                                match edge {
                                    Spine::Fetch(_) => false,
                                    Spine::Fail(c) => e@ == c,
                                    Spine::Known => append_failed(
                                        *catalog_address,
                                        nodes@,
                                        state.catalog,
                                        chunk,
                                        e,
                                    ) || if state.index.schema@ != ROOT_SCHEMA@ {
                                        e@ == ErrorView::IntegrityError(
                                            "unsupported stable index root schema "@
                                                + state.index.schema@,
                                        )
                                    } else {
                                        match obstacle(
                                            entries@,
                                            *scope,
                                            at,
                                            state.index.digest,
                                            0,
                                            self.item.key@,
                                        ) {
                                            Obstacle::Fetch(_) => false,
                                            Obstacle::Fail(c) => e@ == c,
                                            Obstacle::Clear => insert_failed(
                                                *index_address,
                                                entries@,
                                                *scope,
                                                at,
                                                state.index,
                                                receipt,
                                                e,
                                            ),
                                        }
                                    },
                                }
                            }
                        },
                    }
                }
            }),
    {
        if bytes.len() as u64 > MAX_CHUNK_PLAINTEXT_BYTES {
            return Err(
                CoreError::ObjectTooLarge {
                    key: "".to_owned(),
                    limit: MAX_CHUNK_PLAINTEXT_BYTES,
                    actual: Some(bytes.len() as u64),
                },
            );
        }
        match check_sealed(store, CHUNK_SCHEMA, bytes, MAX_CHUNK_OBJECT_BYTES) {
            Err(e) => {
                return Err(e);
            },
            Ok(_) => {},
        }
        let seq: u64 = state.head_seq + 1;
        let chunk: CatalogChunkRef = CatalogChunkRef {
            digest: store.key.digest(bytes),
            first_seq: seq,
            last_seq: seq,
            event_count: 1,
            raw_payload_bytes: self.item.payload.len() as u64,
            plaintext_bytes: bytes.len() as u64,
        };
        assert(ref_ok(chunk));
        let grown: CatalogAppend = match append(catalog_address, nodes, &state.catalog, chunk) {
            Err(e) => {
                return Err(e);
            },
            Ok(Step::Fetch(d)) => {
                return Ok(CompleteStep::FetchCatalog(d));
            },
            Ok(Step::Done(a)) => a,
        };
        let entry: StableIndexEntry = StableIndexEntry {
            key: self.item.key.clone(),
            payload_hash: self.item.payload_hash,
            first: seq,
            last: seq,
            generation,
        };
        let at: IndexHead = IndexHead { generation, head_seq: seq };
        assert(entry@ == stable_receipt(self.item, state.head_seq, generation));
        assert(receipt_ok(entry@, at));
        let ins: Insertion = match insert(index_address, entries, scope, &state.index, &entry, at) {
            Err(e) => {
                return Err(e);
            },
            Ok(Step::Fetch(d)) => {
                return Ok(CompleteStep::FetchIndex(d));
            },
            Ok(Step::Done(i)) => i,
        };
        Ok(
            CompleteStep::Done(
                CompletePlan {
                    seq,
                    catalog: grown.state,
                    catalog_nodes: grown.uploads,
                    index: ins.root,
                    index_nodes: ins.uploads,
                    entry,
                },
            ),
        )
    }

    /// The manifest of the append, whose one stable admission encodes to
    /// `encoded` bytes.
    pub fn manifest(&self, ctx: &PrepareCtx<'_>, plan: &CompletePlan, encoded: usize) -> (r: Result<
        CompleteLogManifest,
    >)
        ensures
            if encoded > MAX_STABLE_ADMISSION_BYTES {
                r matches Err(e) && e@ == admissions_fault(1, encoded as nat)
            } else {
                r matches Ok(m) && is_header(m.header, *ctx, ctx.snapshot.value.epoch) && m@ == (
                CompleteView {
                    header: m.header,
                    log: ctx.snapshot.value.name@,
                    epoch: ctx.snapshot.value.epoch,
                    head_seq: plan.seq,
                    retention: RetentionMode::Complete,
                    trim_before_seq: 0,
                    catalog: plan.catalog,
                    stable_index: plan.index,
                    admitted: Seq::empty(),
                    stable_admissions: seq![plan.entry@],
                    result: Some(
                        object_string(range_fields(AppendRange { first: plan.seq, last: plan.seq })),
                    ),
                    ref_state: Some(
                        recorded_state(log_next(ctx.snapshot.value, ctx.generation, ctx.now)),
                    ),
                })
            },
    {
        match admissions_size(1, encoded) {
            Err(e) => {
                return Err(e);
            },
            Ok(_) => {},
        }
        let next: RefValue = self.next_ref(ctx);
        let mut stable_admissions: Vec<StableIndexEntry> = Vec::new();
        stable_admissions.push(plan.entry.clone());
        let m: CompleteLogManifest = CompleteLogManifest {
            schema: CompleteManifestSchemaV3::V3,
            header: ctx.header(ctx.snapshot.value.epoch),
            log: ctx.snapshot.value.name.clone(),
            epoch: ctx.snapshot.value.epoch,
            head_seq: plan.seq,
            retention: RetentionMode::Complete,
            trim_before_seq: 0,
            catalog: plan.catalog,
            stable_index: plan.index.clone(),
            admitted: Vec::new(),
            stable_admissions,
            result: Some(range_json(AppendRange { first: plan.seq, last: plan.seq })),
            ref_state: Some(record_state(&next)),
        };
        proof {
            assert(m.admitted@ =~= Seq::empty());
            assert(entries_view(m.stable_admissions@) =~= seq![plan.entry@]);
        }
        Ok(m)
    }

    fn next_ref(&self, ctx: &PrepareCtx<'_>) -> (r: RefValue)
        ensures
            r == log_next(ctx.snapshot.value, ctx.generation, ctx.now),
    {
        let mut next: RefValue = ctx.snapshot.value.clone();
        next.generation = ctx.generation;
        next.updated_at = ctx.now;
        next
    }

    /// The change that the append makes.
    pub open spec fn change(seq: u64) -> Seq<(Seq<char>, JsonView)> {
        seq![
            ("kind"@, JsonView::Text("append-stable"@)),
            ("first"@, JsonView::Number(seq)),
            ("last"@, JsonView::Number(seq)),
        ]
    }

    /// The publication of the append, whose chunk and manifest were written
    /// as `chunk` and `manifest`.
    pub fn prepared(
        &self,
        store: &Store,
        ctx: &PrepareCtx<'_>,
        plan: &CompletePlan,
        chunk: Vec<u8>,
        manifest: Vec<u8>,
    ) -> (r: Result<PreparedMutation<StableAppendReceipt>>)
        ensures
            match r {
                Ok(p) => {
                    &&& sealed_within(
                        *store,
                        COMPLETE_MANIFEST_SCHEMA@,
                        manifest@,
                        MAX_MANIFEST_OBJECT_BYTES,
                    )
                    &&& p.next == log_next(ctx.snapshot.value, ctx.generation, ctx.now)
                    &&& p.uploads@.map_values(|u: Upload| (u.kind, u.schema@, u.payload@)) == seq![
                        (ObjectKind::Blob, CHUNK_SCHEMA@, chunk@),
                        (ObjectKind::Blob, COMPLETE_MANIFEST_SCHEMA@, manifest@),
                    ]
                    &&& p.commit_upload == Some(1usize)
                    &&& p.change@ == object_string(Self::change(plan.seq))
                    &&& p.outcome == (StableAppendReceipt {
                        payload_hash: self.item.payload_hash,
                        range: AppendRange { first: plan.seq, last: plan.seq },
                        generation: ctx.generation,
                    })
                    &&& p.result@ == object_string(range_fields(p.outcome.range))
                    &&& p.admitted@.len() == 0
                    &&& p.companions@.len() == 0
                },
                Err(e) => is_oversized(
                    e,
                    *store,
                    COMPLETE_MANIFEST_SCHEMA@,
                    manifest@,
                    MAX_MANIFEST_OBJECT_BYTES,
                ),
            },
    {
        match check_sealed(
            store,
            COMPLETE_MANIFEST_SCHEMA,
            &manifest,
            MAX_MANIFEST_OBJECT_BYTES,
        ) {
            Err(e) => {
                return Err(e);
            },
            Ok(_) => {},
        }
        let range: AppendRange = AppendRange { first: plan.seq, last: plan.seq };
        let ghost want = seq![
            (ObjectKind::Blob, CHUNK_SCHEMA@, chunk@),
            (ObjectKind::Blob, COMPLETE_MANIFEST_SCHEMA@, manifest@),
        ];
        let mut uploads: Vec<Upload> = Vec::new();
        uploads.push(
            Upload { kind: ObjectKind::Blob, schema: CHUNK_SCHEMA.to_owned(), payload: chunk },
        );
        uploads.push(
            Upload {
                kind: ObjectKind::Blob,
                schema: COMPLETE_MANIFEST_SCHEMA.to_owned(),
                payload: manifest,
            },
        );
        assert(uploads@.map_values(|u: Upload| (u.kind, u.schema@, u.payload@)) =~= want);
        let mut fields: Vec<(String, Scalar)> = Vec::new();
        fields.push(("kind".to_owned(), Scalar::Text("append-stable".to_owned())));
        fields.push(("first".to_owned(), Scalar::Number(plan.seq)));
        fields.push(("last".to_owned(), Scalar::Number(plan.seq)));
        proof {
            reveal_strlit("kind");
            reveal_strlit("first");
            reveal_strlit("last");
            assert("kind"@[0] == 'k' && "first"@[0] == 'f' && "last"@[0] == 'l');
            assert(scalars_view(fields@) =~= Self::change(plan.seq));
        }
        Ok(
            PreparedMutation {
                next: self.next_ref(ctx),
                uploads,
                commit_upload: Some(1),
                change: object_json(fields),
                outcome: StableAppendReceipt {
                    payload_hash: self.item.payload_hash,
                    range,
                    generation: ctx.generation,
                },
                result: range_json(range),
                admitted: Vec::new(),
                companions: Vec::new(),
            },
        )
    }
}

/// What an append starts from, given the manifest that the ref is bound to.
pub fn feed_state(manifest: Option<&CompleteLogManifest>, empty: &StableIndexRoot) -> (r: FeedState)
    ensures
        match manifest {
            None => r.catalog == CatalogState::Empty && r.index == *empty && r.head_seq == 0,
            Some(m) => r.catalog == m.catalog && r.index == m.stable_index && r.head_seq
                == m.head_seq,
        },
{
    match manifest {
        None => FeedState { catalog: CatalogState::Empty, index: empty.clone(), head_seq: 0 },
        Some(m) => FeedState {
            catalog: m.catalog,
            index: m.stable_index.clone(),
            head_seq: m.head_seq,
        },
    }
}

/// The manifest of an append is sound if the one before it was: the catalog
/// reaches exactly to the new event, and the index has one entry more.
pub proof fn law_append_keeps_the_manifest_sound(
    was: CompleteView,
    now: CompleteView,
    resource: Seq<char>,
    nodes: Map<Digest, FetchedView<CatalogNodeView>>,
    later: Map<Digest, FetchedView<CatalogNodeView>>,
    ups: Seq<(Digest, CatalogNodeView)>,
    chunk: CatalogChunkRef,
)
    requires
        manifest_fits(was, resource),
        was.trim_before_seq == 0,
        was.head_seq < u64::MAX,
        contents(nodes, was.catalog) is Some,
        extended(nodes, ups, was.catalog, now.catalog, chunk),
        extends(later, nodes),
        stored(later, ups, MAX_CATALOG_NODE_OBJECT_BYTES as nat),
        now.catalog is Root,
        chunk.first_seq == was.head_seq + 1,
        chunk.last_seq == was.head_seq + 1,
        now.header.resource@ == resource,
        now.log == resource,
        now.retention == RetentionMode::Complete,
        now.header.epoch == now.epoch,
        now.trim_before_seq == 0,
        now.head_seq == was.head_seq + 1,
        now.header.generation > 0,
        now.stable_index.schema@ == ROOT_SCHEMA@,
        now.stable_index.entries == was.stable_index.entries + 1,
    ensures
        manifest_fits(now, resource),
        contents(later, now.catalog) == Some(contents(nodes, was.catalog)->0.push(chunk)),
{
    assert(extends(nodes, nodes));
    let refs = contents(nodes, was.catalog)->0;
    let all = refs.push(chunk);
    assert(contents(later, now.catalog) == Some(all));
    let root = now.catalog->root;
    assert(covers(root_child(root), all));
    match was.catalog {
        CatalogState::Empty => {
            assert(all[0] == chunk);
        },
        CatalogState::Root { root: before } => {
            assert(covers(root_child(before), refs));
            assert(all[0] == refs[0]);
        },
    }
}

/// What was appended is read back: a page at the sequence of the new event
/// holds that event, with its bytes, and nothing else, and leads on to the
/// sequence after it. The chunk and the nodes of the append have to be
/// stored, and the page has to have room for the event.
pub proof fn law_appended_event_is_read_back(
    was: CatalogState,
    now: CompleteView,
    nodes: Map<Digest, FetchedView<CatalogNodeView>>,
    later: Map<Digest, FetchedView<CatalogNodeView>>,
    ups: Seq<(Digest, CatalogNodeView)>,
    chunk: CatalogChunkRef,
    chunks: Map<Digest, FetchedView<ChunkView>>,
    len: nat,
    body: ChunkView,
    max_events: u32,
    max_raw: u64,
)
    requires
        contents(nodes, was) is Some,
        extended(nodes, ups, was, now.catalog, chunk),
        extends(later, nodes),
        stored(later, ups, MAX_CATALOG_NODE_OBJECT_BYTES as nat),
        now.catalog is Root,
        chunk.first_seq == chunk.last_seq,
        now.head_seq == chunk.last_seq,
        now.head_seq < u64::MAX,
        now.trim_before_seq == 0,
        chunks.contains_key(chunk.digest),
        chunks[chunk.digest] == (FetchedView::Object { len, object: body }),
        chunk_fits(chunk, now.head_seq, len, body),
        max_events > 0,
        body.frames[0].payload.len() <= max_raw,
    ensures
        page_view(Some(now), chunk.first_seq, later, chunks, max_events, max_raw) == (
        PageView::Page { frames: body.frames, next: (now.head_seq + 1) as u64 }),
        body.frames.len() == 1,
{
    let refs = contents(nodes, was)->0;
    let all = refs.push(chunk);
    assert(extends(nodes, nodes));
    assert(contents(later, now.catalog) == Some(all));
    let root = now.catalog->root;
    let k = refs.len() as int;
    assert(all[k] == chunk);
    assert(now.catalog == CatalogState::Root { root });
    law_seek_finds_the_chunk(later, root, k, chunk.first_seq);
    let seq = chunk.first_seq;
    assert(chunk.event_count == 1 && body.frames.len() == 1);
    assert(body.frames[0].seq == seq + 0);
    assert(seq >= 1) by {
        crate::catalog::law_catalog_is_contiguous(later, root.digest, root.height as nat);
        assert(ref_ok(all[k]));
    }
    let none = Seq::<FrameView>::empty();
    let one = none.push(body.frames[0]);
    assert(one =~= body.frames);
    reveal_with_fuel(taken, 3);
    assert(taken(body.frames, 0, none, max_events, max_raw) == Taken::More(one));
    assert(one.last().seq == seq);
    reveal_with_fuel(page_from, 3);
    assert(page_from(
        later,
        chunks,
        now.catalog,
        now.head_seq,
        (seq + 1) as u64,
        one,
        max_events,
        max_raw,
    ) == (PageView::Page { frames: one, next: (seq + 1) as u64 }));
}

/// Retrying an append with the same bytes gives the receipt of the first,
/// and other bytes under the key conflict, at the publication that appended
/// the event and at every later one that keeps its index.
pub proof fn law_retry_gives_the_first_receipt(
    entries: Map<Digest, FetchedView<NodeView>>,
    ups: Seq<(Digest, NodeView)>,
    later: Map<Digest, FetchedView<NodeView>>,
    scope: LogScope,
    at: IndexHead,
    head: IndexHead,
    was: StableIndexRoot,
    now: StableIndexRoot,
    item: StableItem,
    retry: Digest,
)
    requires
        at.head_seq > 0,
        at.generation <= head.generation,
        at.head_seq <= head.head_seq,
        grafted(
            entries,
            ups,
            scope,
            at,
            was.digest,
            now.digest,
            0,
            stable_receipt(item, (at.head_seq - 1) as u64, at.generation),
        ),
        extends(later, entries),
        stored(later, ups, MAX_NODE_BYTES as nat),
        now.schema@ == ROOT_SCHEMA@,
        now.entries == was.entries + 1,
    ensures
        index_lookup(later, scope, head, now, item.key@) matches LookupView::Found(e)
            && stable_answer(Some(e), retry) == if retry == item.payload_hash {
            StableAnswer::Receipt(
                StableAppendReceipt {
                    payload_hash: item.payload_hash,
                    range: AppendRange { first: at.head_seq, last: at.head_seq },
                    generation: at.generation,
                },
            )
        } else {
            StableAnswer::Conflict { existing: item.payload_hash, supplied: retry }
        },
{
    law_stable_append_is_idempotent(
        entries,
        ups,
        later,
        scope,
        at,
        head,
        was,
        now,
        item,
        (at.head_seq - 1) as u64,
        retry,
    );
}

/// The chunk of an event holds that event alone, under the next sequence, and
/// fits the entry that the catalog gets of it.
pub proof fn law_event_fits_its_chunk(
    store: Store,
    head: u64,
    payload: Seq<u8>,
    bytes: Seq<u8>,
    at: Timestamp,
)
    requires
        head < u64::MAX - 1,
        payload.len() <= u64::MAX,
        bytes.len() <= u64::MAX,
    ensures
        ({
            let seq = (head + 1) as u64;
            let c = event_chunk(store, seq, payload, bytes);
            let body = ChunkView {
                schema: "comb.log.chunk/v1"@,
                frames: seq![FrameView { seq, at, payload }],
            };
            &&& c.digest == digest_of(store.key, bytes)
            &&& c.first_seq == head + 1 && c.last_seq == head + 1 && c.event_count == 1
            &&& c.raw_payload_bytes == payload.len() && c.plaintext_bytes == bytes.len()
            &&& chunk_fits(c, seq, bytes.len(), body)
            &&& ref_ok(c)
        }),
{
    let seq = (head + 1) as u64;
    let frames = seq![FrameView { seq, at, payload }];
    reveal_with_fuel(crate::feed::raw_bytes, 2);
    assert(frames.drop_last() =~= Seq::empty());
}

/// An append builds on what is published: on nothing where nothing is, and on
/// the manifest that the ref points at where the commit and the manifest are
/// sound.
pub proof fn law_append_builds_on_what_is_published(
    resource: Seq<char>,
    value: RefValue,
    v: CommitRecord,
    f: FoundManifest,
)
    ensures
        value.generation == 0 && value.head_commit is None && value.target is None ==> base_view(
            resource,
            value,
            None,
            None,
        ) is Nothing,
        value.head_commit is Some ==> {
            &&& base_view(resource, value, None, None) == BaseView::FetchCommit(
                value.head_commit->0,
            )
            &&& !bound(resource, value, v) ==> base_view(resource, value, Some(v), Some(f)) is Fail
            &&& bound(resource, value, v) && value.target is None ==> base_view(
                resource,
                value,
                Some(v),
                Some(f),
            ) is Nothing
            &&& bound(resource, value, v) && value.target is Some ==> base_view(
                resource,
                value,
                Some(v),
                None,
            ) == BaseView::FetchManifest(value.target->0) && ((f.manifest matches Ok(m)
                && manifest_fits(m@, resource)) ==> base_view(resource, value, Some(v), Some(f))
                == BaseView::Manifest(f.manifest->Ok_0@))
        },
        value.head_commit is None && (value.generation > 0 || value.target is Some) ==> base_view(
            resource,
            value,
            Some(v),
            Some(f),
        ) is Fail,
        base_view(resource, value, Some(v), Some(f)) matches BaseView::Manifest(m) ==> bound(
            resource,
            value,
            v,
        ) && manifest_fits(m, resource),
{
}

/// What is refused as too large has a sealed form over the limit, or metadata
/// that no envelope takes; what is taken has a sealed form up to it.
pub proof fn law_sealed_form_keeps_to_its_limit(
    e: CoreError,
    store: Store,
    schema: Seq<char>,
    payload: Seq<u8>,
    limit: u64,
)
    ensures
        is_oversized(e, store, schema, payload, limit) && e is ObjectTooLarge ==> exists|
            d: Digest,
            b: Seq<u8>,
        | #[trigger]
            stored_as(d, b, ObjectKind::Blob, schema, payload, store.tenant@, store.key) && limit
                < b.len(),
        sealed_within(store, schema, payload, limit) <==> exists|d: Digest, b: Seq<u8>| #[trigger]
            stored_as(d, b, ObjectKind::Blob, schema, payload, store.tenant@, store.key)
                && b.len() < limit + 1,
{
    if is_oversized(e, store, schema, payload, limit) && e is ObjectTooLarge {
        let actual = e->ObjectTooLarge_actual;
        if sealed_over(store, schema, payload, limit, actual) {
            let (d, b) = choose|d: Digest, b: Seq<u8>| #[trigger]
                stored_as(d, b, ObjectKind::Blob, schema, payload, store.tenant@, store.key)
                    && b.len() > limit && actual == Some(b.len() as u64);
            assert(stored_as(d, b, ObjectKind::Blob, schema, payload, store.tenant@, store.key));
        }
    }
    if sealed_within(store, schema, payload, limit) {
        let (d, b) = choose|d: Digest, b: Seq<u8>| #[trigger]
            stored_as(d, b, ObjectKind::Blob, schema, payload, store.tenant@, store.key) && b.len()
                <= limit;
        assert(b.len() < limit + 1);
    }
}

} // verus!
