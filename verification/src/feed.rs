//! Complete feeds: the manifest, its binding to a published ref, and bounded
//! pages of events.
use vstd::prelude::*;

use crate::catalog::{
    chunk_at, chunk_covering, contents, lemma_seek_agrees, seek, seek_leaf, CatalogChunkRef,
    CatalogNode, CatalogNodeView, CatalogState, ChunkCatalogRoot, SeekView,
};
use crate::chain::{CommitRecord, CommitView};
use crate::commit::{Admission, CommitHeader};
use crate::digest::Digest;
use crate::error::{integrity, CoreError, ErrorView, Result};
use crate::hamt::{
    check_root_against_head, root_fault, root_fits, EntryView, IndexHead, StableIndexEntry,
    StableIndexRoot,
};
use crate::json::{
    fault_message, fault_text, field, get_field, json_of, lemma_object_view, parse, Json, JsonView,
};
use crate::log::{
    entries_view, frames_view, Frame, FrameView, RetentionMode, CHUNK_SCHEMA, MANIFEST_SCHEMA,
};
use crate::refs::RefValue;
use crate::table::{Fetched, FetchedView, Step, Table};
use crate::text::{decimal, decimal_text, join2, join4, same_text};
use crate::time::{Span, Timestamp};

verus! {

pub const MAX_PAGE_EVENTS: u32 = 1_024;

pub const MAX_PAGE_RAW_BYTES: u64 = 524_288;

pub const MAX_FOLLOW_WAIT_NANOS: u128 = 30_000_000_000;

pub const MAX_CHUNK_EVENTS: u32 = 2_048;

pub const MAX_CHUNK_RAW_BYTES: u64 = 524_288;

pub const MAX_CHUNK_PLAINTEXT_BYTES: u64 = 3_145_728;

pub const MAX_CHUNK_OBJECT_BYTES: u64 = 4_194_304;

pub const COMPLETE_MANIFEST_SCHEMA: &'static str = "comb.log.partition-manifest/v3";

/// Where a reader is: the next sequence that it wants.
#[derive(Clone, Copy, Debug, PartialEq, Eq, Structural)]
pub struct Cursor {
    pub partition: u32,
    pub next_seq: u64,
}

impl Cursor {
    pub fn first(partition: u32) -> (r: Self)
        ensures
            r == (Cursor { partition, next_seq: 1 }),
    {
        Cursor { partition, next_seq: 1 }
    }
}

/// Where an event is.
#[derive(Clone, Copy, Debug, PartialEq, Eq, Structural)]
pub struct Position {
    pub partition: u32,
    pub seq: u64,
}

/// How much a page may hold.
#[derive(Clone, Copy, Debug)]
pub struct ReadLimits {
    max_events: u32,
    max_raw_bytes: u64,
}

#[derive(Clone, Copy, Debug, PartialEq, Eq, Structural)]
pub struct InvalidReadLimit;

impl ReadLimits {
    #[verifier::type_invariant]
    spec fn inv(self) -> bool {
        limits_ok(self.max_events, self.max_raw_bytes)
    }

    pub closed spec fn events(self) -> u32 {
        self.max_events
    }

    pub closed spec fn raw_bytes(self) -> u64 {
        self.max_raw_bytes
    }

    pub fn try_new(max_events: u32, max_raw_bytes: u64) -> (r: core::result::Result<
        Self,
        InvalidReadLimit,
    >)
        ensures
            r is Ok <==> limits_ok(max_events, max_raw_bytes),
            r matches Ok(l) ==> l.events() == max_events && l.raw_bytes() == max_raw_bytes,
    {
        if max_events == 0 || max_events > MAX_PAGE_EVENTS || max_raw_bytes == 0 || max_raw_bytes
            > MAX_PAGE_RAW_BYTES {
            return Err(InvalidReadLimit);
        }
        Ok(ReadLimits { max_events, max_raw_bytes })
    }

    pub fn max_events(&self) -> (r: u32)
        ensures
            r == self.events(),
            0 < r <= MAX_PAGE_EVENTS,
    {
        proof {
            use_type_invariant(self);
        }
        self.max_events
    }

    pub fn max_raw_bytes(&self) -> (r: u64)
        ensures
            r == self.raw_bytes(),
            0 < r <= MAX_PAGE_RAW_BYTES,
    {
        proof {
            use_type_invariant(self);
        }
        self.max_raw_bytes
    }
}

/// Whether limits are positive and no larger than a page can be.
pub open spec fn limits_ok(max_events: u32, max_raw_bytes: u64) -> bool {
    0 < max_events <= MAX_PAGE_EVENTS && 0 < max_raw_bytes <= MAX_PAGE_RAW_BYTES
}

/// One event of a feed.
#[derive(Debug)]
pub struct LogEvent {
    pub position: Position,
    pub committed_at: Timestamp,
    pub payload: Vec<u8>,
}

/// Where a feed stands.
#[derive(Clone, Copy, Debug, PartialEq, Eq, Structural)]
pub struct CompleteFeedHead {
    pub generation: u64,
    pub head_seq: u64,
    pub next: Cursor,
    pub trim_before_seq: u64,
}

/// A page of events.
#[derive(Debug)]
pub struct ReadPage {
    pub events: Vec<LogEvent>,
    pub next: Cursor,
    pub snapshot_head: u64,
    pub raw_payload_bytes: u64,
    pub at_head: bool,
}

/// A page that was waited for.
#[derive(Debug)]
pub struct FollowPage {
    pub page: ReadPage,
    pub timed_out: bool,
}

/// How long to wait for events.
#[derive(Clone, Copy, Debug)]
pub struct FollowWait {
    wait: Span,
}

impl FollowWait {
    pub closed spec fn nanos(self) -> u128 {
        self.wait.nanos
    }

    pub fn try_new(wait: Span) -> (r: core::result::Result<Self, InvalidReadLimit>)
        ensures
            r is Ok <==> 0 < wait.nanos <= MAX_FOLLOW_WAIT_NANOS,
            r matches Ok(w) ==> w.nanos() == wait.nanos,
    {
        if wait.nanos == 0 || wait.nanos > MAX_FOLLOW_WAIT_NANOS {
            return Err(InvalidReadLimit);
        }
        Ok(FollowWait { wait })
    }

    pub fn span(&self) -> (r: Span)
        ensures
            r.nanos == self.nanos(),
    {
        self.wait
    }
}

/// What is wrong with a log.
#[derive(Debug)]
pub struct LogIntegrityError(pub String);

/// Why a feed cannot be opened.
#[derive(Debug)]
pub enum OpenLogError {
    UnsupportedManifestSchema { found: String, required: &'static str },
    Integrity(LogIntegrityError),
    Unavailable,
    DeadlineExceeded,
    Cancelled,
}

/// Why a page cannot be read.
#[derive(Debug)]
pub enum ReadError {
    Trimmed { requested: Cursor, resume_at: Cursor },
    InvalidCursor { requested: Cursor, next_at_head: Cursor },
    EventTooLarge { cursor: Cursor, position: Position, event_bytes: u64, max_bytes: u64 },
    Integrity(LogIntegrityError),
    Unavailable { operation: &'static str },
    DeadlineExceeded,
    Cancelled,
    InvalidLimit(InvalidReadLimit),
}

/// Whether `e` says that what was read does not hold together, in the given
/// words.
pub open spec fn is_broken(e: ReadError, message: Seq<char>) -> bool {
    e matches ReadError::Integrity(LogIntegrityError(m)) && m@ == message
}

/// What is said of a sequence number that has no successor.
pub open spec fn overflow_of(what: Seq<char>) -> Seq<char> {
    what + " sequence overflow"@
}

fn broken(message: &str) -> (r: ReadError)
    ensures
        is_broken(r, message@),
{
    ReadError::Integrity(LogIntegrityError(message.to_owned()))
}

/// The one schema of complete-feed manifests.
#[derive(Clone, Copy, Debug, PartialEq, Eq, Structural)]
pub enum CompleteManifestSchemaV3 {
    V3,
}

impl CompleteManifestSchemaV3 {
    /// The text of the schema.
    pub fn as_str(self) -> (r: &'static str)
        ensures
            r@ == COMPLETE_MANIFEST_SCHEMA@,
    {
        COMPLETE_MANIFEST_SCHEMA
    }

    /// Reads the text of the schema, and no other.
    pub fn from_text(s: &str) -> (r: Option<Self>)
        ensures
            r is Some <==> s@ == COMPLETE_MANIFEST_SCHEMA@,
    {
        if same_text(s, COMPLETE_MANIFEST_SCHEMA) {
            Some(CompleteManifestSchemaV3::V3)
        } else {
            None
        }
    }
}

/// The state of a complete feed after a publication.
#[derive(Debug)]
pub struct CompleteLogManifest {
    pub schema: CompleteManifestSchemaV3,
    pub header: CommitHeader,
    pub log: String,
    pub epoch: u64,
    pub head_seq: u64,
    pub retention: RetentionMode,
    pub trim_before_seq: u64,
    pub catalog: CatalogState,
    pub stable_index: StableIndexRoot,
    pub admitted: Vec<Admission>,
    pub stable_admissions: Vec<StableIndexEntry>,
    /// A JSON text, absent for null.
    pub result: Option<String>,
    pub ref_state: Option<RefValue>,
}

pub struct CompleteView {
    pub header: CommitHeader,
    pub log: Seq<char>,
    pub epoch: u64,
    pub head_seq: u64,
    pub retention: RetentionMode,
    pub trim_before_seq: u64,
    pub catalog: CatalogState,
    pub stable_index: StableIndexRoot,
    pub admitted: Seq<Admission>,
    pub stable_admissions: Seq<EntryView>,
    pub result: Option<Seq<char>>,
    pub ref_state: Option<RefValue>,
}

impl View for CompleteLogManifest {
    type V = CompleteView;

    open spec fn view(&self) -> CompleteView {
        CompleteView {
            header: self.header,
            log: self.log@,
            epoch: self.epoch,
            head_seq: self.head_seq,
            retention: self.retention,
            trim_before_seq: self.trim_before_seq,
            catalog: self.catalog,
            stable_index: self.stable_index,
            admitted: self.admitted@,
            stable_admissions: entries_view(self.stable_admissions@),
            result: match self.result {
                Some(s) => Some(s@),
                None => None,
            },
            ref_state: self.ref_state,
        }
    }
}

// ------------------------------------------------------------- validation
/// Whether the catalog spans exactly the events that the feed has kept.
pub open spec fn catalog_fits(m: CompleteView) -> bool {
    match m.catalog {
        CatalogState::Empty => m.head_seq == 0,
        CatalogState::Root { root } => {
            &&& m.head_seq != 0
            &&& 1 <= root.first_seq <= root.last_seq
            &&& 1 <= root.chunk_count <= root.last_seq - root.first_seq + 1
            &&& root.first_seq == m.trim_before_seq + 1
            &&& root.last_seq == m.head_seq
        },
    }
}

/// Whether a manifest is sound and that of the feed at `resource`.
pub open spec fn manifest_fits(m: CompleteView, resource: Seq<char>) -> bool {
    &&& m.header.resource@ == resource
    &&& m.log == resource
    &&& m.retention == RetentionMode::Complete
    &&& m.header.epoch == m.epoch
    &&& m.trim_before_seq <= m.head_seq
    &&& catalog_fits(m)
    &&& root_fits(
        m.stable_index,
        IndexHead { generation: m.header.generation, head_seq: m.head_seq },
    )
    &&& m.head_seq == 0 <==> m.stable_index.entries == 0
}

/// Why the catalog of a manifest does not fit its sequences, if it does not.
pub open spec fn catalog_fault(m: CompleteView) -> Option<Seq<char>> {
    match m.catalog {
        CatalogState::Empty => if m.head_seq != 0 {
            Some("empty catalog with nonzero head_seq"@)
        } else {
            None
        },
        CatalogState::Root { root } => if m.head_seq == 0 {
            Some("catalog root with zero head_seq"@)
        } else if root.first_seq == 0 || root.last_seq < root.first_seq || root.chunk_count == 0 {
            Some("catalog root has an impossible span"@)
        } else if m.trim_before_seq == u64::MAX {
            Some("trim_before_seq overflows"@)
        } else if root.first_seq != m.trim_before_seq + 1 {
            Some("catalog first_seq disagrees with trim/head"@)
        } else if root.last_seq != m.head_seq {
            Some("catalog last_seq disagrees with manifest head_seq"@)
        } else if root.chunk_count > root.last_seq - root.first_seq + 1 {
            Some("catalog chunk_count exceeds sequence span"@)
        } else {
            None
        },
    }
}

/// Why a manifest is not sound or not that of the feed at `resource`.
pub open spec fn manifest_fault(m: CompleteView, resource: Seq<char>) -> ErrorView {
    let head = IndexHead { generation: m.header.generation, head_seq: m.head_seq };
    if m.header.resource@ != resource || m.log != resource {
        ErrorView::IntegrityError(
            "manifest log "@ + m.log + " does not bind resource "@ + resource,
        )
    } else if m.retention != RetentionMode::Complete {
        ErrorView::IntegrityError("complete feed requires complete retention"@)
    } else if m.header.epoch != m.epoch {
        ErrorView::IntegrityError("manifest epoch disagrees with its commit header"@)
    } else if m.trim_before_seq > m.head_seq {
        ErrorView::IntegrityError("trim_before_seq is past head_seq"@)
    } else if catalog_fault(m) is Some {
        ErrorView::IntegrityError(catalog_fault(m)->0)
    } else if !root_fits(m.stable_index, head) {
        root_fault(m.stable_index, head)
    } else if m.head_seq == 0 {
        ErrorView::IntegrityError("empty feed has a nonempty stable index"@)
    } else {
        ErrorView::IntegrityError("published catalog has an empty stable index"@)
    }
}

/// Whether a manifest is sound and that of the feed at `resource`.
pub fn validate_complete_manifest(resource: &str, manifest: &CompleteLogManifest) -> (r: Result<()>)
    ensures
        r is Ok <==> manifest_fits(manifest@, resource@),
        r matches Err(e) ==> e@ == manifest_fault(manifest@, resource@),
{
    if !same_text(&manifest.header.resource, resource) || !same_text(&manifest.log, resource) {
        let m: String = join4(
            "manifest log ",
            &manifest.log,
            " does not bind resource ",
            resource,
        );
        return Err(CoreError::IntegrityError(m));
    }
    if manifest.retention != RetentionMode::Complete {
        return Err(integrity("complete feed requires complete retention"));
    }
    if manifest.header.epoch != manifest.epoch {
        return Err(integrity("manifest epoch disagrees with its commit header"));
    }
    if manifest.trim_before_seq > manifest.head_seq {
        return Err(integrity("trim_before_seq is past head_seq"));
    }
    match &manifest.catalog {
        CatalogState::Empty => {
            if manifest.head_seq != 0 {
                return Err(integrity("empty catalog with nonzero head_seq"));
            }
        },
        CatalogState::Root { root } => {
            if manifest.head_seq == 0 {
                return Err(integrity("catalog root with zero head_seq"));
            }
            if root.first_seq == 0 || root.last_seq < root.first_seq || root.chunk_count == 0 {
                return Err(integrity("catalog root has an impossible span"));
            }
            if manifest.trim_before_seq == u64::MAX {
                return Err(integrity("trim_before_seq overflows"));
            }
            if root.first_seq != manifest.trim_before_seq + 1 {
                return Err(integrity("catalog first_seq disagrees with trim/head"));
            }
            if root.last_seq != manifest.head_seq {
                return Err(integrity("catalog last_seq disagrees with manifest head_seq"));
            }
            let span: u64 = root.last_seq - root.first_seq + 1;
            if root.chunk_count > span {
                return Err(integrity("catalog chunk_count exceeds sequence span"));
            }
        },
    }
    let head: IndexHead = IndexHead {
        generation: manifest.header.generation,
        head_seq: manifest.head_seq,
    };
    match check_root_against_head(&manifest.stable_index, head) {
        Err(e) => {
            return Err(e);
        },
        Ok(_) => {},
    }
    if manifest.head_seq == 0 && manifest.stable_index.entries != 0 {
        return Err(integrity("empty feed has a nonempty stable index"));
    }
    if manifest.head_seq != 0 && manifest.stable_index.entries == 0 {
        return Err(integrity("published catalog has an empty stable index"));
    }
    Ok(())
}

/// The target that a commit recorded.
pub open spec fn committed_target(v: CommitRecord) -> Option<Digest> {
    if v.target_follows_commit {
        Some(v.digest)
    } else {
        match v.ref_state {
            Some(s) => s.target,
            None => None,
        }
    }
}

/// Whether a ref at `resource` is bound to the commit that it names: same
/// resource and generation, no older epoch, and the target that the commit
/// recorded.
pub open spec fn bound(resource: Seq<char>, value: RefValue, v: CommitRecord) -> bool {
    &&& v.header.resource@ == resource
    &&& value.name@ == resource
    &&& v.header.generation == value.generation
    &&& v.header.epoch <= value.epoch
    &&& value.target == committed_target(v)
}

/// Why a ref at `resource` is not bound to the commit that it names.
pub open spec fn unbound(resource: Seq<char>, value: RefValue, v: CommitRecord) -> Seq<char> {
    if v.header.resource@ != resource || value.name@ != resource {
        "commit resource "@ + v.header.resource@ + " does not bind "@ + resource
    } else if v.header.generation != value.generation {
        "commit generation "@ + decimal(v.header.generation as nat) + " disagrees with ref "@
            + decimal(value.generation as nat)
    } else if v.header.epoch > value.epoch {
        "commit epoch "@ + decimal(v.header.epoch as nat) + " is ahead of ref "@ + decimal(
            value.epoch as nat,
        )
    } else if value.target is None {
        "committed target missing from ref"@
    } else if committed_target(v) is None {
        "live target without committed target"@
    } else {
        "live target disagrees with committed target"@
    }
}

/// The target of a ref, if the commit that the ref names bears it out.
pub fn bind_published_target(resource: &str, value: &RefValue, view: &CommitView) -> (r: Result<
    Option<Digest>,
>)
    ensures
        if bound(resource@, *value, view@) {
            r matches Ok(d) && d == value.target
        } else {
            r matches Err(CoreError::IntegrityError(m)) && m@ == unbound(resource@, *value, view@)
        },
{
    if !same_text(&view.header.resource, resource) || !same_text(&value.name, resource) {
        let m: String = join4(
            "commit resource ",
            &view.header.resource,
            " does not bind ",
            resource,
        );
        return Err(CoreError::IntegrityError(m));
    }
    if view.header.generation != value.generation {
        let m: String = join4(
            "commit generation ",
            &decimal_text(view.header.generation),
            " disagrees with ref ",
            &decimal_text(value.generation),
        );
        return Err(CoreError::IntegrityError(m));
    }
    if view.header.epoch > value.epoch {
        let m: String = join4(
            "commit epoch ",
            &decimal_text(view.header.epoch),
            " is ahead of ref ",
            &decimal_text(value.epoch),
        );
        return Err(CoreError::IntegrityError(m));
    }
    let persisted: Option<Digest> = if view.target_follows_commit {
        Some(view.digest)
    } else {
        match &view.ref_state {
            Some(s) => s.target,
            None => None,
        }
    };
    match (value.target, persisted) {
        (None, None) => Ok(None),
        (Some(live), Some(committed)) => {
            if live == committed {
                Ok(Some(committed))
            } else {
                Err(integrity("live target disagrees with committed target"))
            }
        },
        (None, Some(_)) => Err(integrity("committed target missing from ref")),
        (Some(_), None) => Err(integrity("live target without committed target")),
    }
}

/// What is said of a ref that was published to and names no commit.
pub open spec fn headless(value: RefValue) -> Seq<char> {
    if value.generation > 0 {
        "missing head_commit with published generation"@
    } else {
        "target without head_commit"@
    }
}

/// The commit that has to bear out the ref, if anything was published.
pub fn bound_target(value: &RefValue) -> (r: core::result::Result<Option<Digest>, OpenLogError>)
    ensures
        if value.head_commit is Some {
            r matches Ok(d) && d == value.head_commit
        } else if value.generation == 0 && value.target is None {
            r matches Ok(None)
        } else {
            r matches Err(OpenLogError::Integrity(m)) && m.0@ == headless(*value)
        },
{
    match value.head_commit {
        Some(d) => Ok(Some(d)),
        None => {
            if value.generation == 0 && value.target.is_none() {
                return Ok(None);
            }
            if value.generation > 0 {
                return Err(
                    OpenLogError::Integrity(
                        LogIntegrityError(
                            "missing head_commit with published generation".to_owned(),
                        ),
                    ),
                );
            }
            Err(OpenLogError::Integrity(LogIntegrityError("target without head_commit".to_owned())))
        },
    }
}

/// What the text of a manifest says it is.
pub enum ManifestKind {
    NotJson(Seq<char>),
    Older,
    Other,
}

pub open spec fn manifest_kind(payload: Seq<u8>) -> ManifestKind {
    match json_of(payload) {
        Err(f) => ManifestKind::NotJson("manifest json: "@ + fault_text(f)),
        Ok(JsonView::Object(f)) => if field(f, "schema"@) == Some(JsonView::Text(MANIFEST_SCHEMA@)) {
            ManifestKind::Older
        } else {
            ManifestKind::Other
        },
        Ok(_) => ManifestKind::Other,
    }
}

fn older_schema() -> (r: OpenLogError)
    ensures
        r matches OpenLogError::UnsupportedManifestSchema { found, required } && found@
            == MANIFEST_SCHEMA@ && required@ == COMPLETE_MANIFEST_SCHEMA@,
{
    OpenLogError::UnsupportedManifestSchema {
        found: MANIFEST_SCHEMA.to_owned(),
        required: COMPLETE_MANIFEST_SCHEMA,
    }
}

/// Refuses a manifest that is no JSON, or of the older kind of log.
pub fn check_manifest_text(payload: &[u8]) -> (r: core::result::Result<(), OpenLogError>)
    ensures
        match manifest_kind(payload@) {
            ManifestKind::NotJson(t) => r matches Err(OpenLogError::Integrity(m)) && m.0@ == t,
            ManifestKind::Older => r matches Err(
                OpenLogError::UnsupportedManifestSchema { found, required },
            ) && found@ == MANIFEST_SCHEMA@ && required@ == COMPLETE_MANIFEST_SCHEMA@,
            ManifestKind::Other => r is Ok,
        },
{
    let value: Json = match parse(payload) {
        Ok(v) => v,
        Err(f) => {
            let m: String = join2("manifest json: ", &fault_message(f));
            return Err(OpenLogError::Integrity(LogIntegrityError(m)));
        },
    };
    if let Json::Object(fields) = &value {
        proof {
            lemma_object_view(*fields);
        }
        if let Some(Json::Text(schema)) = get_field(fields, "schema") {
            if same_text(schema, MANIFEST_SCHEMA) {
                return Err(older_schema());
            }
        }
    }
    Ok(())
}

/// Whether a name without a feed is free: an older log of that name is not
/// opened, migrated or mixed with.
pub fn check_unpublished(v2_exists: bool, v1_exists: bool) -> (r: core::result::Result<
    (),
    OpenLogError,
>)
    ensures
        if v2_exists {
            r matches Err(OpenLogError::UnsupportedManifestSchema { found, required }) && found@
                == MANIFEST_SCHEMA@ && required@ == COMPLETE_MANIFEST_SCHEMA@
        } else if v1_exists {
            r matches Err(OpenLogError::UnsupportedManifestSchema { found, required }) && found@
                == "comb/v1"@ && required@ == COMPLETE_MANIFEST_SCHEMA@
        } else {
            r is Ok
        },
{
    if v2_exists {
        return Err(older_schema());
    }
    if v1_exists {
        return Err(
            OpenLogError::UnsupportedManifestSchema {
                found: "comb/v1".to_owned(),
                required: COMPLETE_MANIFEST_SCHEMA,
            },
        );
    }
    Ok(())
}

/// A manifest as it was found: its bytes, and what they were read as or why
/// they could not be.
#[derive(Debug)]
pub struct FoundManifest {
    pub payload: Vec<u8>,
    pub manifest: core::result::Result<CompleteLogManifest, String>,
}

/// What is published at a ref, or what has to be fetched to tell.
pub enum PublishedFeed<'a> {
    Nothing,
    FetchCommit(Digest),
    FetchManifest(Digest),
    Manifest(&'a CompleteLogManifest),
}

/// What is published at a ref, by view.
pub enum PublishedView {
    Nothing,
    FetchCommit(Digest),
    FetchManifest(Digest),
    Older,
    Integrity(Seq<char>),
    Manifest(CompleteView),
}

/// What is published at the ref of the feed `resource`, given the commit
/// that the ref names and the manifest that the commit bears out, as far as
/// they are known. Nothing is taken from a ref that its commit does not bear
/// out.
pub open spec fn published_view(
    resource: Seq<char>,
    value: RefValue,
    view: Option<CommitRecord>,
    found: Option<FoundManifest>,
) -> PublishedView {
    match value.head_commit {
        None => if value.generation == 0 && value.target is None {
            PublishedView::Nothing
        } else {
            PublishedView::Integrity(headless(value))
        },
        Some(commit) => match view {
            None => PublishedView::FetchCommit(commit),
            Some(v) => if !bound(resource, value, v) {
                PublishedView::Integrity(
                    ErrorView::IntegrityError(unbound(resource, value, v)).text(),
                )
            } else {
                match value.target {
                    None => PublishedView::Nothing,
                    Some(target) => match found {
                        None => PublishedView::FetchManifest(target),
                        Some(f) => match manifest_kind(f.payload@) {
                            ManifestKind::NotJson(m) => PublishedView::Integrity(m),
                            ManifestKind::Older => PublishedView::Older,
                            ManifestKind::Other => match f.manifest {
                                Err(e) => PublishedView::Integrity("v3 manifest: "@ + e@),
                                Ok(m) => if manifest_fits(m@, resource) {
                                    PublishedView::Manifest(m@)
                                } else {
                                    PublishedView::Integrity(manifest_fault(m@, resource).text())
                                },
                            },
                        },
                    },
                }
            },
        },
    }
}

fn unsound(e: &CoreError) -> (r: OpenLogError)
    ensures
        r matches OpenLogError::Integrity(m) && m.0@ == e.text(),
{
    OpenLogError::Integrity(LogIntegrityError(e.to_string()))
}

/// What is published at the ref of the feed `resource`.
pub fn validated_publication<'a>(
    resource: &str,
    value: &RefValue,
    view: Option<&CommitView>,
    found: Option<&'a FoundManifest>,
) -> (r: core::result::Result<PublishedFeed<'a>, OpenLogError>)
    ensures
        match published_view(
            resource@,
            *value,
            match view {
                Some(v) => Some(v@),
                None => None,
            },
            match found {
                Some(f) => Some(*f),
                None => None,
            },
        ) {
            PublishedView::Nothing => r matches Ok(PublishedFeed::Nothing),
            PublishedView::FetchCommit(d) => r matches Ok(PublishedFeed::FetchCommit(x)) && x == d,
            PublishedView::FetchManifest(d) => r matches Ok(PublishedFeed::FetchManifest(x)) && x
                == d,
            PublishedView::Older => r matches Err(
                OpenLogError::UnsupportedManifestSchema { found: f, required },
            ) && f@ == MANIFEST_SCHEMA@ && required@ == COMPLETE_MANIFEST_SCHEMA@,
            PublishedView::Integrity(t) => r matches Err(OpenLogError::Integrity(m)) && m.0@ == t,
            PublishedView::Manifest(m) => r matches Ok(PublishedFeed::Manifest(x)) && x@ == m,
        },
{
    let commit: Digest = match bound_target(value) {
        Err(e) => {
            return Err(e);
        },
        Ok(None) => {
            return Ok(PublishedFeed::Nothing);
        },
        Ok(Some(d)) => d,
    };
    let view: &CommitView = match view {
        None => {
            return Ok(PublishedFeed::FetchCommit(commit));
        },
        Some(v) => v,
    };
    let target: Digest = match bind_published_target(resource, value, view) {
        Err(e) => {
            return Err(unsound(&e));
        },
        Ok(None) => {
            return Ok(PublishedFeed::Nothing);
        },
        Ok(Some(d)) => d,
    };
    let found: &'a FoundManifest = match found {
        None => {
            return Ok(PublishedFeed::FetchManifest(target));
        },
        Some(f) => f,
    };
    match check_manifest_text(&found.payload) {
        Err(e) => {
            return Err(e);
        },
        Ok(_) => {},
    }
    match &found.manifest {
        Err(e) => Err(OpenLogError::Integrity(LogIntegrityError(join2("v3 manifest: ", e)))),
        Ok(m) => match validate_complete_manifest(resource, m) {
            Err(e) => Err(unsound(&e)),
            Ok(_) => Ok(PublishedFeed::Manifest(m)),
        },
    }
}

/// The sequence after `seq`.
pub fn checked_next(seq: u64, what: &str) -> (r: core::result::Result<u64, ReadError>)
    ensures
        if seq == u64::MAX {
            r matches Err(e) && is_broken(e, overflow_of(what@))
        } else {
            r matches Ok(n) && n == seq + 1
        },
{
    if seq == u64::MAX {
        return Err(broken(&join2(what, " sequence overflow")));
    }
    Ok(seq + 1)
}

/// Where a feed stands, from its ref and manifest.
pub fn head(published: Option<(u64, Option<&CompleteLogManifest>)>) -> (r: core::result::Result<
    CompleteFeedHead,
    ReadError,
>)
    ensures
        match published {
            None => r matches Ok(h) && h == (CompleteFeedHead {
                generation: 0,
                head_seq: 0,
                next: Cursor { partition: 0, next_seq: 1 },
                trim_before_seq: 0,
            }),
            Some((generation, m)) => {
                let (head_seq, trim) = match m {
                    Some(m) => (m.head_seq, m.trim_before_seq),
                    None => (0, 0),
                };
                if head_seq == u64::MAX {
                    r matches Err(e) && is_broken(e, overflow_of("head"@))
                } else {
                    r matches Ok(h) && h == (CompleteFeedHead {
                        generation,
                        head_seq,
                        next: Cursor { partition: 0, next_seq: (head_seq + 1) as u64 },
                        trim_before_seq: trim,
                    })
                }
            },
        },
{
    match published {
        None => Ok(
            CompleteFeedHead {
                generation: 0,
                head_seq: 0,
                next: Cursor::first(0),
                trim_before_seq: 0,
            },
        ),
        Some((generation, m)) => {
            let (head_seq, trim_before_seq) = match m {
                Some(m) => (m.head_seq, m.trim_before_seq),
                None => (0, 0),
            };
            match checked_next(head_seq, "head") {
                Err(e) => Err(e),
                Ok(next_seq) => Ok(
                    CompleteFeedHead {
                        generation,
                        head_seq,
                        next: Cursor { partition: 0, next_seq },
                        trim_before_seq,
                    },
                ),
            }
        },
    }
}

// ----------------------------------------------------------------- chunks
/// A chunk of a feed as it was stored.
#[derive(Debug)]
pub struct FeedChunk {
    pub schema: String,
    pub frames: Vec<Frame>,
}

pub struct ChunkView {
    pub schema: Seq<char>,
    pub frames: Seq<FrameView>,
}

impl View for FeedChunk {
    type V = ChunkView;

    open spec fn view(&self) -> ChunkView {
        ChunkView { schema: self.schema@, frames: frames_view(self.frames@) }
    }
}

/// How many bytes the payloads of frames hold.
pub open spec fn raw_bytes(frames: Seq<FrameView>) -> nat
    decreases frames.len(),
{
    if frames.len() == 0 {
        0
    } else {
        raw_bytes(frames.drop_last()) + frames.last().payload.len()
    }
}

/// Whether a chunk of `len` bytes is what the catalog says of it: the known
/// schema, as many events, from the first to the last sequence without a
/// gap, as many bytes, and nothing past the head of the snapshot.
pub open spec fn chunk_fits(c: CatalogChunkRef, head: u64, len: nat, v: ChunkView) -> bool {
    &&& len == c.plaintext_bytes
    &&& v.schema == CHUNK_SCHEMA@
    &&& 0 < v.frames.len() <= MAX_CHUNK_EVENTS
    &&& v.frames.len() == c.event_count
    &&& c.first_seq + v.frames.len() <= u64::MAX
    &&& forall|i: int|
        0 <= i < v.frames.len() ==> (#[trigger] v.frames[i]).seq == c.first_seq + i
    &&& c.first_seq + v.frames.len() - 1 == c.last_seq
    &&& c.last_seq <= head
    &&& raw_bytes(v.frames) == c.raw_payload_bytes
}

proof fn lemma_raw_bytes_grows(s: Seq<FrameView>, n: int)
    requires
        0 <= n <= s.len(),
    ensures
        raw_bytes(s.take(n)) <= raw_bytes(s),
    decreases s.len() - n,
{
    if n < s.len() {
        lemma_raw_bytes_grows(s, n + 1);
        assert(s.take(n + 1).drop_last() =~= s.take(n));
    } else {
        assert(s.take(n) =~= s);
    }
}

/// What is wrong with the frames of a chunk from the `i`-th on, if those
/// before hold `raw` bytes.
pub open spec fn frames_fault(
    frames: Seq<FrameView>,
    chunk: CatalogChunkRef,
    snapshot_head: u64,
    i: nat,
    raw: nat,
) -> Option<Seq<char>>
    decreases frames.len() - i,
{
    if i >= frames.len() {
        if chunk.first_seq + i - 1 != chunk.last_seq || raw != chunk.raw_payload_bytes {
            Some("chunk first/last/raw bytes disagree with catalog"@)
        } else {
            None
        }
    } else {
        let f = frames[i as int];
        if f.seq != chunk.first_seq + i {
            Some("chunk frames are not contiguous at "@ + decimal(f.seq as nat))
        } else if f.seq > snapshot_head || f.seq > chunk.last_seq {
            Some("chunk frame exceeds snapshot or catalog range"@)
        } else if raw + f.payload.len() > u64::MAX {
            Some("chunk raw overflow"@)
        } else if f.seq == u64::MAX {
            Some(overflow_of("chunk frame"@))
        } else {
            frames_fault(frames, chunk, snapshot_head, i + 1, raw + f.payload.len())
        }
    }
}

/// What is wrong with a chunk, held against what the catalog says of it.
pub open spec fn chunk_fault(
    chunk: CatalogChunkRef,
    snapshot_head: u64,
    len: nat,
    body: ChunkView,
) -> Option<Seq<char>> {
    if len != chunk.plaintext_bytes {
        Some(
            "chunk plaintext "@ + decimal(len) + " != catalog "@ + decimal(
                chunk.plaintext_bytes as nat,
            ),
        )
    } else if body.schema != CHUNK_SCHEMA@ {
        Some("chunk schema"@)
    } else if body.frames.len() == 0 {
        Some("chunk has no frames"@)
    } else if body.frames.len() > MAX_CHUNK_EVENTS || body.frames.len() != chunk.event_count {
        Some("chunk event count disagrees with catalog"@)
    } else {
        frames_fault(body.frames, chunk, snapshot_head, 0, 0)
    }
}

/// Holds a chunk against what the catalog says of it.
pub fn load_chunk(chunk: &CatalogChunkRef, snapshot_head: u64, len: usize, body: &FeedChunk) -> (r:
    core::result::Result<(), ReadError>)
    ensures
        r is Ok <==> chunk_fits(*chunk, snapshot_head, len as nat, body@),
        match chunk_fault(*chunk, snapshot_head, len as nat, body@) {
            None => r is Ok,
            Some(m) => r matches Err(e) && is_broken(e, m),
        },
{
    if len as u64 != chunk.plaintext_bytes {
        let m: String = join4(
            "chunk plaintext ",
            &decimal_text(len as u64),
            " != catalog ",
            &decimal_text(chunk.plaintext_bytes),
        );
        return Err(broken(&m));
    }
    if !same_text(&body.schema, CHUNK_SCHEMA) {
        return Err(broken("chunk schema"));
    }
    let n: usize = body.frames.len();
    if n == 0 {
        return Err(broken("chunk has no frames"));
    }
    if n > MAX_CHUNK_EVENTS as usize || n as u64 != chunk.event_count as u64 {
        return Err(broken("chunk event count disagrees with catalog"));
    }
    let ghost all = frames_view(body.frames@);
    let mut raw: u64 = 0;
    let mut expected: u64 = chunk.first_seq;
    let mut i: usize = 0;
    assert(all.take(0).len() == 0);
    while i < n
        invariant
            i <= n,
            n == body.frames@.len(),
            n <= MAX_CHUNK_EVENTS,
            all == frames_view(body.frames@),
            expected == chunk.first_seq + i,
            raw == raw_bytes(all.take(i as int)),
            chunk_fault(*chunk, snapshot_head, len as nat, body@) == frames_fault(
                all,
                *chunk,
                snapshot_head,
                i as nat,
                raw as nat,
            ),
            forall|j: int| 0 <= j < i ==> (#[trigger] all[j]).seq == chunk.first_seq + j,
            i > 0 ==> chunk.first_seq + i - 1 <= snapshot_head && chunk.first_seq + i - 1
                <= chunk.last_seq,
        decreases n - i,
    {
        let f: &Frame = &body.frames[i];
        proof {
            assert(all[i as int] == f@);
            assert(all.take(i + 1).drop_last() =~= all.take(i as int));
            lemma_raw_bytes_grows(all, i + 1);
        }
        if f.seq != expected {
            return Err(
                broken(&join2("chunk frames are not contiguous at ", &decimal_text(f.seq))),
            );
        }
        if f.seq > snapshot_head || f.seq > chunk.last_seq {
            assert(chunk.first_seq + n - 1 >= f.seq);
            return Err(broken("chunk frame exceeds snapshot or catalog range"));
        }
        if f.payload.len() as u64 > u64::MAX - raw {
            return Err(broken("chunk raw overflow"));
        }
        raw = raw + f.payload.len() as u64;
        match checked_next(expected, "chunk frame") {
            Err(e) => {
                return Err(e);
            },
            Ok(next) => {
                expected = next;
            },
        }
        i = i + 1;
    }
    assert(all.take(i as int) =~= all);
    if expected - 1 != chunk.last_seq || raw != chunk.raw_payload_bytes {
        return Err(broken("chunk first/last/raw bytes disagree with catalog"));
    }
    Ok(())
}

// ------------------------------------------------------------------ pages
/// What a page still needs, or the page.
#[derive(Debug)]
pub enum PageStep {
    Done(ReadPage),
    FetchNode(Digest),
    FetchChunk(Digest),
}

/// What reading a page comes to.
pub enum PageView {
    FetchNode(Digest),
    FetchChunk(Digest),
    Trimmed { resume_at: u64 },
    InvalidCursor { next_at_head: u64 },
    TooLarge { seq: u64, bytes: nat },
    Integrity(Seq<char>),
    Unavailable { operation: Seq<char> },
    Page { frames: Seq<FrameView>, next: u64 },
}

/// What a failed fetch means for a page.
pub open spec fn read_fault(e: ErrorView, operation: Seq<char>) -> PageView {
    match e {
        ErrorView::BackendUnavailable(_) => PageView::Unavailable { operation },
        ErrorView::Io(_) => PageView::Unavailable { operation },
        ErrorView::IntegrityError(m) => PageView::Integrity(m),
        ErrorView::InvalidFormat(m) => PageView::Integrity(m),
        ErrorView::RecoveryFailed(m) => PageView::Integrity(m),
        other => PageView::Integrity(other.text()),
    }
}

/// What a page takes of the frames of a chunk.
pub enum Taken {
    Full(Seq<FrameView>),
    TooLarge(FrameView),
    More(Seq<FrameView>),
}

/// Events are taken in order while the page has room. The first event of a
/// page is never skipped: it is taken or too large.
pub open spec fn taken(
    frames: Seq<FrameView>,
    i: nat,
    events: Seq<FrameView>,
    max_events: u32,
    max_raw: u64,
) -> Taken
    decreases frames.len() - i,
{
    if i >= frames.len() {
        Taken::More(events)
    } else {
        let f = frames[i as int];
        let n = f.payload.len();
        if events.len() == 0 && n > max_raw {
            Taken::TooLarge(f)
        } else if events.len() > 0 && (events.len() >= max_events || raw_bytes(events) + n
            > max_raw) {
            Taken::Full(events)
        } else if events.len() + 1 >= max_events {
            Taken::More(events.push(f))
        } else {
            taken(frames, i + 1, events.push(f), max_events, max_raw)
        }
    }
}

/// The page that continues `events` at sequence `seq`: chunk by chunk, by
/// way of the catalog.
pub open spec fn page_from(
    nodes: Map<Digest, FetchedView<CatalogNodeView>>,
    chunks: Map<Digest, FetchedView<ChunkView>>,
    catalog: CatalogState,
    head: u64,
    seq: u64,
    events: Seq<FrameView>,
    max_events: u32,
    max_raw: u64,
) -> PageView
    decreases head + 1 - seq,
{
    if seq > head || events.len() >= max_events {
        PageView::Page { frames: events, next: seq }
    } else {
        match catalog {
            CatalogState::Empty => PageView::Integrity("catalog has no leaf for sequence"@),
            CatalogState::Root { root } => if seq < root.first_seq || seq > root.last_seq {
                PageView::Integrity("catalog has no leaf for sequence"@)
            } else {
                match seek(nodes, root.digest, seq, 0) {
                    SeekView::Fetch(d) => PageView::FetchNode(d),
                    SeekView::Fail(c) => read_fault(c, "catalog"@),
                    SeekView::Leaf(refs) => match chunk_at(refs, seq) {
                        None => PageView::Integrity("leaf does not cover sequence"@),
                        Some(c) => if !chunks.contains_key(c.digest) {
                            PageView::FetchChunk(c.digest)
                        } else {
                            match chunks[c.digest] {
                                FetchedView::Failed(e) => read_fault(e, "chunk"@),
                                FetchedView::Malformed { detail } => PageView::Integrity(
                                    "chunk json: "@ + detail,
                                ),
                                FetchedView::Object { len, object } => if !chunk_fits(
                                    c,
                                    head,
                                    len,
                                    object,
                                ) {
                                    PageView::Integrity(chunk_fault(c, head, len, object)->0)
                                } else {
                                    match taken(
                                        object.frames,
                                        (seq - c.first_seq) as nat,
                                        events,
                                        max_events,
                                        max_raw,
                                    ) {
                                        Taken::Full(e) => PageView::Page {
                                            frames: e,
                                            next: (e.last().seq + 1) as u64,
                                        },
                                        Taken::TooLarge(f) => PageView::TooLarge {
                                            seq: f.seq,
                                            bytes: f.payload.len(),
                                        },
                                        Taken::More(e) => if e.len() > 0 && seq
                                            <= e.last().seq <= head && head < u64::MAX {
                                            page_from(
                                                nodes,
                                                chunks,
                                                catalog,
                                                head,
                                                (e.last().seq + 1) as u64,
                                                e,
                                                max_events,
                                                max_raw,
                                            )
                                        } else {
                                            PageView::Integrity(
                                                "chunk ended before catalog last_seq"@,
                                            )
                                        },
                                    }
                                },
                            }
                        },
                    },
                }
            },
        }
    }
}

/// What reading the page at `next_seq` of a feed comes to.
pub open spec fn page_view(
    manifest: Option<CompleteView>,
    next_seq: u64,
    nodes: Map<Digest, FetchedView<CatalogNodeView>>,
    chunks: Map<Digest, FetchedView<ChunkView>>,
    max_events: u32,
    max_raw: u64,
) -> PageView {
    match manifest {
        None => if next_seq == 1 {
            PageView::Page { frames: Seq::empty(), next: 1 }
        } else {
            PageView::InvalidCursor { next_at_head: 1 }
        },
        Some(m) => if m.head_seq == u64::MAX {
            PageView::Integrity(overflow_of("snapshot head"@))
        } else if next_seq == 0 || next_seq > m.head_seq + 1 {
            PageView::InvalidCursor { next_at_head: (m.head_seq + 1) as u64 }
        } else if m.trim_before_seq > 0 && next_seq <= m.trim_before_seq {
            if m.trim_before_seq == u64::MAX {
                PageView::Integrity(overflow_of("trim"@))
            } else {
                PageView::Trimmed { resume_at: (m.trim_before_seq + 1) as u64 }
            }
        } else {
            page_from(
                nodes,
                chunks,
                m.catalog,
                m.head_seq,
                next_seq,
                Seq::empty(),
                max_events,
                max_raw,
            )
        },
    }
}

/// The frames of events.
pub open spec fn events_view(s: Seq<LogEvent>) -> Seq<FrameView> {
    s.map_values(
        |e: LogEvent|
            FrameView { seq: e.position.seq, at: e.committed_at, payload: e.payload@ },
    )
}

/// Whether `p` is the page with the given frames.
pub open spec fn is_page(p: ReadPage, frames: Seq<FrameView>, next: u64, head: u64) -> bool {
    &&& events_view(p.events@) == frames
    &&& forall|i: int| 0 <= i < p.events@.len() ==> (#[trigger] p.events@[i]).position.partition == 0
    &&& p.next == (Cursor { partition: 0, next_seq: next })
    &&& p.snapshot_head == head
    &&& p.raw_payload_bytes == raw_bytes(frames)
    &&& p.at_head == (next == head + 1)
}

/// Whether the answer is what the page comes to.
pub open spec fn answers_page(
    r: core::result::Result<PageStep, ReadError>,
    v: PageView,
    cursor: Cursor,
    head: u64,
    max_raw: u64,
) -> bool {
    match v {
        PageView::FetchNode(d) => r matches Ok(PageStep::FetchNode(n)) && n == d,
        PageView::FetchChunk(d) => r matches Ok(PageStep::FetchChunk(n)) && n == d,
        PageView::Trimmed { resume_at } => r matches Err(
            ReadError::Trimmed { requested, resume_at: at },
        ) && requested == cursor && at == (Cursor { partition: 0, next_seq: resume_at }),
        PageView::InvalidCursor { next_at_head } => r matches Err(
            ReadError::InvalidCursor { requested, next_at_head: at },
        ) && requested == cursor && at == (Cursor { partition: 0, next_seq: next_at_head }),
        PageView::TooLarge { seq, bytes } => r matches Err(
            ReadError::EventTooLarge { cursor: c, position, event_bytes, max_bytes },
        ) && c == cursor && position == (Position { partition: 0, seq }) && event_bytes == bytes
            && max_bytes == max_raw,
        PageView::Integrity(m) => r matches Err(e) && is_broken(e, m),
        PageView::Unavailable { operation } => r matches Err(
            ReadError::Unavailable { operation: o },
        ) && o@ == operation,
        PageView::Page { frames, next } => r matches Ok(PageStep::Done(p)) && is_page(
            p,
            frames,
            next,
            head,
        ),
    }
}

fn read_failure(e: &CoreError, operation: &'static str) -> (r: ReadError)
    ensures
        match read_fault(e@, operation@) {
            PageView::Unavailable { operation: o } => r matches ReadError::Unavailable {
                operation: x,
            } && x@ == o,
            PageView::Integrity(m) => is_broken(r, m),
            _ => false,
        },
{
    match e {
        CoreError::BackendUnavailable(_) => ReadError::Unavailable { operation },
        CoreError::Io(_) => ReadError::Unavailable { operation },
        CoreError::IntegrityError(m) => broken(m),
        CoreError::InvalidFormat(m) => broken(m),
        CoreError::RecoveryFailed(m) => broken(m),
        other => {
            let text: String = other.to_string();
            broken(&text)
        },
    }
}

/// What is taken of a chunk.
enum TakenNow {
    Full,
    TooLarge { seq: u64, bytes: u64 },
    More,
}

/// Whether events are numbered from `from` on without a gap.
pub open spec fn run_from(events: Seq<FrameView>, from: int) -> bool {
    forall|i: int| 0 <= i < events.len() ==> (#[trigger] events[i]).seq == from + i
}

fn take_frames(
    frames: &Vec<Frame>,
    start: usize,
    events: &mut Vec<LogEvent>,
    raw: &mut u64,
    max_events: u32,
    max_raw: u64,
    Ghost(from): Ghost<int>,
) -> (r: TakenNow)
    requires
        start < frames@.len(),
        old(events)@.len() < max_events,
        *old(raw) == raw_bytes(events_view(old(events)@)),
        *old(raw) <= max_raw <= MAX_PAGE_RAW_BYTES,
        0 < max_events <= MAX_PAGE_EVENTS,
        forall|i: int| 0 <= i < old(events)@.len() ==> (#[trigger] old(events)@[i]).position.partition == 0,
        run_from(events_view(old(events)@), from),
        forall|i: int|
            0 <= i < frames@.len() ==> (#[trigger] frames@[i]).seq == from + old(events)@.len() + i
                - start,
    ensures
        forall|i: int| 0 <= i < final(events)@.len() ==> (#[trigger] final(events)@[i]).position.partition == 0,
        run_from(events_view(final(events)@), from),
        final(events)@.len() <= old(events)@.len() + frames@.len() - start,
        match taken(
            frames_view(frames@),
            start as nat,
            events_view(old(events)@),
            max_events,
            max_raw,
        ) {
            Taken::Full(e) => r is Full && events_view(final(events)@) == e && *final(raw)
                == raw_bytes(e) && e.len() > 0,
            Taken::TooLarge(f) => r matches TakenNow::TooLarge { seq, bytes } && seq == f.seq
                && bytes == f.payload.len(),
            Taken::More(e) => r is More && events_view(final(events)@) == e && *final(raw)
                == raw_bytes(e) && *final(raw) <= max_raw && e.len() > old(events)@.len()
                && e.len() <= max_events,
        },
{
    let ghost all = frames_view(frames@);
    let ghost begin = events_view(events@);
    let mut i: usize = start;
    while i < frames.len()
        invariant
            start <= i <= frames@.len(),
            all == frames_view(frames@),
            begin == events_view(old(events)@),
            events@.len() < max_events,
            events@.len() == begin.len() + i - start,
            *raw == raw_bytes(events_view(events@)),
            *raw <= max_raw <= MAX_PAGE_RAW_BYTES,
            0 < max_events <= MAX_PAGE_EVENTS,
            forall|j: int| 0 <= j < events@.len() ==> (#[trigger] events@[j]).position.partition == 0,
            run_from(events_view(events@), from),
            forall|j: int|
                0 <= j < frames@.len() ==> (#[trigger] frames@[j]).seq == from + begin.len() + j
                    - start,
            taken(all, start as nat, begin, max_events, max_raw) == taken(
                all,
                i as nat,
                events_view(events@),
                max_events,
                max_raw,
            ),
        decreases frames@.len() - i,
    {
        let f: &Frame = &frames[i];
        let n: u64 = f.payload.len() as u64;
        assert(all[i as int] == f@);
        assert(events_view(events@).len() == events@.len());
        if events.len() == 0 && n > max_raw {
            return TakenNow::TooLarge { seq: f.seq, bytes: n };
        }
        if events.len() > 0 && n > max_raw - *raw {
            return TakenNow::Full;
        }
        let ghost before = events_view(events@);
        let event: LogEvent = LogEvent {
            position: Position { partition: 0, seq: f.seq },
            committed_at: f.at,
            payload: crate::bytes::copy_bytes(&f.payload),
        };
        events.push(event);
        proof {
            assert(events_view(events@) =~= before.push(f@));
            assert(before.push(f@).drop_last() =~= before);
            assert(run_from(events_view(events@), from)) by {
                assert forall|j: int| 0 <= j < events_view(events@).len() implies (
                #[trigger] events_view(events@)[j]).seq == from + j by {
                    if j < before.len() {
                        assert(before[j].seq == from + j);
                    }
                }
            }
        }
        *raw = *raw + n;
        if events.len() >= max_events as usize {
            return TakenNow::More;
        }
        i = i + 1;
    }
    TakenNow::More
}

fn finish(events: Vec<LogEvent>, next_seq: u64, head: u64, raw: u64) -> (r: ReadPage)
    requires
        raw == raw_bytes(events_view(events@)),
        forall|i: int| 0 <= i < events@.len() ==> (#[trigger] events@[i]).position.partition == 0,
        head < u64::MAX,
    ensures
        is_page(r, events_view(events@), next_seq, head),
{
    ReadPage {
        events,
        next: Cursor { partition: 0, next_seq },
        snapshot_head: head,
        raw_payload_bytes: raw,
        at_head: next_seq == head + 1,
    }
}

/// Reads the page at `cursor` from a snapshot of the feed.
pub fn read_page_once(
    manifest: Option<&CompleteLogManifest>,
    cursor: Cursor,
    limits: ReadLimits,
    nodes: &Table<CatalogNode>,
    chunks: &Table<FeedChunk>,
) -> (r: core::result::Result<PageStep, ReadError>)
    requires
        cursor.partition == 0,
    ensures
        answers_page(
            r,
            page_view(
                match manifest {
                    Some(m) => Some(m@),
                    None => None,
                },
                cursor.next_seq,
                nodes@,
                chunks@,
                limits.events(),
                limits.raw_bytes(),
            ),
            cursor,
            match manifest {
                Some(m) => m.head_seq,
                None => 0,
            },
            limits.raw_bytes(),
        ),
{
    let max_events: u32 = limits.max_events();
    let max_raw: u64 = limits.max_raw_bytes();
    let mut events: Vec<LogEvent> = Vec::new();
    assert(events_view(events@) =~= Seq::empty());
    let m: &CompleteLogManifest = match manifest {
        None => {
            if cursor.next_seq == 1 {
                return Ok(PageStep::Done(finish(events, 1, 0, 0)));
            }
            return Err(
                ReadError::InvalidCursor { requested: cursor, next_at_head: Cursor::first(0) },
            );
        },
        Some(m) => m,
    };
    let head: u64 = m.head_seq;
    let at_head: u64 = match checked_next(head, "snapshot head") {
        Ok(n) => n,
        Err(e) => {
            return Err(e);
        },
    };
    if cursor.next_seq == 0 || cursor.next_seq > at_head {
        return Err(
            ReadError::InvalidCursor {
                requested: cursor,
                next_at_head: Cursor { partition: 0, next_seq: at_head },
            },
        );
    }
    if m.trim_before_seq > 0 && cursor.next_seq <= m.trim_before_seq {
        return match checked_next(m.trim_before_seq, "trim") {
            Err(e) => Err(e),
            Ok(next_seq) => Err(
                ReadError::Trimmed {
                    requested: cursor,
                    resume_at: Cursor { partition: 0, next_seq },
                },
            ),
        };
    }
    let ghost from = cursor.next_seq as int;
    let ghost whole = page_from(
        nodes@,
        chunks@,
        m.catalog,
        head,
        cursor.next_seq,
        Seq::empty(),
        max_events,
        max_raw,
    );
    let mut raw: u64 = 0;
    let mut seq: u64 = cursor.next_seq;
    while seq <= head && events.len() < max_events as usize
        invariant
            manifest == Some(m),
            head == m.head_seq,
            head < u64::MAX,
            1 <= cursor.next_seq <= head + 1,
            !(m.trim_before_seq > 0 && cursor.next_seq <= m.trim_before_seq),
            from == cursor.next_seq,
            max_events == limits.events(),
            max_raw == limits.raw_bytes(),
            0 < max_events <= MAX_PAGE_EVENTS,
            max_raw <= MAX_PAGE_RAW_BYTES,
            raw == raw_bytes(events_view(events@)),
            raw <= max_raw,
            events@.len() <= max_events,
            seq == from + events@.len(),
            run_from(events_view(events@), from),
            forall|i: int| 0 <= i < events@.len() ==> (#[trigger] events@[i]).position.partition == 0,
            whole == page_from(
                nodes@,
                chunks@,
                m.catalog,
                head,
                cursor.next_seq,
                Seq::empty(),
                max_events,
                max_raw,
            ),
            whole == page_from(
                nodes@,
                chunks@,
                m.catalog,
                head,
                seq,
                events_view(events@),
                max_events,
                max_raw,
            ),
        decreases head + 1 - seq,
    {
        let ghost had = events_view(events@);
        assert(had.len() == events@.len());
        let refs: Vec<CatalogChunkRef> = match seek_leaf(nodes, &m.catalog, seq) {
            Err(e) => {
                return Err(read_failure(&e, "catalog"));
            },
            Ok(Step::Fetch(d)) => {
                return Ok(PageStep::FetchNode(d));
            },
            Ok(Step::Done(None)) => {
                return Err(broken("catalog has no leaf for sequence"));
            },
            Ok(Step::Done(Some(v))) => v,
        };
        let chunk: CatalogChunkRef = match chunk_covering(&refs, seq) {
            None => {
                return Err(broken("leaf does not cover sequence"));
            },
            Some(c) => c,
        };
        proof {
            lemma_chunk_at(refs@, seq);
        }
        let body: &FeedChunk = match chunks.get(&chunk.digest) {
            None => {
                return Ok(PageStep::FetchChunk(chunk.digest));
            },
            Some(Fetched::Failed(e)) => {
                return Err(read_failure(e, "chunk"));
            },
            Some(Fetched::Malformed { detail }) => {
                return Err(broken(&join2("chunk json: ", detail)));
            },
            Some(Fetched::Object { len, object }) => {
                match load_chunk(&chunk, head, *len, object) {
                    Err(e) => {
                        return Err(e);
                    },
                    Ok(_) => {},
                }
                object
            },
        };
        let start: usize = (seq - chunk.first_seq) as usize;
        proof {
            let frames = frames_view(body.frames@);
            assert(frames.len() == chunk.last_seq - chunk.first_seq + 1);
            assert forall|i: int| 0 <= i < body.frames@.len() implies (#[trigger] body.frames@[i]).seq
                == from + had.len() + i - start by {
                assert(frames[i].seq == chunk.first_seq + i);
            }
        }
        match take_frames(
            &body.frames,
            start,
            &mut events,
            &mut raw,
            max_events,
            max_raw,
            Ghost(from),
        ) {
            TakenNow::TooLarge { seq: at, bytes } => {
                return Err(
                    ReadError::EventTooLarge {
                        cursor,
                        position: Position { partition: 0, seq: at },
                        event_bytes: bytes,
                        max_bytes: max_raw,
                    },
                );
            },
            TakenNow::Full => {
                proof {
                    let e = events_view(events@);
                    assert(e.last() == e[e.len() - 1]);
                    assert(e[e.len() - 1].seq == from + e.len() - 1);
                }
                let next_seq: u64 = events[events.len() - 1].position.seq + 1;
                return Ok(PageStep::Done(finish(events, next_seq, head, raw)));
            },
            TakenNow::More => {},
        }
        proof {
            let e = events_view(events@);
            assert(e.last() == e[e.len() - 1]);
            assert(e.last().seq == from + e.len() - 1);
        }
        seq = events[events.len() - 1].position.seq + 1;
    }
    Ok(PageStep::Done(finish(events, seq, head, raw)))
}

/// Reads the page at `cursor`. A feed has one partition; a cursor in another
/// is sent to the beginning of that one.
pub fn read_page(
    manifest: Option<&CompleteLogManifest>,
    cursor: Cursor,
    limits: ReadLimits,
    nodes: &Table<CatalogNode>,
    chunks: &Table<FeedChunk>,
) -> (r: core::result::Result<PageStep, ReadError>)
    ensures
        if cursor.partition != 0 {
            r == Err::<PageStep, ReadError>(
                ReadError::InvalidCursor {
                    requested: cursor,
                    next_at_head: (Cursor { partition: 0, next_seq: 1 }),
                },
            )
        } else {
            answers_page(
                r,
                page_view(
                    match manifest {
                        Some(m) => Some(m@),
                        None => None,
                    },
                    cursor.next_seq,
                    nodes@,
                    chunks@,
                    limits.events(),
                    limits.raw_bytes(),
                ),
                cursor,
                match manifest {
                    Some(m) => m.head_seq,
                    None => 0,
                },
                limits.raw_bytes(),
            )
        },
{
    if cursor.partition != 0 {
        return Err(
            ReadError::InvalidCursor { requested: cursor, next_at_head: Cursor::first(0) },
        );
    }
    read_page_once(manifest, cursor, limits, nodes, chunks)
}

proof fn lemma_chunk_at(refs: Seq<CatalogChunkRef>, seq: u64)
    ensures
        chunk_at(refs, seq) matches Some(c) ==> c.first_seq <= seq <= c.last_seq,
    decreases refs.len(),
{
    if refs.len() > 0 {
        lemma_chunk_at(refs.drop_first(), seq);
    }
}

// ------------------------------------------------------------ laws of pages
proof fn lemma_taken_runs(
    frames: Seq<FrameView>,
    i: nat,
    events: Seq<FrameView>,
    max_events: u32,
    max_raw: u64,
    from: int,
)
    requires
        run_from(events, from),
        events.len() < max_events,
        raw_bytes(events) <= max_raw,
        forall|j: int|
            i <= j < frames.len() ==> (#[trigger] frames[j]).seq == from + events.len() + j - i,
    ensures
        match taken(frames, i, events, max_events, max_raw) {
            Taken::Full(e) => run_from(e, from) && e.len() <= max_events && raw_bytes(e) <= max_raw
                && events.len() <= e.len() && e.len() > 0,
            Taken::More(e) => run_from(e, from) && e.len() <= max_events && raw_bytes(e) <= max_raw
                && events.len() <= e.len(),
            Taken::TooLarge(f) => events.len() == 0 && f.payload.len() > max_raw && f.seq == from,
        },
    decreases frames.len() - i,
{
    if i < frames.len() {
        let f = frames[i as int];
        let next = events.push(f);
        assert(next.drop_last() =~= events);
        assert(run_from(next, from)) by {
            assert forall|j: int| 0 <= j < next.len() implies (#[trigger] next[j]).seq == from + j by {
                if j < events.len() {
                    assert(events[j].seq == from + j);
                }
            }
        }
        if raw_bytes(events) + f.payload.len() <= max_raw && events.len() + 1 < max_events {
            lemma_taken_runs(frames, i + 1, next, max_events, max_raw, from);
        }
    }
}

proof fn lemma_page_runs(
    nodes: Map<Digest, FetchedView<CatalogNodeView>>,
    chunks: Map<Digest, FetchedView<ChunkView>>,
    catalog: CatalogState,
    head: u64,
    seq: u64,
    events: Seq<FrameView>,
    max_events: u32,
    max_raw: u64,
    from: int,
)
    requires
        head < u64::MAX,
        run_from(events, from),
        seq == from + events.len(),
        seq <= head + 1,
        events.len() <= max_events,
        raw_bytes(events) <= max_raw,
    ensures
        match page_from(nodes, chunks, catalog, head, seq, events, max_events, max_raw) {
            PageView::Page { frames, next } => run_from(frames, from) && next == from + frames.len()
                && next <= head + 1 && frames.len() <= max_events && raw_bytes(frames) <= max_raw
                && events.len() <= frames.len() && (frames.len() == 0 ==> max_events == 0 || from > head),
            PageView::TooLarge { seq: at, bytes } => at == from && bytes > max_raw,
            _ => true,
        },
    decreases head + 1 - seq,
{
    if seq <= head && events.len() < max_events {
        match catalog {
            CatalogState::Root { root } => match seek(nodes, root.digest, seq, 0) {
                SeekView::Leaf(refs) => match chunk_at(refs, seq) {
                    Some(c) => {
                        lemma_chunk_at(refs, seq);
                        if chunks.contains_key(c.digest) {
                            match chunks[c.digest] {
                                FetchedView::Object { len, object } => {
                                    if chunk_fits(c, head, len, object) {
                                        let start = (seq - c.first_seq) as nat;
                                        assert(start < object.frames.len());
                                        lemma_taken_runs(
                                            object.frames,
                                            start,
                                            events,
                                            max_events,
                                            max_raw,
                                            from,
                                        );
                                        lemma_taken_within(
                                            object.frames,
                                            start,
                                            events,
                                            max_events,
                                            max_raw,
                                            c.last_seq,
                                        );
                                        match taken(
                                            object.frames,
                                            start,
                                            events,
                                            max_events,
                                            max_raw,
                                        ) {
                                            Taken::More(e) => {
                                                if e.len() > 0 && seq <= e.last().seq <= head {
                                                    assert(e[e.len() - 1].seq == from + e.len() - 1);
                                                    lemma_page_runs(
                                                        nodes,
                                                        chunks,
                                                        catalog,
                                                        head,
                                                        (e.last().seq + 1) as u64,
                                                        e,
                                                        max_events,
                                                        max_raw,
                                                        from,
                                                    );
                                                }
                                            },
                                            Taken::Full(e) => {
                                                assert(e[e.len() - 1].seq == from + e.len() - 1);
                                            },
                                            Taken::TooLarge(_) => {},
                                        }
                                    }
                                },
                                _ => {},
                            }
                        }
                    },
                    None => {},
                },
                _ => {},
            },
            CatalogState::Empty => {},
        }
    }
}

proof fn lemma_taken_within(
    frames: Seq<FrameView>,
    i: nat,
    events: Seq<FrameView>,
    max_events: u32,
    max_raw: u64,
    last: u64,
)
    requires
        forall|j: int| i <= j < frames.len() ==> (#[trigger] frames[j]).seq <= last,
        forall|j: int| 0 <= j < events.len() ==> (#[trigger] events[j]).seq <= last,
    ensures
        match taken(frames, i, events, max_events, max_raw) {
            Taken::Full(e) => forall|j: int| 0 <= j < e.len() ==> (#[trigger] e[j]).seq <= last,
            Taken::More(e) => forall|j: int| 0 <= j < e.len() ==> (#[trigger] e[j]).seq <= last,
            Taken::TooLarge(_) => true,
        },
    decreases frames.len() - i,
{
    if i < frames.len() {
        lemma_taken_within(
            frames,
            i + 1,
            events.push(frames[i as int]),
            max_events,
            max_raw,
            last,
        );
    }
}

/// A page holds the events from its cursor on, without a gap, no more than
/// its limits, and leaves the cursor right behind the last of them; it is
/// empty only at the head.
pub proof fn law_page_is_contiguous(
    manifest: CompleteView,
    next_seq: u64,
    nodes: Map<Digest, FetchedView<CatalogNodeView>>,
    chunks: Map<Digest, FetchedView<ChunkView>>,
    max_events: u32,
    max_raw: u64,
)
    requires
        limits_ok(max_events, max_raw),
    ensures
        match page_view(Some(manifest), next_seq, nodes, chunks, max_events, max_raw) {
            PageView::Page { frames, next } => {
                &&& forall|i: int|
                    0 <= i < frames.len() ==> (#[trigger] frames[i]).seq == next_seq + i
                &&& next == next_seq + frames.len()
                &&& next <= manifest.head_seq + 1
                &&& frames.len() <= max_events
                &&& raw_bytes(frames) <= max_raw
                &&& frames.len() == 0 ==> next == manifest.head_seq + 1
            },
            _ => true,
        },
{
    let m = manifest;
    if m.head_seq < u64::MAX && 0 < next_seq <= m.head_seq + 1 && !(m.trim_before_seq > 0 && next_seq
        <= m.trim_before_seq) {
        lemma_page_runs(
            nodes,
            chunks,
            m.catalog,
            m.head_seq,
            next_seq,
            Seq::empty(),
            max_events,
            max_raw,
            next_seq as int,
        );
    }
}

/// An event that is too large for a page stands at the cursor, so that the
/// cursor is not moved past it.
pub proof fn law_large_event_keeps_the_cursor(
    manifest: CompleteView,
    next_seq: u64,
    nodes: Map<Digest, FetchedView<CatalogNodeView>>,
    chunks: Map<Digest, FetchedView<ChunkView>>,
    max_events: u32,
    max_raw: u64,
)
    requires
        limits_ok(max_events, max_raw),
    ensures
        page_view(Some(manifest), next_seq, nodes, chunks, max_events, max_raw) matches
            PageView::TooLarge { seq, bytes } ==> seq == next_seq && bytes > max_raw,
{
    let m = manifest;
    if m.head_seq < u64::MAX && 0 < next_seq <= m.head_seq + 1 && !(m.trim_before_seq > 0 && next_seq
        <= m.trim_before_seq) {
        lemma_page_runs(
            nodes,
            chunks,
            m.catalog,
            m.head_seq,
            next_seq,
            Seq::empty(),
            max_events,
            max_raw,
            next_seq as int,
        );
    }
}

// -------------------------------------------------------------- replaying
/// The event at a sequence of a feed, given all its chunks.
pub open spec fn event_at(
    refs: Seq<CatalogChunkRef>,
    chunks: Map<Digest, FetchedView<ChunkView>>,
    seq: u64,
) -> Option<FrameView> {
    match chunk_at(refs, seq) {
        None => None,
        Some(c) => if chunks.contains_key(c.digest) {
            match chunks[c.digest] {
                FetchedView::Object { object, .. } => Some(object.frames[seq - c.first_seq]),
                _ => None,
            }
        } else {
            None
        },
    }
}

/// Whether `events` are the events of the feed from `from` on.
pub open spec fn events_from(
    refs: Seq<CatalogChunkRef>,
    chunks: Map<Digest, FetchedView<ChunkView>>,
    events: Seq<FrameView>,
    from: u64,
) -> bool {
    forall|i: int|
        0 <= i < events.len() ==> event_at(refs, chunks, (from + i) as u64) == Some(
            #[trigger] events[i],
        )
}

proof fn lemma_taken_pieces(
    frames: Seq<FrameView>,
    i: nat,
    events: Seq<FrameView>,
    max_events: u32,
    max_raw: u64,
)
    requires
        i <= frames.len(),
    ensures
        match taken(frames, i, events, max_events, max_raw) {
            Taken::Full(e) => continues(events, frames, i, e),
            Taken::More(e) => continues(events, frames, i, e),
            Taken::TooLarge(_) => true,
        },
    decreases frames.len() - i,
{
    if i < frames.len() {
        let next = events.push(frames[i as int]);
        lemma_taken_pieces(frames, i + 1, next, max_events, max_raw);
        assert(continues(events, frames, i, next));
        match taken(frames, i + 1, next, max_events, max_raw) {
            Taken::Full(e) => {
                if continues(next, frames, i + 1, e) {
                    lemma_continues(events, frames, i, next, e);
                }
            },
            Taken::More(e) => {
                if continues(next, frames, i + 1, e) {
                    lemma_continues(events, frames, i, next, e);
                }
            },
            Taken::TooLarge(_) => {},
        }
    }
}

/// Whether `e` is `events` and then some frames from `i` on.
spec fn continues(events: Seq<FrameView>, frames: Seq<FrameView>, i: nat, e: Seq<FrameView>) -> bool {
    &&& events.len() <= e.len()
    &&& i + e.len() - events.len() <= frames.len()
    &&& forall|j: int| 0 <= j < events.len() ==> #[trigger] e[j] == events[j]
    &&& forall|j: int|
        events.len() <= j < e.len() ==> #[trigger] e[j] == frames[i + j - events.len()]
}

proof fn lemma_continues(
    events: Seq<FrameView>,
    frames: Seq<FrameView>,
    i: nat,
    next: Seq<FrameView>,
    e: Seq<FrameView>,
)
    requires
        i < frames.len(),
        next == events.push(frames[i as int]),
        continues(next, frames, i + 1, e),
    ensures
        continues(events, frames, i, e),
{
    assert forall|j: int| 0 <= j < events.len() implies #[trigger] e[j] == events[j] by {
        assert(e[j] == next[j]);
    }
    assert forall|j: int| events.len() <= j < e.len() implies #[trigger] e[j] == frames[i + j
        - events.len()] by {
        if j == events.len() {
            assert(e[j] == next[j]);
        }
    }
}

proof fn lemma_page_pieces(
    nodes: Map<Digest, FetchedView<CatalogNodeView>>,
    chunks: Map<Digest, FetchedView<ChunkView>>,
    root: ChunkCatalogRoot,
    head: u64,
    seq: u64,
    events: Seq<FrameView>,
    max_events: u32,
    max_raw: u64,
    from: u64,
)
    requires
        contents(nodes, CatalogState::Root { root }) is Some,
        head < u64::MAX,
        seq == from + events.len(),
        run_from(events, from as int),
        events.len() <= max_events,
        raw_bytes(events) <= max_raw,
        seq <= head + 1,
        events_from(contents(nodes, CatalogState::Root { root })->0, chunks, events, from),
    ensures
        page_from(
            nodes,
            chunks,
            CatalogState::Root { root },
            head,
            seq,
            events,
            max_events,
            max_raw,
        ) matches PageView::Page { frames, .. } ==> events_from(
            contents(nodes, CatalogState::Root { root })->0,
            chunks,
            frames,
            from,
        ),
    decreases head + 1 - seq,
{
    let refs = contents(nodes, CatalogState::Root { root })->0;
    if seq <= head && events.len() < max_events && root.first_seq <= seq <= root.last_seq {
        lemma_seek_agrees(nodes, root, seq);
        let c = chunk_at(refs, seq)->0;
        if chunks.contains_key(c.digest) {
            match chunks[c.digest] {
                FetchedView::Object { len, object } => {
                    if chunk_fits(c, head, len, object) {
                        let start = (seq - c.first_seq) as nat;
                        lemma_taken_pieces(object.frames, start, events, max_events, max_raw);
                        lemma_taken_runs(
                            object.frames,
                            start,
                            events,
                            max_events,
                            max_raw,
                            from as int,
                        );
                        match taken(object.frames, start, events, max_events, max_raw) {
                            Taken::More(e) => {
                                lemma_piece_events(refs, chunks, c, object, len, events, e, start, from);
                                if e.len() > 0 && seq <= e.last().seq <= head {
                                    assert(e[e.len() - 1].seq == from + e.len() - 1);
                                    lemma_page_pieces(
                                        nodes,
                                        chunks,
                                        root,
                                        head,
                                        (e.last().seq + 1) as u64,
                                        e,
                                        max_events,
                                        max_raw,
                                        from,
                                    );
                                }
                            },
                            Taken::Full(e) => {
                                lemma_piece_events(refs, chunks, c, object, len, events, e, start, from);
                            },
                            Taken::TooLarge(_) => {},
                        }
                    }
                },
                _ => {},
            }
        }
    }
}

proof fn lemma_piece_events(
    refs: Seq<CatalogChunkRef>,
    chunks: Map<Digest, FetchedView<ChunkView>>,
    c: CatalogChunkRef,
    object: ChunkView,
    len: nat,
    events: Seq<FrameView>,
    e: Seq<FrameView>,
    start: nat,
    from: u64,
)
    requires
        chunks.contains_key(c.digest),
        chunks[c.digest] == (FetchedView::Object { len, object }),
        forall|s: u64|
            c.first_seq <= s <= c.last_seq ==> #[trigger] chunk_at(refs, s) == Some(c),
        c.first_seq + object.frames.len() - 1 == c.last_seq,
        from + events.len() == c.first_seq + start,
        events_from(refs, chunks, events, from),
        continues(events, object.frames, start, e),
    ensures
        events_from(refs, chunks, e, from),
{
    assert forall|i: int| 0 <= i < e.len() implies event_at(refs, chunks, (from + i) as u64) == Some(
        #[trigger] e[i],
    ) by {
        if i < events.len() {
            assert(e[i] == events[i]);
        } else {
            let k = start + i - events.len();
            assert(e[i] == object.frames[k]);
            assert(chunk_at(refs, (c.first_seq + k) as u64) == Some(c));
            assert(from + i == c.first_seq + k);
        }
    }
}

/// A page holds the events of the feed, byte for byte: those that its chunks
/// have at the sequences from the cursor on. So pages that are read again,
/// or with other limits, never disagree.
pub proof fn law_page_is_a_piece_of_the_feed(
    manifest: CompleteView,
    root: ChunkCatalogRoot,
    next_seq: u64,
    nodes: Map<Digest, FetchedView<CatalogNodeView>>,
    chunks: Map<Digest, FetchedView<ChunkView>>,
    max_events: u32,
    max_raw: u64,
)
    requires
        limits_ok(max_events, max_raw),
        manifest.catalog == (CatalogState::Root { root }),
        contents(nodes, manifest.catalog) is Some,
    ensures
        page_view(Some(manifest), next_seq, nodes, chunks, max_events, max_raw) matches
            PageView::Page { frames, .. } ==> events_from(
            contents(nodes, manifest.catalog)->0,
            chunks,
            frames,
            next_seq,
        ),
{
    let m = manifest;
    if m.head_seq < u64::MAX && 0 < next_seq <= m.head_seq + 1 && !(m.trim_before_seq > 0 && next_seq
        <= m.trim_before_seq) {
        lemma_page_pieces(
            nodes,
            chunks,
            root,
            m.head_seq,
            next_seq,
            Seq::empty(),
            max_events,
            max_raw,
            next_seq,
        );
    }
}

/// Whether all of a feed is known and holds together: its catalog, and every
/// chunk that the catalog has.
pub open spec fn feed_known(
    manifest: CompleteView,
    root: ChunkCatalogRoot,
    nodes: Map<Digest, FetchedView<CatalogNodeView>>,
    chunks: Map<Digest, FetchedView<ChunkView>>,
) -> bool {
    &&& manifest.head_seq < u64::MAX
    &&& manifest.catalog == (CatalogState::Root { root })
    &&& root.first_seq == manifest.trim_before_seq + 1
    &&& root.last_seq == manifest.head_seq
    &&& contents(nodes, manifest.catalog) is Some
    &&& forall|s: u64|
        root.first_seq <= s <= root.last_seq ==> (#[trigger] chunk_at(
            contents(nodes, manifest.catalog)->0,
            s,
        ) matches Some(c) && chunks.contains_key(c.digest) && (chunks[c.digest] matches
            FetchedView::Object { len, object } && chunk_fits(c, manifest.head_seq, len, object)))
}

proof fn lemma_taken_grows(
    frames: Seq<FrameView>,
    i: nat,
    events: Seq<FrameView>,
    max_events: u32,
    max_raw: u64,
)
    requires
        i < frames.len(),
    ensures
        taken(frames, i, events, max_events, max_raw) matches Taken::More(e) ==> e.len()
            > events.len(),
{
    lemma_taken_pieces(frames, i + 1, events.push(frames[i as int]), max_events, max_raw);
}

proof fn lemma_page_succeeds(
    manifest: CompleteView,
    root: ChunkCatalogRoot,
    nodes: Map<Digest, FetchedView<CatalogNodeView>>,
    chunks: Map<Digest, FetchedView<ChunkView>>,
    seq: u64,
    events: Seq<FrameView>,
    max_events: u32,
    max_raw: u64,
    from: u64,
)
    requires
        feed_known(manifest, root, nodes, chunks),
        root.first_seq <= seq <= manifest.head_seq + 1,
        seq == from + events.len(),
        run_from(events, from as int),
        events.len() <= max_events,
        raw_bytes(events) <= max_raw,
    ensures
        ({
            let r = page_from(
                nodes,
                chunks,
                manifest.catalog,
                manifest.head_seq,
                seq,
                events,
                max_events,
                max_raw,
            );
            r is Page || r is TooLarge
        }),
    decreases manifest.head_seq + 1 - seq,
{
    let head = manifest.head_seq;
    if seq <= head && events.len() < max_events {
        lemma_seek_agrees(nodes, root, seq);
        let refs = contents(nodes, manifest.catalog)->0;
        let c = chunk_at(refs, seq)->0;
        match chunks[c.digest] {
            FetchedView::Object { len, object } => {
                let start = (seq - c.first_seq) as nat;
                assert(start < object.frames.len());
                lemma_taken_pieces(object.frames, start, events, max_events, max_raw);
                lemma_taken_grows(object.frames, start, events, max_events, max_raw);
                lemma_taken_runs(object.frames, start, events, max_events, max_raw, from as int);
                match taken(object.frames, start, events, max_events, max_raw) {
                    Taken::More(e) => {
                        let last = e.len() - 1;
                        assert(e[last].seq == from + last);
                        assert(e[last] == object.frames[start + last - events.len()]);
                        lemma_page_succeeds(
                            manifest,
                            root,
                            nodes,
                            chunks,
                            (e.last().seq + 1) as u64,
                            e,
                            max_events,
                            max_raw,
                            from,
                        );
                    },
                    _ => {},
                }
            },
            _ => {},
        }
    }
}

/// A feed that is known and holds together is read: every cursor that was
/// not trimmed gets a page, unless the event there is too large for one.
pub proof fn law_sound_feed_is_read(
    manifest: CompleteView,
    root: ChunkCatalogRoot,
    next_seq: u64,
    nodes: Map<Digest, FetchedView<CatalogNodeView>>,
    chunks: Map<Digest, FetchedView<ChunkView>>,
    max_events: u32,
    max_raw: u64,
)
    requires
        limits_ok(max_events, max_raw),
        feed_known(manifest, root, nodes, chunks),
        manifest.trim_before_seq < next_seq <= manifest.head_seq + 1,
    ensures
        ({
            let r = page_view(Some(manifest), next_seq, nodes, chunks, max_events, max_raw);
            r is Page || r is TooLarge
        }),
{
    lemma_page_succeeds(
        manifest,
        root,
        nodes,
        chunks,
        next_seq,
        Seq::empty(),
        max_events,
        max_raw,
        next_seq,
    );
}

/// What reading page after page from `next_seq` on brings, up to the head.
pub open spec fn replayed(
    manifest: CompleteView,
    next_seq: u64,
    nodes: Map<Digest, FetchedView<CatalogNodeView>>,
    chunks: Map<Digest, FetchedView<ChunkView>>,
    max_events: u32,
    max_raw: u64,
) -> Seq<FrameView>
    decreases manifest.head_seq + 1 - next_seq,
{
    match page_view(Some(manifest), next_seq, nodes, chunks, max_events, max_raw) {
        PageView::Page { frames, next } => if next_seq < next <= manifest.head_seq + 1 {
            frames + replayed(manifest, next, nodes, chunks, max_events, max_raw)
        } else {
            frames
        },
        _ => Seq::empty(),
    }
}

/// Reading page after page brings every event of the feed once, in order and
/// byte for byte, whatever the limits of the pages, if each event fits into a
/// page.
pub proof fn law_pages_replay_the_feed(
    manifest: CompleteView,
    root: ChunkCatalogRoot,
    next_seq: u64,
    nodes: Map<Digest, FetchedView<CatalogNodeView>>,
    chunks: Map<Digest, FetchedView<ChunkView>>,
    max_events: u32,
    max_raw: u64,
)
    requires
        limits_ok(max_events, max_raw),
        feed_known(manifest, root, nodes, chunks),
        manifest.trim_before_seq < next_seq <= manifest.head_seq + 1,
        forall|s: u64|
            next_seq <= s <= manifest.head_seq ==> (#[trigger] event_at(
                contents(nodes, manifest.catalog)->0,
                chunks,
                s,
            ) matches Some(f) && f.payload.len() <= max_raw),
    ensures
        ({
            let all = replayed(manifest, next_seq, nodes, chunks, max_events, max_raw);
            &&& all.len() == manifest.head_seq + 1 - next_seq
            &&& events_from(contents(nodes, manifest.catalog)->0, chunks, all, next_seq)
        }),
    decreases manifest.head_seq + 1 - next_seq,
{
    let refs = contents(nodes, manifest.catalog)->0;
    law_sound_feed_is_read(manifest, root, next_seq, nodes, chunks, max_events, max_raw);
    law_page_is_contiguous(manifest, next_seq, nodes, chunks, max_events, max_raw);
    law_page_is_a_piece_of_the_feed(manifest, root, next_seq, nodes, chunks, max_events, max_raw);
    match page_view(Some(manifest), next_seq, nodes, chunks, max_events, max_raw) {
        PageView::Page { frames, next } => {
            if next_seq < next {
                law_pages_replay_the_feed(
                    manifest,
                    root,
                    next,
                    nodes,
                    chunks,
                    max_events,
                    max_raw,
                );
                let rest = replayed(manifest, next, nodes, chunks, max_events, max_raw);
                let all = frames + rest;
                assert forall|i: int| 0 <= i < all.len() implies event_at(
                    refs,
                    chunks,
                    (next_seq + i) as u64,
                ) == Some(#[trigger] all[i]) by {
                    if i < frames.len() {
                        assert(all[i] == frames[i]);
                    } else {
                        assert(all[i] == rest[i - frames.len()]);
                        assert(next + (i - frames.len()) == next_seq + i);
                    }
                }
            }
        },
        PageView::TooLarge { .. } => {
            lemma_large_event(manifest, root, next_seq, nodes, chunks, max_events, max_raw);
        },
        _ => {},
    }
}

/// The event that is too large for a page is the one at the cursor.
proof fn lemma_large_event(
    manifest: CompleteView,
    root: ChunkCatalogRoot,
    next_seq: u64,
    nodes: Map<Digest, FetchedView<CatalogNodeView>>,
    chunks: Map<Digest, FetchedView<ChunkView>>,
    max_events: u32,
    max_raw: u64,
)
    requires
        limits_ok(max_events, max_raw),
        feed_known(manifest, root, nodes, chunks),
        manifest.trim_before_seq < next_seq <= manifest.head_seq + 1,
        page_view(Some(manifest), next_seq, nodes, chunks, max_events, max_raw) is TooLarge,
    ensures
        next_seq <= manifest.head_seq,
        event_at(contents(nodes, manifest.catalog)->0, chunks, next_seq) matches Some(f)
            && f.payload.len() > max_raw,
{
    lemma_seek_agrees(nodes, root, next_seq);
    let refs = contents(nodes, manifest.catalog)->0;
    let c = chunk_at(refs, next_seq)->0;
    let object = chunks[c.digest]->object;
    let start = (next_seq - c.first_seq) as nat;
    let none = Seq::<FrameView>::empty();
    assert(start < object.frames.len());
    if object.frames[start as int].payload.len() <= max_raw {
        let one = none.push(object.frames[start as int]);
        assert(one.drop_last() =~= none);
        lemma_taken_runs(object.frames, start, none, max_events, max_raw, next_seq as int);
        match taken(object.frames, start, none, max_events, max_raw) {
            Taken::TooLarge(_) => {
                lemma_never_too_large(object.frames, start + 1, one, max_events, max_raw);
            },
            Taken::More(e) => {
                lemma_taken_grows(object.frames, start, none, max_events, max_raw);
                lemma_page_never_too_large(
                    nodes,
                    chunks,
                    manifest.catalog,
                    manifest.head_seq,
                    (e.last().seq + 1) as u64,
                    e,
                    max_events,
                    max_raw,
                );
            },
            Taken::Full(_) => {},
        }
    }
}

proof fn lemma_never_too_large(
    frames: Seq<FrameView>,
    i: nat,
    events: Seq<FrameView>,
    max_events: u32,
    max_raw: u64,
)
    requires
        events.len() > 0,
    ensures
        !(taken(frames, i, events, max_events, max_raw) is TooLarge),
        taken(frames, i, events, max_events, max_raw) matches Taken::More(e) ==> e.len() > 0,
    decreases frames.len() - i,
{
    if i < frames.len() {
        lemma_never_too_large(frames, i + 1, events.push(frames[i as int]), max_events, max_raw);
    }
}

proof fn lemma_page_never_too_large(
    nodes: Map<Digest, FetchedView<CatalogNodeView>>,
    chunks: Map<Digest, FetchedView<ChunkView>>,
    catalog: CatalogState,
    head: u64,
    seq: u64,
    events: Seq<FrameView>,
    max_events: u32,
    max_raw: u64,
)
    requires
        events.len() > 0,
    ensures
        !(page_from(nodes, chunks, catalog, head, seq, events, max_events, max_raw) is TooLarge),
    decreases head + 1 - seq,
{
    if seq <= head && events.len() < max_events {
        match catalog {
            CatalogState::Root { root } => match seek(nodes, root.digest, seq, 0) {
                SeekView::Leaf(refs) => match chunk_at(refs, seq) {
                    Some(c) => if chunks.contains_key(c.digest) {
                        match chunks[c.digest] {
                            FetchedView::Object { len, object } => {
                                let start = (seq - c.first_seq) as nat;
                                lemma_never_too_large(
                                    object.frames,
                                    start,
                                    events,
                                    max_events,
                                    max_raw,
                                );
                                match taken(object.frames, start, events, max_events, max_raw) {
                                    Taken::More(e) => if seq <= e.last().seq <= head && head
                                        < u64::MAX {
                                        lemma_page_never_too_large(
                                            nodes,
                                            chunks,
                                            catalog,
                                            head,
                                            (e.last().seq + 1) as u64,
                                            e,
                                            max_events,
                                            max_raw,
                                        );
                                    },
                                    _ => {},
                                }
                            },
                            _ => {},
                        }
                    },
                    None => {},
                },
                _ => {},
            },
            _ => {},
        }
    }
}

// ------------------------------------------------------- what is taken
/// What a page may be asked for: from 1 to 1024 events, and from 1 byte to
/// half a mebibyte. Bytes are counted event by event.
pub proof fn law_page_limits(max_events: u32, max_raw: u64, frames: Seq<FrameView>, f: FrameView)
    ensures
        limits_ok(max_events, max_raw) <==> 1 <= max_events <= 1024 && 1 <= max_raw <= 512 * 1024,
        raw_bytes(frames.push(f)) == raw_bytes(frames) + f.payload.len(),
        raw_bytes(Seq::empty()) == 0,
{
    assert(frames.push(f).drop_last() =~= frames);
}

/// A cursor is judged by the feed alone: the one right behind the head is the
/// last that there is, one at or before the floor is sent to the first event
/// behind it, and every other one is read.
pub proof fn law_cursor_is_judged_by_the_feed(
    m: CompleteView,
    next_seq: u64,
    nodes: Map<Digest, FetchedView<CatalogNodeView>>,
    chunks: Map<Digest, FetchedView<ChunkView>>,
    max_events: u32,
    max_raw: u64,
)
    requires
        m.head_seq < u64::MAX,
        m.trim_before_seq <= m.head_seq,
        limits_ok(max_events, max_raw),
    ensures
        ({
            let v = page_view(Some(m), next_seq, nodes, chunks, max_events, max_raw);
            &&& v is InvalidCursor <==> next_seq == 0 || next_seq > m.head_seq + 1
            &&& v matches PageView::InvalidCursor { next_at_head } ==> next_at_head == m.head_seq
                + 1
            &&& v is Trimmed <==> 0 < next_seq <= m.trim_before_seq
            &&& v matches PageView::Trimmed { resume_at } ==> resume_at == m.trim_before_seq + 1
            &&& next_seq == m.head_seq + 1 ==> v == (PageView::Page {
                frames: Seq::empty(),
                next: next_seq,
            })
        }),
        page_view(None, 1, nodes, chunks, max_events, max_raw) == (PageView::Page {
            frames: Seq::empty(),
            next: 1,
        }),
        next_seq != 1 ==> page_view(None, next_seq, nodes, chunks, max_events, max_raw) == (
        PageView::InvalidCursor { next_at_head: 1 }),
{
    if 0 < next_seq <= m.head_seq + 1 && next_seq > m.trim_before_seq {
        lemma_page_kind(
            nodes,
            chunks,
            m.catalog,
            m.head_seq,
            next_seq,
            Seq::empty(),
            max_events,
            max_raw,
        );
    }
}

proof fn lemma_page_kind(
    nodes: Map<Digest, FetchedView<CatalogNodeView>>,
    chunks: Map<Digest, FetchedView<ChunkView>>,
    catalog: CatalogState,
    head: u64,
    seq: u64,
    events: Seq<FrameView>,
    max_events: u32,
    max_raw: u64,
)
    ensures
        ({
            let v = page_from(nodes, chunks, catalog, head, seq, events, max_events, max_raw);
            !(v is InvalidCursor) && !(v is Trimmed)
        }),
    decreases head + 1 - seq,
{
    if seq <= head && events.len() < max_events {
        match catalog {
            CatalogState::Root { root } => match seek(nodes, root.digest, seq, 0) {
                SeekView::Leaf(refs) => match chunk_at(refs, seq) {
                    Some(c) => {
                        if chunks.contains_key(c.digest) {
                            match chunks[c.digest] {
                                FetchedView::Object { len, object } => {
                                    match taken(
                                        object.frames,
                                        (seq - c.first_seq) as nat,
                                        events,
                                        max_events,
                                        max_raw,
                                    ) {
                                        Taken::More(e) => {
                                            if e.len() > 0 && seq <= e.last().seq <= head && head
                                                < u64::MAX {
                                                lemma_page_kind(
                                                    nodes,
                                                    chunks,
                                                    catalog,
                                                    head,
                                                    (e.last().seq + 1) as u64,
                                                    e,
                                                    max_events,
                                                    max_raw,
                                                );
                                            }
                                        },
                                        _ => {},
                                    }
                                },
                                _ => {},
                            }
                        }
                    },
                    None => {},
                },
                _ => {},
            },
            CatalogState::Empty => {},
        }
    }
}

/// Whether some chunk has an event at `seq` that does not fit behind `frames`.
pub open spec fn has_no_room(
    chunks: Map<Digest, FetchedView<ChunkView>>,
    frames: Seq<FrameView>,
    seq: u64,
    max_raw: u64,
    d: Digest,
    k: int,
) -> bool {
    &&& chunks.contains_key(d)
    &&& chunks[d] matches FetchedView::Object { object, .. } && 0 <= k < object.frames.len()
        && object.frames[k].seq == seq && raw_bytes(frames) + object.frames[k].payload.len()
        > max_raw
}

proof fn lemma_taken_full(
    frames: Seq<FrameView>,
    i: nat,
    events: Seq<FrameView>,
    max_events: u32,
    max_raw: u64,
    from: int,
)
    requires
        run_from(events, from),
        events.len() < max_events,
        forall|j: int|
            i <= j < frames.len() ==> (#[trigger] frames[j]).seq == from + events.len() + j - i,
    ensures
        taken(frames, i, events, max_events, max_raw) matches Taken::Full(e) ==> exists|k: int|
            i <= k < frames.len() && (#[trigger] frames[k]).seq == from + e.len() && raw_bytes(e)
                + frames[k].payload.len() > max_raw,
    decreases frames.len() - i,
{
    if i < frames.len() {
        let f = frames[i as int];
        let next = events.push(f);
        assert(run_from(next, from)) by {
            assert forall|j: int| 0 <= j < next.len() implies (#[trigger] next[j]).seq == from + j by {
                if j < events.len() {
                    assert(events[j].seq == from + j);
                }
            }
        }
        if events.len() > 0 && raw_bytes(events) + f.payload.len() > max_raw {
            assert(frames[i as int].seq == from + events.len());
        } else if events.len() + 1 < max_events && !(events.len() == 0 && f.payload.len()
            > max_raw) {
            lemma_taken_full(frames, i + 1, next, max_events, max_raw, from);
            match taken(frames, i + 1, next, max_events, max_raw) {
                Taken::Full(e) => {
                    let k = choose|k: int|
                        i + 1 <= k < frames.len() && (#[trigger] frames[k]).seq == from + e.len()
                            && raw_bytes(e) + frames[k].payload.len() > max_raw;
                    assert(i <= k && frames[k].seq == from + e.len());
                },
                _ => {},
            }
        }
    }
}

proof fn lemma_page_full(
    nodes: Map<Digest, FetchedView<CatalogNodeView>>,
    chunks: Map<Digest, FetchedView<ChunkView>>,
    catalog: CatalogState,
    head: u64,
    seq: u64,
    events: Seq<FrameView>,
    max_events: u32,
    max_raw: u64,
    from: int,
)
    requires
        head < u64::MAX,
        run_from(events, from),
        seq == from + events.len(),
        seq <= head + 1,
        events.len() <= max_events,
        raw_bytes(events) <= max_raw,
    ensures
        page_from(nodes, chunks, catalog, head, seq, events, max_events, max_raw) matches
            PageView::Page { frames, next } ==> next > head || frames.len() >= max_events || exists|
            d: Digest,
            k: int,
        | #[trigger] has_no_room(chunks, frames, next, max_raw, d, k),
    decreases head + 1 - seq,
{
    if seq <= head && events.len() < max_events {
        match catalog {
            CatalogState::Root { root } => match seek(nodes, root.digest, seq, 0) {
                SeekView::Leaf(refs) => match chunk_at(refs, seq) {
                    Some(c) => {
                        lemma_chunk_at(refs, seq);
                        if chunks.contains_key(c.digest) {
                            match chunks[c.digest] {
                                FetchedView::Object { len, object } => {
                                    if chunk_fits(c, head, len, object) {
                                        let start = (seq - c.first_seq) as nat;
                                        lemma_taken_runs(
                                            object.frames,
                                            start,
                                            events,
                                            max_events,
                                            max_raw,
                                            from,
                                        );
                                        lemma_taken_full(
                                            object.frames,
                                            start,
                                            events,
                                            max_events,
                                            max_raw,
                                            from,
                                        );
                                        match taken(
                                            object.frames,
                                            start,
                                            events,
                                            max_events,
                                            max_raw,
                                        ) {
                                            Taken::More(e) => {
                                                if e.len() > 0 && seq <= e.last().seq <= head {
                                                    assert(e[e.len() - 1].seq == from + e.len() - 1);
                                                    lemma_page_full(
                                                        nodes,
                                                        chunks,
                                                        catalog,
                                                        head,
                                                        (e.last().seq + 1) as u64,
                                                        e,
                                                        max_events,
                                                        max_raw,
                                                        from,
                                                    );
                                                }
                                            },
                                            Taken::Full(e) => {
                                                assert(e[e.len() - 1].seq == from + e.len() - 1);
                                                let k = choose|k: int|
                                                    start <= k < object.frames.len() && (
                                                    #[trigger] object.frames[k]).seq == from
                                                        + e.len() && raw_bytes(e)
                                                        + object.frames[k].payload.len() > max_raw;
                                                assert(has_no_room(
                                                    chunks,
                                                    e,
                                                    (e.last().seq + 1) as u64,
                                                    max_raw,
                                                    c.digest,
                                                    k,
                                                ));
                                            },
                                            Taken::TooLarge(_) => {},
                                        }
                                    }
                                },
                                _ => {},
                            }
                        }
                    },
                    None => {},
                },
                _ => {},
            },
            CatalogState::Empty => {},
        }
    }
}

/// A page is as long as it may be: it ends at the head, at the number of
/// events that was asked for, or at an event that has no room on it.
pub proof fn law_page_is_full(
    m: CompleteView,
    next_seq: u64,
    nodes: Map<Digest, FetchedView<CatalogNodeView>>,
    chunks: Map<Digest, FetchedView<ChunkView>>,
    max_events: u32,
    max_raw: u64,
)
    requires
        limits_ok(max_events, max_raw),
    ensures
        page_view(Some(m), next_seq, nodes, chunks, max_events, max_raw) matches PageView::Page {
            frames,
            next,
        } ==> next == m.head_seq + 1 || frames.len() == max_events || exists|d: Digest, k: int|
            #[trigger] has_no_room(chunks, frames, next, max_raw, d, k),
{
    law_page_is_contiguous(m, next_seq, nodes, chunks, max_events, max_raw);
    if m.head_seq < u64::MAX && 0 < next_seq <= m.head_seq + 1 && !(m.trim_before_seq > 0 && next_seq
        <= m.trim_before_seq) {
        lemma_page_full(
            nodes,
            chunks,
            m.catalog,
            m.head_seq,
            next_seq,
            Seq::empty(),
            max_events,
            max_raw,
            next_seq as int,
        );
    }
}

/// A chunk fits its entry in the catalog exactly if it is as long as that
/// says, has its schema, from 1 to 2048 events without a gap over the span
/// that it says, none behind the head, and as many bytes as it says.
pub proof fn law_chunk_fits_its_entry(c: CatalogChunkRef, head: u64, len: nat, v: ChunkView)
    ensures
        chunk_fits(c, head, len, v) <==> len == c.plaintext_bytes && v.schema
            == "comb.log.chunk/v1"@ && 1 <= v.frames.len() <= 2048 && v.frames.len()
            == c.event_count && c.last_seq == c.first_seq + v.frames.len() - 1 && c.last_seq
            < u64::MAX && c.last_seq <= head && raw_bytes(v.frames) == c.raw_payload_bytes && (
        forall|i: int|
            0 <= i < v.frames.len() ==> (#[trigger] v.frames[i]).seq == c.first_seq + i),
{
}

/// A manifest is sound exactly if it is of its feed, complete, of the epoch of
/// its header, and if its floor, its catalog, its index and its head agree.
pub proof fn law_sound_manifest_is_taken(m: CompleteView, resource: Seq<char>)
    ensures
        manifest_fits(m, resource) <==> m.header.resource@ == resource && m.log == resource
            && m.retention == RetentionMode::Complete && m.header.epoch == m.epoch
            && m.trim_before_seq <= m.head_seq && (match m.catalog {
            CatalogState::Empty => m.head_seq == 0,
            CatalogState::Root { root } => 0 < root.first_seq <= root.last_seq && root.first_seq
                - 1 == m.trim_before_seq && root.last_seq == m.head_seq && 0 < root.chunk_count
                <= root.last_seq - m.trim_before_seq,
        }) && root_fits(
            m.stable_index,
            IndexHead { generation: m.header.generation, head_seq: m.head_seq },
        ) && (m.head_seq == 0 <==> m.stable_index.entries == 0),
{
}

/// A ref is bound to its commit exactly if both are of the resource, if it is
/// the commit of the ref's generation, under an epoch that is not ahead, and
/// if the ref points where the commit says.
pub proof fn law_ref_is_bound_to_its_commit(
    resource: Seq<char>,
    value: RefValue,
    v: CommitRecord,
)
    ensures
        bound(resource, value, v) <==> v.header.resource@ == resource && value.name@ == resource
            && v.header.generation == value.generation && v.header.epoch <= value.epoch
            && value.target == if v.target_follows_commit {
            Some(v.digest)
        } else if v.ref_state is Some {
            v.ref_state->0.target
        } else {
            None
        },
{
}

/// A feed is read from the manifest that its ref points at, if the commit of
/// the ref and the manifest are sound; only a ref that was never published, or
/// points nowhere, has nothing to read.
pub proof fn law_published_feed_is_read(
    resource: Seq<char>,
    value: RefValue,
    v: CommitRecord,
    f: FoundManifest,
)
    ensures
        value.head_commit matches Some(d) ==> published_view(resource, value, None, None)
            == PublishedView::FetchCommit(d),
        value.head_commit is None && value.generation == 0 && value.target is None
            ==> published_view(resource, value, None, None) is Nothing,
        value.head_commit is None && (value.generation > 0 || value.target is Some)
            ==> published_view(resource, value, None, None) is Integrity,
        value.head_commit is Some && bound(resource, value, v) ==> {
            &&& value.target is None ==> published_view(resource, value, Some(v), None) is Nothing
            &&& value.target matches Some(t) ==> published_view(resource, value, Some(v), None)
                == PublishedView::FetchManifest(t) && (manifest_kind(f.payload@) is Other && (
            f.manifest matches Ok(m) && manifest_fits(m@, resource)) ==> published_view(
                resource,
                value,
                Some(v),
                Some(f),
            ) == PublishedView::Manifest(f.manifest->Ok_0@))
        },
        value.head_commit is Some && !bound(resource, value, v) ==> published_view(
            resource,
            value,
            Some(v),
            Some(f),
        ) is Integrity,
        published_view(resource, value, Some(v), Some(f)) matches PublishedView::Manifest(m)
            ==> bound(resource, value, v) && manifest_fits(m, resource),
{
}

} // verus!
