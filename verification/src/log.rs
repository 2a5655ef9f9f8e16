//! Logs: manifests, chunks of frames, writers, reading, trimming and
//! compacting.
use vstd::prelude::*;
use vstd::utf8::encode_utf8;

use crate::bytes::{be64, copy_bytes, put_u64};
use crate::commit::{Admission, CommitHeader};
use crate::digest::{digest_of, Digest, DigestKey};
use crate::envelope::ObjectKind;
use crate::error::{rejected, CoreError, ErrorView, Result};
use crate::hamt::{EntryView, StableIndexEntry, StableIndexRoot};
use crate::json::{object_json, object_string, reads_as, scalars_view, JsonView, Scalar};
use crate::operation::{Material, MaterialView};
use crate::plans::{refused_as, PrepareCtx, PreparedMutation, Refusal, Upload};
use crate::refs::{Lease, RefValue};
use crate::session::{failure_message, failure_text};
use crate::store::Failure;
use crate::table::{Fetched, FetchedView, Step, Table};
use crate::text::{decimal, decimal_text, join2, join3, join4, same_text};
use crate::time::{is_moment, Timestamp};

verus! {

pub const MANIFEST_SCHEMA: &'static str = "comb.log.partition-manifest/v2";

pub const CHUNK_SCHEMA: &'static str = "comb.log.chunk/v1";

pub const MAX_APPEND_EVENTS: usize = 2048;

pub const MAX_APPEND_BYTES: usize = 524_288;

pub const MAX_ADMISSIONS: usize = 2048;

/// Whether a log may forget its beginning.
#[derive(Clone, Copy, Debug, PartialEq, Eq, Structural)]
pub enum RetentionMode {
    Trimmable,
    Complete,
}

/// How a log is opened.
#[derive(Clone, Copy, Debug, PartialEq, Eq, Structural)]
pub enum FeedMode {
    Trimmable,
    Complete,
}

impl FeedMode {
    pub open spec fn as_retention(self) -> RetentionMode {
        match self {
            FeedMode::Trimmable => RetentionMode::Trimmable,
            FeedMode::Complete => RetentionMode::Complete,
        }
    }

    pub fn retention(self) -> (r: RetentionMode)
        ensures
            r == self.as_retention(),
    {
        match self {
            FeedMode::Trimmable => RetentionMode::Trimmable,
            FeedMode::Complete => RetentionMode::Complete,
        }
    }
}

/// Where the events `first` to `last` are stored.
#[derive(Clone, Copy, Debug, PartialEq, Eq, Structural)]
pub struct ChunkRef {
    pub digest: Digest,
    pub first: u64,
    pub last: u64,
    pub bytes: u64,
    pub at: Timestamp,
}

/// The state of a log after a publication.
#[derive(Debug)]
pub struct LogManifest {
    pub schema: String,
    pub header: CommitHeader,
    pub log: String,
    pub epoch: u64,
    pub head_seq: u64,
    pub chunks: Vec<ChunkRef>,
    pub segments: Vec<ChunkRef>,
    pub trim_before_seq: u64,
    pub admitted: Vec<Admission>,
    pub retention: RetentionMode,
    pub stable_index: Option<StableIndexRoot>,
    pub stable_admissions: Vec<StableIndexEntry>,
    /// A JSON text, absent for null.
    pub result: Option<String>,
    pub ref_state: Option<RefValue>,
}

pub struct ManifestView {
    pub schema: Seq<char>,
    pub header: CommitHeader,
    pub log: Seq<char>,
    pub epoch: u64,
    pub head_seq: u64,
    pub chunks: Seq<ChunkRef>,
    pub segments: Seq<ChunkRef>,
    pub trim_before_seq: u64,
    pub admitted: Seq<Admission>,
    pub retention: RetentionMode,
    pub stable_index: Option<StableIndexRoot>,
    pub stable_admissions: Seq<EntryView>,
    pub result: Option<Seq<char>>,
    pub ref_state: Option<RefValue>,
}

pub open spec fn entries_view(s: Seq<StableIndexEntry>) -> Seq<EntryView> {
    s.map_values(|e: StableIndexEntry| e@)
}

impl View for LogManifest {
    type V = ManifestView;

    open spec fn view(&self) -> ManifestView {
        ManifestView {
            schema: self.schema@,
            header: self.header,
            log: self.log@,
            epoch: self.epoch,
            head_seq: self.head_seq,
            chunks: self.chunks@,
            segments: self.segments@,
            trim_before_seq: self.trim_before_seq,
            admitted: self.admitted@,
            retention: self.retention,
            stable_index: self.stable_index,
            stable_admissions: entries_view(self.stable_admissions@),
            result: match self.result {
                Some(s) => Some(s@),
                None => None,
            },
            ref_state: self.ref_state,
        }
    }
}

/// One event of a log.
#[derive(Debug)]
pub struct Frame {
    pub seq: u64,
    pub at: Timestamp,
    pub payload: Vec<u8>,
}

pub struct FrameView {
    pub seq: u64,
    pub at: Timestamp,
    pub payload: Seq<u8>,
}

impl View for Frame {
    type V = FrameView;

    open spec fn view(&self) -> FrameView {
        FrameView { seq: self.seq, at: self.at, payload: self.payload@ }
    }
}

impl Clone for Frame {
    fn clone(&self) -> (r: Self)
        ensures
            r@ == self@,
    {
        Frame { seq: self.seq, at: self.at, payload: copy_bytes(&self.payload) }
    }
}

/// A run of events as it is stored.
#[derive(Debug)]
pub struct ChunkBody {
    pub schema: String,
    pub frames: Vec<Frame>,
}

pub open spec fn frames_view(s: Seq<Frame>) -> Seq<FrameView> {
    s.map_values(|f: Frame| f@)
}

impl View for ChunkBody {
    type V = Seq<FrameView>;

    open spec fn view(&self) -> Seq<FrameView> {
        frames_view(self.frames@)
    }
}

/// A range of sequence numbers.
#[derive(Clone, Copy, Debug, PartialEq, Eq, Structural)]
pub struct AppendRange {
    pub first: u64,
    pub last: u64,
}

/// The JSON object of a range.
pub open spec fn range_fields(r: AppendRange) -> Seq<(Seq<char>, JsonView)> {
    seq![("first"@, JsonView::Number(r.first)), ("last"@, JsonView::Number(r.last))]
}

pub fn range_json(r: AppendRange) -> (s: String)
    ensures
        s@ == object_string(range_fields(r)),
        reads_as(encode_utf8(s@), JsonView::Object(range_fields(r))),
{
    let mut fields: Vec<(String, Scalar)> = Vec::new();
    fields.push(("first".to_owned(), Scalar::Number(r.first)));
    fields.push(("last".to_owned(), Scalar::Number(r.last)));
    proof {
        reveal_strlit("first");
        reveal_strlit("last");
        assert("first"@.len() != "last"@.len());
        assert(scalars_view(fields@) =~= range_fields(r));
    }
    object_json(fields)
}

/// What came of an append.
#[derive(Clone, Copy, Debug, PartialEq, Eq, Structural)]
pub struct Appended {
    pub first: u64,
    pub last: u64,
    pub generation: u64,
    pub first_delivery: bool,
}

/// The receipt of a stable append.
#[derive(Clone, Copy, Debug, PartialEq, Eq, Structural)]
pub struct StableAppendReceipt {
    pub payload_hash: Digest,
    pub range: AppendRange,
    pub generation: u64,
}

/// Where a log stands.
#[derive(Clone, Copy, Debug, PartialEq, Eq, Structural)]
pub struct LogHead {
    pub head_seq: u64,
    pub next_seq: u64,
    pub epoch: u64,
    pub generation: u64,
}

/// The name of the ref of a log.
pub open spec fn log_ref(name: Seq<char>) -> Seq<char> {
    "log/"@ + name + "/p0"@
}

/// The name of the ref of a log.
pub fn log_ref_name(name: &str) -> (r: String)
    ensures
        r@ == log_ref(name@),
{
    join3("log/", name, "/p0")
}

/// Where a log stands, from its head and manifest if it was ever published.
pub fn head_of(status: Option<(&RefValue, &LogManifest)>) -> (r: LogHead)
    ensures
        match status {
            None => r == (LogHead { head_seq: 0, next_seq: 1, epoch: 0, generation: 0 }),
            Some((value, manifest)) => r == (LogHead {
                head_seq: manifest.head_seq,
                next_seq: if manifest.head_seq == u64::MAX {
                    u64::MAX
                } else {
                    (manifest.head_seq + 1) as u64
                },
                epoch: value.epoch,
                generation: value.generation,
            }),
        },
{
    match status {
        None => LogHead { head_seq: 0, next_seq: 1, epoch: 0, generation: 0 },
        Some((value, manifest)) => LogHead {
            head_seq: manifest.head_seq,
            next_seq: if manifest.head_seq == u64::MAX {
                u64::MAX
            } else {
                manifest.head_seq + 1
            },
            epoch: value.epoch,
            generation: value.generation,
        },
    }
}

/// What a manifest that was read for the ref `name` comes to.
pub open spec fn manifest_verdict(at: Option<Digest>, m: ManifestView, name: Seq<char>) -> Option<
    ErrorView,
> {
    if m.schema != MANIFEST_SCHEMA@ {
        Some(ErrorView::InvalidFormat("unsupported log manifest schema "@ + m.schema))
    } else if m.header.fault() is Some {
        m.header.fault()
    } else if m.header.resource@ != name || m.log != name {
        Some(
            ErrorView::RecoveryFailed(
                manifest_label(at) + " resource "@ + m.header.resource@ + " log "@ + m.log
                    + " does not match "@ + name,
            ),
        )
    } else {
        None
    }
}

/// How a manifest is spoken of: by where it was found, if that is known.
pub open spec fn manifest_label(at: Option<Digest>) -> Seq<char> {
    match at {
        Some(d) => "manifest "@ + d.text(),
        None => "manifest"@,
    }
}

/// Whether a manifest is that of the log at the ref `name`.
pub fn check_manifest(at: Option<Digest>, m: &LogManifest, name: &str) -> (r: Result<()>)
    ensures
        match manifest_verdict(at, m@, name@) {
            None => r is Ok,
            Some(c) => r matches Err(e) && e@ == c,
        },
{
    if !same_text(&m.schema, MANIFEST_SCHEMA) {
        return Err(
            CoreError::InvalidFormat(join2("unsupported log manifest schema ", &m.schema)),
        );
    }
    match m.header.validate() {
        Err(e) => {
            return Err(e);
        },
        Ok(_) => {},
    }
    if !same_text(&m.header.resource, name) || !same_text(&m.log, name) {
        let mut t: String = match at {
            Some(d) => join2("manifest ", &d.to_string()),
            None => "manifest".to_owned(),
        };
        t.append(" resource ");
        t.append(&m.header.resource);
        t.append(" log ");
        t.append(&m.log);
        t.append(" does not match ");
        t.append(name);
        return Err(CoreError::RecoveryFailed(t));
    }
    Ok(())
}

/// The manifest that was found at `digest`, if it is that of the log at the
/// ref `name`.
pub fn found_manifest(
    digest: &Digest,
    name: &str,
    found: core::result::Result<LogManifest, Failure>,
) -> (r: Result<LogManifest>)
    ensures
        match found {
            Err(Failure::Unreadable { detail }) => r matches Err(CoreError::RecoveryFailed(m)) && m@
                == "manifest "@ + digest.text() + ": "@ + detail@,
            Err(f) => r matches Err(CoreError::RecoveryFailed(m)) && m@ == "manifest "@
                + digest.text() + " unreadable: "@ + failure_message(f),
            Ok(m) => match manifest_verdict(Some(*digest), m@, name@) {
                None => r == Ok::<LogManifest, CoreError>(m),
                Some(c) => r matches Err(e) && e@ == c,
            },
        },
{
    let id: String = digest.to_string();
    match found {
        Err(Failure::Unreadable { detail }) => Err(
            CoreError::RecoveryFailed(join4("manifest ", &id, ": ", &detail)),
        ),
        Err(f) => Err(
            CoreError::RecoveryFailed(
                join4("manifest ", &id, " unreadable: ", &failure_text(&f)),
            ),
        ),
        Ok(m) => match check_manifest(Some(*digest), &m, name) {
            Err(e) => Err(e),
            Ok(_) => Ok(m),
        },
    }
}

/// Whether a log with the given retention may be opened as `feed`.
pub fn check_feed(retention: RetentionMode, feed: FeedMode) -> (r: Result<()>)
    ensures
        r is Ok <==> !(retention == RetentionMode::Complete && feed != FeedMode::Complete),
        r matches Err(e) ==> (e matches CoreError::Rejected(m) && m@
            == "refusing to open a complete feed as trimmable"@),
{
    if retention == RetentionMode::Complete && feed != FeedMode::Complete {
        return Err(rejected("refusing to open a complete feed as trimmable"));
    }
    Ok(())
}

// --------------------------------------------------------------- payloads
pub open spec fn payload_seqs(s: Seq<Vec<u8>>) -> Seq<Seq<u8>> {
    s.map_values(|p: Vec<u8>| p@)
}

/// How many bytes the payloads hold.
pub open spec fn total_bytes(s: Seq<Seq<u8>>) -> nat
    decreases s.len(),
{
    if s.len() == 0 {
        0
    } else {
        total_bytes(s.drop_last()) + s.last().len()
    }
}

/// Whether payloads may be appended at once.
pub open spec fn appendable(s: Seq<Seq<u8>>) -> bool {
    0 < s.len() <= MAX_APPEND_EVENTS && total_bytes(s) <= MAX_APPEND_BYTES
}

proof fn lemma_total_bytes_grows(s: Seq<Seq<u8>>, n: int)
    requires
        0 <= n <= s.len(),
    ensures
        total_bytes(s.take(n)) <= total_bytes(s),
    decreases s.len() - n,
{
    if n < s.len() {
        lemma_total_bytes_grows(s, n + 1);
        assert(s.take(n + 1).drop_last() =~= s.take(n));
    } else {
        assert(s.take(n) =~= s);
    }
}

/// Whether a log of the given kind may be trimmed: in a complete feed a trim
/// would weaken the evidence of stable keys.
pub fn check_trim(feed: FeedMode) -> (r: Result<()>)
    ensures
        r is Ok <==> feed == FeedMode::Trimmable,
        r matches Err(e) ==> (e matches CoreError::Rejected(m) && m@
            == "complete-feed mode rejects trim; stable-key evidence would be weakened"@),
{
    match feed {
        FeedMode::Trimmable => Ok(()),
        FeedMode::Complete => Err(
            rejected("complete-feed mode rejects trim; stable-key evidence would be weakened"),
        ),
    }
}

/// Whether there are chunks to merge. A log with fewer than two is left as it
/// is, unless an earlier compaction of the same identity made it so.
pub fn has_chunks_to_merge(manifest: &LogManifest) -> (r: bool)
    ensures
        r == (manifest.chunks@.len() >= 2),
{
    manifest.chunks.len() >= 2
}

/// Where somebody who follows a log stands: the next sequence that they want
/// and the last head that they saw.
#[derive(Clone, Copy, Debug, PartialEq, Eq, Structural)]
pub struct LogFollower {
    pub cursor: u64,
    pub last_head: u64,
}

impl LogFollower {
    pub fn new(from: u64) -> (r: Self)
        ensures
            r == (LogFollower { cursor: from, last_head: 0 }),
    {
        LogFollower { cursor: from, last_head: 0 }
    }

    /// The log has the given head: whether there is anything to read.
    pub fn on_head(&mut self, head_seq: u64) -> (r: bool)
        ensures
            r == (head_seq > old(self).last_head && head_seq >= old(self).cursor),
            final(self).cursor == old(self).cursor,
            final(self).last_head == if head_seq > old(self).last_head {
                head_seq
            } else {
                old(self).last_head
            },
    {
        if head_seq > self.last_head {
            self.last_head = head_seq;
            head_seq >= self.cursor
        } else {
            false
        }
    }

    /// An event was handed on.
    pub fn on_frame(&mut self, seq: u64)
        requires
            seq < u64::MAX,
        ensures
            *final(self) == (LogFollower { cursor: (seq + 1) as u64, ..*old(self) }),
    {
        self.cursor = seq + 1;
    }
}

/// Why payloads cannot be appended at once.
pub open spec fn append_refusal(payloads: Seq<Seq<u8>>) -> Seq<char> {
    if payloads.len() == 0 {
        "empty append"@
    } else if payloads.len() > MAX_APPEND_EVENTS {
        "append of "@ + decimal(payloads.len()) + " events exceeds 2048"@
    } else if total_bytes(payloads) > usize::MAX {
        "append byte count overflow"@
    } else {
        "append of "@ + decimal(total_bytes(payloads)) + " bytes exceeds 524288"@
    }
}

/// Whether payloads may be appended at once.
pub fn check_payloads(payloads: &[Vec<u8>]) -> (r: Result<()>)
    ensures
        r is Ok <==> appendable(payload_seqs(payloads@)),
        r matches Err(e) ==> (e matches CoreError::Rejected(m) && m@ == append_refusal(
            payload_seqs(payloads@),
        )),
{
    if payloads.len() == 0 {
        return Err(rejected("empty append"));
    }
    if payloads.len() > MAX_APPEND_EVENTS {
        let n: String = decimal_text(payloads.len() as u64);
        return Err(CoreError::Rejected(join3("append of ", &n, " events exceeds 2048")));
    }
    let ghost all = payload_seqs(payloads@);
    let mut bytes: usize = 0;
    let mut i: usize = 0;
    while i < payloads.len()
        invariant
            i <= payloads@.len(),
            all == payload_seqs(payloads@),
            bytes == total_bytes(all.take(i as int)),
            0 < payloads@.len() <= MAX_APPEND_EVENTS,
        decreases payloads@.len() - i,
    {
        proof {
            assert(all.take(i + 1).drop_last() =~= all.take(i as int));
            lemma_total_bytes_grows(all, i + 1);
        }
        if payloads[i].len() > usize::MAX - bytes {
            return Err(rejected("append byte count overflow"));
        }
        bytes = bytes + payloads[i].len();
        i = i + 1;
    }
    assert(all.take(i as int) =~= all);
    if bytes > MAX_APPEND_BYTES {
        let n: String = decimal_text(bytes as u64);
        return Err(CoreError::Rejected(join3("append of ", &n, " bytes exceeds 524288")));
    }
    Ok(())
}

// ---------------------------------------------------------------- writers
/// Why `writer` may not write, or the epoch under which it may: the live one
/// if it holds the lease, and else a new one.
pub enum WriterView {
    Refused(Refusal),
    Epoch(u64),
}

pub open spec fn writer_view(current: RefValue, writer: Seq<char>, now: Timestamp, steal: bool) -> WriterView {
    if current.leased(now) && !steal {
        if current.lease->0.writer@ != writer {
            WriterView::Refused(Refusal::Held(current.lease->0))
        } else {
            WriterView::Epoch(current.epoch)
        }
    } else if current.epoch == u64::MAX {
        WriterView::Refused(Refusal::NoEpoch)
    } else {
        WriterView::Epoch((current.epoch + 1) as u64)
    }
}

/// Whether `l` is a lease of `writer` for `secs` seconds from `now`.
pub open spec fn is_lease(l: Lease, writer: Seq<char>, now: Timestamp, secs: i64) -> bool {
    l.writer@ == writer && l.lease_until@ == now@ + secs * 1_000_000_000
}

/// The epoch and the lease under which `writer` may write.
pub fn next_writer(current: &RefValue, writer: &str, now: Timestamp, lease_secs: i64, steal: bool) -> (r:
    Result<(u64, Lease)>)
    requires
        is_moment(now@ + lease_secs * 1_000_000_000),
    ensures
        (r matches Err(e) && e is LeaseHeld) <==> !steal && (current.lease matches Some(l)
            && l.lease_until@ > now@ && l.writer@ != writer@),
        (r matches Ok(p) && p.0 == current.epoch) <==> !steal && (current.lease matches Some(l)
            && l.lease_until@ > now@ && l.writer@ == writer@),
        (steal || current.lease is None || current.lease->0.lease_until@ <= now@) && current.epoch
            < u64::MAX ==> (r matches Ok(p) && p.0 == current.epoch + 1),
        r matches Ok(p) ==> p.1.writer@ == writer@ && p.1.lease_until@ == now@ + lease_secs
            * 1_000_000_000,
        match writer_view(*current, writer@, now, steal) {
            WriterView::Refused(why) => r matches Err(e) && refused_as(e, why),
            WriterView::Epoch(epoch) => r matches Ok(p) && p.0 == epoch && is_lease(
                p.1,
                writer@,
                now,
                lease_secs,
            ),
        },
{
    let mut epoch: u64 = current.epoch;
    let mut held: bool = false;
    if let Some(lease) = &current.lease {
        if lease.lease_until.after(&now) && !steal {
            if !same_text(&lease.writer, writer) {
                return Err(
                    CoreError::LeaseHeld {
                        holder: lease.writer.clone(),
                        until: lease.lease_until.to_rfc3339(),
                    },
                );
            }
            held = true;
        }
    }
    if !held {
        if current.epoch == u64::MAX {
            return Err(rejected("epoch overflow"));
        }
        epoch = current.epoch + 1;
    }
    Ok(
        (
            epoch,
            Lease {
                writer: writer.to_owned(),
                lease_until: now.plus(lease_secs as i128 * 1_000_000_000),
            },
        ),
    )
}

/// A writer never writes under an epoch older than the live one, and under
/// the live one only while it holds the lease.
pub proof fn law_writer_epoch(current: RefValue, writer: Seq<char>, now: Timestamp, steal: bool)
    ensures
        match writer_view(current, writer, now, steal) {
            WriterView::Epoch(e) => e >= current.epoch && (e == current.epoch ==> current.leased(
                now,
            ) && current.lease->0.writer@ == writer && !steal),
            WriterView::Refused(_) => true,
        },
{
}

/// A writer is kept out only by a lease of another that is not over, unless
/// it steals it, and by an epoch that no other follows. Whoever holds the
/// lease writes on under the live epoch; everybody else gets the next one.
pub proof fn law_only_a_live_lease_of_another_keeps_out(
    current: RefValue,
    writer: Seq<char>,
    now: Timestamp,
    steal: bool,
)
    ensures
        ({
            let v = writer_view(current, writer, now, steal);
            let held = current.lease matches Some(l) && l.lease_until@ > now@;
            let own = held && current.lease->0.writer@ == writer;
            &&& (v matches WriterView::Refused(Refusal::Held(_))) <==> held && !own && !steal
            &&& (v matches WriterView::Refused(Refusal::Held(l)) ==> current.lease == Some(l))
            &&& v == WriterView::Epoch(current.epoch) <==> own && !steal
            &&& (!held || steal) && current.epoch < u64::MAX ==> v == WriterView::Epoch(
                (current.epoch + 1) as u64,
            )
            &&& (!held || steal) && current.epoch == u64::MAX ==> v == WriterView::Refused(
                Refusal::NoEpoch,
            )
        }),
{
}

// -------------------------------------------------------- frames in order
/// `s`, sorted by sequence, with `x` placed behind everything of the same
/// sequence.
pub open spec fn placed_frame(s: Seq<FrameView>, x: FrameView) -> Seq<FrameView>
    decreases s.len(),
{
    if s.len() == 0 || s.last().seq <= x.seq {
        s.push(x)
    } else {
        placed_frame(s.drop_last(), x).push(s.last())
    }
}

/// `s` sorted by sequence; frames of one sequence keep their order.
pub open spec fn by_seq(s: Seq<FrameView>) -> Seq<FrameView>
    decreases s.len(),
{
    if s.len() == 0 {
        s
    } else {
        placed_frame(by_seq(s.drop_last()), s.last())
    }
}

/// Whether sequences never decrease.
pub open spec fn ascending(s: Seq<FrameView>) -> bool {
    forall|i: int, j: int|
        0 <= i < j < s.len() ==> (#[trigger] s[i]).seq <= (#[trigger] s[j]).seq
}

proof fn lemma_placed_frame(s: Seq<FrameView>, x: FrameView)
    requires
        ascending(s),
    ensures
        ascending(placed_frame(s, x)),
        placed_frame(s, x).len() == s.len() + 1,
        placed_frame(s, x).to_multiset() == s.to_multiset().insert(x),
        placed_frame(s, x).last().seq >= x.seq,
        s.len() > 0 ==> placed_frame(s, x).last().seq >= s.last().seq,
        s.len() > 0 && s.last().seq > x.seq ==> placed_frame(s, x).last() == s.last(),
    decreases s.len(),
{
    broadcast use vstd::seq_lib::group_to_multiset_ensures;

    if s.len() == 0 || s.last().seq <= x.seq {
    } else {
        let head = s.drop_last();
        lemma_placed_frame(head, x);
        let p = placed_frame(head, x);
        assert(forall|i: int| 0 <= i < p.len() ==> (#[trigger] p[i]).seq <= p.last().seq);
        assert(p.last().seq <= s.last().seq) by {
            if head.len() > 0 && head.last().seq > x.seq {
                assert(p.last() == head.last());
                assert(head.last() == s[s.len() - 2]);
            } else {
                assert(p == head.push(x));
            }
        }
        assert(head.push(s.last()) =~= s);
        assert(s.to_multiset() =~= head.to_multiset().insert(s.last()));
        assert(placed_frame(s, x).to_multiset() =~= s.to_multiset().insert(x));
    }
}

/// Sorting puts the same frames in ascending order.
pub proof fn law_by_seq_sorts(s: Seq<FrameView>)
    ensures
        ascending(by_seq(s)),
        by_seq(s).len() == s.len(),
        by_seq(s).to_multiset() == s.to_multiset(),
    decreases s.len(),
{
    broadcast use vstd::seq_lib::group_to_multiset_ensures;

    if s.len() > 0 {
        law_by_seq_sorts(s.drop_last());
        lemma_placed_frame(by_seq(s.drop_last()), s.last());
        assert(s.drop_last().push(s.last()) =~= s);
    }
}

/// Frames that are in order stay as they are.
pub proof fn law_by_seq_keeps_order(s: Seq<FrameView>)
    requires
        ascending(s),
    ensures
        by_seq(s) == s,
    decreases s.len(),
{
    if s.len() > 0 {
        law_by_seq_keeps_order(s.drop_last());
        if s.len() > 1 {
            assert(s[s.len() - 2].seq <= s[s.len() - 1].seq);
        }
        assert(s.drop_last().push(s.last()) =~= s);
    }
}

/// Puts a frame in its place among sorted frames.
fn place_frame(out: &mut Vec<Frame>, x: Frame)
    ensures
        frames_view(final(out)@) == placed_frame(frames_view(old(out)@), x@),
{
    let ghost before = frames_view(out@);
    let ghost xv = x@;
    let mut n: usize = out.len();
    assert(before.take(n as int) =~= before);
    assert(before.skip(n as int) =~= Seq::empty());
    assert(placed_frame(before.take(n as int), xv) + before.skip(n as int) =~= placed_frame(before, xv));
    while n > 0 && out[n - 1].seq > x.seq
        invariant
            n <= out@.len(),
            before == frames_view(out@),
            xv == x@,
            placed_frame(before.take(n as int), xv) + before.skip(n as int) == placed_frame(
                before,
                xv,
            ),
        decreases n,
    {
        proof {
            let t = before.take(n as int);
            assert(t.drop_last() =~= before.take(n - 1));
            assert(t.last() == before[n - 1]);
            assert(placed_frame(t.drop_last(), xv).push(t.last()) + before.skip(n as int)
                =~= placed_frame(before.take(n - 1), xv) + before.skip(n - 1));
        }
        n = n - 1;
    }
    proof {
        let t = before.take(n as int);
        if n > 0 {
            assert(t.last() == before[n - 1]);
        }
        assert(placed_frame(t, xv) == t.push(xv));
    }
    out.insert(n, x);
    assert(frames_view(out@) =~= before.take(n as int).push(xv) + before.skip(n as int));
}

/// The frames sorted by sequence.
pub fn sort_frames(frames: Vec<Frame>) -> (r: Vec<Frame>)
    ensures
        frames_view(r@) == by_seq(frames_view(frames@)),
{
    let ghost all = frames_view(frames@);
    let mut out: Vec<Frame> = Vec::new();
    let mut i: usize = 0;
    assert(frames_view(out@) =~= by_seq(all.take(0)));
    while i < frames.len()
        invariant
            i <= frames@.len(),
            all == frames_view(frames@),
            frames_view(out@) == by_seq(all.take(i as int)),
        decreases frames@.len() - i,
    {
        place_frame(&mut out, frames[i].clone());
        assert(all.take(i + 1).drop_last() =~= all.take(i as int));
        i = i + 1;
    }
    assert(all.take(i as int) =~= all);
    out
}

// ---------------------------------------------------------------- reading
/// Whether a read from `from` wants a frame.
pub open spec fn wanted(f: FrameView, from: u64, floor: u64) -> bool {
    f.seq >= from && f.seq > floor
}

/// The frames that a read from `from` above `floor` wants, in order.
pub open spec fn kept(s: Seq<FrameView>, from: u64, floor: u64) -> Seq<FrameView>
    decreases s.len(),
{
    if s.len() == 0 {
        s
    } else if wanted(s.last(), from, floor) {
        kept(s.drop_last(), from, floor).push(s.last())
    } else {
        kept(s.drop_last(), from, floor)
    }
}

/// What reading the chunks of a log comes to.
pub enum ReadView {
    Fetch(Digest),
    Fail(ErrorView),
    Unreadable(Seq<char>),
    Frames(Seq<FrameView>),
}

/// The wanted frames of `chunks` in the order of the chunks. A chunk that
/// ends before `from` is not looked at.
pub open spec fn collected(
    m: Map<Digest, FetchedView<Seq<FrameView>>>,
    chunks: Seq<ChunkRef>,
    from: u64,
    floor: u64,
) -> ReadView
    decreases chunks.len(),
{
    if chunks.len() == 0 {
        ReadView::Frames(Seq::empty())
    } else {
        match collected(m, chunks.drop_last(), from, floor) {
            ReadView::Frames(acc) => {
                let c = chunks.last();
                if c.last < from {
                    ReadView::Frames(acc)
                } else if !m.contains_key(c.digest) {
                    ReadView::Fetch(c.digest)
                } else {
                    match m[c.digest] {
                        FetchedView::Failed(e) => ReadView::Fail(e),
                        FetchedView::Malformed { detail } => ReadView::Unreadable(detail),
                        FetchedView::Object { object, .. } => ReadView::Frames(
                            acc + kept(object, from, floor),
                        ),
                    }
                }
            },
            other => other,
        }
    }
}

fn keep_frames(out: &mut Vec<Frame>, frames: &Vec<Frame>, from: u64, floor: u64)
    ensures
        frames_view(final(out)@) == frames_view(old(out)@) + kept(
            frames_view(frames@),
            from,
            floor,
        ),
{
    let ghost all = frames_view(frames@);
    let ghost before = frames_view(out@);
    let mut i: usize = 0;
    assert(frames_view(out@) =~= before + kept(all.take(0), from, floor));
    while i < frames.len()
        invariant
            i <= frames@.len(),
            all == frames_view(frames@),
            frames_view(out@) == before + kept(all.take(i as int), from, floor),
        decreases frames@.len() - i,
    {
        assert(all.take(i + 1).drop_last() =~= all.take(i as int));
        if frames[i].seq >= from && frames[i].seq > floor {
            let ghost was = out@;
            out.push(frames[i].clone());
            assert(frames_view(out@) =~= frames_view(was).push(all[i as int]));
            assert(frames_view(out@) =~= before + kept(all.take(i + 1), from, floor));
        }
        i = i + 1;
    }
    assert(all.take(i as int) =~= all);
}

fn collect_chunks(
    table: &Table<ChunkBody>,
    chunks: &Vec<ChunkRef>,
    from: u64,
    floor: u64,
    out: &mut Vec<Frame>,
) -> (r: core::result::Result<Option<Digest>, Failure>)
    ensures
        match collected(table@, chunks@, from, floor) {
            ReadView::Fetch(d) => r matches Ok(Some(n)) && n == d,
            ReadView::Fail(c) => r matches Err(Failure::Core(e)) && e@ == c,
            ReadView::Unreadable(t) => r matches Err(Failure::Unreadable { detail }) && detail@ == t,
            ReadView::Frames(f) => r matches Ok(None) && frames_view(final(out)@) == frames_view(
                old(out)@,
            ) + f,
        },
{
    let ghost before = frames_view(out@);
    let mut i: usize = 0;
    proof {
        assert(chunks@.take(0).len() == 0);
        assert(before + Seq::<FrameView>::empty() =~= before);
    }
    while i < chunks.len()
        invariant
            i <= chunks@.len(),
            collected(table@, chunks@.take(i as int), from, floor) matches ReadView::Frames(f)
                && frames_view(out@) == before + f,
        decreases chunks@.len() - i,
    {
        let c: ChunkRef = chunks[i];
        proof {
            assert(chunks@.take(i + 1).drop_last() =~= chunks@.take(i as int));
            assert(chunks@.take(i + 1).last() == c);
            if collected(table@, chunks@.take(i + 1), from, floor) !is Frames {
                lemma_collected_stops(table@, chunks@, from, floor, i + 1);
            }
        }
        if c.last >= from {
            match table.get(&c.digest) {
                None => {
                    return Ok(Some(c.digest));
                },
                Some(Fetched::Failed(e)) => {
                    return Err(Failure::Core(e.clone()));
                },
                Some(Fetched::Malformed { detail }) => {
                    return Err(Failure::Unreadable { detail: detail.clone() });
                },
                Some(Fetched::Object { object, .. }) => {
                    let ghost was = frames_view(out@);
                    keep_frames(out, &object.frames, from, floor);
                    proof {
                        let f = collected(table@, chunks@.take(i as int), from, floor)->Frames_0;
                        assert(before + f + kept(object@, from, floor) =~= before + (f + kept(
                            object@,
                            from,
                            floor,
                        )));
                    }
                },
            }
        }
        i = i + 1;
    }
    assert(chunks@.take(i as int) =~= chunks@);
    Ok(None)
}

proof fn lemma_collected_stops(
    m: Map<Digest, FetchedView<Seq<FrameView>>>,
    chunks: Seq<ChunkRef>,
    from: u64,
    floor: u64,
    n: int,
)
    requires
        0 <= n <= chunks.len(),
        collected(m, chunks.take(n), from, floor) !is Frames,
    ensures
        collected(m, chunks, from, floor) == collected(m, chunks.take(n), from, floor),
    decreases chunks.len() - n,
{
    if n < chunks.len() {
        assert(chunks.take(n + 1).drop_last() =~= chunks.take(n));
        lemma_collected_stops(m, chunks, from, floor, n + 1);
    } else {
        assert(chunks.take(n) =~= chunks);
    }
}

/// What reading a log comes to.
pub enum LogRead {
    Trimmed { resume: int },
    Fetch(Digest),
    Fail(ErrorView),
    Unreadable(Seq<char>),
    Events(Seq<FrameView>),
}

/// The events of a log from `from` on, in order, or why they cannot be had:
/// the log was trimmed past `from`, or a chunk is not there.
pub open spec fn log_read(
    m: Map<Digest, FetchedView<Seq<FrameView>>>,
    v: ManifestView,
    from: u64,
) -> LogRead {
    if v.trim_before_seq > 0 && from <= v.trim_before_seq {
        LogRead::Trimmed { resume: v.trim_before_seq + 1 }
    } else {
        match collected(m, v.segments + v.chunks, from, v.trim_before_seq) {
            ReadView::Fetch(d) => LogRead::Fetch(d),
            ReadView::Fail(c) => LogRead::Fail(c),
            ReadView::Unreadable(t) => LogRead::Unreadable(t),
            ReadView::Frames(f) => LogRead::Events(by_seq(f)),
        }
    }
}

/// Reads all events of a log from `from` on, in order. A log that was
/// trimmed past `from` says where to resume.
pub fn read(manifest: &LogManifest, from: u64, table: &Table<ChunkBody>) -> (r: core::result::Result<
    Step<Vec<Frame>>,
    Failure,
>)
    requires
        manifest.trim_before_seq < u64::MAX,
    ensures
        match log_read(table@, manifest@, from) {
            LogRead::Trimmed { resume } => r matches Err(
                Failure::Core(CoreError::Trimmed { resume_at }),
            ) && resume_at == resume,
            LogRead::Fetch(d) => r matches Ok(Step::Fetch(n)) && n == d,
            LogRead::Fail(c) => r matches Err(Failure::Core(e)) && e@ == c,
            LogRead::Unreadable(t) => r matches Err(Failure::Unreadable { detail }) && detail@ == t,
            LogRead::Events(f) => r matches Ok(Step::Done(v)) && frames_view(v@) == f,
        },
{
    let floor: u64 = manifest.trim_before_seq;
    if floor > 0 && from <= floor {
        return Err(Failure::Core(CoreError::Trimmed { resume_at: floor + 1 }));
    }
    let all: Vec<ChunkRef> = concat_chunks(&manifest.segments, &manifest.chunks);
    let mut out: Vec<Frame> = Vec::new();
    assert(frames_view(out@) =~= Seq::empty());
    match collect_chunks(table, &all, from, floor, &mut out) {
        Err(e) => Err(e),
        Ok(Some(d)) => Ok(Step::Fetch(d)),
        Ok(None) => {
            proof {
                let f = collected(table@, all@, from, floor)->Frames_0;
                assert(Seq::<FrameView>::empty() + f =~= f);
            }
            Ok(Step::Done(sort_frames(out)))
        },
    }
}

pub fn concat_chunks(a: &Vec<ChunkRef>, b: &Vec<ChunkRef>) -> (r: Vec<ChunkRef>)
    ensures
        r@ == a@ + b@,
{
    let mut out: Vec<ChunkRef> = Vec::new();
    let mut i: usize = 0;
    while i < a.len()
        invariant
            i <= a@.len(),
            out@ == a@.take(i as int),
        decreases a@.len() - i,
    {
        out.push(a[i]);
        assert(a@.take(i + 1) =~= a@.take(i as int).push(a@[i as int]));
        i = i + 1;
    }
    assert(a@.take(i as int) =~= a@);
    let mut j: usize = 0;
    assert(a@ + b@.take(0) =~= a@);
    while j < b.len()
        invariant
            j <= b@.len(),
            out@ == a@ + b@.take(j as int),
        decreases b@.len() - j,
    {
        out.push(b[j]);
        assert(a@ + b@.take(j + 1) =~= (a@ + b@.take(j as int)).push(b@[j as int]));
        j = j + 1;
    }
    assert(b@.take(j as int) =~= b@);
    out
}

proof fn lemma_kept(s: Seq<FrameView>, from: u64, floor: u64)
    ensures
        kept(s, from, floor).len() <= s.len(),
        forall|i: int|
            0 <= i < kept(s, from, floor).len() ==> wanted(
                #[trigger] kept(s, from, floor)[i],
                from,
                floor,
            ),
    decreases s.len(),
{
    if s.len() > 0 {
        lemma_kept(s.drop_last(), from, floor);
    }
}

proof fn lemma_collected(
    m: Map<Digest, FetchedView<Seq<FrameView>>>,
    chunks: Seq<ChunkRef>,
    from: u64,
    floor: u64,
)
    ensures
        collected(m, chunks, from, floor) matches ReadView::Frames(f) ==> forall|i: int|
            0 <= i < f.len() ==> wanted(#[trigger] f[i], from, floor),
    decreases chunks.len(),
{
    if chunks.len() > 0 {
        lemma_collected(m, chunks.drop_last(), from, floor);
        match collected(m, chunks.drop_last(), from, floor) {
            ReadView::Frames(acc) => {
                let c = chunks.last();
                if m.contains_key(c.digest) {
                    match m[c.digest] {
                        FetchedView::Object { object, .. } => {
                            lemma_kept(object, from, floor);
                        },
                        _ => {},
                    }
                }
            },
            _ => {},
        }
    }
}

proof fn lemma_by_seq_all(s: Seq<FrameView>, from: u64, floor: u64)
    requires
        forall|i: int| 0 <= i < s.len() ==> wanted(#[trigger] s[i], from, floor),
    ensures
        forall|i: int| 0 <= i < by_seq(s).len() ==> wanted(#[trigger] by_seq(s)[i], from, floor),
{
    broadcast use vstd::seq_lib::group_to_multiset_ensures;

    law_by_seq_sorts(s);
    assert forall|i: int| 0 <= i < by_seq(s).len() implies wanted(
        #[trigger] by_seq(s)[i],
        from,
        floor,
    ) by {
        let x = by_seq(s)[i];
        assert(by_seq(s).contains(x));
        assert(by_seq(s).to_multiset().count(x) > 0);
        assert(s.to_multiset().count(x) > 0);
        assert(s.contains(x));
    }
}

/// A read gives events in ascending order, none before `from` and none that
/// was trimmed.
pub proof fn law_read_is_ordered_and_bounded(
    m: Map<Digest, FetchedView<Seq<FrameView>>>,
    chunks: Seq<ChunkRef>,
    from: u64,
    floor: u64,
)
    ensures
        collected(m, chunks, from, floor) matches ReadView::Frames(f) ==> ascending(by_seq(f))
            && forall|i: int|
            0 <= i < by_seq(f).len() ==> (#[trigger] by_seq(f)[i]).seq >= from && by_seq(f)[i].seq
                > floor,
{
    match collected(m, chunks, from, floor) {
        ReadView::Frames(f) => {
            lemma_collected(m, chunks, from, floor);
            law_by_seq_sorts(f);
            lemma_by_seq_all(f, from, floor);
            assert forall|i: int| 0 <= i < by_seq(f).len() implies (#[trigger] by_seq(f)[i]).seq
                >= from && by_seq(f)[i].seq > floor by {
                assert(wanted(by_seq(f)[i], from, floor));
            }
        },
        _ => {},
    }
}

proof fn lemma_kept_frames(s: Seq<FrameView>, from: u64, floor: u64, x: FrameView)
    ensures
        kept(s, from, floor).contains(x) <==> s.contains(x) && x.seq >= from && x.seq > floor,
    decreases s.len(),
{
    if s.len() > 0 {
        let h = s.drop_last();
        lemma_kept_frames(h, from, floor, x);
        let k = kept(h, from, floor);
        if h.contains(x) {
            let i = choose|i: int| 0 <= i < h.len() && h[i] == x;
            assert(s[i] == x);
        }
        if s.contains(x) {
            let i = choose|i: int| 0 <= i < s.len() && s[i] == x;
            if i < h.len() {
                assert(h[i] == x);
            }
        }
        let k2 = k.push(s.last());
        if k.contains(x) {
            let i = choose|i: int| 0 <= i < k.len() && k[i] == x;
            assert(k2[i] == x);
        }
        if k2.contains(x) {
            let i = choose|i: int| 0 <= i < k2.len() && k2[i] == x;
            if i < k.len() {
                assert(k[i] == x);
            }
        }
        assert(k2[k.len() as int] == s.last());
        assert(s[s.len() - 1] == s.last());
    }
}

/// Whether `x` is an event of chunk `i`, from `from` on.
pub open spec fn is_event_of(
    m: Map<Digest, FetchedView<Seq<FrameView>>>,
    chunks: Seq<ChunkRef>,
    i: int,
    x: FrameView,
) -> bool {
    0 <= i < chunks.len() && m.contains_key(chunks[i].digest) && (
    m[chunks[i].digest] matches FetchedView::Object { object, .. } && object.contains(x))
}

proof fn lemma_collected_frames(
    m: Map<Digest, FetchedView<Seq<FrameView>>>,
    chunks: Seq<ChunkRef>,
    from: u64,
    floor: u64,
    x: FrameView,
)
    requires
        collected(m, chunks, from, floor) is Frames,
    ensures
        collected(m, chunks, from, floor)->Frames_0.contains(x) <==> x.seq >= from && x.seq > floor
            && exists|i: int| #[trigger]
            is_event_of(m, chunks, i, x) && chunks[i].last >= from,
    decreases chunks.len(),
{
    if chunks.len() > 0 {
        let h = chunks.drop_last();
        let n = chunks.len() - 1;
        let c = chunks[n];
        lemma_collected_frames(m, h, from, floor, x);
        let acc = collected(m, h, from, floor)->Frames_0;
        assert(forall|i: int| 0 <= i < n ==> h[i] == chunks[i]);
        assert forall|i: int| 0 <= i < n implies (#[trigger] is_event_of(m, h, i, x)
            <==> is_event_of(m, chunks, i, x)) by {}
        if exists|i: int| #[trigger] is_event_of(m, chunks, i, x) && chunks[i].last >= from {
            let i = choose|i: int| #[trigger]
                is_event_of(m, chunks, i, x) && chunks[i].last >= from;
            if i < n {
                assert(is_event_of(m, h, i, x) && h[i].last >= from);
            }
        }
        if exists|i: int| #[trigger] is_event_of(m, h, i, x) && h[i].last >= from {
            let i = choose|i: int| #[trigger] is_event_of(m, h, i, x) && h[i].last >= from;
            assert(is_event_of(m, chunks, i, x) && chunks[i].last >= from);
        }
        if c.last >= from {
            let object = m[c.digest]->object;
            let k = kept(object, from, floor);
            lemma_kept_frames(object, from, floor, x);
            let all = acc + k;
            if acc.contains(x) {
                let i = choose|i: int| 0 <= i < acc.len() && acc[i] == x;
                assert(all[i] == x);
            }
            if k.contains(x) {
                let i = choose|i: int| 0 <= i < k.len() && k[i] == x;
                assert(all[acc.len() + i] == x);
            }
            if all.contains(x) {
                let i = choose|i: int| 0 <= i < all.len() && all[i] == x;
                if i < acc.len() {
                    assert(acc[i] == x);
                } else {
                    assert(k[i - acc.len()] == x);
                }
            }
            if object.contains(x) {
                assert(is_event_of(m, chunks, n, x));
            }
        }
    }
}

/// A read gives every event that the log's chunks hold from `from` on and
/// behind the floor, and no other. A read at or before the floor is sent to
/// the first event behind it. Where every chunk that may hold such events is
/// there, the read succeeds.
pub proof fn law_read_gives_what_the_chunks_hold(
    m: Map<Digest, FetchedView<Seq<FrameView>>>,
    v: ManifestView,
    from: u64,
    x: FrameView,
)
    ensures
        ({
            let chunks = v.segments + v.chunks;
            let trimmed = v.trim_before_seq > 0 && from <= v.trim_before_seq;
            let r = log_read(m, v, from);
            &&& r is Trimmed <==> trimmed
            &&& trimmed ==> r == (LogRead::Trimmed { resume: v.trim_before_seq + 1 })
            &&& r matches LogRead::Fetch(d) ==> !m.contains_key(d) && exists|i: int|
                0 <= i < chunks.len() && (#[trigger] chunks[i]).digest == d && chunks[i].last
                    >= from
            &&& r matches LogRead::Events(f) ==> ascending(f) && (f.contains(x) <==> x.seq >= from
                && x.seq > v.trim_before_seq && exists|i: int| #[trigger]
                is_event_of(m, chunks, i, x) && chunks[i].last >= from)
            &&& !trimmed && (forall|i: int|
                0 <= i < chunks.len() && (#[trigger] chunks[i]).last >= from ==> m.contains_key(
                    chunks[i].digest,
                ) && m[chunks[i].digest] is Object) ==> r is Events
        }),
{
    let chunks = v.segments + v.chunks;
    let floor = v.trim_before_seq;
    lemma_collected_ends(m, chunks, from, floor);
    match collected(m, chunks, from, floor) {
        ReadView::Frames(f) => {
            law_by_seq_sorts(f);
            lemma_collected_frames(m, chunks, from, floor, x);
            lemma_same_frames(f, by_seq(f), x);
        },
        _ => {},
    }
}

proof fn lemma_same_frames(a: Seq<FrameView>, b: Seq<FrameView>, x: FrameView)
    requires
        a.to_multiset() == b.to_multiset(),
    ensures
        a.contains(x) <==> b.contains(x),
{
    broadcast use vstd::seq_lib::group_to_multiset_ensures;

    assert(a.contains(x) <==> a.to_multiset().count(x) > 0);
    assert(b.contains(x) <==> b.to_multiset().count(x) > 0);
}

proof fn lemma_collected_ends(
    m: Map<Digest, FetchedView<Seq<FrameView>>>,
    chunks: Seq<ChunkRef>,
    from: u64,
    floor: u64,
)
    ensures
        collected(m, chunks, from, floor) matches ReadView::Fetch(d) ==> !m.contains_key(d)
            && exists|i: int|
            0 <= i < chunks.len() && (#[trigger] chunks[i]).digest == d && chunks[i].last >= from,
        (forall|i: int|
            0 <= i < chunks.len() && (#[trigger] chunks[i]).last >= from ==> m.contains_key(
                chunks[i].digest,
            ) && m[chunks[i].digest] is Object) ==> collected(m, chunks, from, floor) is Frames,
    decreases chunks.len(),
{
    if chunks.len() > 0 {
        let h = chunks.drop_last();
        lemma_collected_ends(m, h, from, floor);
        assert(chunks[chunks.len() - 1] == chunks.last());
        assert(forall|i: int| 0 <= i < h.len() ==> #[trigger] h[i] == chunks[i]);
        match collected(m, h, from, floor) {
            ReadView::Fetch(d) => {
                let i = choose|i: int|
                    0 <= i < h.len() && (#[trigger] h[i]).digest == d && h[i].last >= from;
                assert(chunks[i].digest == d);
            },
            _ => {},
        }
    }
}

/// A read gives no event twice, if the chunks hold none twice.
pub proof fn law_read_repeats_nothing(
    m: Map<Digest, FetchedView<Seq<FrameView>>>,
    chunks: Seq<ChunkRef>,
    from: u64,
    floor: u64,
)
    requires
        collected(m, chunks, from, floor) is Frames,
        forall|i: int|
            0 <= i < chunks.len() && m.contains_key((#[trigger] chunks[i]).digest) ==> (
            m[chunks[i].digest] matches FetchedView::Object { object, .. } ==> distinct_seqs(object)),
        forall|i: int, j: int, x: FrameView, y: FrameView|
            i != j && #[trigger] is_event_of(m, chunks, i, x) && #[trigger] is_event_of(
                m,
                chunks,
                j,
                y,
            ) ==> x.seq != y.seq,
    ensures
        distinct_seqs(collected(m, chunks, from, floor)->Frames_0),
    decreases chunks.len(),
{
    if chunks.len() > 0 {
        let h = chunks.drop_last();
        let n = chunks.len() - 1;
        let c = chunks[n];
        assert forall|i: int| 0 <= i < h.len() && m.contains_key((#[trigger] h[i]).digest) implies (
        m[h[i].digest] matches FetchedView::Object { object, .. } ==> distinct_seqs(object)) by {
            assert(h[i] == chunks[i]);
        }
        assert forall|i: int, j: int, x: FrameView, y: FrameView|
            i != j && #[trigger] is_event_of(m, h, i, x) && #[trigger] is_event_of(
                m,
                h,
                j,
                y,
            ) implies x.seq != y.seq by {
            assert(is_event_of(m, chunks, i, x) && is_event_of(m, chunks, j, y));
        }
        law_read_repeats_nothing(m, h, from, floor);
        let acc = collected(m, h, from, floor)->Frames_0;
        if c.last >= from {
            assert(chunks[n].digest == c.digest);
            let object = m[c.digest]->object;
            let k = kept(object, from, floor);
            lemma_kept_distinct(object, from, floor);
            let all = acc + k;
            assert forall|i: int, j: int| 0 <= i < j < all.len() implies (#[trigger] all[i]).seq
                != (#[trigger] all[j]).seq by {
                if i < acc.len() && j >= acc.len() {
                    let x = acc[i];
                    let y = k[j - acc.len()];
                    assert(acc.contains(x));
                    assert(k.contains(y));
                    lemma_collected_frames(m, h, from, floor, x);
                    lemma_kept_frames(object, from, floor, y);
                    let e = choose|e: int| #[trigger]
                        is_event_of(m, h, e, x) && h[e].last >= from;
                    assert(is_event_of(m, chunks, e, x));
                    assert(is_event_of(m, chunks, n, y));
                } else if i >= acc.len() {
                    assert(k[i - acc.len()].seq != k[j - acc.len()].seq);
                } else {
                    assert(acc[i].seq != acc[j].seq);
                }
            }
        }
    }
}

/// Whether no two frames have one sequence.
pub open spec fn distinct_seqs(s: Seq<FrameView>) -> bool {
    forall|i: int, j: int|
        0 <= i < j < s.len() ==> (#[trigger] s[i]).seq != (#[trigger] s[j]).seq
}

proof fn lemma_kept_distinct(s: Seq<FrameView>, from: u64, floor: u64)
    requires
        distinct_seqs(s),
    ensures
        distinct_seqs(kept(s, from, floor)),
    decreases s.len(),
{
    if s.len() > 0 {
        let h = s.drop_last();
        let k = kept(h, from, floor);
        assert(distinct_seqs(h)) by {
            assert forall|i: int, j: int| 0 <= i < j < h.len() implies (#[trigger] h[i]).seq != (
            #[trigger] h[j]).seq by {
                assert(s[i].seq != s[j].seq);
            }
        }
        lemma_kept_distinct(h, from, floor);
        assert forall|i: int| 0 <= i < k.len() implies (#[trigger] k[i]).seq != s.last().seq by {
            assert(k.contains(k[i]));
            lemma_kept_frames(h, from, floor, k[i]);
            let e = choose|e: int| 0 <= e < h.len() && h[e] == k[i];
            assert(s[e].seq != s[s.len() - 1].seq);
        }
    }
}

/// What may be appended at once: some events, no more than 2048, and no more
/// than half a mebibyte together. Bytes are counted event by event.
pub proof fn law_append_limits(a: Seq<Seq<u8>>, b: Seq<Seq<u8>>, p: Seq<u8>)
    ensures
        total_bytes(a + b) == total_bytes(a) + total_bytes(b),
        total_bytes(seq![p]) == p.len(),
        total_bytes(Seq::empty()) == 0,
        appendable(a) <==> 1 <= a.len() <= 2048 && total_bytes(a) <= 512 * 1024,
    decreases b.len(),
{
    reveal_with_fuel(total_bytes, 2);
    assert(seq![p].drop_last() =~= Seq::empty());
    if b.len() > 0 {
        law_append_limits(a, b.drop_last(), p);
        assert((a + b).drop_last() =~= a + b.drop_last());
    } else {
        assert(a + b =~= a);
    }
}

/// A change of a log that is not an append leaves the lease, its epoch and
/// the target to whoever has them; what is recorded of the ref leaves out
/// only what the manifest itself becomes.
pub proof fn law_log_change_keeps_the_writer(current: RefValue, generation: u64, now: Timestamp)
    ensures
        ({
            let next = log_next(current, generation, now);
            let kept_state = recorded_state(current);
            &&& next.generation == generation && next.updated_at == now
            &&& next.epoch == current.epoch && next.lease == current.lease && next.target
                == current.target && next.head_commit == current.head_commit && next.tenant
                == current.tenant && next.name == current.name && next.schema == current.schema
            &&& kept_state.epoch == current.epoch && kept_state.lease == current.lease
                && kept_state.generation == current.generation && kept_state.updated_at
                == current.updated_at && kept_state.tenant == current.tenant && kept_state.name
                == current.name && kept_state.schema == current.schema
            &&& kept_state.target is None && kept_state.head_commit is None
        }),
{
}

/// A manifest is taken for that of a log exactly if it has the schema, a sound
/// header, and the name of the log in both places.
pub proof fn law_manifest_is_of_its_log(at: Option<Digest>, m: ManifestView, name: Seq<char>)
    ensures
        manifest_verdict(at, m, name) is None <==> m.schema == "comb.log.partition-manifest/v2"@
            && m.header.fault() is None && m.header.resource@ == name && m.log == name,
{
}

// --------------------------------------------------------------- trimming
/// The ref after a change of a log that is not an append.
pub open spec fn log_next(current: RefValue, generation: u64, now: Timestamp) -> RefValue {
    RefValue { generation, updated_at: now, ..current }
}

/// What a ref is recorded as in the manifest that becomes its target.
pub open spec fn recorded_state(next: RefValue) -> RefValue {
    RefValue { head_commit: None, target: None, ..next }
}

fn advance_ref(ctx: &PrepareCtx<'_>) -> (r: RefValue)
    ensures
        r == log_next(ctx.snapshot.value, ctx.generation, ctx.now),
{
    let mut next: RefValue = ctx.snapshot.value.clone();
    next.generation = ctx.generation;
    next.updated_at = ctx.now;
    next
}

pub fn record_state(next: &RefValue) -> (r: RefValue)
    ensures
        r == recorded_state(*next),
{
    let mut state: RefValue = next.clone();
    state.head_commit = None;
    state.target = None;
    state
}

/// Whether `h` is the header of the commit that `ctx` prepares.
pub open spec fn is_header(h: CommitHeader, ctx: PrepareCtx<'_>, epoch: u64) -> bool {
    h.schema@ == crate::commit::HEADER_SCHEMA@ && h.resource == ctx.snapshot.value.name
        && h.generation == ctx.generation && h.epoch == epoch && h.identity@ == ctx.identity.text()
        && h.request == ctx.request && h.parent == ctx.parent && h.skip == ctx.skip && h.at
        == ctx.now
}

/// Forgets the events up to a sequence.
#[derive(Debug)]
pub struct TrimPlan {
    pub resource: String,
    pub before: u64,
}

impl TrimPlan {
    pub fn material(&self) -> (r: Material)
        ensures
            r@.kind == "trim"@,
            r@.preconditions == seq![(encode_utf8("before"@), be64(self.before))],
            r@.payload == Seq::<Seq<u8>>::empty(),
    {
        let mut bytes: Vec<u8> = Vec::new();
        put_u64(&mut bytes, self.before);
        assert(bytes@ =~= be64(self.before));
        let mut preconditions: Vec<(String, Vec<u8>)> = Vec::new();
        preconditions.push(("before".to_owned(), bytes));
        let m: Material = Material { kind: "trim".to_owned(), preconditions, payload: Vec::new() };
        assert(m@.preconditions =~= seq![(encode_utf8("before"@), be64(self.before))]);
        assert(m@.payload =~= Seq::<Seq<u8>>::empty());
        m
    }

    /// The floor after the trim: it never goes down, and never past the head.
    pub open spec fn floor(self, m: ManifestView) -> u64 {
        let asked = if self.before < m.head_seq {
            self.before
        } else {
            m.head_seq
        };
        if asked > m.trim_before_seq {
            asked
        } else {
            m.trim_before_seq
        }
    }

    /// The manifest after the trim, and the floor. A complete feed is never
    /// trimmed.
    pub fn trim(&self, ctx: &PrepareCtx<'_>, manifest: LogManifest) -> (r: Result<(LogManifest, u64)>)
        ensures
            if manifest.retention == RetentionMode::Complete {
                r matches Err(e) && e@ == ErrorView::Rejected("complete-feed mode rejects trim"@)
            } else {
                r matches Ok(p) && p.1 == self.floor(manifest@) && (p.1 >= self.before || p.1
                    >= manifest.head_seq) && p.1 >= manifest.trim_before_seq && (p.1
                    == manifest.trim_before_seq || (p.1 <= self.before && p.1
                    <= manifest.head_seq)) && is_header(
                    p.0.header,
                    *ctx,
                    ctx.snapshot.value.epoch,
                ) && p.0@ == (ManifestView {
                    header: p.0.header,
                    trim_before_seq: p.1,
                    admitted: Seq::empty(),
                    result: Some(decimal(p.1 as nat)),
                    ref_state: Some(
                        recorded_state(log_next(ctx.snapshot.value, ctx.generation, ctx.now)),
                    ),
                    ..manifest@
                })
            },
    {
        if manifest.retention == RetentionMode::Complete {
            return Err(rejected("complete-feed mode rejects trim"));
        }
        let asked: u64 = if self.before < manifest.head_seq {
            self.before
        } else {
            manifest.head_seq
        };
        let mut next: LogManifest = manifest;
        if asked > next.trim_before_seq {
            next.trim_before_seq = asked;
        }
        next.header = ctx.header(ctx.snapshot.value.epoch);
        next.admitted = Vec::new();
        assert(next.admitted@ =~= Seq::empty());
        let floor: u64 = next.trim_before_seq;
        next.result = Some(decimal_text(floor));
        let value: RefValue = advance_ref(ctx);
        next.ref_state = Some(record_state(&value));
        Ok((next, floor))
    }
}

/// Whether `p` publishes a manifest, as the last of its uploads.
pub open spec fn publishes<R>(
    p: PreparedMutation<R>,
    next: RefValue,
    uploads: Seq<(ObjectKind, Seq<char>, Seq<u8>)>,
    change: Seq<char>,
    outcome: R,
    result: Seq<char>,
) -> bool {
    &&& p.next == next
    &&& p.uploads@.map_values(|u: Upload| (u.kind, u.schema@, u.payload@)) == uploads
    &&& uploads.len() > 0
    &&& p.commit_upload == Some((uploads.len() - 1) as usize)
    &&& p.change@ == change
    &&& p.outcome == outcome
    &&& p.result@ == result
    &&& p.admitted@.len() == 0
    &&& p.companions@.len() == 0
}

fn number_change(kind: &str, name: &str, value: u64) -> (r: String)
    requires
        name@ != "kind"@,
    ensures
        r@ == object_string(number_fields(kind@, name@, value)),
{
    let mut fields: Vec<(String, Scalar)> = Vec::new();
    fields.push(("kind".to_owned(), Scalar::Text(kind.to_owned())));
    fields.push((name.to_owned(), Scalar::Number(value)));
    assert(scalars_view(fields@) =~= number_fields(kind@, name@, value));
    object_json(fields)
}

/// A change that is told by its kind and one number.
pub open spec fn number_fields(kind: Seq<char>, name: Seq<char>, value: u64) -> Seq<
    (Seq<char>, JsonView),
> {
    seq![("kind"@, JsonView::Text(kind)), (name, JsonView::Number(value))]
}

/// The publication of a trim whose manifest was written as `manifest`.
pub fn prepared_trim(ctx: &PrepareCtx<'_>, floor: u64, manifest: Vec<u8>) -> (r: PreparedMutation<u64>)
    ensures
        publishes(
            r,
            log_next(ctx.snapshot.value, ctx.generation, ctx.now),
            seq![(ObjectKind::Blob, MANIFEST_SCHEMA@, manifest@)],
            object_string(number_fields("trim"@, "floor"@, floor)),
            floor,
            decimal(floor as nat),
        ),
{
    proof {
        reveal_strlit("floor");
        reveal_strlit("kind");
        assert("floor"@.len() != "kind"@.len());
    }
    let mut uploads: Vec<Upload> = Vec::new();
    uploads.push(
        Upload { kind: ObjectKind::Blob, schema: MANIFEST_SCHEMA.to_owned(), payload: manifest },
    );
    let ghost want = seq![(ObjectKind::Blob, MANIFEST_SCHEMA@, manifest@)];
    assert(uploads@.map_values(|u: Upload| (u.kind, u.schema@, u.payload@)) =~= want);
    PreparedMutation {
        next: advance_ref(ctx),
        uploads,
        commit_upload: Some(0),
        change: number_change("trim", "floor", floor),
        outcome: floor,
        result: decimal_text(floor),
        admitted: Vec::new(),
        companions: Vec::new(),
    }
}

/// A trim forgets all that it was asked to: the floor comes to the sequence
/// that was asked for, or to the head, and nowhere else. A second trim of the
/// same events does nothing, and of two trims the further one decides.
pub proof fn law_trim_reaches_what_was_asked(plan: TrimPlan, m: ManifestView, other: TrimPlan)
    ensures
        plan.floor(m) >= plan.before || plan.floor(m) >= m.head_seq,
        plan.floor(m) >= m.trim_before_seq,
        plan.floor(m) > m.trim_before_seq ==> plan.floor(m) <= plan.before && plan.floor(m)
            <= m.head_seq,
        plan.floor(ManifestView { trim_before_seq: plan.floor(m), ..m }) == plan.floor(m),
        other.before <= plan.before ==> other.floor(m) <= plan.floor(m) && other.floor(
            ManifestView { trim_before_seq: plan.floor(m), ..m },
        ) == plan.floor(m),
{
}

/// A trim never forgets an event that is not asked for, never brings one
/// back, and changes no other part of the log.
pub proof fn law_trim_only_raises_the_floor(plan: TrimPlan, m: ManifestView)
    requires
        m.trim_before_seq <= m.head_seq,
    ensures
        m.trim_before_seq <= plan.floor(m) <= m.head_seq,
        plan.floor(m) > m.trim_before_seq ==> plan.floor(m) <= plan.before,
{
}

// -------------------------------------------------------------- takeover
/// Takes a log over from whoever holds its lease.
#[derive(Debug)]
pub struct TakeoverPlan {
    pub resource: String,
    pub writer: String,
    pub lease_secs: i64,
}

/// The epoch after a takeover.
#[derive(Clone, Copy, Debug, PartialEq, Eq, Structural)]
pub struct EpochResult {
    pub epoch: u64,
}

impl TakeoverPlan {
    pub fn material(&self) -> (r: Material)
        ensures
            r@.kind == "takeover"@,
            r@.preconditions == seq![(encode_utf8("writer"@), encode_utf8(self.writer@))],
            r@.payload == Seq::<Seq<u8>>::empty(),
    {
        let mut preconditions: Vec<(String, Vec<u8>)> = Vec::new();
        preconditions.push(("writer".to_owned(), copy_bytes(self.writer.as_str().as_bytes())));
        let m: Material = Material {
            kind: "takeover".to_owned(),
            preconditions,
            payload: Vec::new(),
        };
        assert(m@.preconditions =~= seq![(encode_utf8("writer"@), encode_utf8(self.writer@))]);
        assert(m@.payload =~= Seq::<Seq<u8>>::empty());
        m
    }

    pub open spec fn change(self) -> Seq<(Seq<char>, JsonView)> {
        seq![("kind"@, JsonView::Text("takeover"@)), ("writer"@, JsonView::Text(self.writer@))]
    }

    pub fn prepare(&self, ctx: &PrepareCtx<'_>) -> (r: Result<PreparedMutation<EpochResult>>)
        requires
            is_moment(ctx.now@ + self.lease_secs * 1_000_000_000),
        ensures
            if ctx.snapshot.value.epoch == u64::MAX {
                r matches Err(e) && e@ == ErrorView::Rejected("epoch overflow"@)
            } else {
                r matches Ok(p) && {
                    &&& p.next == (RefValue {
                        generation: ctx.generation,
                        epoch: (ctx.snapshot.value.epoch + 1) as u64,
                        lease: p.next.lease,
                        updated_at: ctx.now,
                        ..ctx.snapshot.value
                    })
                    &&& p.next.lease matches Some(l) && is_lease(
                        l,
                        self.writer@,
                        ctx.now,
                        self.lease_secs,
                    )
                    &&& p.uploads@.len() == 0
                    &&& p.commit_upload is None
                    &&& p.change@ == object_string(self.change())
                    &&& p.outcome.epoch == ctx.snapshot.value.epoch + 1
                    &&& p.result@ == object_string(seq![("epoch"@, JsonView::Number(p.outcome.epoch))])
                    &&& p.admitted@.len() == 0
                    &&& p.companions@.len() == 0
                }
            },
    {
        let current: &RefValue = &ctx.snapshot.value;
        if current.epoch == u64::MAX {
            return Err(rejected("epoch overflow"));
        }
        let epoch: u64 = current.epoch + 1;
        let mut next: RefValue = current.clone();
        next.generation = ctx.generation;
        next.epoch = epoch;
        next.lease = Some(
            Lease {
                writer: self.writer.clone(),
                lease_until: ctx.now.plus(self.lease_secs as i128 * 1_000_000_000),
            },
        );
        next.updated_at = ctx.now;
        let mut fields: Vec<(String, Scalar)> = Vec::new();
        fields.push(("kind".to_owned(), Scalar::Text("takeover".to_owned())));
        fields.push(("writer".to_owned(), Scalar::Text(self.writer.clone())));
        proof {
            reveal_strlit("kind");
            reveal_strlit("writer");
            assert("kind"@.len() != "writer"@.len());
            assert(scalars_view(fields@) =~= self.change());
        }
        let mut outcome: Vec<(String, Scalar)> = Vec::new();
        outcome.push(("epoch".to_owned(), Scalar::Number(epoch)));
        assert(scalars_view(outcome@) =~= seq![("epoch"@, JsonView::Number(epoch))]);
        Ok(
            PreparedMutation {
                next,
                uploads: Vec::new(),
                commit_upload: None,
                change: object_json(fields),
                outcome: EpochResult { epoch },
                result: object_json(outcome),
                admitted: Vec::new(),
                companions: Vec::new(),
            },
        )
    }
}

// ------------------------------------------------------------- compaction
/// Merges the chunks of a log into one segment.
#[derive(Debug)]
pub struct CompactPlan {
    pub resource: String,
    pub feed: FeedMode,
}

/// All frames of `chunks` in the order of the chunks.
pub open spec fn merged(m: Map<Digest, FetchedView<Seq<FrameView>>>, chunks: Seq<ChunkRef>) -> ReadView
    decreases chunks.len(),
{
    if chunks.len() == 0 {
        ReadView::Frames(Seq::empty())
    } else {
        match merged(m, chunks.drop_last()) {
            ReadView::Frames(acc) => {
                let c = chunks.last();
                if !m.contains_key(c.digest) {
                    ReadView::Fetch(c.digest)
                } else {
                    match m[c.digest] {
                        FetchedView::Failed(e) => ReadView::Fail(
                            ErrorView::RecoveryFailed(
                                "compact chunk "@ + c.digest.text() + ": "@ + e.text(),
                            ),
                        ),
                        FetchedView::Malformed { detail } => ReadView::Unreadable(detail),
                        FetchedView::Object { object, .. } => ReadView::Frames(acc + object),
                    }
                }
            },
            other => other,
        }
    }
}

proof fn lemma_merged_stops(
    m: Map<Digest, FetchedView<Seq<FrameView>>>,
    chunks: Seq<ChunkRef>,
    n: int,
)
    requires
        0 <= n <= chunks.len(),
        merged(m, chunks.take(n)) !is Frames,
    ensures
        merged(m, chunks) == merged(m, chunks.take(n)),
    decreases chunks.len() - n,
{
    if n < chunks.len() {
        assert(chunks.take(n + 1).drop_last() =~= chunks.take(n));
        lemma_merged_stops(m, chunks, n + 1);
    } else {
        assert(chunks.take(n) =~= chunks);
    }
}

fn push_frames(out: &mut Vec<Frame>, frames: &Vec<Frame>)
    ensures
        frames_view(final(out)@) == frames_view(old(out)@) + frames_view(frames@),
{
    let ghost all = frames_view(frames@);
    let ghost before = frames_view(out@);
    let mut i: usize = 0;
    assert(before + all.take(0) =~= before);
    while i < frames.len()
        invariant
            i <= frames@.len(),
            all == frames_view(frames@),
            frames_view(out@) == before + all.take(i as int),
        decreases frames@.len() - i,
    {
        let ghost was = out@;
        out.push(frames[i].clone());
        assert(frames_view(out@) =~= frames_view(was).push(all[i as int]));
        assert(before + all.take(i + 1) =~= (before + all.take(i as int)).push(all[i as int]));
        i = i + 1;
    }
    assert(all.take(i as int) =~= all);
}

impl CompactPlan {
    pub fn material(&self) -> (r: Material)
        ensures
            r@ == (MaterialView {
                kind: "compact"@,
                preconditions: Seq::empty(),
                payload: Seq::empty(),
            }),
    {
        let m: Material = Material {
            kind: "compact".to_owned(),
            preconditions: Vec::new(),
            payload: Vec::new(),
        };
        assert(m@.preconditions =~= Seq::empty());
        assert(m@.payload =~= Seq::empty());
        m
    }

    /// The segment that the chunks of a log are merged into: all their
    /// events in order.
    pub fn merge(&self, manifest: &LogManifest, table: &Table<ChunkBody>) -> (r: core::result::Result<
        Step<ChunkBody>,
        Failure,
    >)
        ensures
            if manifest.chunks@.len() < 2 {
                r matches Err(Failure::NothingToCompact)
            } else {
                match merged(table@, manifest.chunks@) {
                    ReadView::Fetch(d) => r matches Ok(Step::Fetch(n)) && n == d,
                    ReadView::Fail(c) => r matches Err(Failure::Core(e)) && e@ == c,
                    ReadView::Unreadable(t) => r matches Err(Failure::Unreadable { detail }) && detail@ == t,
                    ReadView::Frames(f) => r matches Ok(Step::Done(b)) && b@ == by_seq(f)
                        && b.schema@ == CHUNK_SCHEMA@,
                }
            },
    {
        if manifest.chunks.len() < 2 {
            return Err(Failure::NothingToCompact);
        }
        let chunks: &Vec<ChunkRef> = &manifest.chunks;
        let mut out: Vec<Frame> = Vec::new();
        let mut i: usize = 0;
        proof {
            assert(chunks@.take(0).len() == 0);
            assert(frames_view(out@) =~= Seq::empty());
        }
        while i < chunks.len()
            invariant
                i <= chunks@.len(),
                manifest.chunks@ == chunks@,
                chunks@.len() >= 2,
                merged(table@, chunks@.take(i as int)) == ReadView::Frames(frames_view(out@)),
            decreases chunks@.len() - i,
        {
            let c: ChunkRef = chunks[i];
            proof {
                assert(chunks@.take(i + 1).drop_last() =~= chunks@.take(i as int));
                assert(chunks@.take(i + 1).last() == c);
                if merged(table@, chunks@.take(i + 1)) !is Frames {
                    lemma_merged_stops(table@, chunks@, i + 1);
                }
            }
            match table.get(&c.digest) {
                None => {
                    return Ok(Step::Fetch(c.digest));
                },
                Some(Fetched::Failed(e)) => {
                    let m: String = join4(
                        "compact chunk ",
                        &c.digest.to_string(),
                        ": ",
                        &e.to_string(),
                    );
                    return Err(Failure::Core(CoreError::RecoveryFailed(m)));
                },
                Some(Fetched::Malformed { detail }) => {
                    return Err(Failure::Unreadable { detail: detail.clone() });
                },
                Some(Fetched::Object { object, .. }) => {
                    push_frames(&mut out, &object.frames);
                },
            }
            i = i + 1;
        }
        assert(chunks@.take(i as int) =~= chunks@);
        Ok(Step::Done(ChunkBody { schema: CHUNK_SCHEMA.to_owned(), frames: sort_frames(out) }))
    }

    /// The manifest after merging the chunks into `segment`, which was
    /// written as `bytes`.
    pub fn compacted(
        &self,
        ctx: &PrepareCtx<'_>,
        key: &DigestKey,
        manifest: LogManifest,
        segment: &ChunkBody,
        bytes: &[u8],
    ) -> (r: LogManifest)
        requires
            segment.frames@.len() > 0,
        ensures
            is_header(r.header, *ctx, ctx.snapshot.value.epoch),
            r@ == (ManifestView {
                header: r.header,
                segments: manifest.segments@.push(
                    ChunkRef {
                        digest: digest_of(*key, bytes@),
                        first: segment@[0].seq,
                        last: segment@.last().seq,
                        bytes: bytes@.len() as u64,
                        at: ctx.now,
                    },
                ),
                chunks: Seq::empty(),
                admitted: Seq::empty(),
                stable_admissions: Seq::empty(),
                retention: if self.feed == FeedMode::Complete {
                    RetentionMode::Complete
                } else {
                    manifest.retention
                },
                result: Some(decimal(manifest.chunks@.len())),
                ref_state: Some(
                    recorded_state(log_next(ctx.snapshot.value, ctx.generation, ctx.now)),
                ),
                ..manifest@
            }),
    {
        let count: usize = manifest.chunks.len();
        let mut next: LogManifest = manifest;
        next.header = ctx.header(ctx.snapshot.value.epoch);
        next.segments.push(
            ChunkRef {
                digest: key.digest(bytes),
                first: segment.frames[0].seq,
                last: segment.frames[segment.frames.len() - 1].seq,
                bytes: bytes.len() as u64,
                at: ctx.now,
            },
        );
        next.chunks = Vec::new();
        next.admitted = Vec::new();
        next.stable_admissions = Vec::new();
        if self.feed == FeedMode::Complete {
            next.retention = RetentionMode::Complete;
        }
        next.result = Some(decimal_text(count as u64));
        let value: RefValue = advance_ref(ctx);
        next.ref_state = Some(record_state(&value));
        proof {
            assert(next.chunks@ =~= Seq::empty());
            assert(next.admitted@ =~= Seq::empty());
            assert(entries_view(next.stable_admissions@) =~= Seq::empty());
        }
        next
    }
}

/// The publication of a compaction of `count` chunks.
pub fn prepared_compact(ctx: &PrepareCtx<'_>, count: usize, segment: Vec<u8>, manifest: Vec<u8>) -> (r:
    PreparedMutation<usize>)
    ensures
        publishes(
            r,
            log_next(ctx.snapshot.value, ctx.generation, ctx.now),
            seq![
                (ObjectKind::Blob, CHUNK_SCHEMA@, segment@),
                (ObjectKind::Blob, MANIFEST_SCHEMA@, manifest@),
            ],
            object_string(number_fields("compact"@, "merged"@, count as u64)),
            count,
            decimal(count as nat),
        ),
{
    proof {
        reveal_strlit("merged");
        reveal_strlit("kind");
        assert("merged"@.len() != "kind"@.len());
    }
    let ghost want = seq![
        (ObjectKind::Blob, CHUNK_SCHEMA@, segment@),
        (ObjectKind::Blob, MANIFEST_SCHEMA@, manifest@),
    ];
    let mut uploads: Vec<Upload> = Vec::new();
    uploads.push(
        Upload { kind: ObjectKind::Blob, schema: CHUNK_SCHEMA.to_owned(), payload: segment },
    );
    uploads.push(
        Upload { kind: ObjectKind::Blob, schema: MANIFEST_SCHEMA.to_owned(), payload: manifest },
    );
    assert(uploads@.map_values(|u: Upload| (u.kind, u.schema@, u.payload@)) =~= want);
    PreparedMutation {
        next: advance_ref(ctx),
        uploads,
        commit_upload: Some(1),
        change: number_change("compact", "merged", count as u64),
        outcome: count,
        result: decimal_text(count as u64),
        admitted: Vec::new(),
        companions: Vec::new(),
    }
}

// ------------------------------------------- compaction and what is read
/// `s` with the frames of `t` placed into it one after the other.
spec fn placed_all(s: Seq<FrameView>, t: Seq<FrameView>) -> Seq<FrameView>
    decreases t.len(),
{
    if t.len() == 0 {
        s
    } else {
        placed_frame(placed_all(s, t.drop_last()), t.last())
    }
}

proof fn lemma_placed_all(s: Seq<FrameView>, t: Seq<FrameView>)
    ensures
        by_seq(s + t) == placed_all(by_seq(s), t),
    decreases t.len(),
{
    if t.len() == 0 {
        assert(s + t =~= s);
    } else {
        lemma_placed_all(s, t.drop_last());
        assert((s + t).drop_last() =~= s + t.drop_last());
    }
}

proof fn lemma_placed_all_ascending(s: Seq<FrameView>, t: Seq<FrameView>)
    requires
        ascending(s),
    ensures
        ascending(placed_all(s, t)),
    decreases t.len(),
{
    if t.len() > 0 {
        lemma_placed_all_ascending(s, t.drop_last());
        lemma_placed_frame(placed_all(s, t.drop_last()), t.last());
    }
}

/// Frames of different sequences may be placed in either order.
proof fn lemma_placing_commutes(s: Seq<FrameView>, x: FrameView, t: FrameView)
    requires
        ascending(s),
        x.seq < t.seq,
    ensures
        placed_frame(placed_frame(s, x), t) == placed_frame(placed_frame(s, t), x),
    decreases s.len(),
{
    if s.len() == 0 {
        assert(seq![t].drop_last() =~= Seq::<FrameView>::empty());
        assert(s.push(t).drop_last() =~= s);
        assert(placed_frame(s.push(t), x) == placed_frame(s, x).push(t));
    } else {
        let l = s.last();
        let h = s.drop_last();
        lemma_placed_frame(s, x);
        if l.seq <= x.seq {
            assert(s.push(t).drop_last() =~= s);
        } else if l.seq <= t.seq {
            assert(s.push(t).drop_last() =~= s);
            let p = placed_frame(s, x);
            assert(p == placed_frame(h, x).push(l));
            assert(p.last() == l);
            assert(placed_frame(p, t) == p.push(t));
            assert(placed_frame(s.push(t), x) == placed_frame(s, x).push(t));
        } else {
            lemma_placing_commutes(h, x, t);
            let px = placed_frame(h, x).push(l);
            let pt = placed_frame(h, t).push(l);
            assert(px.drop_last() =~= placed_frame(h, x));
            assert(pt.drop_last() =~= placed_frame(h, t));
        }
    }
}

proof fn lemma_place_then_all(s: Seq<FrameView>, t: Seq<FrameView>, x: FrameView)
    requires
        ascending(s),
        ascending(t),
    ensures
        placed_all(s, placed_frame(t, x)) == placed_frame(placed_all(s, t), x),
    decreases t.len(),
{
    if t.len() == 0 || t.last().seq <= x.seq {
        assert(t.push(x).drop_last() =~= t);
    } else {
        let h = t.drop_last();
        let l = t.last();
        lemma_place_then_all(s, h, x);
        let p = placed_frame(h, x).push(l);
        assert(p.drop_last() =~= placed_frame(h, x));
        lemma_placed_all_ascending(s, h);
        lemma_placing_commutes(placed_all(s, h), x, l);
    }
}

/// Sorting a part first makes no difference.
proof fn lemma_sorted_part(s: Seq<FrameView>, t: Seq<FrameView>)
    ensures
        by_seq(s + by_seq(t)) == by_seq(s + t),
    decreases t.len(),
{
    lemma_placed_all(s, t);
    lemma_placed_all(s, by_seq(t));
    law_by_seq_sorts(s);
    lemma_place_sorted(by_seq(s), t);
}

proof fn lemma_place_sorted(s: Seq<FrameView>, t: Seq<FrameView>)
    requires
        ascending(s),
    ensures
        placed_all(s, by_seq(t)) == placed_all(s, t),
    decreases t.len(),
{
    if t.len() > 0 {
        law_by_seq_sorts(t.drop_last());
        lemma_place_sorted(s, t.drop_last());
        lemma_place_then_all(s, by_seq(t.drop_last()), t.last());
    }
}

proof fn lemma_kept_concat(a: Seq<FrameView>, b: Seq<FrameView>, from: u64, floor: u64)
    ensures
        kept(a + b, from, floor) == kept(a, from, floor) + kept(b, from, floor),
    decreases b.len(),
{
    if b.len() == 0 {
        assert(a + b =~= a);
        assert(kept(a, from, floor) + kept(b, from, floor) =~= kept(a, from, floor));
    } else {
        lemma_kept_concat(a, b.drop_last(), from, floor);
        assert((a + b).drop_last() =~= a + b.drop_last());
        assert(kept(a + b, from, floor) =~= kept(a, from, floor) + kept(b, from, floor));
    }
}

proof fn lemma_kept_placed(s: Seq<FrameView>, x: FrameView, from: u64, floor: u64)
    requires
        ascending(s),
    ensures
        kept(placed_frame(s, x), from, floor) == if wanted(x, from, floor) {
            placed_frame(kept(s, from, floor), x)
        } else {
            kept(s, from, floor)
        },
    decreases s.len(),
{
    if s.len() == 0 || s.last().seq <= x.seq {
        assert(s.push(x).drop_last() =~= s);
        lemma_kept_last(s, from, floor);
    } else {
        let h = s.drop_last();
        lemma_kept_placed(h, x, from, floor);
        let p = placed_frame(h, x).push(s.last());
        assert(p.drop_last() =~= placed_frame(h, x));
        if wanted(s.last(), from, floor) {
            let k = kept(h, from, floor).push(s.last());
            assert(k.drop_last() =~= kept(h, from, floor));
        } else {
            assert(!wanted(x, from, floor));
        }
    }
}

/// What is kept of ascending frames ends no later than they do.
proof fn lemma_kept_last(s: Seq<FrameView>, from: u64, floor: u64)
    requires
        ascending(s),
    ensures
        kept(s, from, floor).len() > 0 ==> s.len() > 0 && kept(s, from, floor).last().seq
            <= s.last().seq,
    decreases s.len(),
{
    if s.len() > 0 {
        lemma_kept_last(s.drop_last(), from, floor);
        if s.len() > 1 {
            assert(s[s.len() - 2].seq <= s[s.len() - 1].seq);
        }
    }
}

proof fn lemma_kept_sorted(s: Seq<FrameView>, from: u64, floor: u64)
    ensures
        kept(by_seq(s), from, floor) == by_seq(kept(s, from, floor)),
    decreases s.len(),
{
    if s.len() > 0 {
        lemma_kept_sorted(s.drop_last(), from, floor);
        law_by_seq_sorts(s.drop_last());
        lemma_kept_placed(by_seq(s.drop_last()), s.last(), from, floor);
        if wanted(s.last(), from, floor) {
            let k = kept(s.drop_last(), from, floor).push(s.last());
            assert(k.drop_last() =~= kept(s.drop_last(), from, floor));
        }
    }
}

/// Whether every chunk is known and holds no event outside its range.
pub open spec fn chunks_known(
    m: Map<Digest, FetchedView<Seq<FrameView>>>,
    chunks: Seq<ChunkRef>,
) -> bool {
    forall|i: int|
        0 <= i < chunks.len() ==> m.contains_key((#[trigger] chunks[i]).digest) && (
        m[chunks[i].digest] matches FetchedView::Object { object, .. } && forall|j: int|
            0 <= j < object.len() ==> (#[trigger] object[j]).seq <= chunks[i].last)
}

proof fn lemma_kept_none(s: Seq<FrameView>, from: u64, floor: u64)
    requires
        forall|j: int| 0 <= j < s.len() ==> (#[trigger] s[j]).seq < from,
    ensures
        kept(s, from, floor) == Seq::<FrameView>::empty(),
    decreases s.len(),
{
    if s.len() > 0 {
        lemma_kept_none(s.drop_last(), from, floor);
        assert(s[s.len() - 1].seq < from);
    }
}

/// Reading known chunks keeps the wanted ones of all their frames.
proof fn lemma_collected_is_kept(
    m: Map<Digest, FetchedView<Seq<FrameView>>>,
    chunks: Seq<ChunkRef>,
    from: u64,
    floor: u64,
)
    requires
        chunks_known(m, chunks),
    ensures
        merged(m, chunks) is Frames,
        collected(m, chunks, from, floor) == ReadView::Frames(
            kept(merged(m, chunks)->Frames_0, from, floor),
        ),
    decreases chunks.len(),
{
    if chunks.len() > 0 {
        let h = chunks.drop_last();
        assert forall|i: int| 0 <= i < h.len() implies m.contains_key((#[trigger] h[i]).digest) && (
        m[h[i].digest] matches FetchedView::Object { object, .. } && forall|j: int|
            0 <= j < object.len() ==> (#[trigger] object[j]).seq <= h[i].last) by {
            assert(h[i] == chunks[i]);
        }
        lemma_collected_is_kept(m, h, from, floor);
        let c = chunks[chunks.len() - 1];
        assert(m.contains_key(c.digest));
        let object = m[c.digest]->object;
        let acc = merged(m, h)->Frames_0;
        lemma_kept_concat(acc, object, from, floor);
        if c.last < from {
            lemma_kept_none(object, from, floor);
            assert(kept(acc, from, floor) + Seq::<FrameView>::empty() =~= kept(acc, from, floor));
        }
    }
}

proof fn lemma_merged_concat(
    m: Map<Digest, FetchedView<Seq<FrameView>>>,
    a: Seq<ChunkRef>,
    b: Seq<ChunkRef>,
)
    requires
        merged(m, a) is Frames,
        merged(m, b) is Frames,
    ensures
        merged(m, a + b) == ReadView::Frames(merged(m, a)->Frames_0 + merged(m, b)->Frames_0),
    decreases b.len(),
{
    if b.len() == 0 {
        assert(a + b =~= a);
        assert(merged(m, a)->Frames_0 + Seq::<FrameView>::empty() =~= merged(m, a)->Frames_0);
    } else {
        assert((a + b).drop_last() =~= a + b.drop_last());
        lemma_merged_concat(m, a, b.drop_last());
        let c = b.last();
        let object = m[c.digest]->object;
        let x = merged(m, a)->Frames_0;
        let y = merged(m, b.drop_last())->Frames_0;
        assert((x + y) + object =~= x + (y + object));
    }
}

/// Compaction changes nothing that is read: the segments and one segment
/// with the events of all chunks read like the segments and the chunks.
pub proof fn law_compaction_keeps_what_is_read(
    m: Map<Digest, FetchedView<Seq<FrameView>>>,
    segments: Seq<ChunkRef>,
    chunks: Seq<ChunkRef>,
    segment: ChunkRef,
    from: u64,
    floor: u64,
)
    requires
        chunks_known(m, segments),
        chunks_known(m, chunks),
        m.contains_key(segment.digest),
        m[segment.digest] matches FetchedView::Object { object, .. } && object.len() > 0 && object
            == by_seq(merged(m, chunks)->Frames_0) && segment.last == object.last().seq,
    ensures
        collected(m, segments + chunks, from, floor) is Frames,
        collected(m, segments.push(segment), from, floor) is Frames,
        by_seq(collected(m, segments.push(segment), from, floor)->Frames_0) == by_seq(
            collected(m, segments + chunks, from, floor)->Frames_0,
        ),
{
    let all = segments + chunks;
    assert forall|i: int| 0 <= i < all.len() implies m.contains_key((#[trigger] all[i]).digest) && (
    m[all[i].digest] matches FetchedView::Object { object, .. } && forall|j: int|
        0 <= j < object.len() ==> (#[trigger] object[j]).seq <= all[i].last) by {
        if i < segments.len() {
            assert(all[i] == segments[i]);
        } else {
            assert(all[i] == chunks[i - segments.len()]);
        }
    }
    let one = segments.push(segment);
    let object = m[segment.digest]->object;
    let c = merged(m, chunks)->Frames_0;
    law_by_seq_sorts(c);
    assert(forall|j: int| 0 <= j < object.len() ==> (#[trigger] object[j]).seq <= object.last().seq);
    assert forall|i: int| 0 <= i < one.len() implies m.contains_key((#[trigger] one[i]).digest) && (
    m[one[i].digest] matches FetchedView::Object { object, .. } && forall|j: int|
        0 <= j < object.len() ==> (#[trigger] object[j]).seq <= one[i].last) by {
        if i < segments.len() {
            assert(one[i] == segments[i]);
        }
    }
    lemma_collected_is_kept(m, all, from, floor);
    lemma_collected_is_kept(m, one, from, floor);
    lemma_collected_is_kept(m, segments, from, floor);
    lemma_collected_is_kept(m, chunks, from, floor);
    lemma_merged_concat(m, segments, chunks);
    assert(one.drop_last() =~= segments);
    let s = merged(m, segments)->Frames_0;
    assert(merged(m, one) == ReadView::Frames(s + object));
    lemma_kept_concat(s, c, from, floor);
    lemma_kept_concat(s, object, from, floor);
    lemma_kept_sorted(c, from, floor);
    lemma_sorted_part(kept(s, from, floor), kept(c, from, floor));
}

/// A compacted log is the log that it was: it is read alike from everywhere,
/// a read before the floor is sent to the same place, and neither the head
/// nor the floor moves.
pub proof fn law_compacted_log_is_read_alike(
    m: Map<Digest, FetchedView<Seq<FrameView>>>,
    was: ManifestView,
    now: ManifestView,
    segment: ChunkRef,
    from: u64,
)
    requires
        chunks_known(m, was.segments),
        chunks_known(m, was.chunks),
        m.contains_key(segment.digest),
        m[segment.digest] matches FetchedView::Object { object, .. } && object.len() > 0 && object
            == by_seq(merged(m, was.chunks)->Frames_0) && segment.last == object.last().seq,
        now == (ManifestView {
            header: now.header,
            segments: was.segments.push(segment),
            chunks: Seq::empty(),
            admitted: Seq::empty(),
            stable_admissions: Seq::empty(),
            retention: now.retention,
            result: now.result,
            ref_state: now.ref_state,
            ..was
        }),
    ensures
        log_read(m, now, from) == log_read(m, was, from),
        if was.trim_before_seq > 0 && from <= was.trim_before_seq {
            log_read(m, now, from) == (LogRead::Trimmed { resume: was.trim_before_seq + 1 })
        } else {
            log_read(m, now, from) is Events
        },
        now.head_seq == was.head_seq,
        now.trim_before_seq == was.trim_before_seq,
{
    law_compaction_keeps_what_is_read(
        m,
        was.segments,
        was.chunks,
        segment,
        from,
        was.trim_before_seq,
    );
    assert(now.segments + now.chunks =~= was.segments.push(segment));
}

proof fn lemma_by_seq_members(s: Seq<FrameView>, i: int)
    requires
        0 <= i < by_seq(s).len(),
    ensures
        s.contains(by_seq(s)[i]),
{
    broadcast use vstd::seq_lib::group_to_multiset_ensures;

    law_by_seq_sorts(s);
    let x = by_seq(s)[i];
    assert(by_seq(s).contains(x));
    assert(by_seq(s).to_multiset().count(x) > 0);
    assert(s.to_multiset().count(x) > 0);
}

/// Frames that come after all others stay behind them.
proof fn lemma_by_seq_append(f: Seq<FrameView>, k: Seq<FrameView>)
    requires
        ascending(k),
        forall|i: int, j: int|
            0 <= i < f.len() && 0 <= j < k.len() ==> (#[trigger] f[i]).seq <= (#[trigger] k[j]).seq,
    ensures
        by_seq(f + k) == by_seq(f) + k,
    decreases k.len(),
{
    if k.len() == 0 {
        assert(f + k =~= f);
        assert(by_seq(f) + k =~= by_seq(f));
    } else {
        let init = k.drop_last();
        let x = k.last();
        lemma_by_seq_append(f, init);
        assert((f + k).drop_last() =~= f + init);
        let s = by_seq(f) + init;
        if s.len() > 0 {
            if init.len() > 0 {
                assert(s.last() == k[k.len() - 2]);
            } else {
                lemma_by_seq_members(f, by_seq(f).len() - 1);
                let i = choose|i: int| 0 <= i < f.len() && f[i] == by_seq(f).last();
                assert(f[i].seq <= k[0].seq);
                assert(s.last() == by_seq(f).last());
            }
        }
        assert(placed_frame(s, x) == s.push(x));
        assert(s.push(x) =~= by_seq(f) + k);
    }
}

/// A chunk behind all others adds its wanted events behind what was read
/// before, and changes nothing of that.
pub proof fn law_added_chunk_is_read(
    m: Map<Digest, FetchedView<Seq<FrameView>>>,
    chunks: Seq<ChunkRef>,
    added: ChunkRef,
    from: u64,
    floor: u64,
)
    requires
        collected(m, chunks, from, floor) is Frames,
        m.contains_key(added.digest),
        m[added.digest] matches FetchedView::Object { object, .. } && ascending(object)
            && object.len() > 0 && added.last == object.last().seq && forall|i: int, j: int|
            0 <= i < collected(m, chunks, from, floor)->Frames_0.len() && 0 <= j < object.len() ==> (
            #[trigger] collected(m, chunks, from, floor)->Frames_0[i]).seq <= (
            #[trigger] object[j]).seq,
    ensures
        collected(m, chunks.push(added), from, floor) is Frames,
        by_seq(collected(m, chunks.push(added), from, floor)->Frames_0) == by_seq(
            collected(m, chunks, from, floor)->Frames_0,
        ) + kept(m[added.digest]->object, from, floor),
{
    let f = collected(m, chunks, from, floor)->Frames_0;
    let object = m[added.digest]->object;
    assert(chunks.push(added).drop_last() =~= chunks);
    let k = kept(object, from, floor);
    if added.last < from {
        assert forall|j: int| 0 <= j < object.len() implies (#[trigger] object[j]).seq < from by {
            if j < object.len() - 1 {
                assert(object[j].seq <= object[object.len() - 1].seq);
            }
        }
        lemma_kept_none(object, from, floor);
        assert(by_seq(f) + k =~= by_seq(f));
    } else {
        lemma_kept_part(object, from, floor);
        assert(ascending(k)) by {
            lemma_kept_sorted(object, from, floor);
            lemma_by_seq_append(Seq::empty(), object);
            assert(Seq::<FrameView>::empty() + object =~= object);
            assert(by_seq(Seq::<FrameView>::empty()) + object =~= object);
            law_by_seq_sorts(k);
        }
        assert forall|i: int, j: int| 0 <= i < f.len() && 0 <= j < k.len() implies (
        #[trigger] f[i]).seq <= (#[trigger] k[j]).seq by {
            assert(object.contains(k[j]));
            let n = choose|n: int| 0 <= n < object.len() && object[n] == k[j];
            assert(f[i].seq <= object[n].seq);
        }
        lemma_by_seq_append(f, k);
    }
}

proof fn lemma_kept_part(s: Seq<FrameView>, from: u64, floor: u64)
    ensures
        forall|i: int|
            0 <= i < kept(s, from, floor).len() ==> s.contains(#[trigger] kept(s, from, floor)[i]),
    decreases s.len(),
{
    if s.len() > 0 {
        let init = s.drop_last();
        lemma_kept_part(init, from, floor);
        let k = kept(s, from, floor);
        assert forall|i: int| 0 <= i < k.len() implies s.contains(#[trigger] k[i]) by {
            if i < kept(init, from, floor).len() {
                assert(k[i] == kept(init, from, floor)[i]);
                let n = choose|n: int| 0 <= n < init.len() && init[n] == k[i];
                assert(s[n] == k[i]);
            } else {
                assert(k[i] == s[s.len() - 1]);
            }
        }
    }
}

/// All of some frames are wanted where none of them is too early.
pub proof fn lemma_kept_all(s: Seq<FrameView>, from: u64, floor: u64)
    requires
        forall|j: int| 0 <= j < s.len() ==> wanted(#[trigger] s[j], from, floor),
    ensures
        kept(s, from, floor) == s,
    decreases s.len(),
{
    if s.len() > 0 {
        let init = s.drop_last();
        assert forall|j: int| 0 <= j < init.len() implies wanted(#[trigger] init[j], from, floor) by {
            assert(init[j] == s[j]);
        }
        lemma_kept_all(init, from, floor);
        assert(wanted(s[s.len() - 1], from, floor));
        assert(init.push(s.last()) =~= s);
    }
}

/// Whoever follows a log sees no event twice and none out of order: what is
/// read from behind the last event that was handed on is all later than what
/// was handed on before, whatever was published in between.
pub proof fn law_follower_repeats_nothing(
    m: Map<Digest, FetchedView<Seq<FrameView>>>,
    chunks: Seq<ChunkRef>,
    cursor: u64,
    floor: u64,
    later: Map<Digest, FetchedView<Seq<FrameView>>>,
    chunks_later: Seq<ChunkRef>,
    floor_later: u64,
    i: int,
    j: int,
)
    requires
        collected(m, chunks, cursor, floor) matches ReadView::Frames(a) && 0 <= i < by_seq(a).len()
            && by_seq(a).last().seq < u64::MAX && (collected(
            later,
            chunks_later,
            (by_seq(a).last().seq + 1) as u64,
            floor_later,
        ) matches ReadView::Frames(b) && 0 <= j < by_seq(b).len()),
    ensures
        ({
            let a = by_seq(collected(m, chunks, cursor, floor)->Frames_0);
            let b = by_seq(
                collected(
                    later,
                    chunks_later,
                    (a.last().seq + 1) as u64,
                    floor_later,
                )->Frames_0,
            );
            a[i].seq < b[j].seq
        }),
{
    law_read_is_ordered_and_bounded(m, chunks, cursor, floor);
    let a = by_seq(collected(m, chunks, cursor, floor)->Frames_0);
    let next = (a.last().seq + 1) as u64;
    law_read_is_ordered_and_bounded(later, chunks_later, next, floor_later);
    if i < a.len() - 1 {
        assert(a[i].seq <= a[a.len() - 1].seq);
    }
}

/// The header of a change to a log names the log, the request that made it and
/// the commits before it.
pub proof fn law_header_is_of_its_change(h: CommitHeader, ctx: PrepareCtx<'_>, epoch: u64)
    requires
        is_header(h, ctx, epoch),
    ensures
        h.schema@ == "comb.commit-header/v1"@,
        h.resource == ctx.snapshot.value.name,
        h.generation == ctx.generation,
        h.epoch == epoch,
        h.identity@ == ctx.identity.text(),
        h.request == ctx.request,
        h.parent == ctx.parent,
        h.skip == ctx.skip,
        h.at == ctx.now,
{
}

/// What is prepared for a log is published as it was prepared: the next value,
/// the uploads in order, the last of which is the commit, and the result.
pub proof fn law_prepared_log_change<R>(
    p: PreparedMutation<R>,
    next: RefValue,
    uploads: Seq<(ObjectKind, Seq<char>, Seq<u8>)>,
    change: Seq<char>,
    outcome: R,
    result: Seq<char>,
    i: int,
)
    requires
        publishes(p, next, uploads, change, outcome, result),
    ensures
        p.next == next,
        p.outcome == outcome,
        p.result@ == result,
        p.change@ == change,
        p.uploads@.len() == uploads.len(),
        p.commit_upload matches Some(k) && k == uploads.len() - 1,
        0 <= i < uploads.len() ==> p.uploads@[i].kind == uploads[i].0 && p.uploads@[i].schema@
            == uploads[i].1 && p.uploads@[i].payload@ == uploads[i].2,
        p.admitted@.len() == 0,
        p.companions@.len() == 0,
{
    let all = p.uploads@.map_values(|u: Upload| (u.kind, u.schema@, u.payload@));
    assert(all.len() == p.uploads@.len());
    assert(p.uploads@.len() == p.uploads.len());
    if 0 <= i < uploads.len() {
        assert(all[i] == uploads[i]);
    }
}

/// An append that is refused says whether it is empty, has too many events or
/// too many bytes.
pub proof fn law_refused_append_says_why(payloads: Seq<Seq<u8>>)
    ensures
        payloads.len() == 0 ==> append_refusal(payloads) == "empty append"@,
        payloads.len() > 2048 ==> append_refusal(payloads) == "append of "@ + decimal(
            payloads.len(),
        ) + " events exceeds 2048"@,
        1 <= payloads.len() <= 2048 && total_bytes(payloads) <= usize::MAX ==> append_refusal(
            payloads,
        ) == "append of "@ + decimal(total_bytes(payloads)) + " bytes exceeds 524288"@,
{
}

} // verus!
