//! Writer sessions on a complete feed: the lease policy, the state of a
//! session, and what errors mean to readers and writers.
use vstd::prelude::*;
use vstd::utf8::encode_utf8;

use crate::bytes::{be64, get_u64, put_u64};
use crate::digest::Digest;
use crate::error::{CoreError, Result};
use crate::feed::{
    COMPLETE_MANIFEST_SCHEMA, Cursor, FollowPage, LogIntegrityError, MAX_CHUNK_RAW_BYTES,
    OpenLogError, ReadError, ReadPage,
};
use crate::foreign::{hex_decode, hex_encode, moment_of, random_bytes};
use crate::group::{entry_of, stable_answer, StableAnswer};
use crate::hamt::Lookup;
use crate::log::{AppendRange, StableAppendReceipt};
use crate::plans::is_held;
use crate::publication::is_renewal;
use crate::refs::{Lease, RefValue};
use crate::store::Failure;
use crate::text::{
    decimal, decimal_text, hex_bytes, hex_text, is_hex, join2, join3, join4, join5, same_text,
};
use crate::time::{is_moment, Span, Timestamp};

verus! {

/// How often a session tries an append.
pub const MAX_SESSION_ATTEMPTS: u32 = 32;

/// How often an unavailable page is read.
pub const MAX_PAGE_ATTEMPTS: u32 = 8;

/// The process-unique name of a writer.
#[derive(Clone, Copy, Debug, PartialEq, Eq, Hash, Structural)]
pub struct WriterInstanceId {
    high: u64,
    low: u64,
}

impl View for WriterInstanceId {
    type V = Seq<u8>;

    closed spec fn view(&self) -> Seq<u8> {
        be64(self.high) + be64(self.low)
    }
}

impl WriterInstanceId {
    fn of_bytes(bytes: &[u8]) -> (r: Self)
        requires
            bytes@.len() == 16,
        ensures
            r@ == bytes@,
    {
        let id: WriterInstanceId = WriterInstanceId {
            high: get_u64(bytes, 0),
            low: get_u64(bytes, 8),
        };
        assert(id@ =~= bytes@);
        id
    }

    /// A fresh name.
    pub fn generate() -> (r: Self)
        ensures
            r@.len() == 16,
    {
        let bytes: Vec<u8> = random_bytes(16);
        Self::of_bytes(&bytes)
    }

    /// The hexadecimal text of the name.
    pub fn canonical(&self) -> (r: String)
        ensures
            r@ == hex_text(self@),
    {
        let mut bytes: Vec<u8> = Vec::new();
        put_u64(&mut bytes, self.high);
        put_u64(&mut bytes, self.low);
        assert(bytes@ =~= self@);
        hex_encode(&bytes)
    }

    /// Reads the text of a name.
    pub fn try_from_canonical(s: &str) -> (r: Option<Self>)
        ensures
            r is Some <==> names_instance(s@),
            r matches Some(id) ==> id@ == hex_bytes(encode_utf8(s@)),
    {
        match hex_decode(s) {
            Err(_) => None,
            Ok(bytes) => {
                if bytes.len() != 16 {
                    None
                } else {
                    Some(Self::of_bytes(&bytes))
                }
            },
        }
    }
}

/// Whether a text is the hexadecimal text of 16 bytes.
pub open spec fn names_instance(s: Seq<char>) -> bool {
    is_hex(encode_utf8(s)) && hex_bytes(encode_utf8(s)).len() == 16
}

/// The label of a writer, of 1 to 64 bytes.
#[derive(Debug)]
pub struct WriterLabel {
    label: String,
}

impl View for WriterLabel {
    type V = Seq<char>;

    closed spec fn view(&self) -> Seq<char> {
        self.label@
    }
}

impl WriterLabel {
    pub fn try_from(s: &str) -> (r: core::result::Result<Self, InvalidLeasePolicy>)
        ensures
            r is Ok <==> 0 < encode_utf8(s@).len() <= 64,
            r matches Ok(l) ==> l@ == s@,
    {
        let n: usize = s.as_bytes().len();
        if n == 0 || n > 64 {
            return Err(InvalidLeasePolicy);
        }
        Ok(WriterLabel { label: s.to_owned() })
    }

    pub fn as_str(&self) -> (r: &str)
        ensures
            r@ == self@,
    {
        &self.label
    }
}

/// How a session holds its lease.
#[derive(Clone, Copy, Debug, PartialEq, Eq, Structural)]
pub struct LeasePolicy {
    pub ttl: Span,
    pub renew_every: Span,
    pub clock_slack: Span,
    pub initial_acquire_budget: Span,
}

#[derive(Clone, Copy, Debug, PartialEq, Eq, Structural)]
pub struct InvalidLeasePolicy;

impl LeasePolicy {
    pub fn bridge_default() -> (r: Self)
        ensures
            r.ttl.nanos == 30_000_000_000,
            r.renew_every.nanos == 10_000_000_000,
            r.clock_slack.nanos == 5_000_000_000,
            r.initial_acquire_budget.nanos == 45_000_000_000,
            r.ok(),
    {
        LeasePolicy {
            ttl: Span::from_secs(30),
            renew_every: Span::from_secs(10),
            clock_slack: Span::from_secs(5),
            initial_acquire_budget: Span::from_secs(45),
        }
    }

    /// Whether a lease is renewed, with slack, before it ends; ends within
    /// ten minutes; and may be waited for as long as it lasts.
    pub open spec fn ok(self) -> bool {
        &&& self.renew_every.nanos + self.clock_slack.nanos < self.ttl.nanos
        &&& self.ttl.nanos <= 600_000_000_000
        &&& self.initial_acquire_budget.nanos >= self.ttl.nanos
    }

    pub fn validate(self) -> (r: core::result::Result<Self, InvalidLeasePolicy>)
        ensures
            r is Ok <==> self.ok(),
            r matches Ok(p) ==> p == self,
    {
        match self.renew_every.checked_add(&self.clock_slack) {
            None => {
                return Err(InvalidLeasePolicy);
            },
            Some(window) => {
                if window.nanos >= self.ttl.nanos {
                    return Err(InvalidLeasePolicy);
                }
            },
        }
        if self.ttl.nanos > 600_000_000_000 || self.initial_acquire_budget.nanos < self.ttl.nanos {
            return Err(InvalidLeasePolicy);
        }
        Ok(self)
    }

    /// The seconds for which a lease is asked: whole ones, and at least one.
    pub open spec fn secs(self) -> int {
        if self.ttl.nanos < 1_000_000_000 {
            1
        } else {
            self.ttl.nanos as int / 1_000_000_000
        }
    }

    pub fn ttl_secs(&self) -> (r: i64)
        requires
            self.ok(),
        ensures
            r == self.secs(),
    {
        let secs: u64 = self.ttl.as_secs();
        if secs < 1 {
            1
        } else {
            secs as i64
        }
    }
}

/// Why a session lost its lease.
#[derive(Clone, Copy, Debug, PartialEq, Eq, Structural)]
pub enum SessionLoss {
    Fenced { live_epoch: u64 },
    OwnerChanged,
    RenewalUncertain,
    LeaseExpired,
}

/// Where a session stands.
#[derive(Clone, Copy, Debug, PartialEq, Eq, Structural)]
pub enum WriterState {
    Unacquired,
    Acquiring { held_until: Option<Timestamp> },
    Active { epoch: u64, lease_until: Timestamp },
    Lost { epoch: Option<u64>, cause: SessionLoss },
    Closed,
}

/// Why a lease cannot be had or kept.
#[derive(Debug)]
pub enum LeaseError {
    LeaseHeld { owner: WriterInstanceId, until: Timestamp },
    Fenced { session_epoch: u64, live_epoch: u64 },
    ReacquireRequired { cause: SessionLoss },
    Unavailable,
    DeadlineExceeded,
    Cancelled,
    InvalidPolicy(InvalidLeasePolicy),
}

/// Why an event was not appended.
#[derive(Debug)]
pub enum StableAppendError {
    StableKeyConflict { existing: Digest, supplied: Digest },
    Lease(LeaseError),
    Integrity(LogIntegrityError),
    Unavailable,
    DeadlineExceeded,
    Cancelled,
    InvalidInput,
}

// ----------------------------------------------------------------- errors
/// Whether a call is over before it starts.
#[derive(Clone, Copy, Debug, PartialEq, Eq, Structural)]
pub enum Terminal {
    Cancelled,
    DeadlineExceeded,
}

/// A cancelled call is told so even if its deadline has passed too.
pub fn terminal(cancelled: bool, past_deadline: bool) -> (r: Option<Terminal>)
    ensures
        r == if cancelled {
            Some(Terminal::Cancelled)
        } else if past_deadline {
            Some(Terminal::DeadlineExceeded)
        } else {
            None::<Terminal>
        },
{
    if cancelled {
        Some(Terminal::Cancelled)
    } else if past_deadline {
        Some(Terminal::DeadlineExceeded)
    } else {
        None
    }
}

pub fn open_terminal(t: Terminal) -> (r: OpenLogError)
    ensures
        r == match t {
            Terminal::Cancelled => OpenLogError::Cancelled,
            Terminal::DeadlineExceeded => OpenLogError::DeadlineExceeded,
        },
{
    match t {
        Terminal::Cancelled => OpenLogError::Cancelled,
        Terminal::DeadlineExceeded => OpenLogError::DeadlineExceeded,
    }
}

pub fn read_terminal(t: Terminal) -> (r: ReadError)
    ensures
        r == match t {
            Terminal::Cancelled => ReadError::Cancelled,
            Terminal::DeadlineExceeded => ReadError::DeadlineExceeded,
        },
{
    match t {
        Terminal::Cancelled => ReadError::Cancelled,
        Terminal::DeadlineExceeded => ReadError::DeadlineExceeded,
    }
}

pub fn lease_terminal(t: Terminal) -> (r: LeaseError)
    ensures
        r == match t {
            Terminal::Cancelled => LeaseError::Cancelled,
            Terminal::DeadlineExceeded => LeaseError::DeadlineExceeded,
        },
{
    match t {
        Terminal::Cancelled => LeaseError::Cancelled,
        Terminal::DeadlineExceeded => LeaseError::DeadlineExceeded,
    }
}

/// Whether the backend may answer later.
pub open spec fn transient(e: CoreError) -> bool {
    e is BackendUnavailable || e is Io
}

/// The message of a failure.
pub open spec fn failure_message(f: Failure) -> Seq<char> {
    match f {
        Failure::Core(e) => e.text(),
        Failure::DigestMismatch { digest } => "backend returned object whose digest does not match "@
            + digest.text(),
        Failure::PlanGeneration { set, want } => "plan set generation "@ + decimal(set as nat) + (
        " want "@ + decimal(want as nat)),
        Failure::NoCommitUpload => "commit_upload out of range"@,
        Failure::PublicationNotConverged => "publication did not converge after 128 attempts"@,
        Failure::AdmissionNotConverged => "intent admission did not converge"@,
        Failure::AppendNotConverged => "stable append did not converge"@,
        Failure::NoSuchRef { name } => "ref "@ + name@ + " does not exist"@,
        Failure::NoLease { name } => "ref "@ + name@ + " has no lease to renew"@,
        Failure::NoSuchLog { name } => "log "@ + name@ + " does not exist"@,
        Failure::NoManifest { name } => "log "@ + name@ + " has no manifest"@,
        Failure::LostRace => "renew: lost the ref race 16 times"@,
        Failure::Unreadable { detail } => detail@,
        Failure::NothingToCompact => "nothing to compact"@,
    }
}

/// The message of a failure.
pub fn failure_text(f: &Failure) -> (r: String)
    ensures
        r@ == failure_message(*f),
{
    match f {
        Failure::Core(e) => e.to_string(),
        Failure::DigestMismatch { digest } => join2(
            "backend returned object whose digest does not match ",
            &digest.to_string(),
        ),
        Failure::PlanGeneration { set, want } => {
            let s: String = decimal_text(*set);
            let w: String = decimal_text(*want);
            let tail: String = join2(" want ", &w);
            join3("plan set generation ", &s, &tail)
        },
        Failure::NoCommitUpload => "commit_upload out of range".to_owned(),
        Failure::PublicationNotConverged =>
            "publication did not converge after 128 attempts".to_owned(),
        Failure::AdmissionNotConverged => "intent admission did not converge".to_owned(),
        Failure::AppendNotConverged => "stable append did not converge".to_owned(),
        Failure::NoSuchRef { name } => join3("ref ", name, " does not exist"),
        Failure::NoLease { name } => join3("ref ", name, " has no lease to renew"),
        Failure::NoSuchLog { name } => join3("log ", name, " does not exist"),
        Failure::NoManifest { name } => join3("log ", name, " has no manifest"),
        Failure::LostRace => "renew: lost the ref race 16 times".to_owned(),
        Failure::Unreadable { detail } => detail.clone(),
        Failure::NothingToCompact => "nothing to compact".to_owned(),
    }
}

/// The text that an integrity error carries: the bare message of an error
/// about form or evidence, and the whole text of any other.
pub open spec fn integrity_text(e: CoreError) -> Seq<char> {
    match e {
        CoreError::IntegrityError(m) => m@,
        CoreError::InvalidFormat(m) => m@,
        CoreError::RecoveryFailed(m) => m@,
        _ => e.text(),
    }
}

fn integrity_of(f: &Failure) -> (r: LogIntegrityError)
    ensures
        r.0@ == match f {
            Failure::Core(e) => integrity_text(*e),
            _ => failure_message(*f),
        },
{
    match f {
        Failure::Core(CoreError::IntegrityError(m)) => LogIntegrityError(m.clone()),
        Failure::Core(CoreError::InvalidFormat(m)) => LogIntegrityError(m.clone()),
        Failure::Core(CoreError::RecoveryFailed(m)) => LogIntegrityError(m.clone()),
        other => LogIntegrityError(failure_text(other)),
    }
}

/// What a failure means to whoever opens a feed.
pub fn open_from_failure(f: &Failure) -> (r: OpenLogError)
    ensures
        match f {
            Failure::Core(e) => if transient(*e) {
                r is Unavailable
            } else {
                match e {
                    CoreError::UnsupportedEnvelopeFormat { value, .. } => r matches
                        OpenLogError::UnsupportedManifestSchema { found, required } && found
                        == *value && required@ == COMPLETE_MANIFEST_SCHEMA@,
                    _ => r matches OpenLogError::Integrity(i) && i.0@ == integrity_text(*e),
                }
            },
            _ => r matches OpenLogError::Integrity(i) && i.0@ == failure_message(*f),
        },
{
    match f {
        Failure::Core(CoreError::BackendUnavailable(_)) => OpenLogError::Unavailable,
        Failure::Core(CoreError::Io(_)) => OpenLogError::Unavailable,
        Failure::Core(CoreError::UnsupportedEnvelopeFormat { value, .. }) => {
            OpenLogError::UnsupportedManifestSchema {
                found: value.clone(),
                required: COMPLETE_MANIFEST_SCHEMA,
            }
        },
        other => OpenLogError::Integrity(integrity_of(other)),
    }
}

/// What a failure means to a reader.
pub fn read_from_failure(f: &Failure, operation: &'static str) -> (r: ReadError)
    ensures
        match f {
            Failure::Core(e) => if transient(*e) {
                r matches ReadError::Unavailable { operation: o } && o@ == operation@
            } else {
                r matches ReadError::Integrity(i) && i.0@ == integrity_text(*e)
            },
            _ => r matches ReadError::Integrity(i) && i.0@ == failure_message(*f),
        },
{
    match f {
        Failure::Core(CoreError::BackendUnavailable(_)) => ReadError::Unavailable { operation },
        Failure::Core(CoreError::Io(_)) => ReadError::Unavailable { operation },
        other => ReadError::Integrity(integrity_of(other)),
    }
}

/// Whether the error names the holder of a lease, as far as its texts can
/// be read.
pub open spec fn names_holder(
    owner: WriterInstanceId,
    until: Timestamp,
    holder: Seq<char>,
    text: Seq<char>,
) -> bool {
    &&& names_instance(holder) ==> owner@ == hex_bytes(encode_utf8(holder))
    &&& moment_of(text) matches Some((second, nanos)) ==> is_moment(
        second * 1_000_000_000 + nanos,
    ) ==> until@ == second * 1_000_000_000 + nanos
}

/// The holder of a lease. A holder without a readable name gets a fresh one,
/// and an end that cannot be read is now.
fn held(holder: &str, until: &str) -> (r: (WriterInstanceId, Timestamp))
    ensures
        names_holder(r.0, r.1, holder@, until@),
{
    let owner: WriterInstanceId = match WriterInstanceId::try_from_canonical(holder) {
        Some(id) => id,
        None => WriterInstanceId::generate(),
    };
    let end: Timestamp = match Timestamp::parse_rfc3339(until) {
        Some(t) => t,
        None => Timestamp::now(),
    };
    (owner, end)
}

/// What a failure means to whoever wants a lease.
pub fn lease_from_failure(f: &Failure) -> (r: LeaseError)
    ensures
        match f {
            Failure::Core(CoreError::Fenced { caller, live }) => r == (LeaseError::Fenced {
                session_epoch: *caller,
                live_epoch: *live,
            }),
            Failure::Core(CoreError::LeaseHeld { holder, until }) => r matches
                LeaseError::LeaseHeld { owner, until: end } && names_holder(
                owner,
                end,
                holder@,
                until@,
            ),
            Failure::Core(CoreError::LeaseExpired) => r == (LeaseError::ReacquireRequired {
                cause: SessionLoss::LeaseExpired,
            }),
            _ => r is Unavailable,
        },
{
    match f {
        Failure::Core(CoreError::Fenced { caller, live }) => LeaseError::Fenced {
            session_epoch: *caller,
            live_epoch: *live,
        },
        Failure::Core(CoreError::LeaseHeld { holder, until }) => {
            let (owner, end) = held(holder, until);
            LeaseError::LeaseHeld { owner, until: end }
        },
        Failure::Core(CoreError::LeaseExpired) => LeaseError::ReacquireRequired {
            cause: SessionLoss::LeaseExpired,
        },
        _ => LeaseError::Unavailable,
    }
}

/// Whether a failed publication tells that the feed is broken.
pub open spec fn tells_integrity(e: CoreError) -> bool {
    e is ObjectTooLarge || e is IntegrityError || e is InvalidFormat || e is RecoveryFailed
        || e is Rejected
}

/// What a failed publication means to an append.
pub fn cas_from_failure(f: &Failure) -> (r: StableAppendError)
    ensures
        match f {
            Failure::Core(CoreError::Fenced { caller, live }) => r == StableAppendError::Lease(
                LeaseError::Fenced { session_epoch: *caller, live_epoch: *live },
            ),
            Failure::Core(CoreError::LeaseExpired) => r == StableAppendError::Lease(
                LeaseError::ReacquireRequired { cause: SessionLoss::LeaseExpired },
            ),
            Failure::Core(CoreError::LeaseHeld { holder, until }) => r matches
                StableAppendError::Lease(LeaseError::LeaseHeld { owner, until: end })
                && names_holder(owner, end, holder@, until@),
            Failure::Core(e) => if tells_integrity(*e) {
                r matches StableAppendError::Integrity(i) && i.0@ == e.text()
            } else {
                r is Unavailable
            },
            _ => r is Unavailable,
        },
{
    match f {
        Failure::Core(CoreError::Fenced { caller, live }) => StableAppendError::Lease(
            LeaseError::Fenced { session_epoch: *caller, live_epoch: *live },
        ),
        Failure::Core(CoreError::LeaseExpired) => StableAppendError::Lease(
            LeaseError::ReacquireRequired { cause: SessionLoss::LeaseExpired },
        ),
        Failure::Core(CoreError::LeaseHeld { holder, until }) => {
            let (owner, end) = held(holder, until);
            StableAppendError::Lease(LeaseError::LeaseHeld { owner, until: end })
        },
        Failure::Core(e) => {
            let broken: bool = match e {
                CoreError::ObjectTooLarge { .. } => true,
                CoreError::IntegrityError(_) => true,
                CoreError::InvalidFormat(_) => true,
                CoreError::RecoveryFailed(_) => true,
                CoreError::Rejected(_) => true,
                _ => false,
            };
            if broken {
                StableAppendError::Integrity(LogIntegrityError(e.to_string()))
            } else {
                StableAppendError::Unavailable
            }
        },
        _ => StableAppendError::Unavailable,
    }
}

pub fn open_to_append(e: OpenLogError) -> (r: StableAppendError)
    ensures
        match e {
            OpenLogError::Integrity(i) => r == StableAppendError::Integrity(i),
            OpenLogError::DeadlineExceeded => r is DeadlineExceeded,
            OpenLogError::Cancelled => r is Cancelled,
            _ => r is Unavailable,
        },
{
    match e {
        OpenLogError::Integrity(i) => StableAppendError::Integrity(i),
        OpenLogError::DeadlineExceeded => StableAppendError::DeadlineExceeded,
        OpenLogError::Cancelled => StableAppendError::Cancelled,
        _ => StableAppendError::Unavailable,
    }
}

/// How a cursor is shown.
pub open spec fn cursor_shown(c: Cursor) -> Seq<char> {
    "Cursor { partition: "@ + decimal(c.partition as nat) + ", next_seq: "@ + decimal(
        c.next_seq as nat,
    ) + " }"@
}

fn show_cursor(c: Cursor) -> (r: String)
    ensures
        r@ == cursor_shown(c),
{
    join5(
        "Cursor { partition: ",
        &decimal_text(c.partition as u64),
        ", next_seq: ",
        &decimal_text(c.next_seq),
        " }",
    )
}

pub fn read_to_append(e: ReadError) -> (r: StableAppendError)
    ensures
        match e {
            ReadError::Integrity(i) => r == StableAppendError::Integrity(i),
            ReadError::DeadlineExceeded => r is DeadlineExceeded,
            ReadError::Cancelled => r is Cancelled,
            ReadError::Unavailable { .. } => r is Unavailable,
            ReadError::InvalidLimit(_) => r matches StableAppendError::Integrity(i) && i.0@
                == "InvalidLimit(InvalidReadLimit)"@,
            ReadError::Trimmed { requested, resume_at } => r matches StableAppendError::Integrity(i)
                && i.0@ == "Trimmed { requested: "@ + cursor_shown(requested) + ", resume_at: "@
                + cursor_shown(resume_at) + " }"@,
            ReadError::InvalidCursor { requested, next_at_head } => r matches
                StableAppendError::Integrity(i) && i.0@ == "InvalidCursor { requested: "@
                + cursor_shown(requested) + ", next_at_head: "@ + cursor_shown(next_at_head)
                + " }"@,
            ReadError::EventTooLarge { cursor, position, event_bytes, max_bytes } => r matches
                StableAppendError::Integrity(i) && i.0@ == "EventTooLarge { cursor: "@
                + cursor_shown(cursor) + ", position: Position { partition: "@ + decimal(
                position.partition as nat,
            ) + ", seq: "@ + decimal(position.seq as nat) + " }"@ + ", event_bytes: "@ + decimal(
                event_bytes as nat,
            ) + ", max_bytes: "@ + decimal(max_bytes as nat) + " }"@,
        },
{
    match e {
        ReadError::Integrity(i) => StableAppendError::Integrity(i),
        ReadError::DeadlineExceeded => StableAppendError::DeadlineExceeded,
        ReadError::Cancelled => StableAppendError::Cancelled,
        ReadError::Unavailable { .. } => StableAppendError::Unavailable,
        ReadError::InvalidLimit(_) => StableAppendError::Integrity(
            LogIntegrityError("InvalidLimit(InvalidReadLimit)".to_owned()),
        ),
        ReadError::Trimmed { requested, resume_at } => {
            let m: String = join5(
                "Trimmed { requested: ",
                &show_cursor(requested),
                ", resume_at: ",
                &show_cursor(resume_at),
                " }",
            );
            StableAppendError::Integrity(LogIntegrityError(m))
        },
        ReadError::InvalidCursor { requested, next_at_head } => {
            let m: String = join5(
                "InvalidCursor { requested: ",
                &show_cursor(requested),
                ", next_at_head: ",
                &show_cursor(next_at_head),
                " }",
            );
            StableAppendError::Integrity(LogIntegrityError(m))
        },
        ReadError::EventTooLarge { cursor, position, event_bytes, max_bytes } => {
            let place: String = join4(
                "EventTooLarge { cursor: ",
                &show_cursor(cursor),
                ", position: Position { partition: ",
                &decimal_text(position.partition as u64),
            );
            let at: String = join4(&place, ", seq: ", &decimal_text(position.seq), " }");
            let m: String = join5(
                &at,
                ", event_bytes: ",
                &decimal_text(event_bytes),
                ", max_bytes: ",
                &decimal_text(max_bytes),
            );
            StableAppendError::Integrity(LogIntegrityError(join2(&m, " }")))
        },
    }
}

pub fn open_to_read(e: OpenLogError) -> (r: ReadError)
    ensures
        match e {
            OpenLogError::Integrity(i) => r == ReadError::Integrity(i),
            OpenLogError::DeadlineExceeded => r is DeadlineExceeded,
            OpenLogError::Cancelled => r is Cancelled,
            OpenLogError::UnsupportedManifestSchema { found, .. } => r matches ReadError::Integrity(
                i,
            ) && i.0 == found,
            OpenLogError::Unavailable => r matches ReadError::Unavailable { operation }
                && operation@ == "head"@,
        },
{
    match e {
        OpenLogError::Integrity(i) => ReadError::Integrity(i),
        OpenLogError::DeadlineExceeded => ReadError::DeadlineExceeded,
        OpenLogError::Cancelled => ReadError::Cancelled,
        OpenLogError::UnsupportedManifestSchema { found, .. } => ReadError::Integrity(
            LogIntegrityError(found),
        ),
        OpenLogError::Unavailable => ReadError::Unavailable { operation: "head" },
    }
}

// --------------------------------------------------------------- following
/// What becomes of an error of a page: it is returned, unless the page was
/// unavailable, and then it is read again after a pause that doubles up to
/// 400 milliseconds, eight times in all.
#[derive(Debug)]
pub enum PageRetry {
    Return(ReadError),
    Again { pause_millis: u64, next_pause_millis: u64 },
}

/// What to do after the `attempts`-th try of a page failed.
pub fn retry_page(attempts: u32, pause_millis: u64, e: ReadError) -> (r: PageRetry)
    requires
        pause_millis <= 400,
    ensures
        match e {
            ReadError::Unavailable { .. } => if attempts >= MAX_PAGE_ATTEMPTS {
                r matches PageRetry::Return(ReadError::Unavailable { operation }) && operation@
                    == "read_page"@
            } else {
                r == (PageRetry::Again {
                    pause_millis,
                    next_pause_millis: if 2 * pause_millis > 400 {
                        400
                    } else {
                        (2 * pause_millis) as u64
                    },
                })
            },
            _ => r == PageRetry::Return(e),
        },
{
    match e {
        ReadError::Unavailable { .. } => {
            if attempts >= MAX_PAGE_ATTEMPTS {
                PageRetry::Return(ReadError::Unavailable { operation: "read_page" })
            } else {
                let doubled: u64 = pause_millis * 2;
                PageRetry::Again {
                    pause_millis,
                    next_pause_millis: if doubled > 400 {
                        400
                    } else {
                        doubled
                    },
                }
            }
        },
        other => PageRetry::Return(other),
    }
}

/// What to do with a page that is followed.
#[derive(Debug)]
pub enum FollowStep {
    Return(FollowPage),
    Wait(ReadPage),
}

/// The first page of a follow is waited for only if it is empty and at the
/// head.
pub fn follow_first(page: ReadPage) -> (r: FollowStep)
    ensures
        if page.events@.len() > 0 || !page.at_head {
            r == FollowStep::Return(FollowPage { page, timed_out: false })
        } else {
            r == FollowStep::Wait(page)
        },
{
    if page.events.len() > 0 || !page.at_head {
        FollowStep::Return(FollowPage { page, timed_out: false })
    } else {
        FollowStep::Wait(page)
    }
}

/// A later page is returned as soon as it has events, and without any once
/// the wait is over.
pub fn follow_again(page: ReadPage, waited: bool) -> (r: FollowStep)
    ensures
        if page.events@.len() > 0 {
            r == FollowStep::Return(FollowPage { page, timed_out: false })
        } else if waited {
            r == FollowStep::Return(FollowPage { page, timed_out: true })
        } else {
            r == FollowStep::Wait(page)
        },
{
    if page.events.len() > 0 {
        FollowStep::Return(FollowPage { page, timed_out: false })
    } else if waited {
        FollowStep::Return(FollowPage { page, timed_out: true })
    } else {
        FollowStep::Wait(page)
    }
}

/// When the timer of a follow fires, the wait is over, or else the call is.
pub fn follow_timer(page: ReadPage, waited: bool) -> (r: core::result::Result<FollowPage, ReadError>)
    ensures
        if waited {
            r == Ok::<FollowPage, ReadError>(FollowPage { page, timed_out: true })
        } else {
            r matches Err(ReadError::DeadlineExceeded)
        },
{
    if waited {
        Ok(FollowPage { page, timed_out: true })
    } else {
        Err(ReadError::DeadlineExceeded)
    }
}

// ---------------------------------------------------------------- session
/// A writer's session on a feed. `lost` stops whatever the session is
/// publishing.
#[derive(Debug)]
pub struct WriterSession {
    pub instance: WriterInstanceId,
    pub label: WriterLabel,
    pub policy: LeasePolicy,
    pub state: WriterState,
    pub lost: bool,
}

/// What the renewal of a lease does after a pause.
#[derive(Clone, Copy, Debug, PartialEq, Eq, Structural)]
pub enum RenewTick {
    Stop,
    /// Renew, and give up after this many nanoseconds.
    Renew { within: i128 },
}

/// What came of a claim.
#[derive(Debug)]
pub enum ClaimStep {
    /// The lease was taken under this epoch: read the head.
    Taken { epoch: u64 },
    /// Somebody else holds it: wait and try again.
    Held { owner: WriterInstanceId, until: Timestamp },
    Failed(LeaseError),
}

/// What came of publishing an append.
#[derive(Debug)]
pub enum SessionCommit {
    Committed,
    Conflict,
    Failed(StableAppendError),
}

/// Whether a lease that lasts until `until` is over at `now`, with slack.
pub open spec fn lapsed(until: Timestamp, now: Timestamp, policy: LeasePolicy) -> bool {
    until@ <= now@ + policy.clock_slack.nanos
}

/// Whether a session may come from one state to another: only one that is
/// acquiring or active becomes or stays active, and one that was lost or
/// closed stays so.
pub open spec fn may_follow(before: WriterState, after: WriterState) -> bool {
    &&& after is Active ==> before is Acquiring || before is Active
    &&& before is Lost || before is Closed ==> after is Lost || after is Closed
}

/// Whether `instance` holds the lease of `value` under `epoch` at `now`.
pub open spec fn owns(value: RefValue, instance: Seq<char>, epoch: u64, now: Timestamp) -> bool {
    value.leased(now) && value.lease->0.writer@ == instance && value.epoch == epoch
}

impl WriterSession {
    pub fn new(label: WriterLabel, policy: LeasePolicy) -> (r: core::result::Result<
        Self,
        InvalidLeasePolicy,
    >)
        ensures
            r is Ok <==> policy.ok(),
            r matches Ok(s) ==> s.label == label && s.policy == policy && s.state
                == WriterState::Unacquired && !s.lost,
    {
        match policy.validate() {
            Err(e) => Err(e),
            Ok(policy) => Ok(
                WriterSession {
                    instance: WriterInstanceId::generate(),
                    label,
                    policy,
                    state: WriterState::Unacquired,
                    lost: false,
                },
            ),
        }
    }

    /// The session after a loss.
    pub open spec fn after_loss(self, cause: SessionLoss) -> WriterSession {
        WriterSession {
            state: WriterState::Lost {
                epoch: match self.state {
                    WriterState::Active { epoch, .. } => Some(epoch),
                    WriterState::Lost { epoch, .. } => epoch,
                    _ => None,
                },
                cause,
            },
            lost: true,
            ..self
        }
    }

    /// Gives the session up.
    pub fn lose(&mut self, cause: SessionLoss)
        ensures
            may_follow(old(self).state, final(self).state),
            *final(self) == old(self).after_loss(cause),
    {
        let epoch: Option<u64> = match self.state {
            WriterState::Active { epoch, .. } => Some(epoch),
            WriterState::Lost { epoch, .. } => epoch,
            _ => None,
        };
        self.lost = true;
        self.state = WriterState::Lost { epoch, cause };
    }

    fn slack(&self) -> (r: i128)
        requires
            self.policy.ok(),
        ensures
            r == self.policy.clock_slack.nanos,
    {
        self.policy.clock_slack.nanos as i128
    }

    /// The epoch of an active session, nothing before a lease was acquired,
    /// and an error once it is gone: a session never acquires twice.
    pub fn active_epoch(&mut self, now: Timestamp) -> (r: core::result::Result<
        Option<u64>,
        LeaseError,
    >)
        requires
            old(self).policy.ok(),
            is_moment(now@ + old(self).policy.clock_slack.nanos),
        ensures
            may_follow(old(self).state, final(self).state),
            match old(self).state {
                WriterState::Active { epoch, lease_until } => if lapsed(
                    lease_until,
                    now,
                    old(self).policy,
                ) {
                    r == Err::<Option<u64>, LeaseError>(
                        LeaseError::ReacquireRequired { cause: SessionLoss::LeaseExpired },
                    ) && *final(self) == old(self).after_loss(SessionLoss::LeaseExpired)
                } else {
                    r == Ok::<Option<u64>, LeaseError>(Some(epoch)) && *final(self) == *old(self)
                },
                WriterState::Lost { cause, .. } => r == Err::<Option<u64>, LeaseError>(
                    LeaseError::ReacquireRequired { cause },
                ) && *final(self) == *old(self),
                WriterState::Closed => r == Err::<Option<u64>, LeaseError>(
                    LeaseError::ReacquireRequired { cause: SessionLoss::OwnerChanged },
                ) && *final(self) == *old(self),
                _ => r == Ok::<Option<u64>, LeaseError>(None) && *final(self) == *old(self),
            },
    {
        let horizon: Timestamp = now.plus(self.slack());
        match self.state {
            WriterState::Active { epoch, lease_until } => {
                if !lease_until.after(&horizon) {
                    self.lose(SessionLoss::LeaseExpired);
                    return Err(
                        LeaseError::ReacquireRequired { cause: SessionLoss::LeaseExpired },
                    );
                }
                Ok(Some(epoch))
            },
            WriterState::Lost { cause, .. } => Err(LeaseError::ReacquireRequired { cause }),
            WriterState::Closed => Err(
                LeaseError::ReacquireRequired { cause: SessionLoss::OwnerChanged },
            ),
            _ => Ok(None),
        }
    }

    /// Starts to acquire the lease.
    pub fn begin_acquire(&mut self)
        requires
            old(self).state is Unacquired || old(self).state is Acquiring,
        ensures
            may_follow(old(self).state, final(self).state),
            *final(self) == (WriterSession {
                state: WriterState::Acquiring { held_until: None },
                ..*old(self)
            }),
    {
        self.state = WriterState::Acquiring { held_until: None };
    }

    /// What a claim came to. Only a lease that somebody else holds is
    /// waited for.
    pub fn claim_step(claimed: core::result::Result<u64, Failure>) -> (r: ClaimStep)
        ensures
            match claimed {
                Ok(epoch) => r == (ClaimStep::Taken { epoch }),
                Err(Failure::Core(CoreError::LeaseHeld { holder, until })) => r matches
                    ClaimStep::Held { owner, until: end } && names_holder(
                    owner,
                    end,
                    holder@,
                    until@,
                ),
                Err(Failure::Core(CoreError::Fenced { caller, live })) => r == ClaimStep::Failed(
                    LeaseError::Fenced { session_epoch: caller, live_epoch: live },
                ),
                Err(Failure::Core(CoreError::LeaseExpired)) => r == ClaimStep::Failed(
                    LeaseError::ReacquireRequired { cause: SessionLoss::LeaseExpired },
                ),
                Err(_) => r matches ClaimStep::Failed(LeaseError::Unavailable),
            },
    {
        match claimed {
            Ok(epoch) => ClaimStep::Taken { epoch },
            Err(f) => match lease_from_failure(&f) {
                LeaseError::LeaseHeld { owner, until } => ClaimStep::Held { owner, until },
                e => ClaimStep::Failed(e),
            },
        }
    }

    /// Takes in the head after the lease was claimed under `epoch`. The
    /// session is active only if the head says so.
    pub fn on_claimed(&mut self, epoch: u64, head: Option<&RefValue>) -> (r: core::result::Result<
        u64,
        LeaseError,
    >)
        requires
            old(self).state is Acquiring,
        ensures
            may_follow(old(self).state, final(self).state),
            match head {
                None => r matches Err(LeaseError::Unavailable) && *final(self) == *old(self),
                Some(v) => match v.lease {
                    None => r matches Err(LeaseError::Unavailable) && *final(self) == *old(self),
                    Some(l) => if l.writer@ != hex_text(old(self).instance@) || v.epoch != epoch {
                        r == Err::<u64, LeaseError>(
                            LeaseError::ReacquireRequired { cause: SessionLoss::OwnerChanged },
                        ) && *final(self) == old(self).after_loss(SessionLoss::OwnerChanged)
                    } else {
                        r == Ok::<u64, LeaseError>(epoch) && *final(self) == (WriterSession {
                            state: WriterState::Active { epoch, lease_until: l.lease_until },
                            ..*old(self)
                        })
                    },
                },
            },
    {
        let value: &RefValue = match head {
            None => {
                return Err(LeaseError::Unavailable);
            },
            Some(v) => v,
        };
        let lease: &Lease = match &value.lease {
            None => {
                return Err(LeaseError::Unavailable);
            },
            Some(l) => l,
        };
        let name: String = self.instance.canonical();
        if !same_text(&lease.writer, &name) || value.epoch != epoch {
            self.lose(SessionLoss::OwnerChanged);
            return Err(LeaseError::ReacquireRequired { cause: SessionLoss::OwnerChanged });
        }
        self.state = WriterState::Active { epoch, lease_until: lease.lease_until };
        Ok(epoch)
    }

    /// What the renewal under `epoch` does at `now`.
    pub fn on_tick(&mut self, epoch: u64, now: Timestamp) -> (r: RenewTick)
        requires
            old(self).policy.ok(),
            is_moment(now@ + old(self).policy.clock_slack.nanos),
        ensures
            may_follow(old(self).state, final(self).state),
            match old(self).state {
                WriterState::Active { epoch: e, lease_until } => if e != epoch {
                    r == RenewTick::Stop && *final(self) == *old(self)
                } else if lapsed(lease_until, now, old(self).policy) {
                    r == RenewTick::Stop && *final(self) == old(self).after_loss(
                        SessionLoss::LeaseExpired,
                    )
                } else {
                    *final(self) == *old(self) && (r matches RenewTick::Renew { within } && within
                        == lease_until@ - old(self).policy.clock_slack.nanos - now@ && within > 0)
                },
                _ => r == RenewTick::Stop && *final(self) == *old(self),
            },
    {
        let slack: i128 = self.slack();
        let horizon: Timestamp = now.plus(slack);
        match self.state {
            WriterState::Active { epoch: e, lease_until } => {
                if e != epoch {
                    return RenewTick::Stop;
                }
                if !lease_until.after(&horizon) {
                    self.lose(SessionLoss::LeaseExpired);
                    return RenewTick::Stop;
                }
                RenewTick::Renew { within: lease_until.nanos() - slack - now.nanos() }
            },
            _ => RenewTick::Stop,
        }
    }

    /// The cause of a loss that a failed renewal tells.
    pub open spec fn renewal_loss(f: Failure) -> SessionLoss {
        match f {
            Failure::Core(CoreError::Fenced { live, .. }) => SessionLoss::Fenced {
                live_epoch: live,
            },
            Failure::Core(CoreError::LeaseExpired) => SessionLoss::LeaseExpired,
            Failure::Core(CoreError::LeaseHeld { .. }) => SessionLoss::OwnerChanged,
            _ => SessionLoss::RenewalUncertain,
        }
    }

    /// Takes in what came of a renewal under `epoch`: the ref, a failure, or
    /// no answer in time. Returns whether to go on renewing.
    pub fn on_renewed(
        &mut self,
        epoch: u64,
        answer: Option<core::result::Result<&RefValue, &Failure>>,
    ) -> (r: bool)
        requires
            old(self).state matches WriterState::Active { epoch: e, .. } && e == epoch,
        ensures
            may_follow(old(self).state, final(self).state),
            match answer {
                None => !r && *final(self) == old(self).after_loss(SessionLoss::LeaseExpired),
                Some(Err(f)) => !r && *final(self) == old(self).after_loss(
                    Self::renewal_loss(*f),
                ),
                Some(Ok(v)) => match v.lease {
                    None => !r && *final(self) == old(self).after_loss(
                        SessionLoss::RenewalUncertain,
                    ),
                    Some(l) => if l.writer@ != hex_text(old(self).instance@) || v.epoch != epoch {
                        !r && *final(self) == old(self).after_loss(SessionLoss::OwnerChanged)
                    } else {
                        r && *final(self) == (WriterSession {
                            state: WriterState::Active { epoch, lease_until: l.lease_until },
                            ..*old(self)
                        })
                    },
                },
            },
    {
        let value: &RefValue = match answer {
            None => {
                self.lose(SessionLoss::LeaseExpired);
                return false;
            },
            Some(Err(f)) => {
                let cause: SessionLoss = match f {
                    Failure::Core(CoreError::Fenced { live, .. }) => SessionLoss::Fenced {
                        live_epoch: *live,
                    },
                    Failure::Core(CoreError::LeaseExpired) => SessionLoss::LeaseExpired,
                    Failure::Core(CoreError::LeaseHeld { .. }) => SessionLoss::OwnerChanged,
                    _ => SessionLoss::RenewalUncertain,
                };
                self.lose(cause);
                return false;
            },
            Some(Ok(v)) => v,
        };
        let name: String = self.instance.canonical();
        match &value.lease {
            None => {
                self.lose(SessionLoss::RenewalUncertain);
                false
            },
            Some(l) => {
                if !same_text(&l.writer, &name) || value.epoch != epoch {
                    self.lose(SessionLoss::OwnerChanged);
                    false
                } else {
                    self.state = WriterState::Active { epoch, lease_until: l.lease_until };
                    true
                }
            },
        }
    }

    /// Whether the head still says that this session holds the lease.
    pub fn check_owned(&mut self, head: Option<&RefValue>, epoch: u64, now: Timestamp) -> (r:
        core::result::Result<(), StableAppendError>)
        ensures
            may_follow(old(self).state, final(self).state),
            match head {
                None => r matches Err(StableAppendError::Unavailable) && *final(self) == *old(self),
                Some(v) => if owns(*v, hex_text(old(self).instance@), epoch, now) {
                    r is Ok && *final(self) == *old(self)
                } else {
                    r == Err::<(), StableAppendError>(
                        StableAppendError::Lease(
                            LeaseError::ReacquireRequired { cause: SessionLoss::OwnerChanged },
                        ),
                    ) && *final(self) == old(self).after_loss(SessionLoss::OwnerChanged)
                },
            },
    {
        let value: &RefValue = match head {
            None => {
                return Err(StableAppendError::Unavailable);
            },
            Some(v) => v,
        };
        let name: String = self.instance.canonical();
        let owned: bool = match &value.lease {
            None => false,
            Some(l) => same_text(&l.writer, &name) && value.epoch == epoch && l.lease_until.after(
                &now,
            ),
        };
        if !owned {
            self.lose(SessionLoss::OwnerChanged);
            return Err(
                StableAppendError::Lease(
                    LeaseError::ReacquireRequired { cause: SessionLoss::OwnerChanged },
                ),
            );
        }
        Ok(())
    }

    /// Takes in what came of publishing an append: whether it is done, or to
    /// be tried again after a lost race. Losing the lease ends the session.
    pub fn on_commit(&mut self, outcome: SessionCommit) -> (r: core::result::Result<
        bool,
        StableAppendError,
    >)
        ensures
            may_follow(old(self).state, final(self).state),
            match outcome {
                SessionCommit::Committed => r == Ok::<bool, StableAppendError>(true) && *final(self)
                    == *old(self),
                SessionCommit::Conflict => r == Ok::<bool, StableAppendError>(false) && *final(self)
                    == *old(self),
                SessionCommit::Failed(
                    StableAppendError::Lease(LeaseError::Fenced { session_epoch, live_epoch }),
                ) => r == Err::<bool, StableAppendError>(
                    StableAppendError::Lease(LeaseError::Fenced { session_epoch, live_epoch }),
                ) && *final(self) == old(self).after_loss(SessionLoss::Fenced { live_epoch }),
                SessionCommit::Failed(StableAppendError::Lease(LeaseError::LeaseHeld { .. })) => r
                    == Err::<bool, StableAppendError>(
                    StableAppendError::Lease(
                        LeaseError::ReacquireRequired { cause: SessionLoss::OwnerChanged },
                    ),
                ) && *final(self) == old(self).after_loss(SessionLoss::OwnerChanged),
                SessionCommit::Failed(
                    StableAppendError::Lease(LeaseError::ReacquireRequired { cause }),
                ) => r == Err::<bool, StableAppendError>(
                    StableAppendError::Lease(LeaseError::ReacquireRequired { cause }),
                ) && *final(self) == old(self).after_loss(cause),
                SessionCommit::Failed(e) => r == Err::<bool, StableAppendError>(e) && *final(self)
                    == *old(self),
            },
    {
        match outcome {
            SessionCommit::Committed => Ok(true),
            SessionCommit::Conflict => Ok(false),
            SessionCommit::Failed(
                StableAppendError::Lease(LeaseError::Fenced { session_epoch, live_epoch }),
            ) => {
                self.lose(SessionLoss::Fenced { live_epoch });
                Err(StableAppendError::Lease(LeaseError::Fenced { session_epoch, live_epoch }))
            },
            SessionCommit::Failed(StableAppendError::Lease(LeaseError::LeaseHeld { .. })) => {
                self.lose(SessionLoss::OwnerChanged);
                Err(
                    StableAppendError::Lease(
                        LeaseError::ReacquireRequired { cause: SessionLoss::OwnerChanged },
                    ),
                )
            },
            SessionCommit::Failed(
                StableAppendError::Lease(LeaseError::ReacquireRequired { cause }),
            ) => {
                self.lose(cause);
                Err(StableAppendError::Lease(LeaseError::ReacquireRequired { cause }))
            },
            SessionCommit::Failed(e) => Err(e),
        }
    }

    /// Closes the session. An active one has a lease to release, under the
    /// returned epoch.
    pub fn close(&mut self) -> (r: Option<u64>)
        ensures
            may_follow(old(self).state, final(self).state),
            *final(self) == (WriterSession { state: WriterState::Closed, lost: true, ..*old(self) }),
            match old(self).state {
                WriterState::Active { epoch, .. } => r == Some(epoch),
                _ => r is None,
            },
    {
        let epoch: Option<u64> = match self.state {
            WriterState::Active { epoch, .. } => Some(epoch),
            _ => None,
        };
        self.lost = true;
        self.state = WriterState::Closed;
        epoch
    }
}

/// A session that lost its lease or was closed is never active again,
/// whatever happens to it.
pub proof fn law_lost_session_stays_lost(states: Seq<WriterState>, i: int, j: int)
    requires
        0 <= i <= j < states.len(),
        forall|k: int|
            0 <= k < states.len() - 1 ==> may_follow(#[trigger] states[k], states[k + 1]),
        states[i] is Lost || states[i] is Closed,
    ensures
        states[j] is Lost || states[j] is Closed,
    decreases j - i,
{
    if i < j {
        assert(may_follow(states[i], states[i + 1]));
        law_lost_session_stays_lost(states, i + 1, j);
    }
}

/// Whether a payload may be appended through a session.
pub fn check_session_payload(payload: &Vec<u8>) -> (r: core::result::Result<(), StableAppendError>)
    ensures
        r is Ok <==> 0 < payload@.len() <= MAX_CHUNK_RAW_BYTES,
        r matches Err(e) ==> e is InvalidInput,
{
    if payload.len() == 0 || payload.len() as u64 > MAX_CHUNK_RAW_BYTES {
        return Err(StableAppendError::InvalidInput);
    }
    Ok(())
}

/// The receipt under which the event was appended already, if it was.
pub fn lookup_committed(found: &Lookup, payload_hash: &Digest) -> (r: core::result::Result<
    Option<StableAppendReceipt>,
    StableAppendError,
>)
    ensures
        match stable_answer(entry_of(*found), *payload_hash) {
            StableAnswer::Receipt(x) => r matches Ok(Some(y)) && y == x,
            StableAnswer::Conflict { existing, supplied } => r == Err::<
                Option<StableAppendReceipt>,
                StableAppendError,
            >(StableAppendError::StableKeyConflict { existing, supplied }),
            StableAnswer::Append => r matches Ok(None),
        },
{
    match found {
        Lookup::Absent => Ok(None),
        Lookup::Found(e) => {
            if e.payload_hash == *payload_hash {
                Ok(
                    Some(
                        StableAppendReceipt {
                            payload_hash: *payload_hash,
                            range: AppendRange { first: e.first, last: e.last },
                            generation: e.generation,
                        },
                    ),
                )
            } else {
                Err(
                    StableAppendError::StableKeyConflict {
                        existing: e.payload_hash,
                        supplied: *payload_hash,
                    },
                )
            }
        },
    }
}

// ------------------------------------------------------------ owned leases
/// The ref to write to renew a lease that `writer` holds under `epoch`.
pub fn renew_owned_lease(
    name: &str,
    value: Option<&RefValue>,
    writer: &str,
    epoch: u64,
    ttl_secs: i64,
    now: Timestamp,
) -> (r: core::result::Result<RefValue, Failure>)
    requires
        is_moment(now@ + ttl_secs * 1_000_000_000),
    ensures
        match value {
            None => r matches Err(Failure::NoSuchRef { name: n }) && n@ == name@,
            Some(v) => if v.epoch != epoch {
                r == Err::<RefValue, Failure>(
                    Failure::Core(CoreError::Fenced { caller: epoch, live: v.epoch }),
                )
            } else if !v.leased(now) {
                r == Err::<RefValue, Failure>(Failure::Core(CoreError::LeaseExpired))
            } else if v.lease->0.writer@ != writer@ {
                r matches Err(Failure::Core(e)) && is_held(e, v.lease->0)
            } else {
                r matches Ok(next) && is_renewal(next, *v, ttl_secs, now)
            },
        },
{
    let v: &RefValue = match value {
        None => {
            return Err(Failure::NoSuchRef { name: name.to_owned() });
        },
        Some(v) => v,
    };
    if v.epoch != epoch {
        return Err(Failure::Core(CoreError::Fenced { caller: epoch, live: v.epoch }));
    }
    let lease: &Lease = match &v.lease {
        None => {
            return Err(Failure::Core(CoreError::LeaseExpired));
        },
        Some(l) => l,
    };
    if !lease.lease_until.after(&now) {
        return Err(Failure::Core(CoreError::LeaseExpired));
    }
    if !same_text(&lease.writer, writer) {
        return Err(
            Failure::Core(
                CoreError::LeaseHeld {
                    holder: lease.writer.clone(),
                    until: lease.lease_until.to_rfc3339(),
                },
            ),
        );
    }
    let mut next: RefValue = v.clone();
    next.lease = Some(
        Lease {
            writer: lease.writer.clone(),
            lease_until: now.plus(ttl_secs as i128 * 1_000_000_000),
        },
    );
    next.updated_at = now;
    Ok(next)
}

/// A session counts its lease as over as soon as what is left of it is no more
/// than clocks may differ, and not before.
pub proof fn law_lease_lapses_a_slack_early(until: Timestamp, now: Timestamp, policy: LeasePolicy)
    ensures
        lapsed(until, now, policy) <==> until@ - now@ <= policy.clock_slack.nanos,
{
}

/// A policy is taken exactly if a renewal comes before the lease lapses, the
/// lease ends within ten minutes, and a lease can be waited for to its end. Its
/// length is counted in whole seconds, and at least one.
pub proof fn law_policy_leaves_time_to_renew(p: LeasePolicy)
    ensures
        p.ok() <==> p.ttl.nanos - p.clock_slack.nanos > p.renew_every.nanos && p.ttl.nanos <= 600
            * 1_000_000_000 && p.ttl.nanos <= p.initial_acquire_budget.nanos,
        p.secs() >= 1,
        p.ttl.nanos >= 1_000_000_000 ==> p.secs() * 1_000_000_000 <= p.ttl.nanos < (p.secs() + 1)
            * 1_000_000_000,
        p.ttl.nanos < 1_000_000_000 ==> p.secs() == 1,
{
}

/// A session owns a feed exactly while the lease is not over, names its
/// instance, and was taken under its epoch.
pub proof fn law_owner_holds_the_live_lease(
    value: RefValue,
    instance: Seq<char>,
    epoch: u64,
    now: Timestamp,
)
    ensures
        owns(value, instance, epoch, now) <==> value.epoch == epoch && value.lease is Some
            && value.lease->0.lease_until@ > now@ && value.lease->0.writer@ == instance,
{
}

/// A session that loses its lease is lost, says why, and remembers the epoch
/// that it had; it stays the session that it was.
pub proof fn law_loss_is_remembered(s: WriterSession, cause: SessionLoss)
    ensures
        ({
            let after = s.after_loss(cause);
            &&& after.lost
            &&& after.instance == s.instance && after.label == s.label && after.policy == s.policy
            &&& after.state matches WriterState::Lost { epoch, cause: c } && c == cause && (
            s.state matches WriterState::Active { epoch: e, .. } ==> epoch == Some(e)) && (
            s.state matches WriterState::Lost { epoch: e, .. } ==> epoch == e) && (epoch is Some
                ==> s.state is Active || s.state is Lost)
        }),
{
}

/// Why a renewal failed is why the session is lost.
pub proof fn law_failed_renewal_says_why(f: Failure)
    ensures
        match WriterSession::renewal_loss(f) {
            SessionLoss::Fenced { live_epoch } => f matches Failure::Core(
                CoreError::Fenced { live, .. },
            ) && live == live_epoch,
            SessionLoss::LeaseExpired => f matches Failure::Core(CoreError::LeaseExpired),
            SessionLoss::OwnerChanged => f matches Failure::Core(CoreError::LeaseHeld { .. }),
            SessionLoss::RenewalUncertain => !(f matches Failure::Core(e) && (e is Fenced
                || e is LeaseExpired || e is LeaseHeld)),
        },
{
}

/// The text of an instance names it and nothing else.
pub proof fn law_instance_text_reads_back(id: WriterInstanceId, s: Seq<char>)
    requires
        s == hex_text(id@),
        id@.len() == 16,
    ensures
        names_instance(s),
        hex_bytes(encode_utf8(s)) == id@,
{
    crate::text::lemma_hex_roundtrip(id@);
}

/// A failure is worth trying again exactly if the backend could not be
/// reached; what it is otherwise told as, bad bytes or a bad request, is not.
pub proof fn law_only_outages_are_transient(e: CoreError)
    ensures
        transient(e) <==> e is BackendUnavailable || e is Io,
        tells_integrity(e) ==> !transient(e),
        tells_integrity(e) <==> e is IntegrityError || e is InvalidFormat || e is RecoveryFailed
            || e is Rejected || e is ObjectTooLarge,
{
}

} // verus!
