//! Errors of logs, as codes and messages of the wire.
use vstd::prelude::*;

use crate::bridge::protocol::{
    is_error, is_unsupported, plain_body, seq_string, ErrorBody, ErrorCode, Response,
    PROTOCOL_VERSION,
};
use crate::feed::{OpenLogError, ReadError};
use crate::session::{LeaseError, SessionLoss, StableAppendError};
use crate::text::decimal;

verus! {

/// A plain error.
pub fn error(id: &str, code: ErrorCode, message: &str) -> (r: Response)
    ensures
        is_error(r, id@, code, message@),
{
    Response::err(id, plain_body(code, message))
}

/// Whether a response answers a failed opening of a log.
pub open spec fn answers_open(r: Response, id: Seq<char>, e: OpenLogError) -> bool {
    match e {
        OpenLogError::UnsupportedManifestSchema { .. } => is_unsupported(
            r,
            id,
            "v3_complete_feed"@,
            "existing log is not a V3 complete feed; migration is not supported"@,
        ),
        OpenLogError::Integrity(_) => is_error(
            r,
            id,
            ErrorCode::Integrity,
            "log publication integrity check failed"@,
        ),
        OpenLogError::Unavailable => is_error(
            r,
            id,
            ErrorCode::BackendUnavailable,
            "log backend unavailable"@,
        ),
        OpenLogError::DeadlineExceeded => is_error(
            r,
            id,
            ErrorCode::DeadlineExceeded,
            "log open deadline exceeded"@,
        ),
        OpenLogError::Cancelled => is_error(r, id, ErrorCode::Cancelled, "log open cancelled"@),
    }
}

pub fn open_error(id: &str, err: OpenLogError) -> (r: Response)
    ensures
        answers_open(r, id@, err),
{
    match err {
        OpenLogError::UnsupportedManifestSchema { .. } => Response::unsupported(
            id,
            "v3_complete_feed",
            "existing log is not a V3 complete feed; migration is not supported",
        ),
        OpenLogError::Integrity(_) => error(
            id,
            ErrorCode::Integrity,
            "log publication integrity check failed",
        ),
        OpenLogError::Unavailable => error(
            id,
            ErrorCode::BackendUnavailable,
            "log backend unavailable",
        ),
        OpenLogError::DeadlineExceeded => error(
            id,
            ErrorCode::DeadlineExceeded,
            "log open deadline exceeded",
        ),
        OpenLogError::Cancelled => error(id, ErrorCode::Cancelled, "log open cancelled"),
    }
}

/// Whether a response sends a reader on to the retention floor.
pub open spec fn is_trimmed(r: Response, id: Seq<char>, resume_at: u64) -> bool {
    r matches Response::Failure { v, id: i, ok, error } && v == PROTOCOL_VERSION && i@ == id && !ok
        && error.code == ErrorCode::Trimmed && error.message@
        == "cursor is below the retention floor"@ && (error.resume_at matches Some(s) && s@
        == decimal(resume_at as nat)) && error.capability is None && error.seq is None
        && error.event_bytes is None && error.max_bytes is None
}

/// Whether a response names an event that no page of the size can hold.
pub open spec fn is_too_large(
    r: Response,
    id: Seq<char>,
    seq: u64,
    event_bytes: u64,
    max_bytes: u64,
) -> bool {
    r matches Response::Failure { v, id: i, ok, error } && v == PROTOCOL_VERSION && i@ == id && !ok
        && error.code == ErrorCode::EventTooLarge && error.message@
        == "first event exceeds byte limit; cursor not advanced"@ && (error.seq matches Some(s)
        && s@ == decimal(seq as nat)) && (error.event_bytes matches Some(b) && b@ == decimal(
        event_bytes as nat,
    )) && (error.max_bytes matches Some(m) && m@ == decimal(max_bytes as nat)) && error.resume_at
        is None && error.capability is None
}

/// Whether a response answers a failed reading.
pub open spec fn answers_read(r: Response, id: Seq<char>, e: ReadError) -> bool {
    match e {
        ReadError::Trimmed { resume_at, .. } => is_trimmed(r, id, resume_at.next_seq),
        ReadError::EventTooLarge { position, event_bytes, max_bytes, .. } => is_too_large(
            r,
            id,
            position.seq,
            event_bytes,
            max_bytes,
        ),
        ReadError::InvalidCursor { .. } => is_error(
            r,
            id,
            ErrorCode::InvalidRequest,
            "cursor is outside the complete feed"@,
        ),
        ReadError::InvalidLimit(_) => is_error(
            r,
            id,
            ErrorCode::InvalidRequest,
            "invalid page limits"@,
        ),
        ReadError::Integrity(_) => is_error(
            r,
            id,
            ErrorCode::Integrity,
            "log publication integrity check failed"@,
        ),
        ReadError::Unavailable { .. } => is_error(
            r,
            id,
            ErrorCode::BackendUnavailable,
            "log backend unavailable"@,
        ),
        ReadError::DeadlineExceeded => is_error(
            r,
            id,
            ErrorCode::DeadlineExceeded,
            "read deadline exceeded"@,
        ),
        ReadError::Cancelled => is_error(r, id, ErrorCode::Cancelled, "read cancelled"@),
    }
}

pub fn read_error(id: &str, err: ReadError) -> (r: Response)
    ensures
        answers_read(r, id@, err),
{
    match err {
        ReadError::Trimmed { resume_at, .. } => {
            let mut body: ErrorBody = plain_body(
                ErrorCode::Trimmed,
                "cursor is below the retention floor",
            );
            body.resume_at = Some(seq_string(resume_at.next_seq));
            Response::err(id, body)
        },
        ReadError::EventTooLarge { position, event_bytes, max_bytes, .. } => {
            let mut body: ErrorBody = plain_body(
                ErrorCode::EventTooLarge,
                "first event exceeds byte limit; cursor not advanced",
            );
            body.seq = Some(seq_string(position.seq));
            body.event_bytes = Some(seq_string(event_bytes));
            body.max_bytes = Some(seq_string(max_bytes));
            Response::err(id, body)
        },
        ReadError::InvalidCursor { .. } => error(
            id,
            ErrorCode::InvalidRequest,
            "cursor is outside the complete feed",
        ),
        ReadError::InvalidLimit(_) => error(id, ErrorCode::InvalidRequest, "invalid page limits"),
        ReadError::Integrity(_) => error(
            id,
            ErrorCode::Integrity,
            "log publication integrity check failed",
        ),
        ReadError::Unavailable { .. } => error(
            id,
            ErrorCode::BackendUnavailable,
            "log backend unavailable",
        ),
        ReadError::DeadlineExceeded => error(
            id,
            ErrorCode::DeadlineExceeded,
            "read deadline exceeded",
        ),
        ReadError::Cancelled => error(id, ErrorCode::Cancelled, "read cancelled"),
    }
}

/// The message to a writer whose session is lost.
pub open spec fn loss_message(cause: SessionLoss) -> Seq<char> {
    match cause {
        SessionLoss::Fenced { .. } => "session lost: fenced; start a new publisher session"@,
        SessionLoss::OwnerChanged => "session lost: owner changed; start a new publisher session"@,
        SessionLoss::RenewalUncertain =>
            "session lost: renewal uncertain; start a new publisher session"@,
        SessionLoss::LeaseExpired => "session lost: lease expired; start a new publisher session"@,
    }
}

/// The code and the message of a lease that cannot be had or kept.
pub open spec fn lease_reply(e: LeaseError) -> (ErrorCode, Seq<char>) {
    match e {
        LeaseError::LeaseHeld { .. } => (
            ErrorCode::LeaseHeld,
            "another publisher owns the lease"@,
        ),
        LeaseError::Fenced { .. } => (ErrorCode::Fenced, "publisher session was fenced"@),
        LeaseError::ReacquireRequired { cause } => (
            ErrorCode::ReacquireRequired,
            loss_message(cause),
        ),
        LeaseError::Unavailable => (ErrorCode::BackendUnavailable, "lease backend unavailable"@),
        LeaseError::DeadlineExceeded => (ErrorCode::DeadlineExceeded, "lease deadline exceeded"@),
        LeaseError::Cancelled => (ErrorCode::Cancelled, "lease operation cancelled"@),
        LeaseError::InvalidPolicy(_) => (
            ErrorCode::InvalidRequest,
            "invalid publisher lease policy"@,
        ),
    }
}

pub fn lease_error(id: &str, err: LeaseError) -> (r: Response)
    ensures
        is_error(r, id@, lease_reply(err).0, lease_reply(err).1),
{
    match err {
        LeaseError::LeaseHeld { .. } => error(
            id,
            ErrorCode::LeaseHeld,
            "another publisher owns the lease",
        ),
        LeaseError::Fenced { .. } => error(id, ErrorCode::Fenced, "publisher session was fenced"),
        LeaseError::ReacquireRequired { cause } => {
            let message: &str = match cause {
                SessionLoss::Fenced { .. } => "session lost: fenced; start a new publisher session",
                SessionLoss::OwnerChanged =>
                    "session lost: owner changed; start a new publisher session",
                SessionLoss::RenewalUncertain =>
                    "session lost: renewal uncertain; start a new publisher session",
                SessionLoss::LeaseExpired =>
                    "session lost: lease expired; start a new publisher session",
            };
            error(id, ErrorCode::ReacquireRequired, message)
        },
        LeaseError::Unavailable => error(
            id,
            ErrorCode::BackendUnavailable,
            "lease backend unavailable",
        ),
        LeaseError::DeadlineExceeded => error(
            id,
            ErrorCode::DeadlineExceeded,
            "lease deadline exceeded",
        ),
        LeaseError::Cancelled => error(id, ErrorCode::Cancelled, "lease operation cancelled"),
        LeaseError::InvalidPolicy(_) => error(
            id,
            ErrorCode::InvalidRequest,
            "invalid publisher lease policy",
        ),
    }
}

/// The code and the message of an append that was not made, or of which it
/// is not known.
pub open spec fn append_reply(e: StableAppendError) -> (ErrorCode, Seq<char>) {
    match e {
        StableAppendError::StableKeyConflict { .. } => (
            ErrorCode::Conflict,
            "stable key already committed with different bytes"@,
        ),
        StableAppendError::Lease(l) => lease_reply(l),
        StableAppendError::Integrity(_) => (
            ErrorCode::Integrity,
            "log publication integrity check failed"@,
        ),
        StableAppendError::Unavailable => (
            ErrorCode::BackendUnavailable,
            "append outcome may be committed; retry the same key and bytes"@,
        ),
        StableAppendError::DeadlineExceeded => (
            ErrorCode::DeadlineExceeded,
            "append deadline exceeded; retry the same key and bytes"@,
        ),
        StableAppendError::Cancelled => (
            ErrorCode::Cancelled,
            "append cancelled; retry the same key and bytes"@,
        ),
        StableAppendError::InvalidInput => (
            ErrorCode::InvalidRequest,
            "invalid stable append input"@,
        ),
    }
}

pub fn append_error(id: &str, err: StableAppendError) -> (r: Response)
    ensures
        is_error(r, id@, append_reply(err).0, append_reply(err).1),
{
    match err {
        StableAppendError::StableKeyConflict { .. } => error(
            id,
            ErrorCode::Conflict,
            "stable key already committed with different bytes",
        ),
        StableAppendError::Lease(l) => lease_error(id, l),
        StableAppendError::Integrity(_) => error(
            id,
            ErrorCode::Integrity,
            "log publication integrity check failed",
        ),
        StableAppendError::Unavailable => error(
            id,
            ErrorCode::BackendUnavailable,
            "append outcome may be committed; retry the same key and bytes",
        ),
        StableAppendError::DeadlineExceeded => error(
            id,
            ErrorCode::DeadlineExceeded,
            "append deadline exceeded; retry the same key and bytes",
        ),
        StableAppendError::Cancelled => error(
            id,
            ErrorCode::Cancelled,
            "append cancelled; retry the same key and bytes",
        ),
        StableAppendError::InvalidInput => error(
            id,
            ErrorCode::InvalidRequest,
            "invalid stable append input",
        ),
    }
}

/// Each fault of a lease has a code of its own, and only that one.
pub proof fn law_codes_of_lease_faults(e: LeaseError)
    ensures
        lease_reply(e).0 == ErrorCode::LeaseHeld <==> e is LeaseHeld,
        lease_reply(e).0 == ErrorCode::Fenced <==> e is Fenced,
        lease_reply(e).0 == ErrorCode::ReacquireRequired <==> e is ReacquireRequired,
        lease_reply(e).0 == ErrorCode::BackendUnavailable <==> e is Unavailable,
        lease_reply(e).0 == ErrorCode::DeadlineExceeded <==> e is DeadlineExceeded,
        lease_reply(e).0 == ErrorCode::Cancelled <==> e is Cancelled,
        lease_reply(e).0 == ErrorCode::InvalidRequest <==> e is InvalidPolicy,
{
}

/// An append that failed over its lease is answered as the lease is; the other
/// faults have codes of their own.
pub proof fn law_codes_of_append_faults(e: StableAppendError)
    ensures
        e matches StableAppendError::Lease(l) ==> append_reply(e) == lease_reply(l),
        append_reply(e).0 == ErrorCode::Conflict <==> e is StableKeyConflict,
        append_reply(e).0 == ErrorCode::Integrity <==> e is Integrity,
        !(e is Lease) ==> (append_reply(e).0 == ErrorCode::BackendUnavailable <==> e is Unavailable),
        !(e is Lease) ==> (append_reply(e).0 == ErrorCode::DeadlineExceeded <==> e
            is DeadlineExceeded),
        !(e is Lease) ==> (append_reply(e).0 == ErrorCode::Cancelled <==> e is Cancelled),
        !(e is Lease) ==> (append_reply(e).0 == ErrorCode::InvalidRequest <==> e is InvalidInput),
{
}

/// A fault of reading is answered by its code. A reader below the floor is
/// told where to go on; one whose first event does not fit, which event it is
/// and how large.
pub proof fn law_codes_of_read_faults(r: Response, id: Seq<char>, e: ReadError)
    requires
        answers_read(r, id, e),
    ensures
        r matches Response::Failure { id: i, ok, error, .. } && i@ == id && !ok && {
            &&& error.code == ErrorCode::Trimmed <==> e is Trimmed
            &&& error.code == ErrorCode::EventTooLarge <==> e is EventTooLarge
            &&& error.code == ErrorCode::InvalidRequest <==> e is InvalidCursor || e is InvalidLimit
            &&& error.code == ErrorCode::Integrity <==> e is Integrity
            &&& error.code == ErrorCode::BackendUnavailable <==> e is Unavailable
            &&& error.code == ErrorCode::DeadlineExceeded <==> e is DeadlineExceeded
            &&& error.code == ErrorCode::Cancelled <==> e is Cancelled
            &&& e matches ReadError::Trimmed { resume_at, .. } ==> error.resume_at is Some
                && error.resume_at->0@ == decimal(resume_at.next_seq as nat)
            &&& e matches ReadError::EventTooLarge { position, event_bytes, max_bytes, .. }
                ==> error.seq is Some && error.seq->0@ == decimal(position.seq as nat)
                && error.event_bytes is Some && error.event_bytes->0@ == decimal(
                event_bytes as nat,
            ) && error.max_bytes is Some && error.max_bytes->0@ == decimal(max_bytes as nat)
            &&& error.resume_at is Some <==> e is Trimmed
        },
{
}

/// A fault of opening is answered by its code; a log of another kind is
/// unsupported.
pub proof fn law_codes_of_open_faults(r: Response, id: Seq<char>, e: OpenLogError)
    requires
        answers_open(r, id, e),
    ensures
        r matches Response::Failure { id: i, ok, error, .. } && i@ == id && !ok && {
            &&& error.code == ErrorCode::Unsupported <==> e is UnsupportedManifestSchema
            &&& error.capability is Some <==> e is UnsupportedManifestSchema
            &&& error.code == ErrorCode::Integrity <==> e is Integrity
            &&& error.code == ErrorCode::BackendUnavailable <==> e is Unavailable
            &&& error.code == ErrorCode::DeadlineExceeded <==> e is DeadlineExceeded
            &&& error.code == ErrorCode::Cancelled <==> e is Cancelled
        },
{
}

} // verus!
