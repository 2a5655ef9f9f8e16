//! Portable error classes. Backends and higher layers map into these;
//! nothing above the backend matches on provider-specific errors.
use vstd::prelude::*;

use crate::foreign::{quote, quoted};
use crate::text::{decimal, decimal_text, join3, join4, join5};

verus! {

/// The part of an object's header that this version does not speak.
#[derive(Clone, Copy, Debug, PartialEq, Eq, Structural)]
pub enum EnvelopeFormatField {
    Version,
    Flags,
    Compression,
    Encryption,
    ObjectKind,
    Schema,
}

#[derive(Debug)]
pub enum CoreError {
    NotFound(String),
    AlreadyExists(String),
    PreconditionFailed(String),
    Fenced { caller: u64, live: u64 },
    LeaseHeld { holder: String, until: String },
    LeaseExpired,
    BackendUnavailable(String),
    IntegrityError(String),
    Trimmed { resume_at: u64 },
    InvalidFormat(String),
    ObjectTooLarge { key: String, limit: u64, actual: Option<u64> },
    UnsupportedEnvelopeFormat { field: EnvelopeFormatField, value: String },
    UnknownOperation { id: String, expired_at: String },
    IdempotencyConflict { id: String, original: String, supplied: String },
    RecoveryFailed(String),
    Rejected(String),
    StableKeyConflict { existing: String, supplied: String },
    Io(String),
}

pub type Result<T> = core::result::Result<T, CoreError>;

impl Clone for CoreError {
    fn clone(&self) -> (r: Self)
        ensures
            r == *self,
    {
        match self {
            CoreError::NotFound(m) => CoreError::NotFound(m.clone()),
            CoreError::AlreadyExists(m) => CoreError::AlreadyExists(m.clone()),
            CoreError::PreconditionFailed(m) => CoreError::PreconditionFailed(m.clone()),
            CoreError::BackendUnavailable(m) => CoreError::BackendUnavailable(m.clone()),
            CoreError::IntegrityError(m) => CoreError::IntegrityError(m.clone()),
            CoreError::InvalidFormat(m) => CoreError::InvalidFormat(m.clone()),
            CoreError::RecoveryFailed(m) => CoreError::RecoveryFailed(m.clone()),
            CoreError::Rejected(m) => CoreError::Rejected(m.clone()),
            CoreError::Io(m) => CoreError::Io(m.clone()),
            CoreError::Fenced { caller, live } => CoreError::Fenced { caller: *caller, live: *live },
            CoreError::LeaseHeld { holder, until } => CoreError::LeaseHeld {
                holder: holder.clone(),
                until: until.clone(),
            },
            CoreError::LeaseExpired => CoreError::LeaseExpired,
            CoreError::Trimmed { resume_at } => CoreError::Trimmed { resume_at: *resume_at },
            CoreError::ObjectTooLarge { key, limit, actual } => CoreError::ObjectTooLarge {
                key: key.clone(),
                limit: *limit,
                actual: *actual,
            },
            CoreError::UnsupportedEnvelopeFormat { field, value } => {
                CoreError::UnsupportedEnvelopeFormat { field: *field, value: value.clone() }
            },
            CoreError::UnknownOperation { id, expired_at } => CoreError::UnknownOperation {
                id: id.clone(),
                expired_at: expired_at.clone(),
            },
            CoreError::IdempotencyConflict { id, original, supplied } => {
                CoreError::IdempotencyConflict {
                    id: id.clone(),
                    original: original.clone(),
                    supplied: supplied.clone(),
                }
            },
            CoreError::StableKeyConflict { existing, supplied } => CoreError::StableKeyConflict {
                existing: existing.clone(),
                supplied: supplied.clone(),
            },
        }
    }
}

/// An error, with its texts by view.
#[verifier::ext_equal]
pub enum ErrorView {
    NotFound(Seq<char>),
    AlreadyExists(Seq<char>),
    PreconditionFailed(Seq<char>),
    Fenced { caller: u64, live: u64 },
    LeaseHeld { holder: Seq<char>, until: Seq<char> },
    LeaseExpired,
    BackendUnavailable(Seq<char>),
    IntegrityError(Seq<char>),
    Trimmed { resume_at: u64 },
    InvalidFormat(Seq<char>),
    ObjectTooLarge { key: Seq<char>, limit: u64, actual: Option<u64> },
    UnsupportedEnvelopeFormat { field: EnvelopeFormatField, value: Seq<char> },
    UnknownOperation { id: Seq<char>, expired_at: Seq<char> },
    IdempotencyConflict { id: Seq<char>, original: Seq<char>, supplied: Seq<char> },
    RecoveryFailed(Seq<char>),
    Rejected(Seq<char>),
    StableKeyConflict { existing: Seq<char>, supplied: Seq<char> },
    Io(Seq<char>),
}

impl View for CoreError {
    type V = ErrorView;

    open spec fn view(&self) -> ErrorView {
        match self {
            CoreError::NotFound(m) => ErrorView::NotFound(m@),
            CoreError::AlreadyExists(m) => ErrorView::AlreadyExists(m@),
            CoreError::PreconditionFailed(m) => ErrorView::PreconditionFailed(m@),
            CoreError::Fenced { caller, live } => ErrorView::Fenced { caller: *caller, live: *live },
            CoreError::LeaseHeld { holder, until } => ErrorView::LeaseHeld {
                holder: holder@,
                until: until@,
            },
            CoreError::LeaseExpired => ErrorView::LeaseExpired,
            CoreError::BackendUnavailable(m) => ErrorView::BackendUnavailable(m@),
            CoreError::IntegrityError(m) => ErrorView::IntegrityError(m@),
            CoreError::Trimmed { resume_at } => ErrorView::Trimmed { resume_at: *resume_at },
            CoreError::InvalidFormat(m) => ErrorView::InvalidFormat(m@),
            CoreError::ObjectTooLarge { key, limit, actual } => ErrorView::ObjectTooLarge {
                key: key@,
                limit: *limit,
                actual: *actual,
            },
            CoreError::UnsupportedEnvelopeFormat { field, value } => {
                ErrorView::UnsupportedEnvelopeFormat { field: *field, value: value@ }
            },
            CoreError::UnknownOperation { id, expired_at } => ErrorView::UnknownOperation {
                id: id@,
                expired_at: expired_at@,
            },
            CoreError::IdempotencyConflict { id, original, supplied } => {
                ErrorView::IdempotencyConflict { id: id@, original: original@, supplied: supplied@ }
            },
            CoreError::RecoveryFailed(m) => ErrorView::RecoveryFailed(m@),
            CoreError::Rejected(m) => ErrorView::Rejected(m@),
            CoreError::StableKeyConflict { existing, supplied } => ErrorView::StableKeyConflict {
                existing: existing@,
                supplied: supplied@,
            },
            CoreError::Io(m) => ErrorView::Io(m@),
        }
    }
}

impl ErrorView {
    /// The message of the error.
    pub open spec fn text(self) -> Seq<char> {
        match self {
            ErrorView::NotFound(m) => "not found: "@ + m,
            ErrorView::AlreadyExists(m) => "already exists: "@ + m,
            ErrorView::PreconditionFailed(m) => "precondition failed: "@ + m,
            ErrorView::BackendUnavailable(m) => "backend unavailable: "@ + m,
            ErrorView::IntegrityError(m) => "integrity error: "@ + m,
            ErrorView::InvalidFormat(m) => "invalid format: "@ + m,
            ErrorView::RecoveryFailed(m) => "recovery evidence missing or malformed: "@ + m,
            ErrorView::Rejected(m) => "rejected: "@ + m,
            ErrorView::Io(m) => "io: "@ + m,
            ErrorView::Fenced { caller, live } => "fenced: writer epoch "@ + decimal(caller as nat)
                + " is stale (live epoch "@ + decimal(live as nat) + ")"@,
            ErrorView::LeaseHeld { holder, until } => "lease held by "@ + holder + " until "@
                + until,
            ErrorView::LeaseExpired => "lease expired"@,
            ErrorView::Trimmed { resume_at } =>
                "trimmed: position is below the retention floor; resume at "@ + decimal(
                resume_at as nat,
            ),
            ErrorView::ObjectTooLarge { key, limit, actual } => match actual {
                Some(n) => "object "@ + key + " exceeds "@ + decimal(limit as nat)
                    + " bytes (actual "@ + decimal(n as nat) + ")"@,
                None => "object "@ + key + " exceeds "@ + decimal(limit as nat) + " bytes"@,
            },
            ErrorView::UnsupportedEnvelopeFormat { field, value } => "unsupported envelope "@
                + field.text() + " "@ + value,
            ErrorView::UnknownOperation { id, expired_at } => "unknown operation "@ + id
                + " (expired at "@ + expired_at + ")"@,
            ErrorView::IdempotencyConflict { id, .. } => "idempotency conflict for "@ + id,
            ErrorView::StableKeyConflict { existing, supplied } =>
                "stable key committed for different payload bytes (existing "@ + existing
                + ", supplied "@ + supplied + ")"@,
        }
    }
}

/// A variant with one text, as it is shown.
pub open spec fn one_shown(name: Seq<char>, text: Seq<char>) -> Seq<char> {
    name + "("@ + quoted(text) + ")"@
}

impl ErrorView {
    /// How the error is shown to a developer.
    pub open spec fn shown(self) -> Seq<char> {
        match self {
            ErrorView::NotFound(m) => one_shown("NotFound"@, m),
            ErrorView::AlreadyExists(m) => one_shown("AlreadyExists"@, m),
            ErrorView::PreconditionFailed(m) => one_shown("PreconditionFailed"@, m),
            ErrorView::BackendUnavailable(m) => one_shown("BackendUnavailable"@, m),
            ErrorView::IntegrityError(m) => one_shown("IntegrityError"@, m),
            ErrorView::InvalidFormat(m) => one_shown("InvalidFormat"@, m),
            ErrorView::RecoveryFailed(m) => one_shown("RecoveryFailed"@, m),
            ErrorView::Rejected(m) => one_shown("Rejected"@, m),
            ErrorView::Io(m) => one_shown("Io"@, m),
            ErrorView::Fenced { caller, live } => "Fenced { caller: "@ + decimal(caller as nat)
                + ", live: "@ + decimal(live as nat) + " }"@,
            ErrorView::LeaseHeld { holder, until } => "LeaseHeld { holder: "@ + quoted(holder)
                + ", until: "@ + quoted(until) + " }"@,
            ErrorView::LeaseExpired => "LeaseExpired"@,
            ErrorView::Trimmed { resume_at } => "Trimmed { resume_at: "@ + decimal(
                resume_at as nat,
            ) + " }"@,
            ErrorView::ObjectTooLarge { key, limit, actual } => "ObjectTooLarge { key: "@ + quoted(
                key,
            ) + ", limit: "@ + decimal(limit as nat) + ", actual: "@ + match actual {
                Some(n) => "Some("@ + decimal(n as nat) + ")"@,
                None => "None"@,
            } + " }"@,
            ErrorView::UnsupportedEnvelopeFormat { field, value } =>
                "UnsupportedEnvelopeFormat { field: "@ + field.shown() + ", value: "@ + quoted(value)
                + " }"@,
            ErrorView::UnknownOperation { id, expired_at } => "UnknownOperation { id: "@ + quoted(id)
                + ", expired_at: "@ + quoted(expired_at) + " }"@,
            ErrorView::IdempotencyConflict { id, original, supplied } =>
                "IdempotencyConflict { id: "@ + quoted(id) + ", original: "@ + quoted(original)
                + ", supplied: "@ + quoted(supplied) + " }"@,
            ErrorView::StableKeyConflict { existing, supplied } =>
                "StableKeyConflict { existing: "@ + quoted(existing) + ", supplied: "@ + quoted(
                supplied,
            ) + " }"@,
        }
    }
}

fn show_one(name: &str, text: &str) -> (r: String)
    ensures
        r@ == one_shown(name@, text@),
{
    join4(name, "(", &quote(text), ")")
}

impl CoreError {
    /// How the error is shown to a developer.
    pub fn show(&self) -> (r: String)
        ensures
            r@ == self@.shown(),
    {
        match self {
            CoreError::NotFound(m) => show_one("NotFound", m),
            CoreError::AlreadyExists(m) => show_one("AlreadyExists", m),
            CoreError::PreconditionFailed(m) => show_one("PreconditionFailed", m),
            CoreError::BackendUnavailable(m) => show_one("BackendUnavailable", m),
            CoreError::IntegrityError(m) => show_one("IntegrityError", m),
            CoreError::InvalidFormat(m) => show_one("InvalidFormat", m),
            CoreError::RecoveryFailed(m) => show_one("RecoveryFailed", m),
            CoreError::Rejected(m) => show_one("Rejected", m),
            CoreError::Io(m) => show_one("Io", m),
            CoreError::Fenced { caller, live } => join5(
                "Fenced { caller: ",
                &decimal_text(*caller),
                ", live: ",
                &decimal_text(*live),
                " }",
            ),
            CoreError::LeaseHeld { holder, until } => join5(
                "LeaseHeld { holder: ",
                &quote(holder),
                ", until: ",
                &quote(until),
                " }",
            ),
            CoreError::LeaseExpired => "LeaseExpired".to_owned(),
            CoreError::Trimmed { resume_at } => join3(
                "Trimmed { resume_at: ",
                &decimal_text(*resume_at),
                " }",
            ),
            CoreError::ObjectTooLarge { key, limit, actual } => {
                let size: String = match actual {
                    Some(n) => join3("Some(", &decimal_text(*n), ")"),
                    None => "None".to_owned(),
                };
                let bound: String = join4(
                    "ObjectTooLarge { key: ",
                    &quote(key),
                    ", limit: ",
                    &decimal_text(*limit),
                );
                join4(&bound, ", actual: ", &size, " }")
            },
            CoreError::UnsupportedEnvelopeFormat { field, value } => join5(
                "UnsupportedEnvelopeFormat { field: ",
                field.show(),
                ", value: ",
                &quote(value),
                " }",
            ),
            CoreError::UnknownOperation { id, expired_at } => join5(
                "UnknownOperation { id: ",
                &quote(id),
                ", expired_at: ",
                &quote(expired_at),
                " }",
            ),
            CoreError::IdempotencyConflict { id, original, supplied } => {
                let first: String = join4(
                    "IdempotencyConflict { id: ",
                    &quote(id),
                    ", original: ",
                    &quote(original),
                );
                join4(&first, ", supplied: ", &quote(supplied), " }")
            },
            CoreError::StableKeyConflict { existing, supplied } => join5(
                "StableKeyConflict { existing: ",
                &quote(existing),
                ", supplied: ",
                &quote(supplied),
                " }",
            ),
        }
    }

    /// The message of the error.
    pub open spec fn text(self) -> Seq<char> {
        self@.text()
    }

    /// The message of the error.
    pub fn to_string(&self) -> (r: String)
        ensures
            r@ == self.text(),
    {
        match self {
            CoreError::NotFound(m) => labelled("not found: ", m),
            CoreError::AlreadyExists(m) => labelled("already exists: ", m),
            CoreError::PreconditionFailed(m) => labelled("precondition failed: ", m),
            CoreError::BackendUnavailable(m) => labelled("backend unavailable: ", m),
            CoreError::IntegrityError(m) => labelled("integrity error: ", m),
            CoreError::InvalidFormat(m) => labelled("invalid format: ", m),
            CoreError::RecoveryFailed(m) => labelled("recovery evidence missing or malformed: ", m),
            CoreError::Rejected(m) => labelled("rejected: ", m),
            CoreError::Io(m) => labelled("io: ", m),
            CoreError::Fenced { caller, live } => {
                let mut s: String = "fenced: writer epoch ".to_owned();
                s.append(&decimal_text(*caller));
                s.append(" is stale (live epoch ");
                s.append(&decimal_text(*live));
                s.append(")");
                s
            },
            CoreError::LeaseHeld { holder, until } => {
                let mut s: String = "lease held by ".to_owned();
                s.append(holder);
                s.append(" until ");
                s.append(until);
                s
            },
            CoreError::LeaseExpired => "lease expired".to_owned(),
            CoreError::Trimmed { resume_at } => labelled(
                "trimmed: position is below the retention floor; resume at ",
                &decimal_text(*resume_at),
            ),
            CoreError::ObjectTooLarge { key, limit, actual } => {
                let mut s: String = "object ".to_owned();
                s.append(key);
                s.append(" exceeds ");
                s.append(&decimal_text(*limit));
                match actual {
                    Some(n) => {
                        s.append(" bytes (actual ");
                        s.append(&decimal_text(*n));
                        s.append(")");
                    },
                    None => {
                        s.append(" bytes");
                    },
                }
                s
            },
            CoreError::UnsupportedEnvelopeFormat { field, value } => {
                let mut s: String = "unsupported envelope ".to_owned();
                s.append(field.name());
                s.append(" ");
                s.append(value);
                s
            },
            CoreError::UnknownOperation { id, expired_at } => {
                let mut s: String = "unknown operation ".to_owned();
                s.append(id);
                s.append(" (expired at ");
                s.append(expired_at);
                s.append(")");
                s
            },
            CoreError::IdempotencyConflict { id, .. } => labelled("idempotency conflict for ", id),
            CoreError::StableKeyConflict { existing, supplied } => {
                let mut s: String =
                    "stable key committed for different payload bytes (existing ".to_owned();
                s.append(existing);
                s.append(", supplied ");
                s.append(supplied);
                s.append(")");
                s
            },
        }
    }
}

fn labelled(label: &str, text: &str) -> (r: String)
    ensures
        r@ == label@ + text@,
{
    let mut s: String = label.to_owned();
    s.append(text);
    s
}

impl EnvelopeFormatField {
    pub open spec fn text(self) -> Seq<char> {
        match self {
            EnvelopeFormatField::Version => "version"@,
            EnvelopeFormatField::Flags => "flags"@,
            EnvelopeFormatField::Compression => "compression"@,
            EnvelopeFormatField::Encryption => "encryption"@,
            EnvelopeFormatField::ObjectKind => "object kind"@,
            EnvelopeFormatField::Schema => "schema"@,
        }
    }

    pub open spec fn shown(self) -> Seq<char> {
        match self {
            EnvelopeFormatField::Version => "Version"@,
            EnvelopeFormatField::Flags => "Flags"@,
            EnvelopeFormatField::Compression => "Compression"@,
            EnvelopeFormatField::Encryption => "Encryption"@,
            EnvelopeFormatField::ObjectKind => "ObjectKind"@,
            EnvelopeFormatField::Schema => "Schema"@,
        }
    }

    /// How the field is shown to a developer.
    pub fn show(&self) -> (r: &'static str)
        ensures
            r@ == self.shown(),
    {
        match self {
            EnvelopeFormatField::Version => "Version",
            EnvelopeFormatField::Flags => "Flags",
            EnvelopeFormatField::Compression => "Compression",
            EnvelopeFormatField::Encryption => "Encryption",
            EnvelopeFormatField::ObjectKind => "ObjectKind",
            EnvelopeFormatField::Schema => "Schema",
        }
    }

    /// What messages call the field.
    pub fn name(&self) -> (r: &'static str)
        ensures
            r@ == self.text(),
    {
        match self {
            EnvelopeFormatField::Version => "version",
            EnvelopeFormatField::Flags => "flags",
            EnvelopeFormatField::Compression => "compression",
            EnvelopeFormatField::Encryption => "encryption",
            EnvelopeFormatField::ObjectKind => "object kind",
            EnvelopeFormatField::Schema => "schema",
        }
    }
}

/// `InvalidFormat` with the message `text`.
pub fn invalid_format(text: &str) -> (r: CoreError)
    ensures
        r@ == ErrorView::InvalidFormat(text@),
{
    CoreError::InvalidFormat(text.to_owned())
}

/// `IntegrityError` with the message `text`.
pub fn integrity(text: &str) -> (r: CoreError)
    ensures
        r@ == ErrorView::IntegrityError(text@),
{
    CoreError::IntegrityError(text.to_owned())
}

/// `Rejected` with the message `text`.
pub fn rejected(text: &str) -> (r: CoreError)
    ensures
        r@ == ErrorView::Rejected(text@),
{
    CoreError::Rejected(text.to_owned())
}

/// `RecoveryFailed` with the message `text`.
pub fn recovery_failed(text: &str) -> (r: CoreError)
    ensures
        r@ == ErrorView::RecoveryFailed(text@),
{
    CoreError::RecoveryFailed(text.to_owned())
}

} // verus!
