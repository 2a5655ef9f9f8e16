//! Requests, responses and the validation of requests.
//!
//! Sequence numbers and cursors are decimal strings on the wire, so that a
//! client cannot lose precision.
use vstd::prelude::*;
use vstd::utf8::{decode_utf8, encode_utf8, valid_utf8};

use crate::bridge::limits::{Limits, LimitsView};
use crate::bytes::copy_bytes;
use crate::foreign::{hex_decode, hex_encode, utf8_text};
use crate::json::{
    field, fields_view, get_field, json_of, lemma_list_view, lemma_object_view, parse, Json,
    JsonFault, JsonFaultView, JsonView,
};
use crate::text::{
    all_digits, decimal, decimal_text, decimal_value, hex_bytes, hex_text, is_alphanumeric,
    is_digit, is_graphic, is_hex, join2, join3, same_text, text_views,
};

verus! {

pub const PROTOCOL_VERSION: u32 = 1;

/// The largest stable key, in bytes; on the wire it has twice as many
/// characters.
pub const MAX_IDEMPOTENCY_KEY_BYTES: usize = 512;

/// A request. Payloads are kept in normal form beside their bytes.
#[derive(Debug)]
pub enum Request {
    Hello { id: String, require: Vec<String> },
    Append {
        id: String,
        log: String,
        idempotency_key: String,
        payload_hex: String,
        payload: Vec<u8>,
    },
    Head { id: String, log: String },
    Read {
        id: String,
        log: String,
        cursor: u64,
        max_events: Option<u64>,
        max_bytes: Option<u64>,
    },
    Follow {
        id: String,
        log: String,
        cursor: u64,
        timeout_ms: Option<u64>,
        max_events: Option<u64>,
        max_bytes: Option<u64>,
    },
}

/// What a request asks for.
pub enum RequestView {
    Hello { require: Seq<Seq<char>> },
    Append { log: Seq<char>, key: Seq<u8>, payload: Seq<u8> },
    Head { log: Seq<char> },
    Read { log: Seq<char>, cursor: u64, max_events: Option<u64>, max_bytes: Option<u64> },
    Follow {
        log: Seq<char>,
        cursor: u64,
        timeout_ms: Option<u64>,
        max_events: Option<u64>,
        max_bytes: Option<u64>,
    },
}

impl Request {
    pub open spec fn id_text(self) -> Seq<char> {
        match self {
            Request::Hello { id, .. } => id@,
            Request::Append { id, .. } => id@,
            Request::Head { id, .. } => id@,
            Request::Read { id, .. } => id@,
            Request::Follow { id, .. } => id@,
        }
    }

    pub fn id(&self) -> (r: &str)
        ensures
            r@ == self.id_text(),
    {
        match self {
            Request::Hello { id, .. } => id,
            Request::Append { id, .. } => id,
            Request::Head { id, .. } => id,
            Request::Read { id, .. } => id,
            Request::Follow { id, .. } => id,
        }
    }

    /// Whether the request is `want`, in normal form.
    pub open spec fn asks(self, want: RequestView) -> bool {
        match (self, want) {
            (Request::Hello { require, .. }, RequestView::Hello { require: w }) => text_views(
                require@,
            ) == w,
            (
                Request::Append { log, idempotency_key, payload_hex, payload, .. },
                RequestView::Append { log: l, key, payload: p },
            ) => log@ == l && idempotency_key@ == hex_text(key) && payload@ == p && payload_hex@
                == hex_text(p),
            (Request::Head { log, .. }, RequestView::Head { log: l }) => log@ == l,
            (
                Request::Read { log, cursor, max_events, max_bytes, .. },
                RequestView::Read { log: l, cursor: c, max_events: e, max_bytes: b },
            ) => log@ == l && cursor == c && max_events == e && max_bytes == b,
            (
                Request::Follow { log, cursor, timeout_ms, max_events, max_bytes, .. },
                RequestView::Follow { log: l, cursor: c, timeout_ms: t, max_events: e, max_bytes: b },
            ) => log@ == l && cursor == c && timeout_ms == t && max_events == e && max_bytes == b,
            _ => false,
        }
    }
}

/// What a bridge can do.
#[derive(Debug)]
pub struct Capabilities {
    pub ops: Vec<&'static str>,
    pub durable_idempotency: bool,
    pub bounded_memory_read: bool,
    pub payload_hex: bool,
}

impl Capabilities {
    pub fn offered() -> (r: Self)
        ensures
            r.ops@.map_values(|s: &'static str| s@) == seq![
                "hello"@,
                "append"@,
                "head"@,
                "read"@,
                "follow"@,
            ],
            r.durable_idempotency,
            r.bounded_memory_read,
            r.payload_hex,
    {
        let mut ops: Vec<&'static str> = Vec::new();
        ops.push("hello");
        ops.push("append");
        ops.push("head");
        ops.push("read");
        ops.push("follow");
        assert(ops@.map_values(|s: &'static str| s@) =~= seq![
            "hello"@,
            "append"@,
            "head"@,
            "read"@,
            "follow"@,
        ]);
        Capabilities {
            ops,
            durable_idempotency: true,
            bounded_memory_read: true,
            payload_hex: true,
        }
    }

    /// Whether a capability is there, by name; nothing for an unknown name.
    pub open spec fn has(self, name: Seq<char>) -> Option<bool> {
        if name == "durable_idempotency"@ {
            Some(self.durable_idempotency)
        } else if name == "bounded_memory_read"@ {
            Some(self.bounded_memory_read)
        } else if name == "payload_hex"@ {
            Some(self.payload_hex)
        } else {
            None
        }
    }

    pub fn supports(&self, name: &str) -> (r: Option<bool>)
        ensures
            r == self.has(name@),
    {
        if same_text(name, "durable_idempotency") {
            Some(self.durable_idempotency)
        } else if same_text(name, "bounded_memory_read") {
            Some(self.bounded_memory_read)
        } else if same_text(name, "payload_hex") {
            Some(self.payload_hex)
        } else {
            None
        }
    }
}

/// An event on the wire.
#[derive(Debug)]
pub struct WireEvent {
    pub seq: String,
    pub at: String,
    pub payload_hex: String,
}

#[derive(Debug)]
pub enum Response {
    Success { v: u32, id: String, ok: bool, op: String, body: OkBody },
    Failure { v: u32, id: String, ok: bool, error: ErrorBody },
}

#[derive(Debug)]
pub enum OkBody {
    Hello { protocol: u32, capabilities: Capabilities, limits: LimitsView },
    Append { log: String, first: String, last: String, cursor: String },
    Head { log: String, head: String, cursor: String, trim_before: String },
    Page {
        log: String,
        events: Vec<WireEvent>,
        next_cursor: String,
        at_head: bool,
        timed_out: Option<bool>,
    },
}

#[derive(Debug)]
pub struct ErrorBody {
    pub code: ErrorCode,
    pub message: String,
    pub resume_at: Option<String>,
    pub capability: Option<String>,
    pub seq: Option<String>,
    pub event_bytes: Option<String>,
    pub max_bytes: Option<String>,
}

#[derive(Clone, Copy, Debug, PartialEq, Eq, Structural)]
pub enum ErrorCode {
    InvalidRequest,
    Unsupported,
    Trimmed,
    BackendUnavailable,
    Integrity,
    DeadlineExceeded,
    Cancelled,
    LeaseHeld,
    ReacquireRequired,
    Fenced,
    Conflict,
    UnknownOperation,
    EventTooLarge,
    Busy,
}

/// Whether a response is a plain error: a code and a message, nothing else.
pub open spec fn is_error(r: Response, id: Seq<char>, code: ErrorCode, message: Seq<char>) -> bool {
    r matches Response::Failure { v, id: i, ok, error } && v == PROTOCOL_VERSION && i@ == id && !ok
        && error.code == code && error.message@ == message && error.resume_at is None
        && error.capability is None && error.seq is None && error.event_bytes is None
        && error.max_bytes is None
}

/// Whether a response says that a capability is not there.
pub open spec fn is_unsupported(r: Response, id: Seq<char>, capability: Seq<char>, message: Seq<char>) -> bool {
    r matches Response::Failure { v, id: i, ok, error } && v == PROTOCOL_VERSION && i@ == id && !ok
        && error.code == ErrorCode::Unsupported && error.message@ == message && error.resume_at
        is None && (error.capability matches Some(c) && c@ == capability) && error.seq is None
        && error.event_bytes is None && error.max_bytes is None
}

/// Whether a response is a success of `op` with the given body.
pub open spec fn is_ok(r: Response, id: Seq<char>, op: Seq<char>, body: OkBody) -> bool {
    r matches Response::Success { v, id: i, ok, op: o, body: b } && v == PROTOCOL_VERSION && i@ == id
        && ok && o@ == op && b == body
}

pub fn plain_body(code: ErrorCode, message: &str) -> (r: ErrorBody)
    ensures
        r.code == code,
        r.message@ == message@,
        r.resume_at is None,
        r.capability is None,
        r.seq is None,
        r.event_bytes is None,
        r.max_bytes is None,
{
    ErrorBody {
        code,
        message: message.to_owned(),
        resume_at: None,
        capability: None,
        seq: None,
        event_bytes: None,
        max_bytes: None,
    }
}

impl Response {
    pub fn ok(id: &str, op: &str, body: OkBody) -> (r: Self)
        ensures
            is_ok(r, id@, op@, body),
    {
        Response::Success { v: PROTOCOL_VERSION, id: id.to_owned(), ok: true, op: op.to_owned(), body }
    }

    pub fn err(id: &str, error: ErrorBody) -> (r: Self)
        ensures
            r matches Response::Failure { v, id: i, ok, error: e } && v == PROTOCOL_VERSION && i@ == id@
                && !ok && e == error,
    {
        Response::Failure { v: PROTOCOL_VERSION, id: id.to_owned(), ok: false, error }
    }

    pub fn invalid(id: &str, message: &str) -> (r: Self)
        ensures
            is_error(r, id@, ErrorCode::InvalidRequest, message@),
    {
        Self::err(id, plain_body(ErrorCode::InvalidRequest, message))
    }

    pub fn unsupported(id: &str, capability: &str, message: &str) -> (r: Self)
        ensures
            is_unsupported(r, id@, capability@, message@),
    {
        let mut body: ErrorBody = plain_body(ErrorCode::Unsupported, message);
        body.capability = Some(capability.to_owned());
        Self::err(id, body)
    }

    pub fn busy(id: &str) -> (r: Self)
        ensures
            is_error(r, id@, ErrorCode::Busy, "too many concurrent requests"@),
    {
        Self::err(id, plain_body(ErrorCode::Busy, "too many concurrent requests"))
    }

    pub open spec fn id_text(self) -> Seq<char> {
        match self {
            Response::Success { id, .. } => id@,
            Response::Failure { id, .. } => id@,
        }
    }

    /// The id of the request that is answered.
    pub fn id(&self) -> (r: &str)
        ensures
            r@ == self.id_text(),
    {
        match self {
            Response::Success { id, .. } => id,
            Response::Failure { id, .. } => id,
        }
    }
}

// ---------------------------------------------------------------- numbers
/// What a decimal string says, or what is wrong with it.
pub open spec fn decimal_verdict(s: Seq<u8>) -> core::result::Result<u64, Seq<char>> {
    if s.len() == 0 || !all_digits(s) {
        Err("must be a decimal string"@)
    } else if s.len() > 1 && s[0] == 0x30 {
        Err("must not have leading zeros"@)
    } else if decimal_value(s) > u64::MAX {
        Err("exceeds u64"@)
    } else {
        Ok(decimal_value(s) as u64)
    }
}

proof fn lemma_decimal_value_grows(s: Seq<u8>, n: int)
    requires
        0 <= n <= s.len(),
        all_digits(s),
    ensures
        decimal_value(s.take(n)) <= decimal_value(s),
    decreases s.len() - n,
{
    if n < s.len() {
        lemma_decimal_value_grows(s, n + 1);
        assert(s.take(n + 1).drop_last() =~= s.take(n));
        assert(is_digit(s[n]));
    } else {
        assert(s.take(n) =~= s);
    }
}

pub fn parse_decimal_u64(s: &str) -> (r: core::result::Result<u64, String>)
    ensures
        match decimal_verdict(encode_utf8(s@)) {
            Ok(n) => r matches Ok(x) && x == n,
            Err(m) => r matches Err(e) && e@ == m,
        },
{
    let b: &[u8] = s.as_bytes();
    if b.len() == 0 {
        return Err("must be a decimal string".to_owned());
    }
    let mut i: usize = 0;
    while i < b.len()
        invariant
            i <= b@.len(),
            b@ == encode_utf8(s@),
            forall|j: int| 0 <= j < i ==> is_digit(#[trigger] b@[j]),
        decreases b@.len() - i,
    {
        if b[i] < 0x30 || b[i] > 0x39 {
            assert(!is_digit(b@[i as int]));
            assert(!all_digits(b@));
            return Err("must be a decimal string".to_owned());
        }
        i = i + 1;
    }
    assert(all_digits(b@));
    if b.len() > 1 && b[0] == 0x30 {
        return Err("must not have leading zeros".to_owned());
    }
    let mut value: u64 = 0;
    let mut k: usize = 0;
    assert(b@.take(0).len() == 0);
    while k < b.len()
        invariant
            k <= b@.len(),
            b@ == encode_utf8(s@),
            b@.len() > 0,
            !(b@.len() > 1 && b@[0] == 0x30),
            all_digits(b@),
            value == decimal_value(b@.take(k as int)),
        decreases b@.len() - k,
    {
        proof {
            assert(b@.take(k + 1).drop_last() =~= b@.take(k as int));
            assert(b@.take(k + 1).last() == b@[k as int]);
            assert(is_digit(b@[k as int]));
            lemma_decimal_value_grows(b@, k + 1);
        }
        let digit: u64 = (b[k] - 0x30) as u64;
        if value > 1_844_674_407_370_955_161 || (value == 1_844_674_407_370_955_161 && digit > 5) {
            return Err("exceeds u64".to_owned());
        }
        value = value * 10 + digit;
        k = k + 1;
    }
    assert(b@.take(k as int) =~= b@);
    Ok(value)
}

/// What a cursor says: the next sequence, which is at least 1.
pub open spec fn cursor_verdict(s: Seq<u8>) -> core::result::Result<u64, Seq<char>> {
    match decimal_verdict(s) {
        Err(m) => Err("cursor "@ + m),
        Ok(n) => if n == 0 {
            Err("cursor is the next sequence and must be at least 1"@)
        } else {
            Ok(n)
        },
    }
}

pub fn parse_cursor(s: &str) -> (r: core::result::Result<u64, String>)
    ensures
        match cursor_verdict(encode_utf8(s@)) {
            Ok(n) => r matches Ok(x) && x == n,
            Err(m) => r matches Err(e) && e@ == m,
        },
{
    match parse_decimal_u64(s) {
        Err(m) => Err(join2("cursor ", &m)),
        Ok(n) => {
            if n == 0 {
                return Err("cursor is the next sequence and must be at least 1".to_owned());
            }
            Ok(n)
        },
    }
}

/// A sequence number on the wire.
pub fn seq_string(n: u64) -> (r: String)
    ensures
        r@ == decimal(n as nat),
{
    decimal_text(n)
}

// ------------------------------------------------------------------ texts
/// What is wrong with an id.
pub open spec fn id_fault(id: Seq<u8>, max_len: usize) -> Option<Seq<char>> {
    if id.len() == 0 {
        Some("id is empty"@)
    } else if id.len() > max_len {
        Some("id exceeds limit"@)
    } else if !all_graphic(id) {
        Some("id must be printable ascii without spaces"@)
    } else {
        None
    }
}

pub open spec fn all_graphic(s: Seq<u8>) -> bool {
    forall|i: int| 0 <= i < s.len() ==> is_graphic(#[trigger] s[i])
}

pub fn validate_id(id: &str, max_len: usize) -> (r: core::result::Result<(), String>)
    ensures
        match id_fault(encode_utf8(id@), max_len) {
            None => r is Ok,
            Some(m) => r matches Err(e) && e@ == m,
        },
{
    let b: &[u8] = id.as_bytes();
    if b.len() == 0 {
        return Err("id is empty".to_owned());
    }
    if b.len() > max_len {
        return Err("id exceeds limit".to_owned());
    }
    let mut i: usize = 0;
    while i < b.len()
        invariant
            i <= b@.len(),
            b@ == encode_utf8(id@),
            0 < b@.len() <= max_len,
            forall|j: int| 0 <= j < i ==> is_graphic(#[trigger] b@[j]),
        decreases b@.len() - i,
    {
        if b[i] < 0x21 || b[i] > 0x7e {
            assert(!is_graphic(b@[i as int]));
            return Err("id must be printable ascii without spaces".to_owned());
        }
        i = i + 1;
    }
    Ok(())
}

/// Whether a name could lead out of its place.
pub open spec fn has_path(s: Seq<u8>) -> bool {
    (exists|i: int| 0 <= i < s.len() && path_byte(#[trigger] s[i])) || (exists|i: int|
        0 <= i < s.len() - 1 && #[trigger] s[i] == 0x2e && s[i + 1] == 0x2e)
}

pub open spec fn path_byte(b: u8) -> bool {
    b == 0x2f || b == 0x5c || b == 0
}

pub open spec fn name_byte(b: u8) -> bool {
    is_alphanumeric(b) || b == 0x2e || b == 0x5f || b == 0x2d
}

/// What is wrong with the name of a log.
pub open spec fn log_name_fault(s: Seq<u8>, max_len: usize) -> Option<Seq<char>> {
    if s.len() == 0 {
        Some("log name is empty"@)
    } else if s.len() > max_len {
        Some("log name exceeds limit"@)
    } else if has_path(s) {
        Some("log name must not contain path separators or traversal"@)
    } else if !is_alphanumeric(s[0]) {
        Some("log name must start with an alphanumeric character"@)
    } else if exists|i: int| 0 <= i < s.len() && !name_byte(#[trigger] s[i]) {
        Some("log name may contain only alphanumeric characters, '.', '_' and '-'"@)
    } else {
        None
    }
}

fn alphanumeric(b: u8) -> (r: bool)
    ensures
        r == is_alphanumeric(b),
{
    (b >= 0x30 && b <= 0x39) || (b >= 0x41 && b <= 0x5a) || (b >= 0x61 && b <= 0x7a)
}

pub fn validate_log_name(name: &str, max_len: usize) -> (r: core::result::Result<(), String>)
    ensures
        match log_name_fault(encode_utf8(name@), max_len) {
            None => r is Ok,
            Some(m) => r matches Err(e) && e@ == m,
        },
{
    let b: &[u8] = name.as_bytes();
    if b.len() == 0 {
        return Err("log name is empty".to_owned());
    }
    if b.len() > max_len {
        return Err("log name exceeds limit".to_owned());
    }
    let mut i: usize = 0;
    while i < b.len()
        invariant
            i <= b@.len(),
            b@ == encode_utf8(name@),
            0 < b@.len() <= max_len,
            forall|j: int| 0 <= j < i ==> !path_byte(#[trigger] b@[j]),
            forall|j: int|
                0 <= j < i && j < b@.len() - 1 ==> !(#[trigger] b@[j] == 0x2e && b@[j + 1] == 0x2e),
        decreases b@.len() - i,
    {
        if b[i] == 0x2f || b[i] == 0x5c || b[i] == 0 || (b[i] == 0x2e && i < b.len() - 1 && b[i + 1]
            == 0x2e) {
            proof {
                if path_byte(b@[i as int]) {
                } else {
                    assert(b@[i as int] == 0x2e && b@[i + 1] == 0x2e);
                }
            }
            return Err("log name must not contain path separators or traversal".to_owned());
        }
        i = i + 1;
    }
    assert(!has_path(b@));
    if !alphanumeric(b[0]) {
        return Err("log name must start with an alphanumeric character".to_owned());
    }
    let mut k: usize = 0;
    while k < b.len()
        invariant
            k <= b@.len(),
            b@ == encode_utf8(name@),
            0 < b@.len() <= max_len,
            !has_path(b@),
            is_alphanumeric(b@[0]),
            forall|j: int| 0 <= j < k ==> name_byte(#[trigger] b@[j]),
        decreases b@.len() - k,
    {
        if !(alphanumeric(b[k]) || b[k] == 0x2e || b[k] == 0x5f || b[k] == 0x2d) {
            assert(!name_byte(b@[k as int]));
            return Err(
                "log name may contain only alphanumeric characters, '.', '_' and '-'".to_owned(),
            );
        }
        k = k + 1;
    }
    Ok(())
}

/// What is wrong with a payload in hexadecimal.
pub open spec fn payload_fault(s: Seq<u8>) -> Option<Seq<char>> {
    if s.len() == 0 {
        Some("payload_hex is empty"@)
    } else if s.len() % 2 != 0 {
        Some("payload_hex must have even length"@)
    } else if !is_hex(s) {
        Some("payload_hex must be hexadecimal"@)
    } else {
        None
    }
}

/// A payload in normal form and in bytes.
pub fn parse_payload_hex(s: &str) -> (r: core::result::Result<(String, Vec<u8>), String>)
    ensures
        r is Ok <==> encode_utf8(s@).len() > 0 && is_hex(encode_utf8(s@)),
        match payload_fault(encode_utf8(s@)) {
            None => r matches Ok(p) && p.1@ == hex_bytes(encode_utf8(s@)) && p.0@ == hex_text(p.1@),
            Some(m) => r matches Err(e) && e@ == m,
        },
{
    let n: usize = s.as_bytes().len();
    if n == 0 {
        return Err("payload_hex is empty".to_owned());
    }
    if n % 2 != 0 {
        return Err("payload_hex must have even length".to_owned());
    }
    match hex_decode(s) {
        Err(_) => Err("payload_hex must be hexadecimal".to_owned()),
        Ok(payload) => Ok((hex_encode(&payload), payload)),
    }
}

/// What is wrong with an idempotency key in hexadecimal.
pub open spec fn key_fault(s: Seq<u8>, max_hex_len: usize) -> Option<Seq<char>> {
    if s.len() == 0 {
        Some("idempotency_key is empty"@)
    } else if s.len() % 2 != 0 {
        Some("idempotency_key must have even hex length"@)
    } else if s.len() > max_hex_len {
        Some("idempotency_key exceeds limit"@)
    } else if !is_hex(s) {
        Some("idempotency_key must be hexadecimal"@)
    } else if hex_bytes(s).len() > MAX_IDEMPOTENCY_KEY_BYTES {
        Some("idempotency_key exceeds 512 bytes"@)
    } else {
        None
    }
}

/// An idempotency key in normal form.
pub fn validate_idempotency_key(key: &str, max_hex_len: usize) -> (r: core::result::Result<
    String,
    String,
>)
    ensures
        r is Ok <==> 0 < encode_utf8(key@).len() <= max_hex_len && encode_utf8(key@).len() <= 1024
            && is_hex(encode_utf8(key@)),
        match key_fault(encode_utf8(key@), max_hex_len) {
            None => r matches Ok(k) && k@ == hex_text(hex_bytes(encode_utf8(key@))),
            Some(m) => r matches Err(e) && e@ == m,
        },
{
    let n: usize = key.as_bytes().len();
    if n == 0 {
        return Err("idempotency_key is empty".to_owned());
    }
    if n % 2 != 0 {
        return Err("idempotency_key must have even hex length".to_owned());
    }
    if n > max_hex_len {
        return Err("idempotency_key exceeds limit".to_owned());
    }
    match hex_decode(key) {
        Err(_) => Err("idempotency_key must be hexadecimal".to_owned()),
        Ok(raw) => {
            if raw.len() > MAX_IDEMPOTENCY_KEY_BYTES {
                return Err("idempotency_key exceeds 512 bytes".to_owned());
            }
            Ok(hex_encode(&raw))
        },
    }
}

// ------------------------------------------------------------ finding ids
/// How many bytes of white space stand at `i`.
pub open spec fn space_at(t: Seq<u8>, i: int, end: int) -> int {
    if i < end && (9 <= t[i] <= 13 || t[i] == 32) {
        1
    } else if i + 1 < end && t[i] == 0xc2 && (t[i + 1] == 0x85 || t[i + 1] == 0xa0) {
        2
    } else if i + 2 < end && ((t[i] == 0xe1 && t[i + 1] == 0x9a && t[i + 2] == 0x80) || (t[i] == 0xe2
        && t[i + 1] == 0x80 && (0x80 <= t[i + 2] <= 0x8a || t[i + 2] == 0xa8 || t[i + 2] == 0xa9
        || t[i + 2] == 0xaf)) || (t[i] == 0xe2 && t[i + 1] == 0x81 && t[i + 2] == 0x9f) || (t[i]
        == 0xe3 && t[i + 1] == 0x80 && t[i + 2] == 0x80)) {
        3
    } else {
        0
    }
}

/// Where the white space from `i` on ends.
pub open spec fn after_space(t: Seq<u8>, i: int, end: int) -> int
    decreases end - i,
{
    if space_at(t, i, end) > 0 {
        after_space(t, i + space_at(t, i, end), end)
    } else {
        i
    }
}

fn skip_space(t: &[u8], from: usize, end: usize) -> (r: usize)
    requires
        from <= end <= t@.len(),
    ensures
        r == after_space(t@, from as int, end as int),
        from <= r <= end,
{
    let mut i: usize = from;
    loop
        invariant
            from <= i <= end <= t@.len(),
            after_space(t@, from as int, end as int) == after_space(t@, i as int, end as int),
        decreases end - i,
    {
        if i < end && ((t[i] >= 9 && t[i] <= 13) || t[i] == 32) {
            i = i + 1;
        } else if end - i > 1 && t[i] == 0xc2 && (t[i + 1] == 0x85 || t[i + 1] == 0xa0) {
            i = i + 2;
        } else if end - i > 2 && ((t[i] == 0xe1 && t[i + 1] == 0x9a && t[i + 2] == 0x80) || (t[i]
            == 0xe2 && t[i + 1] == 0x80 && ((t[i + 2] >= 0x80 && t[i + 2] <= 0x8a) || t[i + 2]
            == 0xa8 || t[i + 2] == 0xa9 || t[i + 2] == 0xaf)) || (t[i] == 0xe2 && t[i + 1] == 0x81
            && t[i + 2] == 0x9f) || (t[i] == 0xe3 && t[i + 1] == 0x80 && t[i + 2] == 0x80)) {
            i = i + 3;
        } else {
            return i;
        }
    }
}

/// Where the next `"id"` from `i` on begins.
pub open spec fn id_key_from(t: Seq<u8>, i: int) -> Option<int>
    decreases t.len() - i,
{
    if i + 4 > t.len() {
        None
    } else if t[i] == 0x22 && t[i + 1] == 0x69 && t[i + 2] == 0x64 && t[i + 3] == 0x22 {
        Some(i)
    } else {
        id_key_from(t, i + 1)
    }
}

fn find_id_key(t: &[u8], from: usize) -> (r: Option<usize>)
    requires
        from <= t@.len(),
    ensures
        match id_key_from(t@, from as int) {
            Some(i) => r matches Some(n) && n == i && from <= n && n + 4 <= t@.len(),
            None => r is None,
        },
{
    let mut i: usize = from;
    while t.len() - i >= 4
        invariant
            from <= i <= t@.len(),
            id_key_from(t@, from as int) == id_key_from(t@, i as int),
        decreases t@.len() - i,
    {
        if t[i] == 0x22 && t[i + 1] == 0x69 && t[i + 2] == 0x64 && t[i + 3] == 0x22 {
            return Some(i);
        }
        i = i + 1;
    }
    None
}

/// Where the next quote from `i` on stands.
pub open spec fn quote_from(t: Seq<u8>, i: int, end: int) -> Option<int>
    decreases end - i,
{
    if i >= end {
        None
    } else if t[i] == 0x22 {
        Some(i)
    } else {
        quote_from(t, i + 1, end)
    }
}

fn find_quote(t: &[u8], from: usize, end: usize) -> (r: Option<usize>)
    requires
        from <= end <= t@.len(),
    ensures
        match quote_from(t@, from as int, end as int) {
            Some(i) => r matches Some(n) && n == i && from <= n < end,
            None => r is None,
        },
{
    let mut i: usize = from;
    while i < end
        invariant
            from <= i <= end <= t@.len(),
            quote_from(t@, from as int, end as int) == quote_from(t@, i as int, end as int),
        decreases end - i,
    {
        if t[i] == 0x22 {
            return Some(i);
        }
        i = i + 1;
    }
    None
}

/// The id in a text that need not be complete: the quoted text behind the
/// first `"id"` and a colon, before the next `"id"`.
pub open spec fn scanned_id(t: Seq<u8>) -> Seq<char> {
    if !valid_utf8(t) {
        Seq::empty()
    } else {
        match id_key_from(t, 0) {
            None => Seq::empty(),
            Some(at) => {
                let end = match id_key_from(t, at + 4) {
                    Some(j) => j,
                    None => t.len() as int,
                };
                let colon = after_space(t, at + 4, end);
                if colon >= end || t[colon] != 0x3a {
                    Seq::empty()
                } else {
                    let open = after_space(t, colon + 1, end);
                    if open >= end || t[open] != 0x22 {
                        Seq::empty()
                    } else {
                        match quote_from(t, open + 1, end) {
                            None => Seq::empty(),
                            Some(close) => if valid_utf8(t.subrange(open + 1, close)) {
                                decode_utf8(t.subrange(open + 1, close))
                            } else {
                                Seq::empty()
                            },
                        }
                    }
                }
            },
        }
    }
}

/// The id of a request, as far as it can be told: that of an object, or what
/// is found in a text that is no object.
pub open spec fn extracted_id(t: Seq<u8>) -> Seq<char> {
    match json_of(t) {
        Ok(JsonView::Object(f)) => match field(f, "id"@) {
            Some(JsonView::Text(s)) => s,
            _ => scanned_id(t),
        },
        _ => scanned_id(t),
    }
}

fn scan_id(t: &[u8]) -> (r: String)
    ensures
        r@ == scanned_id(t@),
{
    proof {
        reveal_strlit("");
    }
    let none: String = "".to_owned();
    let size: usize = t.len();
    assert(none@ =~= Seq::empty());
    match utf8_text(copy_bytes(t)) {
        None => {
            return none;
        },
        Some(_) => {},
    }
    let at: usize = match find_id_key(t, 0) {
        None => {
            return none;
        },
        Some(i) => i,
    };
    let end: usize = match find_id_key(t, at + 4) {
        None => size,
        Some(j) => j,
    };
    let colon: usize = skip_space(t, at + 4, end);
    if colon >= end || t[colon] != 0x3a {
        return none;
    }
    let open: usize = skip_space(t, colon + 1, end);
    if open >= end || t[open] != 0x22 {
        return none;
    }
    let close: usize = match find_quote(t, open + 1, end) {
        None => {
            return none;
        },
        Some(c) => c,
    };
    let part: &[u8] = vstd::slice::slice_subrange(t, open + 1, close);
    match utf8_text(copy_bytes(part)) {
        Some(s) => s,
        None => none,
    }
}

/// The id of a request, as far as it can be told, so that an error about a
/// frame that is too large still finds its caller.
pub fn extract_id(bytes: &[u8]) -> (r: String)
    ensures
        r@ == extracted_id(bytes@),
{
    if let Ok(Json::Object(fields)) = parse(bytes) {
        proof {
            lemma_object_view(fields);
        }
        if let Some(Json::Text(id)) = get_field(&fields, "id") {
            return id.clone();
        }
    }
    scan_id(bytes)
}

// ---------------------------------------------------------------- parsing
/// `s` without the line ends at its end.
pub open spec fn trimmed(s: Seq<u8>) -> Seq<u8>
    decreases s.len(),
{
    if s.len() > 0 && (s.last() == 0x0a || s.last() == 0x0d) {
        trimmed(s.drop_last())
    } else {
        s
    }
}

fn trim_line<'a>(s: &'a [u8]) -> (r: &'a [u8])
    ensures
        r@ == trimmed(s@),
{
    let mut n: usize = s.len();
    assert(s@.take(n as int) =~= s@);
    while n > 0 && (s[n - 1] == 0x0a || s[n - 1] == 0x0d)
        invariant
            n <= s@.len(),
            trimmed(s@) == trimmed(s@.take(n as int)),
        decreases n,
    {
        assert(s@.take(n as int).drop_last() =~= s@.take(n - 1));
        n = n - 1;
    }
    let part: &[u8] = vstd::slice::slice_subrange(s, 0, n);
    assert(part@ =~= s@.take(n as int));
    part
}

/// What a request comes to.
pub enum ParseView {
    Invalid { id: Seq<char>, message: Seq<char> },
    Unsupported { id: Seq<char>, message: Seq<char> },
    Request { id: Seq<char>, request: RequestView },
}

/// A text field, or what is wrong with it.
pub open spec fn text_in(
    f: Seq<(Seq<char>, JsonView)>,
    name: Seq<char>,
) -> core::result::Result<Seq<char>, Seq<char>> {
    match field(f, name) {
        None => Err("missing "@ + name),
        Some(JsonView::Text(s)) => Ok(s),
        Some(_) => Err(name + " must be a string"@),
    }
}

pub open spec fn log_in(f: Seq<(Seq<char>, JsonView)>, limits: Limits) -> core::result::Result<
    Seq<char>,
    Seq<char>,
> {
    match text_in(f, "log"@) {
        Err(m) => Err(m),
        Ok(s) => match log_name_fault(encode_utf8(s), limits.max_log_name_len) {
            Some(m) => Err(m),
            None => Ok(s),
        },
    }
}

pub open spec fn cursor_in(f: Seq<(Seq<char>, JsonView)>) -> core::result::Result<u64, Seq<char>> {
    match field(f, "cursor"@) {
        None => Err("missing cursor"@),
        Some(JsonView::Text(s)) => cursor_verdict(encode_utf8(s)),
        Some(_) => Err("cursor must be a decimal string"@),
    }
}

pub open spec fn number_in(f: Seq<(Seq<char>, JsonView)>, name: Seq<char>) -> core::result::Result<
    Option<u64>,
    Seq<char>,
> {
    match field(f, name) {
        None => Ok(None),
        Some(JsonView::Number(n)) => Ok(Some(n)),
        Some(_) => Err(name + " must be a non-negative integer"@),
    }
}

pub open spec fn over_limit(name: Seq<char>, value: Option<u64>, max: u64) -> Option<Seq<char>> {
    match value {
        None => None,
        Some(v) => if v == 0 {
            Some(name + " must be greater than zero"@)
        } else if v > max {
            Some(name + " "@ + decimal(v as nat) + (" exceeds limit "@ + decimal(max as nat)))
        } else {
            None
        },
    }
}

pub open spec fn all_texts(items: Seq<JsonView>) -> bool {
    forall|i: int| 0 <= i < items.len() ==> (#[trigger] items[i]) is Text
}

pub open spec fn require_in(f: Seq<(Seq<char>, JsonView)>) -> core::result::Result<
    Seq<Seq<char>>,
    Seq<char>,
> {
    match field(f, "require"@) {
        None => Ok(Seq::empty()),
        Some(JsonView::List(items)) => if all_texts(items) {
            Ok(items.map_values(|j: JsonView| j->Text_0))
        } else {
            Err("require must be an array of strings"@)
        },
        Some(_) => Err("require must be an array of strings"@),
    }
}

pub open spec fn append_in(f: Seq<(Seq<char>, JsonView)>, limits: Limits) -> core::result::Result<
    RequestView,
    Seq<char>,
> {
    if field(f, "events"@) is Some {
        Err("append events arrays are not supported; send one payload_hex"@)
    } else {
        match log_in(f, limits) {
            Err(m) => Err(m),
            Ok(log) => match text_in(f, "idempotency_key"@) {
                Err(m) => Err(m),
                Ok(key) => match key_fault(encode_utf8(key), limits.max_idempotency_key_len) {
                    Some(m) => Err(m),
                    None => match text_in(f, "payload_hex"@) {
                        Err(m) => Err(m),
                        Ok(hex) => match payload_fault(encode_utf8(hex)) {
                            Some(m) => Err(m),
                            None => {
                                let payload = hex_bytes(encode_utf8(hex));
                                if payload.len() > limits.max_append_bytes {
                                    Err(
                                        "append payload bytes "@ + decimal(payload.len())
                                            + " exceeds limit "@ + decimal(
                                            limits.max_append_bytes as nat,
                                        ),
                                    )
                                } else {
                                    Ok(
                                        RequestView::Append {
                                            log,
                                            key: hex_bytes(encode_utf8(key)),
                                            payload,
                                        },
                                    )
                                }
                            },
                        },
                    },
                },
            },
        }
    }
}

/// The limits that a page is asked for within.
pub open spec fn page_in(
    f: Seq<(Seq<char>, JsonView)>,
) -> core::result::Result<(Option<u64>, Option<u64>), Seq<char>> {
    match number_in(f, "max_events"@) {
        Err(m) => Err(m),
        Ok(e) => match number_in(f, "max_bytes"@) {
            Err(m) => Err(m),
            Ok(b) => Ok((e, b)),
        },
    }
}

pub open spec fn page_over(
    max_events: Option<u64>,
    max_bytes: Option<u64>,
    limits: Limits,
) -> Option<Seq<char>> {
    match over_limit("max_events"@, max_events, limits.max_read_events as u64) {
        Some(m) => Some(m),
        None => over_limit("max_bytes"@, max_bytes, limits.max_read_bytes as u64),
    }
}

pub open spec fn read_in(f: Seq<(Seq<char>, JsonView)>, limits: Limits) -> core::result::Result<
    RequestView,
    Seq<char>,
> {
    match log_in(f, limits) {
        Err(m) => Err(m),
        Ok(log) => match cursor_in(f) {
            Err(m) => Err(m),
            Ok(cursor) => match page_in(f) {
                Err(m) => Err(m),
                Ok((max_events, max_bytes)) => match page_over(max_events, max_bytes, limits) {
                    Some(m) => Err(m),
                    None => Ok(RequestView::Read { log, cursor, max_events, max_bytes }),
                },
            },
        },
    }
}

pub open spec fn follow_in(f: Seq<(Seq<char>, JsonView)>, limits: Limits) -> core::result::Result<
    RequestView,
    Seq<char>,
> {
    match log_in(f, limits) {
        Err(m) => Err(m),
        Ok(log) => match cursor_in(f) {
            Err(m) => Err(m),
            Ok(cursor) => match number_in(f, "timeout_ms"@) {
                Err(m) => Err(m),
                Ok(timeout_ms) => match page_in(f) {
                    Err(m) => Err(m),
                    Ok((max_events, max_bytes)) => if timeout_ms matches Some(t) && t
                        > limits.max_follow_timeout_ms {
                        Err("timeout_ms exceeds limit"@)
                    } else {
                        match page_over(max_events, max_bytes, limits) {
                            Some(m) => Err(m),
                            None => Ok(
                                RequestView::Follow {
                                    log,
                                    cursor,
                                    timeout_ms,
                                    max_events,
                                    max_bytes,
                                },
                            ),
                        }
                    },
                },
            },
        },
    }
}

/// What an operation asks for.
pub open spec fn operation_in(
    f: Seq<(Seq<char>, JsonView)>,
    op: Seq<char>,
    limits: Limits,
) -> core::result::Result<RequestView, Seq<char>> {
    if op == "hello"@ {
        match require_in(f) {
            Err(m) => Err(m),
            Ok(require) => Ok(RequestView::Hello { require }),
        }
    } else if op == "append"@ {
        append_in(f, limits)
    } else if op == "head"@ {
        match log_in(f, limits) {
            Err(m) => Err(m),
            Ok(log) => Ok(RequestView::Head { log }),
        }
    } else if op == "read"@ {
        read_in(f, limits)
    } else if op == "follow"@ {
        follow_in(f, limits)
    } else {
        Err("unknown op "@ + op)
    }
}

/// What the fields of a request come to: its id, its version and its
/// operation are looked at in this order.
pub open spec fn fields_request(f: Seq<(Seq<char>, JsonView)>, limits: Limits) -> ParseView {
    match text_in(f, "id"@) {
        Err(message) => ParseView::Invalid { id: Seq::empty(), message },
        Ok(id) => match id_fault(encode_utf8(id), limits.max_id_len) {
            Some(message) => ParseView::Invalid { id: Seq::empty(), message },
            None => match field(f, "v"@) {
                None => ParseView::Invalid { id, message: "missing v"@ },
                Some(JsonView::Number(v)) => if v != PROTOCOL_VERSION {
                    ParseView::Unsupported {
                        id,
                        message: "unsupported protocol version "@ + decimal(v as nat)
                            + "; this process speaks v1"@,
                    }
                } else {
                    match text_in(f, "op"@) {
                        Err(message) => ParseView::Invalid { id, message },
                        Ok(op) => match operation_in(f, op, limits) {
                            Err(message) => ParseView::Invalid { id, message },
                            Ok(request) => ParseView::Request { id, request },
                        },
                    }
                },
                Some(_) => ParseView::Invalid {
                    id,
                    message: "v must be a protocol version integer"@,
                },
            },
        },
    }
}

/// What a frame comes to.
pub open spec fn parsed(bytes: Seq<u8>, limits: Limits) -> ParseView {
    if !valid_utf8(bytes) {
        ParseView::Invalid { id: Seq::empty(), message: "request is not utf-8"@ }
    } else if trimmed(bytes).len() == 0 {
        ParseView::Invalid { id: Seq::empty(), message: "empty request"@ }
    } else {
        match json_of(trimmed(bytes)) {
            Err(JsonFaultView::Malformed(m)) => ParseView::Invalid {
                id: extracted_id(bytes),
                message: "malformed json: "@ + m,
            },
            Err(JsonFaultView::Trailing(_)) => ParseView::Invalid {
                id: extracted_id(bytes),
                message: "trailing data after json object"@,
            },
            Ok(JsonView::Object(f)) => fields_request(f, limits),
            Ok(_) => ParseView::Invalid {
                id: extracted_id(bytes),
                message: "request must be a json object"@,
            },
        }
    }
}

fn read_text(fields: &Vec<(String, Json)>, name: &str) -> (r: core::result::Result<String, String>)
    ensures
        match text_in(fields_view(fields@), name@) {
            Ok(s) => r matches Ok(x) && x@ == s,
            Err(m) => r matches Err(e) && e@ == m,
        },
{
    match get_field(fields, name) {
        None => Err(join2("missing ", name)),
        Some(Json::Text(s)) => Ok(s.clone()),
        Some(_) => Err(join2(name, " must be a string")),
    }
}

fn read_log(fields: &Vec<(String, Json)>, limits: &Limits) -> (r: core::result::Result<
    String,
    String,
>)
    ensures
        match log_in(fields_view(fields@), *limits) {
            Ok(s) => r matches Ok(x) && x@ == s,
            Err(m) => r matches Err(e) && e@ == m,
        },
{
    match read_text(fields, "log") {
        Err(m) => Err(m),
        Ok(name) => match validate_log_name(&name, limits.max_log_name_len) {
            Err(m) => Err(m),
            Ok(_) => Ok(name),
        },
    }
}

fn read_cursor(fields: &Vec<(String, Json)>) -> (r: core::result::Result<u64, String>)
    ensures
        match cursor_in(fields_view(fields@)) {
            Ok(n) => r matches Ok(x) && x == n,
            Err(m) => r matches Err(e) && e@ == m,
        },
{
    match get_field(fields, "cursor") {
        None => Err("missing cursor".to_owned()),
        Some(Json::Text(s)) => parse_cursor(s),
        Some(_) => Err("cursor must be a decimal string".to_owned()),
    }
}

fn read_number(fields: &Vec<(String, Json)>, name: &str) -> (r: core::result::Result<
    Option<u64>,
    String,
>)
    ensures
        match number_in(fields_view(fields@), name@) {
            Ok(n) => r matches Ok(x) && x == n,
            Err(m) => r matches Err(e) && e@ == m,
        },
{
    match get_field(fields, name) {
        None => Ok(None),
        Some(Json::Number(n)) => Ok(Some(*n)),
        Some(_) => Err(join2(name, " must be a non-negative integer")),
    }
}

fn reject_over_limit(name: &str, value: Option<u64>, max: u64) -> (r: core::result::Result<
    (),
    String,
>)
    ensures
        r is Ok <==> (value matches Some(v) ==> 1 <= v <= max),
        match over_limit(name@, value, max) {
            None => r is Ok,
            Some(m) => r matches Err(e) && e@ == m,
        },
{
    match value {
        None => Ok(()),
        Some(v) => {
            if v == 0 {
                return Err(join2(name, " must be greater than zero"));
            }
            if v > max {
                let asked: String = decimal_text(v);
                let limit: String = decimal_text(max);
                let tail: String = join2(" exceeds limit ", &limit);
                let head: String = join3(name, " ", &asked);
                return Err(join2(&head, &tail));
            }
            Ok(())
        },
    }
}

fn parse_hello(fields: &Vec<(String, Json)>) -> (r: core::result::Result<Vec<String>, String>)
    ensures
        match require_in(fields_view(fields@)) {
            Ok(s) => r matches Ok(x) && text_views(x@) == s,
            Err(m) => r matches Err(e) && e@ == m,
        },
{
    let mut out: Vec<String> = Vec::new();
    assert(text_views(out@) =~= Seq::empty());
    match get_field(fields, "require") {
        None => Ok(out),
        Some(Json::List(items)) => {
            let ghost all = items@.map_values(|j: Json| j@);
            proof {
                lemma_list_view(*items);
            }
            let mut i: usize = 0;
            while i < items.len()
                invariant
                    i <= items@.len(),
                    all == items@.map_values(|j: Json| j@),
                    field(fields_view(fields@), "require"@) == Some(JsonView::List(all)),
                    out@.len() == i,
                    forall|j: int| 0 <= j < i ==> (#[trigger] all[j]) is Text,
                    forall|j: int| 0 <= j < i ==> (#[trigger] out@[j])@ == all[j]->Text_0,
                decreases items@.len() - i,
            {
                assert(all[i as int] == items@[i as int]@);
                match &items[i] {
                    Json::Text(s) => {
                        out.push(s.clone());
                    },
                    _ => {
                        assert(!all_texts(all));
                        return Err("require must be an array of strings".to_owned());
                    },
                }
                i = i + 1;
            }
            assert(text_views(out@) =~= all.map_values(|j: JsonView| j->Text_0));
            Ok(out)
        },
        Some(_) => Err("require must be an array of strings".to_owned()),
    }
}

fn parse_append(id: String, fields: &Vec<(String, Json)>, limits: &Limits) -> (r:
    core::result::Result<Request, String>)
    ensures
        match append_in(fields_view(fields@), *limits) {
            Ok(w) => r matches Ok(q) && q.asks(w) && q.id_text() == id@,
            Err(m) => r matches Err(e) && e@ == m,
        },
{
    if get_field(fields, "events").is_some() {
        return Err("append events arrays are not supported; send one payload_hex".to_owned());
    }
    let log: String = match read_log(fields, limits) {
        Ok(s) => s,
        Err(m) => {
            return Err(m);
        },
    };
    let key: String = match read_text(fields, "idempotency_key") {
        Ok(s) => s,
        Err(m) => {
            return Err(m);
        },
    };
    let idempotency_key: String = match validate_idempotency_key(
        &key,
        limits.max_idempotency_key_len,
    ) {
        Ok(s) => s,
        Err(m) => {
            return Err(m);
        },
    };
    let hex: String = match read_text(fields, "payload_hex") {
        Ok(s) => s,
        Err(m) => {
            return Err(m);
        },
    };
    let (payload_hex, payload) = match parse_payload_hex(&hex) {
        Ok(p) => p,
        Err(m) => {
            return Err(m);
        },
    };
    if payload.len() > limits.max_append_bytes {
        let n: String = decimal_text(payload.len() as u64);
        let max: String = decimal_text(limits.max_append_bytes as u64);
        let head: String = join3("append payload bytes ", &n, " exceeds limit ");
        return Err(join2(&head, &max));
    }
    Ok(Request::Append { id, log, idempotency_key, payload_hex, payload })
}

fn read_page(fields: &Vec<(String, Json)>) -> (r: core::result::Result<
    (Option<u64>, Option<u64>),
    String,
>)
    ensures
        match page_in(fields_view(fields@)) {
            Ok(p) => r matches Ok(x) && x == p,
            Err(m) => r matches Err(e) && e@ == m,
        },
{
    let max_events: Option<u64> = match read_number(fields, "max_events") {
        Ok(n) => n,
        Err(m) => {
            return Err(m);
        },
    };
    match read_number(fields, "max_bytes") {
        Ok(max_bytes) => Ok((max_events, max_bytes)),
        Err(m) => Err(m),
    }
}

fn check_page(max_events: Option<u64>, max_bytes: Option<u64>, limits: &Limits) -> (r:
    core::result::Result<(), String>)
    ensures
        match page_over(max_events, max_bytes, *limits) {
            None => r is Ok,
            Some(m) => r matches Err(e) && e@ == m,
        },
{
    match reject_over_limit("max_events", max_events, limits.max_read_events as u64) {
        Err(m) => Err(m),
        Ok(_) => reject_over_limit("max_bytes", max_bytes, limits.max_read_bytes as u64),
    }
}

fn parse_read(id: String, fields: &Vec<(String, Json)>, limits: &Limits) -> (r:
    core::result::Result<Request, String>)
    ensures
        match read_in(fields_view(fields@), *limits) {
            Ok(w) => r matches Ok(q) && q.asks(w) && q.id_text() == id@,
            Err(m) => r matches Err(e) && e@ == m,
        },
{
    let log: String = match read_log(fields, limits) {
        Ok(s) => s,
        Err(m) => {
            return Err(m);
        },
    };
    let cursor: u64 = match read_cursor(fields) {
        Ok(n) => n,
        Err(m) => {
            return Err(m);
        },
    };
    let (max_events, max_bytes) = match read_page(fields) {
        Ok(p) => p,
        Err(m) => {
            return Err(m);
        },
    };
    match check_page(max_events, max_bytes, limits) {
        Err(m) => Err(m),
        Ok(_) => Ok(Request::Read { id, log, cursor, max_events, max_bytes }),
    }
}

fn parse_follow(id: String, fields: &Vec<(String, Json)>, limits: &Limits) -> (r:
    core::result::Result<Request, String>)
    ensures
        match follow_in(fields_view(fields@), *limits) {
            Ok(w) => r matches Ok(q) && q.asks(w) && q.id_text() == id@,
            Err(m) => r matches Err(e) && e@ == m,
        },
{
    let log: String = match read_log(fields, limits) {
        Ok(s) => s,
        Err(m) => {
            return Err(m);
        },
    };
    let cursor: u64 = match read_cursor(fields) {
        Ok(n) => n,
        Err(m) => {
            return Err(m);
        },
    };
    let timeout_ms: Option<u64> = match read_number(fields, "timeout_ms") {
        Ok(n) => n,
        Err(m) => {
            return Err(m);
        },
    };
    let (max_events, max_bytes) = match read_page(fields) {
        Ok(p) => p,
        Err(m) => {
            return Err(m);
        },
    };
    if let Some(t) = timeout_ms {
        if t > limits.max_follow_timeout_ms {
            return Err("timeout_ms exceeds limit".to_owned());
        }
    }
    match check_page(max_events, max_bytes, limits) {
        Err(m) => Err(m),
        Ok(_) => Ok(Request::Follow { id, log, cursor, timeout_ms, max_events, max_bytes }),
    }
}

fn parse_operation(
    id: String,
    op: &str,
    fields: &Vec<(String, Json)>,
    limits: &Limits,
) -> (r: core::result::Result<Request, String>)
    ensures
        match operation_in(fields_view(fields@), op@, *limits) {
            Ok(w) => r matches Ok(q) && q.asks(w) && q.id_text() == id@,
            Err(m) => r matches Err(e) && e@ == m,
        },
{
    if same_text(op, "hello") {
        match parse_hello(fields) {
            Err(m) => Err(m),
            Ok(require) => Ok(Request::Hello { id, require }),
        }
    } else if same_text(op, "append") {
        parse_append(id, fields, limits)
    } else if same_text(op, "head") {
        match read_log(fields, limits) {
            Err(m) => Err(m),
            Ok(log) => Ok(Request::Head { id, log }),
        }
    } else if same_text(op, "read") {
        parse_read(id, fields, limits)
    } else if same_text(op, "follow") {
        parse_follow(id, fields, limits)
    } else {
        Err(join2("unknown op ", op))
    }
}

/// Whether the answer is what the request comes to.
pub open spec fn answers_parse(r: core::result::Result<Request, Response>, v: ParseView) -> bool {
    match v {
        ParseView::Invalid { id, message } => r matches Err(x) && is_error(
            x,
            id,
            ErrorCode::InvalidRequest,
            message,
        ),
        ParseView::Unsupported { id, message } => r matches Err(x) && is_unsupported(
            x,
            id,
            "protocol"@,
            message,
        ),
        ParseView::Request { id, request } => r matches Ok(q) && q.asks(request) && q.id_text()
            == id,
    }
}

fn parse_fields(fields: &Vec<(String, Json)>, limits: &Limits) -> (r: core::result::Result<
    Request,
    Response,
>)
    ensures
        answers_parse(r, fields_request(fields_view(fields@), *limits)),
{
    proof {
        reveal_strlit("");
        assert(""@ =~= Seq::<char>::empty());
    }
    let id: String = match read_text(fields, "id") {
        Ok(s) => s,
        Err(m) => {
            return Err(Response::invalid("", &m));
        },
    };
    match validate_id(&id, limits.max_id_len) {
        Err(m) => {
            return Err(Response::invalid("", &m));
        },
        Ok(_) => {},
    }
    let v: u64 = match get_field(fields, "v") {
        None => {
            return Err(Response::invalid(&id, "missing v"));
        },
        Some(Json::Number(n)) => *n,
        Some(_) => {
            return Err(Response::invalid(&id, "v must be a protocol version integer"));
        },
    };
    if v != PROTOCOL_VERSION as u64 {
        let n: String = decimal_text(v);
        let message: String = join3(
            "unsupported protocol version ",
            &n,
            "; this process speaks v1",
        );
        return Err(Response::unsupported(&id, "protocol", &message));
    }
    let op: String = match read_text(fields, "op") {
        Ok(s) => s,
        Err(m) => {
            return Err(Response::invalid(&id, &m));
        },
    };
    match parse_operation(id.clone(), &op, fields, limits) {
        Ok(q) => Ok(q),
        Err(m) => Err(Response::invalid(&id, &m)),
    }
}

/// Reads and validates one frame. An error already is the answer to it.
pub fn parse_request(bytes: &[u8], limits: &Limits) -> (r: core::result::Result<Request, Response>)
    ensures
        answers_parse(r, parsed(bytes@, *limits)),
{
    proof {
        reveal_strlit("");
        assert(""@ =~= Seq::<char>::empty());
    }
    match utf8_text(copy_bytes(bytes)) {
        None => {
            return Err(Response::invalid("", "request is not utf-8"));
        },
        Some(_) => {},
    }
    let text: &[u8] = trim_line(bytes);
    if text.len() == 0 {
        return Err(Response::invalid("", "empty request"));
    }
    match parse(text) {
        Err(JsonFault::Malformed(m)) => {
            let id: String = extract_id(bytes);
            let message: String = join2("malformed json: ", &m);
            Err(Response::invalid(&id, &message))
        },
        Err(JsonFault::Trailing(_)) => {
            let id: String = extract_id(bytes);
            Err(Response::invalid(&id, "trailing data after json object"))
        },
        Ok(Json::Object(fields)) => {
            proof {
                lemma_object_view(fields);
            }
            parse_fields(&fields, limits)
        },
        Ok(_) => {
            let id: String = extract_id(bytes);
            Err(Response::invalid(&id, "request must be a json object"))
        },
    }
}

/// A request that is accepted has an id that can be answered, within the
/// limits, and names a log that stays in its place.
pub proof fn law_accepted_request_is_bounded(bytes: Seq<u8>, limits: Limits)
    ensures
        parsed(bytes, limits) matches ParseView::Request { id, request } ==> {
            &&& id_fault(encode_utf8(id), limits.max_id_len) is None
            &&& match request {
                RequestView::Hello { .. } => true,
                RequestView::Append { log, key, payload } => {
                    &&& log_name_fault(encode_utf8(log), limits.max_log_name_len) is None
                    &&& 0 < key.len() <= MAX_IDEMPOTENCY_KEY_BYTES
                    &&& 0 < payload.len() <= limits.max_append_bytes
                },
                RequestView::Head { log } => log_name_fault(
                    encode_utf8(log),
                    limits.max_log_name_len,
                ) is None,
                RequestView::Read { log, cursor, .. } => log_name_fault(
                    encode_utf8(log),
                    limits.max_log_name_len,
                ) is None && cursor > 0,
                RequestView::Follow { log, cursor, .. } => log_name_fault(
                    encode_utf8(log),
                    limits.max_log_name_len,
                ) is None && cursor > 0,
            }
        },
{
}

/// A sequence number on the wire reads back as itself.
pub proof fn law_sequence_text_roundtrip(n: u64)
    ensures
        decimal_verdict(encode_utf8(decimal(n as nat))) == Ok::<u64, Seq<char>>(n),
{
    crate::text::lemma_decimal_reads_back(n as nat);
}

/// The text of a number is the only one that is read as it: no leading zero,
/// no sign, nothing but figures.
pub proof fn law_number_has_one_text(s: Seq<char>, n: u64)
    ensures
        decimal_verdict(encode_utf8(s)) == Ok::<u64, Seq<char>>(n) <==> s == decimal(n as nat),
        cursor_verdict(encode_utf8(s)) == Ok::<u64, Seq<char>>(n) <==> s == decimal(n as nat) && n
            > 0,
{
    law_sequence_text_roundtrip(n);
    if decimal_verdict(encode_utf8(s)) == Ok::<u64, Seq<char>>(n) {
        lemma_canonical_digits(encode_utf8(s));
        crate::text::lemma_decimal_reads_back(n as nat);
        lemma_canonical_digits(encode_utf8(decimal(n as nat)));
        vstd::utf8::encode_utf8_decode_utf8(s);
        vstd::utf8::encode_utf8_decode_utf8(decimal(n as nat));
    }
}

/// Figures without a leading zero are determined by the number they spell.
proof fn lemma_canonical_digits(s: Seq<u8>)
    requires
        s.len() > 0,
        all_digits(s),
        s.len() > 1 ==> s[0] != 0x30,
    ensures
        s == crate::text::decimal_bytes(decimal_value(s)),
        s[0] != 0x30 ==> decimal_value(s) > 0,
    decreases s.len(),
{
    let n = decimal_value(s);
    let front = s.drop_last();
    let d = (s.last() - 0x30) as nat;
    assert(is_digit(s.last()));
    if s.len() == 1 {
        assert(decimal_value(front) == 0);
        assert(n == d);
        assert(decimal(n) == seq![crate::text::digit_char(d)]);
        assert(s =~= crate::text::decimal_bytes(n));
    } else {
        assert forall|i: int| 0 <= i < front.len() implies #[trigger] is_digit(front[i]) by {
            assert(is_digit(s[i]));
        }
        lemma_canonical_digits(front);
        let m = decimal_value(front);
        assert(m > 0);
        assert(n == m * 10 + d);
        assert(n / 10 == m && n % 10 == d);
        assert(decimal(n) == decimal(m).push(crate::text::digit_char(d)));
        assert(s =~= crate::text::decimal_bytes(n)) by {
            assert forall|i: int| 0 <= i < front.len() implies s[i] == crate::text::decimal_bytes(
                n,
            )[i] by {
                assert(front[i] == crate::text::decimal_bytes(m)[i]);
            }
        }
    }
}

/// An append with a sound log name, key and payload is taken for what it says.
pub proof fn law_sound_append_is_taken(
    f: Seq<(Seq<char>, JsonView)>,
    limits: Limits,
    log: Seq<char>,
    key: Seq<char>,
    hex: Seq<char>,
)
    requires
        field(f, "events"@) is None,
        field(f, "log"@) == Some(JsonView::Text(log)),
        field(f, "idempotency_key"@) == Some(JsonView::Text(key)),
        field(f, "payload_hex"@) == Some(JsonView::Text(hex)),
        log_name_fault(encode_utf8(log), limits.max_log_name_len) is None,
        0 < encode_utf8(key).len() <= limits.max_idempotency_key_len,
        encode_utf8(key).len() <= 1024,
        is_hex(encode_utf8(key)),
        0 < encode_utf8(hex).len() <= 2 * limits.max_append_bytes,
        is_hex(encode_utf8(hex)),
    ensures
        operation_in(f, "append"@, limits) == Ok::<RequestView, Seq<char>>(
            RequestView::Append {
                log,
                key: hex_bytes(encode_utf8(key)),
                payload: hex_bytes(encode_utf8(hex)),
            },
        ),
{
    lemma_names_of_operations();
}

proof fn lemma_names_of_operations()
    ensures
        "hello"@ != "append"@,
        "hello"@ != "head"@,
        "append"@ != "head"@,
        "hello"@ != "read"@,
        "append"@ != "read"@,
        "head"@ != "read"@,
        "hello"@ != "follow"@,
        "append"@ != "follow"@,
        "head"@ != "follow"@,
        "read"@ != "follow"@,
{
    reveal_strlit("hello");
    reveal_strlit("append");
    reveal_strlit("head");
    reveal_strlit("read");
    reveal_strlit("follow");
    assert("hello"@[0] == 'h' && "hello"@.len() == 5);
    assert("append"@[0] == 'a');
    assert("head"@[0] == 'h' && "head"@.len() == 4);
    assert("read"@[0] == 'r');
    assert("follow"@[0] == 'f');
}

/// A reading with a sound log name and cursor, and with bounds within the
/// limits or none, is taken for what it says. So is a following, if it does
/// not want to wait for longer than the limit.
pub proof fn law_sound_reading_is_taken(
    f: Seq<(Seq<char>, JsonView)>,
    limits: Limits,
    log: Seq<char>,
    cursor: u64,
    max_events: Option<u64>,
    max_bytes: Option<u64>,
    timeout_ms: Option<u64>,
)
    requires
        field(f, "log"@) == Some(JsonView::Text(log)),
        log_name_fault(encode_utf8(log), limits.max_log_name_len) is None,
        cursor > 0,
        field(f, "cursor"@) == Some(JsonView::Text(decimal(cursor as nat))),
        match max_events {
            None => field(f, "max_events"@) is None,
            Some(n) => field(f, "max_events"@) == Some(JsonView::Number(n)) && 0 < n
                <= limits.max_read_events,
        },
        match max_bytes {
            None => field(f, "max_bytes"@) is None,
            Some(n) => field(f, "max_bytes"@) == Some(JsonView::Number(n)) && 0 < n
                <= limits.max_read_bytes,
        },
        match timeout_ms {
            None => field(f, "timeout_ms"@) is None,
            Some(n) => field(f, "timeout_ms"@) == Some(JsonView::Number(n)) && n
                <= limits.max_follow_timeout_ms,
        },
    ensures
        operation_in(f, "read"@, limits) == Ok::<RequestView, Seq<char>>(
            RequestView::Read { log, cursor, max_events, max_bytes },
        ),
        operation_in(f, "follow"@, limits) == Ok::<RequestView, Seq<char>>(
            RequestView::Follow { log, cursor, timeout_ms, max_events, max_bytes },
        ),
        operation_in(f, "head"@, limits) == Ok::<RequestView, Seq<char>>(RequestView::Head { log }),
{
    lemma_names_of_operations();
    law_number_has_one_text(decimal(cursor as nat), cursor);
}

/// A bound of a reading that is over its limit, or zero, is refused; so is a
/// wait that is over its limit, and an operation of another name.
pub proof fn law_unsound_reading_is_refused(f: Seq<(Seq<char>, JsonView)>, limits: Limits, n: u64)
    ensures
        field(f, "max_events"@) == Some(JsonView::Number(n)) && !(1 <= n <= limits.max_read_events)
            ==> operation_in(f, "read"@, limits) is Err && operation_in(f, "follow"@, limits)
            is Err,
        field(f, "max_bytes"@) == Some(JsonView::Number(n)) && !(1 <= n <= limits.max_read_bytes)
            ==> operation_in(f, "read"@, limits) is Err && operation_in(f, "follow"@, limits)
            is Err,
        field(f, "timeout_ms"@) == Some(JsonView::Number(n)) && n > limits.max_follow_timeout_ms
            ==> operation_in(f, "follow"@, limits) is Err,
        forall|op: Seq<char>|
            op != "hello"@ && op != "append"@ && op != "head"@ && op != "read"@ && op != "follow"@
                ==> #[trigger] operation_in(f, op, limits) is Err,
{
    lemma_names_of_operations();
}

/// A hello asks for the capabilities that it lists, in order, and for none
/// where it lists none.
pub proof fn law_hello_asks_for_its_list(
    f: Seq<(Seq<char>, JsonView)>,
    limits: Limits,
    names: Seq<Seq<char>>,
)
    requires
        field(f, "require"@) == Some(JsonView::List(names.map_values(|s: Seq<char>| JsonView::Text(s))))
            || (field(f, "require"@) is None && names.len() == 0),
    ensures
        operation_in(f, "hello"@, limits) == Ok::<RequestView, Seq<char>>(
            RequestView::Hello { require: names },
        ),
{
    let items = names.map_values(|s: Seq<char>| JsonView::Text(s));
    assert(items.map_values(|j: JsonView| j->Text_0) =~= names);
    assert(names.len() == 0 ==> names =~= Seq::<Seq<char>>::empty());
}

/// A request of version 1 with a sound id and a name is what its operation
/// is; of another version it is unsupported. It keeps its id either way.
pub proof fn law_request_goes_by_its_version(
    f: Seq<(Seq<char>, JsonView)>,
    limits: Limits,
    id: Seq<char>,
    v: u64,
    op: Seq<char>,
)
    requires
        field(f, "id"@) == Some(JsonView::Text(id)),
        id_fault(encode_utf8(id), limits.max_id_len) is None,
        field(f, "v"@) == Some(JsonView::Number(v)),
        field(f, "op"@) == Some(JsonView::Text(op)),
    ensures
        v != 1 ==> (fields_request(f, limits) matches ParseView::Unsupported { id: i, .. } && i
            == id),
        v == 1 ==> match operation_in(f, op, limits) {
            Ok(q) => fields_request(f, limits) == (ParseView::Request { id, request: q }),
            Err(m) => fields_request(f, limits) == (ParseView::Invalid { id, message: m }),
        },
{
}

/// A line that holds one object is the request that its fields make, whatever
/// line ends follow it.
pub proof fn law_line_is_its_object(
    line: Seq<u8>,
    ends: Seq<u8>,
    limits: Limits,
    f: Seq<(Seq<char>, JsonView)>,
)
    requires
        valid_utf8(line + ends),
        line.len() > 0,
        line.last() != 0x0a,
        line.last() != 0x0d,
        forall|i: int| 0 <= i < ends.len() ==> #[trigger] ends[i] == 0x0a || ends[i] == 0x0d,
        json_of(line) == Ok::<JsonView, JsonFaultView>(JsonView::Object(f)),
    ensures
        parsed(line + ends, limits) == fields_request(f, limits),
{
    lemma_trimmed(line, ends);
}

proof fn lemma_trimmed(line: Seq<u8>, ends: Seq<u8>)
    requires
        line.len() > 0,
        line.last() != 0x0a,
        line.last() != 0x0d,
        forall|i: int| 0 <= i < ends.len() ==> #[trigger] ends[i] == 0x0a || ends[i] == 0x0d,
    ensures
        trimmed(line + ends) == line,
    decreases ends.len(),
{
    if ends.len() == 0 {
        assert(line + ends =~= line);
    } else {
        assert((line + ends).last() == ends.last());
        assert((line + ends).drop_last() =~= line + ends.drop_last());
        lemma_trimmed(line, ends.drop_last());
    }
}

/// Whether the text `"id"` stands at a place.
pub open spec fn id_key_at(t: Seq<u8>, i: int) -> bool {
    0 <= i && i + 4 <= t.len() && t[i] == 0x22 && t[i + 1] == 0x69 && t[i + 2] == 0x64 && t[i + 3]
        == 0x22
}

/// The id of a line that is no object is what stands in quotes behind the
/// first `"id":` up to the next quote; without such a key there is none.
pub proof fn law_id_is_found_in_a_torn_line(t: Seq<u8>, at: int, close: int)
    requires
        valid_utf8(t),
        forall|i: int| 0 <= i < at ==> !(#[trigger] id_key_at(t, i)),
        at < t.len() ==> id_key_at(t, at) && at + 6 <= close < t.len() && t[at + 4] == 0x3a && t[at
            + 5] == 0x22 && t[close] == 0x22,
        0 <= at <= t.len(),
        forall|i: int| at + 6 <= i < close ==> #[trigger] t[i] != 0x22,
        forall|i: int| at + 4 <= i <= close ==> !(#[trigger] id_key_at(t, i)),
    ensures
        at == t.len() ==> scanned_id(t).len() == 0,
        at < t.len() && valid_utf8(t.subrange(at + 6, close)) ==> scanned_id(t) == decode_utf8(
            t.subrange(at + 6, close),
        ),
{
    lemma_id_key_from(t, 0, at);
    if at < t.len() {
        let end = match id_key_from(t, at + 4) {
            Some(j) => j,
            None => t.len() as int,
        };
        lemma_id_key_beyond(t, at + 4, close);
        assert(end > close);
        assert(space_at(t, at + 4, end) == 0);
        assert(space_at(t, at + 5, end) == 0);
        lemma_quote_from(t, at + 6, close, end);
    }
}

proof fn lemma_id_key_from(t: Seq<u8>, from: int, at: int)
    requires
        0 <= from <= at,
        forall|i: int| from <= i < at ==> !(#[trigger] id_key_at(t, i)),
        at >= t.len() || id_key_at(t, at),
    ensures
        id_key_from(t, from) == if at < t.len() {
            Some(at)
        } else {
            None::<int>
        },
    decreases at - from,
{
    if from < at && from + 4 <= t.len() {
        assert(!id_key_at(t, from));
        lemma_id_key_from(t, from + 1, at);
    }
}

proof fn lemma_id_key_beyond(t: Seq<u8>, from: int, close: int)
    requires
        0 <= from,
        close < t.len(),
        forall|i: int| from <= i <= close ==> !(#[trigger] id_key_at(t, i)),
    ensures
        id_key_from(t, from) matches Some(j) ==> j > close,
    decreases t.len() - from,
{
    if from + 4 <= t.len() {
        if from <= close {
            assert(!id_key_at(t, from));
        }
        if !id_key_at(t, from) {
            lemma_id_key_beyond(t, from + 1, close);
        }
    }
}

proof fn lemma_quote_from(t: Seq<u8>, from: int, close: int, end: int)
    requires
        0 <= from <= close < end,
        t[close] == 0x22,
        forall|i: int| from <= i < close ==> #[trigger] t[i] != 0x22,
    ensures
        quote_from(t, from, end) == Some(close),
    decreases close - from,
{
    if from < close {
        lemma_quote_from(t, from + 1, close, end);
    }
}

/// Space between the parts of a key is passed over, up to what follows it.
pub proof fn law_space_is_passed_over(t: Seq<u8>, from: int, to: int, end: int)
    requires
        0 <= from <= to <= end <= t.len(),
        forall|i: int| from <= i < to ==> #[trigger] t[i] == 32 || 9 <= t[i] <= 13,
        to < end ==> 33 <= t[to] < 128,
    ensures
        after_space(t, from, end) == to,
    decreases to - from,
{
    if from < to {
        law_space_is_passed_over(t, from + 1, to, end);
    }
}

/// An id is sound exactly where it has 1 to `max` bytes, all of them printable
/// and none a space.
pub proof fn law_sound_ids(id: Seq<u8>, max: usize)
    ensures
        id_fault(id, max) is None <==> 1 <= id.len() <= max && forall|i: int|
            0 <= i < id.len() ==> 0x21 <= #[trigger] id[i] <= 0x7e,
{
    assert(all_graphic(id) <==> forall|i: int| 0 <= i < id.len() ==> 0x21 <= #[trigger] id[i] <= 0x7e)
        by {
        if !all_graphic(id) {
            let i = choose|i: int| 0 <= i < id.len() && !is_graphic(#[trigger] id[i]);
            assert(!(0x21 <= id[i] <= 0x7e));
        } else {
            assert forall|i: int| 0 <= i < id.len() implies 0x21 <= #[trigger] id[i] <= 0x7e by {
                assert(is_graphic(id[i]));
            }
        }
    }
}

/// The name of a log is sound exactly where it has 1 to `max` bytes, all of
/// them letters, figures, dots, underscores or hyphens, begins with a letter
/// or a figure, and has no two dots in a row.
pub proof fn law_sound_log_names(s: Seq<u8>, max: usize)
    ensures
        log_name_fault(s, max) is None <==> {
            &&& 1 <= s.len() <= max
            &&& s[0] != 0x2e && s[0] != 0x5f && s[0] != 0x2d
            &&& forall|i: int|
                0 <= i < s.len() ==> {
                    let b = #[trigger] s[i];
                    (0x30 <= b <= 0x39) || (0x41 <= b <= 0x5a) || (0x61 <= b <= 0x7a) || b == 0x2e
                        || b == 0x5f || b == 0x2d
                }
            &&& forall|i: int| 0 < i < s.len() && #[trigger] s[i] == 0x2e ==> s[i - 1] != 0x2e
        },
{
    if log_name_fault(s, max) is None {
        assert forall|i: int| 0 < i < s.len() && #[trigger] s[i] == 0x2e implies s[i - 1] != 0x2e by {
            assert(!(s[i - 1] == 0x2e && s[i - 1 + 1] == 0x2e));
        }
        assert forall|i: int| 0 <= i < s.len() implies name_byte(#[trigger] s[i]) by {}
    } else if 1 <= s.len() <= max {
        if has_path(s) {
            if exists|i: int| 0 <= i < s.len() && path_byte(#[trigger] s[i]) {
                let i = choose|i: int| 0 <= i < s.len() && path_byte(#[trigger] s[i]);
                assert(s[i] == 0x2f || s[i] == 0x5c || s[i] == 0);
            } else {
                let i = choose|i: int|
                    0 <= i < s.len() - 1 && #[trigger] s[i] == 0x2e && s[i + 1] == 0x2e;
                assert(s[i + 1] == 0x2e && s[i + 1 - 1] == 0x2e);
            }
        } else if is_alphanumeric(s[0]) {
            let i = choose|i: int| 0 <= i < s.len() && !name_byte(#[trigger] s[i]);
            assert(!name_byte(s[i]));
        }
    }
}

/// A payload is any number of bytes but none, in hexadecimal; a key is one of
/// up to 512 bytes that keeps to its limit; a bound is one that is not zero
/// and keeps to its limit.
pub proof fn law_sound_parts(s: Seq<u8>, max_hex_len: usize, name: Seq<char>, value: u64, max: u64)
    ensures
        payload_fault(s) is None <==> s.len() > 0 && is_hex(s),
        key_fault(s, max_hex_len) is None <==> 0 < s.len() <= max_hex_len && s.len() <= 1024
            && is_hex(s),
        over_limit(name, Some(value), max) is None <==> 1 <= value <= max,
        over_limit(name, None, max) is None,
{
}

} // verus!
