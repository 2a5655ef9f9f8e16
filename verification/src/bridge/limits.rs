//! Hard limits, advertised on hello and enforced on every request.
use vstd::prelude::*;

verus! {

/// `max_frame_bytes` is the size of an encoded line, request or response;
/// `max_append_bytes` and `max_read_bytes` are sizes of decoded payloads.
#[derive(Clone, Copy, Debug, PartialEq, Eq, Structural)]
pub struct Limits {
    pub max_frame_bytes: usize,
    pub max_concurrent_requests: usize,
    pub max_queued_output: usize,
    pub max_append_events: usize,
    pub max_append_bytes: usize,
    pub max_read_events: usize,
    pub max_read_bytes: usize,
    pub max_follow_timeout_ms: u64,
    pub max_log_name_len: usize,
    pub max_id_len: usize,
    pub max_idempotency_key_len: usize,
    pub poll_interval_ms: u64,
}

/// The limits as they are advertised.
#[derive(Clone, Copy, Debug, PartialEq, Eq, Structural)]
pub struct LimitsView {
    pub max_frame_bytes: u64,
    pub max_concurrent_requests: u64,
    pub max_queued_output: u64,
    pub max_append_events: u64,
    pub max_append_bytes: u64,
    pub max_read_events: u64,
    pub max_read_bytes: u64,
    pub max_follow_timeout_ms: u64,
    pub max_log_name_len: u64,
    pub max_id_len: u64,
    pub max_idempotency_key_len: u64,
}

impl Default for Limits {
    fn default() -> (r: Self)
        ensures
            r == (Limits {
                max_frame_bytes: 1_048_576,
                max_concurrent_requests: 32,
                max_queued_output: 64,
                max_append_events: 1,
                max_append_bytes: 1_048_576,
                max_read_events: 256,
                max_read_bytes: 1_048_576,
                max_follow_timeout_ms: 30_000,
                max_log_name_len: 128,
                max_id_len: 128,
                max_idempotency_key_len: 1024,
                poll_interval_ms: 250,
            }),
    {
        Limits {
            max_frame_bytes: 1_048_576,
            max_concurrent_requests: 32,
            max_queued_output: 64,
            max_append_events: 1,
            max_append_bytes: 1_048_576,
            max_read_events: 256,
            max_read_bytes: 1_048_576,
            max_follow_timeout_ms: 30_000,
            max_log_name_len: 128,
            max_id_len: 128,
            max_idempotency_key_len: 1024,
            poll_interval_ms: 250,
        }
    }
}

/// Whether limits are shown as they are.
pub open spec fn shows(r: LimitsView, l: Limits) -> bool {
    &&& r.max_frame_bytes == l.max_frame_bytes
    &&& r.max_concurrent_requests == l.max_concurrent_requests
    &&& r.max_queued_output == l.max_queued_output
    &&& r.max_append_events == l.max_append_events
    &&& r.max_append_bytes == l.max_append_bytes
    &&& r.max_read_events == l.max_read_events
    &&& r.max_read_bytes == l.max_read_bytes
    &&& r.max_follow_timeout_ms == l.max_follow_timeout_ms
    &&& r.max_log_name_len == l.max_log_name_len
    &&& r.max_id_len == l.max_id_len
    &&& r.max_idempotency_key_len == l.max_idempotency_key_len
}

impl Limits {
    /// The limits as they are advertised.
    pub fn view(&self) -> (r: LimitsView)
        ensures
            shows(r, *self),
    {
        LimitsView {
            max_frame_bytes: self.max_frame_bytes as u64,
            max_concurrent_requests: self.max_concurrent_requests as u64,
            max_queued_output: self.max_queued_output as u64,
            max_append_events: self.max_append_events as u64,
            max_append_bytes: self.max_append_bytes as u64,
            max_read_events: self.max_read_events as u64,
            max_read_bytes: self.max_read_bytes as u64,
            max_follow_timeout_ms: self.max_follow_timeout_ms,
            max_log_name_len: self.max_log_name_len as u64,
            max_id_len: self.max_id_len as u64,
            max_idempotency_key_len: self.max_idempotency_key_len as u64,
        }
    }
}

} // verus!
