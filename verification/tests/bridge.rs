//! The bridge: frames, requests, answers and the registry of logs.
use comb::bridge::errors::{append_error, lease_error, open_error, read_error};
use comb::bridge::handler::{
    append_response, close_report, feed_call, head_response, hello, interrupted, mint_writer,
    page_response, read_timed_out, Bridge, BridgeFault, FeedCall, Release, MAX_OPEN_LOGS,
};
use comb::bridge::limits::Limits;
use comb::bridge::protocol::{
    extract_id, parse_cursor, parse_decimal_u64, parse_request, seq_string, validate_id,
    validate_log_name, ErrorCode, OkBody, Request, Response,
};
use comb::bridge::stdio::{
    cap_stdout_frame, oversized_response, peek_id, shutdown_report, take_on, FrameRead, FrameReader,
};
use comb::digest::DigestKey;
use comb::feed::{
    read_page, CompleteFeedHead, Cursor, InvalidReadLimit, LogEvent, LogIntegrityError, OpenLogError,
    PageStep, Position, ReadError, ReadPage,
};
use comb::log::{AppendRange, StableAppendReceipt};
use comb::session::{LeaseError, SessionLoss, StableAppendError};
use comb::table::Table;
use comb::time::{Span, Timestamp};

/// Reads one frame from what is left of `input`, in pieces of `capacity`
/// bytes.
fn read_jsonl_frame(input: &mut &[u8], capacity: usize, limit: usize) -> FrameRead {
    let mut reader = FrameReader::new(limit);
    loop {
        let piece = &input[..input.len().min(capacity)];
        if piece.is_empty() {
            return reader.finish();
        }
        let (used, frame) = reader.fill(piece);
        *input = &input[used..];
        if let Some(frame) = frame {
            return frame;
        }
    }
}

#[test]
fn framing_preserves_boundaries_across_reader_capacities() {
    let cases: &[(&[u8], usize, &[Option<&[u8]>])] = &[
        (b"", 1, &[]),
        (b"x\n", 1, &[Some(b"x")]),
        (b"x\r\n", 2, &[Some(b"x")]),
        (b"x\r", 2, &[Some(b"x")]),
        (b"x\r\n", 1, &[None]),
        (b"x\r", 1, &[None]),
        (b"\n\nz", 1, &[Some(b""), Some(b""), Some(b"z")]),
        (b"abc\nx\n", 2, &[None, Some(b"x")]),
    ];
    for capacity in [1, 2, 3, 7, 8192] {
        for &(input, limit, expected) in cases {
            let mut rest = input;
            for wanted in expected {
                match (read_jsonl_frame(&mut rest, capacity, limit), wanted) {
                    (FrameRead::Line(actual), Some(wanted)) => assert_eq!(&actual, wanted),
                    (FrameRead::Oversized { id }, None) => assert!(id.is_empty()),
                    (actual, wanted) => {
                        panic!("capacity={capacity} limit={limit}: {actual:?} != {wanted:?}")
                    }
                }
            }
            assert!(matches!(read_jsonl_frame(&mut rest, capacity, limit), FrameRead::Eof));
        }
    }
}

#[test]
fn drain_stops_at_newline_and_keeps_next_frame() {
    let mut data = Vec::from(&b"{\"v\":1,\"id\":\"big\",\"op\":\"hello\",\"pad\":\""[..]);
    data.extend(std::iter::repeat(b'a').take(80));
    data.extend_from_slice(br#""}"#);
    data.push(b'\n');
    data.extend_from_slice(br#"{"v":1,"id":"h","op":"hello"}"#);
    data.push(b'\n');
    let mut rest = data.as_slice();
    match read_jsonl_frame(&mut rest, 8192, 32) {
        FrameRead::Oversized { id } => assert_eq!(id, "big"),
        other => panic!("expected oversized, got {other:?}"),
    }
    match read_jsonl_frame(&mut rest, 8192, 1024) {
        FrameRead::Line(line) => assert_eq!(line, br#"{"v":1,"id":"h","op":"hello"}"#),
        other => panic!("expected hello line, got {other:?}"),
    }
}

fn code(r: &Response) -> ErrorCode {
    match r {
        Response::Failure { error, .. } => error.code,
        Response::Success { .. } => panic!("a success: {r:?}"),
    }
}

fn message(r: &Response) -> &str {
    match r {
        Response::Failure { error, .. } => &error.message,
        Response::Success { .. } => panic!("a success: {r:?}"),
    }
}

#[test]
fn saturated_admission_preserves_valid_and_invalid_request_ids() {
    let limits = Limits { max_concurrent_requests: 1, ..Default::default() };
    let input: &[u8] = b"{\"v\":1,\"id\":\"first\",\"op\":\"hello\"}\n{\"v\":1,\"id\":\"next\",\"op\":\"hello\"}\n{\"v\":1,\"id\":\"bad-op\",\"op\":\"unknown\"}\n{broken\n";
    let mut rest = input;
    let mut under_way = 0;
    let mut frames = Vec::new();
    loop {
        match read_jsonl_frame(&mut rest, 8192, limits.max_frame_bytes) {
            FrameRead::Eof => break,
            FrameRead::Oversized { .. } => unreachable!(),
            FrameRead::Line(line) => match take_on(under_way, &line, &limits) {
                Ok(()) => {
                    under_way += 1;
                    match parse_request(&line, &limits) {
                        Ok(Request::Hello { id, require }) => {
                            frames.push(hello(&limits, &id, &require))
                        }
                        other => panic!("{other:?}"),
                    }
                }
                Err(busy) => frames.push(busy),
            },
        }
    }
    assert_eq!(frames.len(), 4);
    assert!(matches!(frames.iter().find(|f| f.id() == "first").unwrap(),
        Response::Success { ok: true, .. }));
    for id in ["next", "bad-op", ""] {
        let frame = frames.iter().find(|f| f.id() == id).unwrap();
        assert_eq!(code(frame), ErrorCode::Busy);
    }
}

#[test]
fn empty_slot_waiters_keep_one_identity_until_the_last_guard_drops() {
    let mut bridge = Bridge::new("cleanup", 30, Limits::default()).unwrap();
    let mut last = None;
    for _ in 0..32 {
        let first = bridge.enter("a", "doc").unwrap();
        let waiter = bridge.enter("b", "doc").unwrap();
        assert_eq!(first, waiter);
        bridge.leave("doc", first);
        let third = bridge.enter("c", "doc").unwrap();
        assert_eq!(waiter, third);
        bridge.leave("doc", waiter);
        bridge.leave("doc", third);
        // The last of them took the slot away: the next one is another.
        assert_ne!(Some(third), last);
        last = Some(third);
    }
    assert!(bridge.begin_close().is_empty());
}

#[test]
fn an_opened_slot_stays_and_a_foreign_guard_does_not_touch_it() {
    let mut bridge = Bridge::new("w", 30, Limits::default()).unwrap();
    let a = bridge.enter("a", "doc").unwrap();
    bridge.opened("doc", a);
    bridge.leave("doc", a);
    assert_eq!(bridge.enter("b", "doc").unwrap(), a);
    bridge.leave("doc", a + 1);
    let closing = bridge.begin_close();
    assert_eq!(closing.len(), 1);
    assert!(closing[0].retained && closing[0].opened);
    assert_eq!(closing[0].log, "doc");
    let refused = bridge.enter("c", "doc").unwrap_err();
    assert_eq!(code(&refused), ErrorCode::Cancelled);
    assert_eq!(message(&refused), "bridge is closing");
}

#[test]
fn the_registry_is_bounded() {
    let mut bridge = Bridge::new("w", 30, Limits::default()).unwrap();
    for i in 0..MAX_OPEN_LOGS {
        bridge.enter("a", &format!("log{i}")).unwrap();
    }
    let full = bridge.enter("a", "one-more").unwrap_err();
    assert_eq!(code(&full), ErrorCode::Busy);
    assert_eq!(message(&full), "process has reached its 256-log limit");
    assert!(bridge.enter("a", "log7").is_ok());
    bridge.abort();
    assert!(bridge.begin_close().is_empty());
}

#[test]
fn bridge_settings() {
    let b = Bridge::new("writer", 60, Limits::default()).unwrap();
    assert_eq!(b.label(), "writer");
    assert_eq!(b.policy().ttl, Span::from_secs(60));
    assert_eq!(b.policy().renew_every, Span::from_secs(20));
    assert_eq!(b.policy().clock_slack, Span::from_secs(10));
    assert_eq!(b.policy().initial_acquire_budget, Span::from_secs(90));
    assert_eq!(b.request_budget(), Some(Span::from_secs(105)));
    assert_eq!(Bridge::new("", 60, Limits::default()).unwrap_err(), BridgeFault::Writer);
    assert_eq!(Bridge::new(&"x".repeat(65), 60, Limits::default()).unwrap_err(), BridgeFault::Writer);
    assert_eq!(Bridge::new("w", 2, Limits::default()).unwrap_err(), BridgeFault::Lease);
    assert_eq!(Bridge::new("w", 601, Limits::default()).unwrap_err().message(),
        "--lease must be between 3 and 600 seconds");
    assert!(mint_writer().starts_with("comb-bridge-"));
    assert_eq!(mint_writer().len(), 12 + 32);
    assert_ne!(mint_writer(), mint_writer());
}

fn parse(text: &str) -> Result<Request, Response> {
    parse_request(text.as_bytes(), &Limits::default())
}

fn refusal(text: &str) -> (String, String) {
    let r = parse(text).unwrap_err();
    (r.id().to_owned(), message(&r).to_owned())
}

#[test]
fn requests_are_read() {
    match parse(r#"{"v":1,"id":"a","op":"append","log":"doc","idempotency_key":"0A","payload_hex":"00FF"}"#) {
        Ok(Request::Append { id, log, idempotency_key, payload_hex, payload }) => {
            assert_eq!((id.as_str(), log.as_str()), ("a", "doc"));
            assert_eq!(idempotency_key, "0a");
            assert_eq!(payload_hex, "00ff");
            assert_eq!(payload, vec![0, 255]);
        }
        other => panic!("{other:?}"),
    }
    match parse("{\"v\":1,\"id\":\"f\",\"op\":\"follow\",\"log\":\"doc\",\"cursor\":\"7\",\"timeout_ms\":5,\"max_events\":2}\r\n") {
        Ok(Request::Follow { cursor: 7, timeout_ms: Some(5), max_events: Some(2), max_bytes: None, .. }) => {}
        other => panic!("{other:?}"),
    }
    assert!(matches!(parse(r#"{"v":1,"id":"h","op":"head","log":"doc"}"#), Ok(Request::Head { .. })));
    assert!(matches!(parse(r#"{"v":1,"id":"h","op":"hello","require":["payload_hex"]}"#),
        Ok(Request::Hello { .. })));
    assert!(matches!(parse(r#"{"v":1,"id":"r","op":"read","log":"doc","cursor":"1"}"#),
        Ok(Request::Read { cursor: 1, .. })));
}

#[test]
fn requests_are_refused() {
    let say = |id: &str, m: &str| (id.to_owned(), m.to_owned());
    assert_eq!(refusal(""), say("", "empty request"));
    assert_eq!(refusal("[]"), say("", "request must be a json object"));
    assert_eq!(refusal("{}"), say("", "missing id"));
    assert_eq!(refusal(r#"{"id":1}"#), say("", "id must be a string"));
    assert_eq!(refusal(r#"{"id":"a"}"#), say("a", "missing v"));
    assert_eq!(refusal(r#"{"id":"a","v":"1"}"#), say("a", "v must be a protocol version integer"));
    assert_eq!(refusal(r#"{"id":"a","v":2}"#),
        say("a", "unsupported protocol version 2; this process speaks v1"));
    assert_eq!(refusal(r#"{"id":"a","v":1}"#), say("a", "missing op"));
    assert_eq!(refusal(r#"{"id":"a","v":1,"op":"x"}"#), say("a", "unknown op x"));
    assert_eq!(refusal(r#"{"id":"a","v":1,"op":"head"}"#), say("a", "missing log"));
    assert_eq!(refusal(r#"{"id":"a","v":1,"op":"read","log":"d"}"#), say("a", "missing cursor"));
    assert_eq!(refusal(r#"{"id":"a","v":1,"op":"read","log":"d","cursor":"0"}"#),
        say("a", "cursor is the next sequence and must be at least 1"));
    assert_eq!(refusal(r#"{"id":"a","v":1,"op":"read","log":"d","cursor":"01"}"#),
        say("a", "cursor must not have leading zeros"));
    assert_eq!(refusal(r#"{"id":"a","v":1,"op":"read","log":"d","cursor":"1","max_events":0}"#),
        say("a", "max_events must be greater than zero"));
    assert_eq!(refusal(r#"{"id":"a","v":1,"op":"read","log":"d","cursor":"1","max_events":257}"#),
        say("a", "max_events 257 exceeds limit 256"));
    assert_eq!(refusal(r#"{"id":"a","v":1,"op":"read","log":"d","cursor":"1","max_bytes":-1}"#),
        say("a", "max_bytes must be a non-negative integer"));
    assert_eq!(refusal(r#"{"id":"a","v":1,"op":"follow","log":"d","cursor":"1","timeout_ms":30001}"#),
        say("a", "timeout_ms exceeds limit"));
    assert_eq!(refusal(r#"{"id":"a","v":1,"op":"append","events":[]}"#),
        say("a", "append events arrays are not supported; send one payload_hex"));
    assert_eq!(refusal(r#"{"id":"a","v":1,"op":"hello","require":[1]}"#),
        say("a", "require must be an array of strings"));
    assert_eq!(refusal(r#"{"id":"a","v":1} x"#), say("a", "trailing data after json object"));
    let (id, m) = refusal(r#"{"id":"a","v":"#);
    assert_eq!(id, "a");
    assert!(m.starts_with("malformed json: "), "{m}");
    assert_eq!(message(&parse_request(&[0xff], &Limits::default()).unwrap_err()), "request is not utf-8");
}

#[test]
fn ids_are_found_in_broken_frames() {
    assert_eq!(extract_id(br#"{"v":1,"id":"x"}"#), "x");
    assert_eq!(extract_id(br#"{"v":1, "id" : "cut off", "pad":"aaa"#), "cut off");
    assert_eq!(extract_id("{\"id\"\u{2003}:\u{a0}\"spaced\"".as_bytes()), "spaced");
    assert_eq!(extract_id(br#"{"id":7,"#), "");
    assert_eq!(extract_id(br#"{"id":"open"#), "");
    assert_eq!(extract_id(br#"{"id" "id":"second"#), "");
    assert_eq!(extract_id(b"nothing"), "");
    assert_eq!(peek_id(br#"{"id":"p","v":9}"#, &Limits::default()), "p");
}

#[test]
fn numbers_and_names_of_the_wire() {
    assert_eq!(parse_decimal_u64("18446744073709551615"), Ok(u64::MAX));
    assert_eq!(parse_decimal_u64("18446744073709551616"), Err("exceeds u64".to_owned()));
    assert_eq!(parse_decimal_u64(""), Err("must be a decimal string".to_owned()));
    assert_eq!(parse_decimal_u64("1x"), Err("must be a decimal string".to_owned()));
    assert_eq!(parse_cursor("12"), Ok(12));
    assert_eq!(seq_string(u64::MAX), "18446744073709551615");
    assert!(validate_id("ok", 128).is_ok());
    assert!(validate_id("", 128).is_err());
    assert!(validate_id(&"x".repeat(129), 128).is_err());
    assert!(validate_log_name("doc-a_c.1", 128).is_ok());
    for bad in ["", "a b", "a/../b", "../x"] {
        assert!(validate_log_name(bad, 128).is_err(), "{bad}");
    }
}

#[test]
fn greetings_are_answered() {
    let limits = Limits::default();
    match hello(&limits, "h", &vec!["durable_idempotency".to_owned()]) {
        Response::Success { op, body: OkBody::Hello { protocol: 1, capabilities, limits: l }, .. } => {
            assert_eq!(op, "hello");
            assert_eq!(capabilities.ops, vec!["hello", "append", "head", "read", "follow"]);
            assert_eq!(l.max_frame_bytes, 1_048_576);
            assert_eq!(l.max_read_events, 256);
        }
        other => panic!("{other:?}"),
    }
    let no = hello(&limits, "h", &vec!["payload_hex".to_owned(), "time_travel".to_owned()]);
    assert_eq!(code(&no), ErrorCode::Unsupported);
    assert_eq!(message(&no), "capability time_travel is not available");
}

#[test]
fn requests_become_calls() {
    let limits = Limits::default();
    let call = |text: &str| feed_call(&limits, &parse(text).unwrap());
    assert!(matches!(call(r#"{"v":1,"id":"h","op":"head","log":"d"}"#), FeedCall::Head));
    match call(r#"{"v":1,"id":"a","op":"append","log":"d","idempotency_key":"01","payload_hex":"00"}"#) {
        FeedCall::Append { key, payload } => {
            assert_eq!(key.as_bytes(), &[1]);
            assert_eq!(payload, vec![0]);
        }
        other => panic!("{other:?}"),
    }
    match call(r#"{"v":1,"id":"r","op":"read","log":"d","cursor":"3"}"#) {
        FeedCall::Read { cursor, limits: l, follow } => {
            assert_eq!(cursor, Cursor { partition: 0, next_seq: 3 });
            assert_eq!((l.max_events(), l.max_raw_bytes()), (256, 524_288));
            assert!(!follow);
        }
        other => panic!("{other:?}"),
    }
    match call(r#"{"v":1,"id":"r","op":"read","log":"d","cursor":"3","max_events":256,"max_bytes":1048576}"#) {
        FeedCall::Read { limits: l, .. } => {
            assert_eq!((l.max_events(), l.max_raw_bytes()), (256, 524_288));
        }
        other => panic!("{other:?}"),
    }
    match call(r#"{"v":1,"id":"r","op":"read","log":"d","cursor":"3","max_events":7,"max_bytes":10}"#) {
        FeedCall::Read { limits: l, .. } => {
            assert_eq!((l.max_events(), l.max_raw_bytes()), (7, 10));
        }
        other => panic!("{other:?}"),
    }
    let none = Limits { max_read_bytes: 0, ..Limits::default() };
    match feed_call(&none, &parse(r#"{"v":1,"id":"r","op":"read","log":"d","cursor":"3"}"#).unwrap()) {
        FeedCall::Reply(r) => assert_eq!(message(&r), "invalid page limits"),
        other => panic!("{other:?}"),
    }
    match call(r#"{"v":1,"id":"r","op":"follow","log":"d","cursor":"3","max_bytes":10}"#) {
        FeedCall::Read { follow: true, .. } => {}
        other => panic!("{other:?}"),
    }
    match call(r#"{"v":1,"id":"r","op":"follow","log":"d","cursor":"3","max_bytes":10,"timeout_ms":250}"#) {
        FeedCall::Follow { wait, .. } => assert_eq!(wait.span(), Span::from_millis(250)),
        other => panic!("{other:?}"),
    }
}

fn page(events: Vec<LogEvent>, next: u64, at_head: bool) -> ReadPage {
    ReadPage {
        events,
        next: Cursor { partition: 0, next_seq: next },
        snapshot_head: next - 1,
        raw_payload_bytes: 0,
        at_head,
    }
}

#[test]
fn answers_read_as_they_should() {
    let at = Timestamp::epoch();
    let event = LogEvent { position: Position { partition: 0, seq: 4 }, committed_at: at, payload: vec![0xab] };
    let p = page(vec![event], 5, true);
    assert_eq!(read_timed_out(&p, true), Some(false));
    assert_eq!(read_timed_out(&page(vec![], 5, true), true), Some(true));
    assert_eq!(read_timed_out(&page(vec![], 5, false), true), Some(false));
    assert_eq!(read_timed_out(&p, false), None);
    match page_response("r", "doc", &p, None) {
        Response::Success { op, body: OkBody::Page { log, events, next_cursor, at_head, timed_out }, .. } => {
            assert_eq!((op.as_str(), log.as_str(), next_cursor.as_str()), ("read", "doc", "5"));
            assert_eq!(events[0].seq, "4");
            assert_eq!(events[0].payload_hex, "ab");
            assert_eq!(events[0].at, at.to_rfc3339());
            assert!(at_head && timed_out.is_none());
        }
        other => panic!("{other:?}"),
    }
    match head_response("h", "doc", Ok(CompleteFeedHead {
        generation: 9,
        head_seq: 3,
        next: Cursor { partition: 0, next_seq: 4 },
        trim_before_seq: 0,
    })) {
        Response::Success { body: OkBody::Head { head, cursor, trim_before, .. }, .. } => {
            assert_eq!((head.as_str(), cursor.as_str(), trim_before.as_str()), ("3", "4", "0"))
        }
        other => panic!("{other:?}"),
    }
    let receipt = |last: u64| StableAppendReceipt {
        payload_hash: DigestKey::from_bytes([1; 32]).digest(b""),
        range: AppendRange { first: last, last },
        generation: 1,
    };
    match append_response("a", "doc", Ok(receipt(7))) {
        Response::Success { body: OkBody::Append { first, last, cursor, .. }, .. } => {
            assert_eq!((first.as_str(), last.as_str(), cursor.as_str()), ("7", "7", "8"))
        }
        other => panic!("{other:?}"),
    }
    let full = append_response("a", "doc", Ok(receipt(u64::MAX)));
    assert_eq!(code(&full), ErrorCode::Integrity);
    assert_eq!(message(&full), "append receipt has no next cursor");
    assert!(interrupted("x", false, false, false).is_none());
    assert_eq!(message(&interrupted("x", true, true, true).unwrap()), "bridge is closing");
    assert_eq!(message(&interrupted("x", false, true, true).unwrap()), "request cancelled");
    assert_eq!(message(&interrupted("x", false, false, true).unwrap()), "request deadline exceeded");
}

#[test]
fn errors_become_codes() {
    let bad = || LogIntegrityError("x".to_owned());
    assert_eq!(code(&open_error("i", OpenLogError::Integrity(bad()))), ErrorCode::Integrity);
    assert_eq!(code(&open_error("i", OpenLogError::Unavailable)), ErrorCode::BackendUnavailable);
    assert_eq!(code(&open_error("i", OpenLogError::DeadlineExceeded)), ErrorCode::DeadlineExceeded);
    assert_eq!(code(&open_error("i", OpenLogError::Cancelled)), ErrorCode::Cancelled);
    match open_error("i", OpenLogError::UnsupportedManifestSchema { found: "v2".to_owned(), required: "v3" }) {
        Response::Failure { error, .. } => {
            assert_eq!(error.code, ErrorCode::Unsupported);
            assert_eq!(error.capability.as_deref(), Some("v3_complete_feed"));
        }
        other => panic!("{other:?}"),
    }
    let at = |n: u64| Cursor { partition: 0, next_seq: n };
    match read_error("i", ReadError::Trimmed { requested: at(1), resume_at: at(9) }) {
        Response::Failure { error, .. } => {
            assert_eq!(error.code, ErrorCode::Trimmed);
            assert_eq!(error.resume_at.as_deref(), Some("9"));
        }
        other => panic!("{other:?}"),
    }
    match read_error("i", ReadError::EventTooLarge {
        cursor: at(2),
        position: Position { partition: 0, seq: 2 },
        event_bytes: 11,
        max_bytes: 10,
    }) {
        Response::Failure { error, .. } => {
            assert_eq!(error.code, ErrorCode::EventTooLarge);
            assert_eq!(error.seq.as_deref(), Some("2"));
            assert_eq!(error.event_bytes.as_deref(), Some("11"));
            assert_eq!(error.max_bytes.as_deref(), Some("10"));
        }
        other => panic!("{other:?}"),
    }
    assert_eq!(code(&read_error("i", ReadError::InvalidLimit(InvalidReadLimit))), ErrorCode::InvalidRequest);
    assert_eq!(code(&lease_error("i", LeaseError::Fenced { session_epoch: 1, live_epoch: 2 })), ErrorCode::Fenced);
    assert_eq!(
        message(&lease_error("i", LeaseError::ReacquireRequired { cause: SessionLoss::LeaseExpired })),
        "session lost: lease expired; start a new publisher session"
    );
    let d = DigestKey::from_bytes([1; 32]).digest(b"");
    assert_eq!(code(&append_error("i", StableAppendError::StableKeyConflict { existing: d, supplied: d })),
        ErrorCode::Conflict);
    assert_eq!(code(&append_error("i", StableAppendError::Lease(LeaseError::Unavailable))),
        ErrorCode::BackendUnavailable);
    assert_eq!(message(&append_error("i", StableAppendError::Unavailable)),
        "append outcome may be committed; retry the same key and bytes");
    assert_eq!(code(&append_error("i", StableAppendError::InvalidInput)), ErrorCode::InvalidRequest);
}

fn render(r: &Response) -> String {
    match r {
        Response::Failure { id, error, .. } => format!("{id}:{}", error.message),
        Response::Success { id, .. } => id.clone(),
    }
}

#[test]
fn long_answers_are_replaced() {
    let line = r#"{"v":1,"id":"abc","ok":true,"pad":"xxxxxxxxxxxxxxxxxxxxxxxxxxxxxxxxxxxxxxxxxxxxx"}"#;
    let cap = |n: usize| cap_stdout_frame(line.to_owned(), n, 128, render);
    assert_eq!(cap(line.len()).unwrap(), line);
    assert_eq!(cap(60).unwrap(), "abc:response frame exceeds max_frame_bytes");
    assert_eq!(cap(35).unwrap(), ":response exceeds frame limit");
    assert_eq!(cap(10), Err("frame limit cannot contain a protocol error"));
    assert_eq!(message(&oversized_response("i")), "request frame exceeds max_frame_bytes");
}

#[test]
fn reports_of_a_shutdown() {
    assert_eq!(close_report(&vec![("a".to_owned(), Release::Released)]), Ok(()));
    assert_eq!(
        close_report(&vec![
            ("retained".to_owned(), Release::Retained),
            ("healthy".to_owned(), Release::Released),
            ("slow".to_owned(), Release::TimedOut),
            ("broken".to_owned(), Release::TaskFailed),
            ("lost".to_owned(), Release::Failed("why".to_owned())),
        ]),
        Err("publisher cleanup: broken: release task failed; release uncertain; healthy: released; lost: release uncertain: why; retained: requests remain; release uncertain; slow: publisher release deadline exceeded; release uncertain".to_owned())
    );
    assert_eq!(shutdown_report(&vec![]), Ok(()));
    assert_eq!(shutdown_report(&vec!["a".to_owned(), "b".to_owned()]), Err("bridge shutdown: a; b".to_owned()));
}

#[test]
fn an_empty_feed_is_read_without_limits() {
    let request = parse(r#"{"v":1,"id":"r","op":"read","log":"d","cursor":"1"}"#).unwrap();
    let (cursor, limits) = match feed_call(&Limits::default(), &request) {
        FeedCall::Read { cursor, limits, follow: false } => (cursor, limits),
        other => panic!("{other:?}"),
    };
    let page = match read_page(None, cursor, limits, &Table::new(), &Table::new()).unwrap() {
        PageStep::Done(page) => page,
        other => panic!("{other:?}"),
    };
    match page_response("r", "d", &page, read_timed_out(&page, false)) {
        Response::Success { op, body: OkBody::Page { log, events, next_cursor, at_head, timed_out }, .. } => {
            assert_eq!((op.as_str(), log.as_str(), next_cursor.as_str()), ("read", "d", "1"));
            assert!(events.is_empty() && at_head && timed_out.is_none());
        }
        other => panic!("{other:?}"),
    }
}
