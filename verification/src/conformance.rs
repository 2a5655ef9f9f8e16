//! What a backend has to do to be trusted. Each check is a verdict on the
//! answers that the backend gave; the backend in memory passes them all.
use vstd::prelude::*;
use vstd::utf8::{is_ascii_chars, is_ascii_chars_encode_utf8};

use crate::bytes::same_bytes;
use crate::error::{CoreError, ErrorView, Result};
use crate::foreign::{quote, quoted};
use crate::object::{stale_text, MemoryBackend, Version};
use crate::text::{
    decimal, decimal_text, join2, join3, join4, join5, join_texts, joined, same_text, text_views,
};

verus! {

/// How many writers race for one version.
pub const RACERS: usize = 8;

#[derive(Debug)]
pub struct CheckResult {
    pub name: &'static str,
    pub passed: bool,
    pub detail: String,
}

/// Whether a result is that of the named check, with the given verdict and
/// detail.
pub open spec fn judged(
    r: CheckResult,
    name: Seq<char>,
    passed: bool,
    detail: Seq<char>,
) -> bool {
    r.name@ == name && r.passed == passed && r.detail@ == detail
}

/// How an answer is shown, where `ok` stands for what came of it.
pub open spec fn shown<T>(r: Result<T>, ok: Seq<char>) -> Seq<char> {
    match r {
        Ok(_) => "Ok("@ + ok + ")"@,
        Err(e) => "Err("@ + e@.shown() + ")"@,
    }
}

fn show<T>(r: &Result<T>, ok: &str) -> (s: String)
    ensures
        s@ == shown(*r, ok@),
{
    match r {
        Ok(_) => join3("Ok(", ok, ")"),
        Err(e) => join3("Err(", &e.show(), ")"),
    }
}

/// How a write is shown that should have been refused.
pub open spec fn refused_shown(r: Result<Version>) -> Seq<char> {
    shown(r, "\"ACCEPTED (bad)\""@)
}

/// How the answer to a question is shown.
pub open spec fn bool_shown(b: bool) -> Seq<char> {
    if b {
        "true"@
    } else {
        "false"@
    }
}

pub open spec fn told_shown(r: Result<bool>) -> Seq<char> {
    shown(r, bool_shown(r->Ok_0))
}

fn show_bool(b: bool) -> (s: &'static str)
    ensures
        s@ == bool_shown(b),
{
    if b {
        "true"
    } else {
        "false"
    }
}

fn show_told(r: &Result<bool>) -> (s: String)
    ensures
        s@ == told_shown(*r),
{
    match r {
        Ok(b) => show(r, show_bool(*b)),
        Err(_) => show(r, ""),
    }
}

/// How bytes are shown.
pub open spec fn bytes_shown(b: Seq<u8>) -> Seq<char> {
    "["@ + joined(b.map_values(|x: u8| decimal(x as nat)), ", "@) + "]"@
}

fn show_bytes(b: &Vec<u8>) -> (s: String)
    ensures
        s@ == bytes_shown(b@),
{
    let mut texts: Vec<String> = Vec::new();
    let mut i: usize = 0;
    while i < b.len()
        invariant
            i <= b@.len(),
            texts@.len() == i,
            forall|j: int| 0 <= j < i ==> (#[trigger] texts@[j])@ == decimal(b@[j] as nat),
        decreases b@.len() - i,
    {
        texts.push(decimal_text(b[i] as u64));
        i = i + 1;
    }
    assert(text_views(texts@) =~= b@.map_values(|x: u8| decimal(x as nat)));
    join3("[", &join_texts(&texts, ", "), "]")
}

/// How what was read is shown.
pub open spec fn object_shown(r: Result<(Vec<u8>, Version)>) -> Seq<char> {
    match r {
        Ok(p) => "Ok(("@ + bytes_shown(p.0@) + ", Version("@ + quoted(p.1@) + ")))"@,
        Err(e) => "Err("@ + e@.shown() + ")"@,
    }
}

fn show_object(r: &Result<(Vec<u8>, Version)>) -> (s: String)
    ensures
        s@ == object_shown(*r),
{
    match r {
        Ok(p) => join5("Ok((", &show_bytes(&p.0), ", Version(", &quote(&p.1.0), ")))"),
        Err(e) => join3("Err(", &e.show(), ")"),
    }
}

/// Whether a read gave the given bytes.
pub open spec fn read_is(r: Result<(Vec<u8>, Version)>, body: Seq<u8>) -> bool {
    r matches Ok(p) && p.0@ == body
}

fn read_gave(r: &Result<(Vec<u8>, Version)>, body: &[u8]) -> (b: bool)
    ensures
        b == read_is(*r, body@),
{
    match r {
        Ok(p) => same_bytes(&p.0, body),
        Err(_) => false,
    }
}

pub open spec fn is_already_exists<T>(r: Result<T>) -> bool {
    r matches Err(e) && e is AlreadyExists
}

pub open spec fn is_precondition_failed<T>(r: Result<T>) -> bool {
    r matches Err(e) && e is PreconditionFailed
}

pub open spec fn is_not_found<T>(r: Result<T>) -> bool {
    r matches Err(e) && e is NotFound
}

fn already_exists<T>(r: &Result<T>) -> (b: bool)
    ensures
        b == is_already_exists(*r),
{
    match r {
        Err(CoreError::AlreadyExists(_)) => true,
        _ => false,
    }
}

fn precondition_failed<T>(r: &Result<T>) -> (b: bool)
    ensures
        b == is_precondition_failed(*r),
{
    match r {
        Err(CoreError::PreconditionFailed(_)) => true,
        _ => false,
    }
}

fn not_found<T>(r: &Result<T>) -> (b: bool)
    ensures
        b == is_not_found(*r),
{
    match r {
        Err(CoreError::NotFound(_)) => true,
        _ => false,
    }
}

/// The first creation wins, the second finds the object.
pub fn create_only(first: &Result<Version>, second: &Result<Version>) -> (r: CheckResult)
    ensures
        r.passed <==> first is Ok && (second matches Err(e) && e is AlreadyExists),
        judged(
            r,
            "create-only enforced"@,
            first is Ok && is_already_exists(*second),
            "first="@ + shown(*first, "\"ok\""@) + " second="@ + shown(*second, "\"ok\""@),
        ),
{
    CheckResult {
        name: "create-only enforced",
        passed: first.is_ok() && already_exists(second),
        detail: join4("first=", &show(first, "\"ok\""), " second=", &show(second, "\"ok\"")),
    }
}

/// What was created is read back at once.
pub fn read_after_write(read: &Result<(Vec<u8>, Version)>, body: &[u8]) -> (r: CheckResult)
    ensures
        r.passed <==> (read matches Ok(p) && p.0@ == body@),
        judged(
            r,
            "read-after-write (create)"@,
            read_is(*read, body@),
            shown(*read, decimal((read->Ok_0).0@.len())),
        ),
{
    let detail: String = match read {
        Ok(p) => show(read, &decimal_text(p.0.len() as u64)),
        Err(_) => show(read, ""),
    };
    CheckResult { name: "read-after-write (create)", passed: read_gave(read, body), detail }
}

/// Whether an update gave another version.
pub open spec fn token_changed(first: Result<Version>, second: Result<Version>) -> bool {
    first matches Ok(a) && second matches Ok(b) && a@ != b@
}

/// The current version lets a write through, and changes with it.
pub fn conditional_update(first: &Result<Version>, second: &Result<Version>) -> (r: CheckResult)
    ensures
        r.passed <==> first is Ok && second is Ok && first->Ok_0@ != second->Ok_0@,
        judged(
            r,
            "conditional update with current version"@,
            token_changed(*first, *second),
            "token_changed="@ + bool_shown(token_changed(*first, *second)),
        ),
{
    let passed: bool = match (first, second) {
        (Ok(a), Ok(b)) => !same_text(&a.0, &b.0),
        _ => false,
    };
    CheckResult {
        name: "conditional update with current version",
        passed,
        detail: join2("token_changed=", show_bool(passed)),
    }
}

/// An earlier version lets no write through, and the object stays.
pub fn stale_rejected(
    write: &Result<Version>,
    content: &Result<(Vec<u8>, Version)>,
    body: &[u8],
) -> (r: CheckResult)
    ensures
        r.passed <==> (write matches Err(e) && e is PreconditionFailed) && (content matches Ok(p)
            && p.0@ == body@),
        judged(
            r,
            "stale version rejected, content intact"@,
            is_precondition_failed(*write) && read_is(*content, body@),
            "rejected="@ + refused_shown(*write),
        ),
{
    CheckResult {
        name: "stale version rejected, content intact",
        passed: precondition_failed(write) && read_gave(content, body),
        detail: join2("rejected=", &show(write, "\"ACCEPTED (bad)\"")),
    }
}

/// A write that expects no object does not replace one.
pub fn create_on_existing_rejected(write: &Result<Version>) -> (r: CheckResult)
    ensures
        r.passed <==> (write matches Err(e) && e is AlreadyExists),
        judged(
            r,
            "conditional create on existing key rejected"@,
            is_already_exists(*write),
            refused_shown(*write),
        ),
{
    CheckResult {
        name: "conditional create on existing key rejected",
        passed: already_exists(write),
        detail: show(write, "\"ACCEPTED (bad)\""),
    }
}

/// A write that expects a version does not create an object.
pub fn update_of_missing_rejected(write: &Result<Version>) -> (r: CheckResult)
    ensures
        r.passed <==> (write matches Err(e) && (e is PreconditionFailed || e is NotFound)),
        judged(
            r,
            "guarded update of missing key rejected"@,
            is_precondition_failed(*write) || is_not_found(*write),
            refused_shown(*write),
        ),
{
    CheckResult {
        name: "guarded update of missing key rejected",
        passed: precondition_failed(write) || not_found(write),
        detail: show(write, "\"ACCEPTED (bad)\""),
    }
}

/// Of the writers that expect one version, one wins. Nothing is known where
/// the version could not be made.
pub fn one_winner(winners: Option<usize>) -> (r: CheckResult)
    ensures
        judged(
            r,
            "concurrent CAS has exactly one winner"@,
            winners == Some(1usize),
            match winners {
                Some(n) => decimal(n as nat) + "/8 writes accepted"@,
                None => "setup failed"@,
            },
        ),
{
    match winners {
        Some(n) => CheckResult {
            name: "concurrent CAS has exactly one winner",
            passed: n == 1,
            detail: join2(&decimal_text(n as u64), "/8 writes accepted"),
        },
        None => CheckResult {
            name: "concurrent CAS has exactly one winner",
            passed: false,
            detail: "setup failed".to_owned(),
        },
    }
}

/// An object is there once it was written, and not before.
pub fn exists_accurate(present: &Result<bool>, absent: &Result<bool>) -> (r: CheckResult)
    ensures
        judged(
            r,
            "exists is accurate"@,
            (present matches Ok(b) && *b) && (absent matches Ok(b) && !*b),
            "present="@ + told_shown(*present) + " absent="@ + told_shown(*absent),
        ),
{
    let there: bool = match present {
        Ok(b) => *b,
        Err(_) => false,
    };
    let gone: bool = match absent {
        Ok(b) => !*b,
        Err(_) => false,
    };
    CheckResult {
        name: "exists is accurate",
        passed: there && gone,
        detail: join4("present=", &show_told(present), " absent=", &show_told(absent)),
    }
}

/// A deletion removes; deleting what is not there is no error.
pub fn delete_removes(
    first: &Result<()>,
    there: &Result<bool>,
    second: &Result<()>,
) -> (r: CheckResult)
    ensures
        judged(
            r,
            "delete removes; idempotent on missing"@,
            first is Ok && (there matches Ok(b) && !*b) && second is Ok,
            "gone="@ + told_shown(*there),
        ),
{
    let gone: bool = match there {
        Ok(b) => !*b,
        Err(_) => false,
    };
    CheckResult {
        name: "delete removes; idempotent on missing",
        passed: first.is_ok() && gone && second.is_ok(),
        detail: join2("gone=", &show_told(there)),
    }
}

/// Whether a read was refused for the given limit and size.
pub open spec fn refused_size(r: Result<(Vec<u8>, Version)>, limit: u64, size: u64) -> bool {
    r matches Err(CoreError::ObjectTooLarge { limit: l, actual, .. }) && l == limit && actual == Some(
        size,
    )
}

/// A bounded read gives an object of just that size whole, and one that is a
/// byte longer not at all.
pub fn limited_exact(
    exact: &Result<(Vec<u8>, Version)>,
    over: &Result<(Vec<u8>, Version)>,
    full: &Result<(Vec<u8>, Version)>,
    body: &[u8],
) -> (r: CheckResult)
    requires
        0 < body@.len() <= u64::MAX,
    ensures
        r.passed <==> (exact matches Ok(p) && p.0@ == body@) && (full matches Ok(p) && p.0@ == body@)
            && (over matches Err(CoreError::ObjectTooLarge { limit, actual, .. }) && limit
            == body@.len() - 1 && actual == Some(body@.len() as u64)),
        judged(
            r,
            "get_limited exact cap; one extra byte rejected"@,
            read_is(*exact, body@) && refused_size(
                *over,
                (body@.len() - 1) as u64,
                body@.len() as u64,
            ) && read_is(*full, body@),
            "exact="@ + object_shown(*exact) + " over="@ + object_shown(*over),
        ),
{
    let n: u64 = body.len() as u64;
    let refused: bool = match over {
        Err(CoreError::ObjectTooLarge { limit, actual: Some(a), .. }) => *limit == n - 1 && *a == n,
        _ => false,
    };
    CheckResult {
        name: "get_limited exact cap; one extra byte rejected",
        passed: read_gave(exact, body) && refused && read_gave(full, body),
        detail: join4("exact=", &show_object(exact), " over=", &show_object(over)),
    }
}

/// A bounded read of a missing object says so.
pub fn limited_missing(read: &Result<(Vec<u8>, Version)>) -> (r: CheckResult)
    ensures
        r.passed <==> (read matches Err(e) && e is NotFound),
        judged(
            r,
            "get_limited missing key is NotFound"@,
            is_not_found(*read),
            object_shown(*read),
        ),
{
    CheckResult {
        name: "get_limited missing key is NotFound",
        passed: not_found(read),
        detail: show_object(read),
    }
}

// ------------------------------------------------------------------ memory
/// How a refusal is shown.
pub open spec fn err_shown(e: ErrorView) -> Seq<char> {
    "Err("@ + e.shown() + ")"@
}

/// How a yes or a no is shown.
pub open spec fn ok_shown(b: bool) -> Seq<char> {
    "Ok("@ + bool_shown(b) + ")"@
}

pub open spec fn create_detail(key: Seq<char>) -> Seq<char> {
    "first="@ + ("Ok("@ + "\"ok\""@ + ")"@) + " second="@ + err_shown(
        ErrorView::AlreadyExists(key),
    )
}

pub open spec fn stale_detail(key: Seq<char>) -> Seq<char> {
    "rejected="@ + err_shown(
        ErrorView::PreconditionFailed(stale_text(key, Some(decimal(2)), decimal(1))),
    )
}

pub open spec fn missing_detail(key: Seq<char>) -> Seq<char> {
    err_shown(ErrorView::PreconditionFailed(stale_text(key, None, "bogus"@)))
}

pub open spec fn limited_detail(key: Seq<char>) -> Seq<char> {
    "exact="@ + ("Ok(("@ + bytes_shown(Seq::new(32, |i: int| 0xabu8)) + ", Version("@ + quoted(
        decimal(1),
    ) + ")))"@) + " over="@ + err_shown(
        ErrorView::ObjectTooLarge { key, limit: 31, actual: Some(32) },
    )
}

/// The name and the detail of each check of a backend in memory, under keys
/// that begin with `base`.
pub open spec fn memory_report(base: Seq<char>) -> Seq<(Seq<char>, Seq<char>)> {
    seq![
        ("create-only enforced"@, create_detail(base + "create-only"@)),
        ("read-after-write (create)"@, "Ok("@ + decimal(11) + ")"@),
        ("conditional update with current version"@, "token_changed="@ + bool_shown(true)),
        ("stale version rejected, content intact"@, stale_detail(base + "cas"@)),
        (
            "conditional create on existing key rejected"@,
            err_shown(ErrorView::AlreadyExists(base + "cas"@)),
        ),
        ("guarded update of missing key rejected"@, missing_detail(base + "missing"@)),
        ("concurrent CAS has exactly one winner"@, decimal(1) + "/8 writes accepted"@),
        (
            "exists is accurate"@,
            "present="@ + ok_shown(true) + " absent="@ + ok_shown(false),
        ),
        ("delete removes; idempotent on missing"@, "gone="@ + ok_shown(false)),
        ("get_limited exact cap; one extra byte rejected"@, limited_detail(base + "limited-exact"@)),
        (
            "get_limited missing key is NotFound"@,
            err_shown(ErrorView::NotFound(base + "limited-missing"@)),
        ),
    ]
}

fn check_create(b: &mut MemoryBackend, key: &str) -> (r: CheckResult)
    requires
        old(b).wf(),
        !old(b)@.contains_key(key@),
    ensures
        final(b).wf(),
        final(b)@ == old(b)@,
        judged(r, "create-only enforced"@, true, create_detail(key@)),
{
    let first: Result<Version> = b.put_create(key, "a".as_bytes());
    let second: Result<Version> = b.put_create(key, "b".as_bytes());
    b.delete(key);
    create_only(&first, &second)
}

fn check_read(b: &mut MemoryBackend, key: &str) -> (r: CheckResult)
    requires
        old(b).wf(),
        !old(b)@.contains_key(key@),
    ensures
        final(b).wf(),
        final(b)@ == old(b)@,
        judged(r, "read-after-write (create)"@, true, "Ok("@ + decimal(11) + ")"@),
{
    let body: &[u8] = "payload-raw".as_bytes();
    proof {
        reveal_strlit("payload-raw");
        assert(is_ascii_chars("payload-raw"@));
        is_ascii_chars_encode_utf8("payload-raw"@);
    }
    let _made: Result<Version> = b.put_create(key, body);
    let read: Result<(Vec<u8>, Version)> = b.get(key);
    b.delete(key);
    read_after_write(&read, body)
}

/// What the checks of conditional writes came to.
struct CasChecks {
    update: CheckResult,
    stale: CheckResult,
    create: CheckResult,
}

fn check_cas_writes(b: &mut MemoryBackend, key: &str) -> (r: CasChecks)
    requires
        old(b).wf(),
        !old(b)@.contains_key(key@),
    ensures
        final(b).wf(),
        final(b)@ == old(b)@,
        judged(
            r.update,
            "conditional update with current version"@,
            true,
            "token_changed="@ + bool_shown(true),
        ),
        judged(r.stale, "stale version rejected, content intact"@, true, stale_detail(key@)),
        judged(
            r.create,
            "conditional create on existing key rejected"@,
            true,
            err_shown(ErrorView::AlreadyExists(key@)),
        ),
{
    proof {
        crate::text::lemma_decimal_injective(1, 2);
    }
    let first: Result<Version> = b.put_update(key, None, "g1".as_bytes());
    let body: &[u8] = "g2".as_bytes();
    let second: Result<Version> = match &first {
        Ok(v) => b.put_update(key, Some(v), body),
        Err(_) => Err(CoreError::NotFound("skipped".to_owned())),
    };
    let update: CheckResult = conditional_update(&first, &second);
    let write: Result<Version> = match &first {
        Ok(v) => b.put_update(key, Some(v), "g3-stale".as_bytes()),
        Err(_) => Err(CoreError::NotFound("skipped".to_owned())),
    };
    let content: Result<(Vec<u8>, Version)> = b.get(key);
    let stale: CheckResult = stale_rejected(&write, &content, body);
    let existing: Result<Version> = b.put_update(key, None, "clobber".as_bytes());
    let create: CheckResult = create_on_existing_rejected(&existing);
    b.delete(key);
    assert(b@ =~= old(b)@);
    CasChecks { update, stale, create }
}

fn check_missing(b: &mut MemoryBackend, key: &str) -> (r: CheckResult)
    requires
        old(b).wf(),
        !old(b)@.contains_key(key@),
    ensures
        final(b).wf(),
        final(b)@ == old(b)@,
        judged(r, "guarded update of missing key rejected"@, true, missing_detail(key@)),
{
    let guard: Version = Version("bogus".to_owned());
    let write: Result<Version> = b.put_update(key, Some(&guard), "x".as_bytes());
    update_of_missing_rejected(&write)
}

fn check_race(b: &mut MemoryBackend, key: &str) -> (r: CheckResult)
    requires
        old(b).wf(),
        !old(b)@.contains_key(key@),
    ensures
        final(b).wf(),
        final(b)@ == old(b)@,
        judged(
            r,
            "concurrent CAS has exactly one winner"@,
            true,
            decimal(1) + "/8 writes accepted"@,
        ),
{
    proof {
        crate::text::lemma_decimal_injective(1, 2);
    }
    let base: Version = match b.put_update(key, None, "base".as_bytes()) {
        Ok(v) => v,
        Err(_) => {
            return one_winner(None);
        },
    };
    let mut winners: usize = 0;
    let mut i: usize = 0;
    while i < RACERS
        invariant
            i <= RACERS,
            b.wf(),
            b@.contains_key(key@),
            b@.remove(key@) == old(b)@,
            base@ == crate::text::decimal(1),
            crate::text::decimal(1) != crate::text::decimal(2),
            winners == if i == 0 {
                0int
            } else {
                1
            },
            b@[key@].version == if i == 0 {
                1int
            } else {
                2
            },
        decreases RACERS - i,
    {
        match b.put_update(key, Some(&base), "racer".as_bytes()) {
            Ok(_) => {
                winners = winners + 1;
            },
            Err(_) => {},
        }
        i = i + 1;
    }
    b.delete(key);
    one_winner(Some(winners))
}

fn check_exists(b: &mut MemoryBackend, key: &str, other: &str) -> (r: CheckResult)
    requires
        old(b).wf(),
        !old(b)@.contains_key(key@),
        !old(b)@.contains_key(other@),
        key@ != other@,
    ensures
        final(b).wf(),
        final(b)@ == old(b)@,
        judged(
            r,
            "exists is accurate"@,
            true,
            "present="@ + ok_shown(true) + " absent="@ + ok_shown(false),
        ),
{
    let _made: Result<Version> = b.put_create(key, "x".as_bytes());
    let present: Result<bool> = Ok(b.contains(key));
    assert(!b@.contains_key(other@)) by {
        assert(!b@.remove(key@).contains_key(other@));
    }
    let absent: Result<bool> = Ok(b.contains(other));
    b.delete(key);
    exists_accurate(&present, &absent)
}

fn check_delete(b: &mut MemoryBackend, key: &str) -> (r: CheckResult)
    requires
        old(b).wf(),
        !old(b)@.contains_key(key@),
    ensures
        final(b).wf(),
        final(b)@ == old(b)@,
        judged(
            r,
            "delete removes; idempotent on missing"@,
            true,
            "gone="@ + ok_shown(false),
        ),
{
    let _made: Result<Version> = b.put_create(key, "x".as_bytes());
    b.delete(key);
    let there: Result<bool> = Ok(b.contains(key));
    b.delete(key);
    assert(b@ =~= old(b)@);
    delete_removes(&Ok(()), &there, &Ok(()))
}

fn check_limited(b: &mut MemoryBackend, key: &str) -> (r: CheckResult)
    requires
        old(b).wf(),
        !old(b)@.contains_key(key@),
    ensures
        final(b).wf(),
        final(b)@ == old(b)@,
        judged(
            r,
            "get_limited exact cap; one extra byte rejected"@,
            true,
            limited_detail(key@),
        ),
{
    let body: Vec<u8> = vec![0xabu8; 32];
    assert(body@ =~= Seq::new(32, |i: int| 0xabu8));
    let _made: Result<Version> = b.put_create(key, &body);
    let exact: Result<(Vec<u8>, Version)> = b.get_limited(key, 32);
    let over: Result<(Vec<u8>, Version)> = b.get_limited(key, 31);
    let full: Result<(Vec<u8>, Version)> = b.get(key);
    b.delete(key);
    limited_exact(&exact, &over, &full, &body)
}

/// Runs every check on a backend in memory, under keys that are not in use.
/// It passes them all and is left as it was.
pub fn run(backend: &mut MemoryBackend, key_prefix: &str) -> (r: Vec<CheckResult>)
    requires
        old(backend).wf(),
        forall|k: Seq<char>|
            #[trigger] old(backend)@.contains_key(k) ==> !(key_prefix@ + "/"@).is_prefix_of(k),
    ensures
        final(backend).wf(),
        final(backend)@ == old(backend)@,
        forall|i: int| 0 <= i < r@.len() ==> (#[trigger] r@[i]).passed,
        r@.map_values(|c: CheckResult| (c.name@, c.detail@)) == memory_report(key_prefix@ + "/"@),
{
    let base: String = join2(key_prefix, "/");
    let mut out: Vec<CheckResult> = Vec::new();
    let k1: String = join2(&base, "create-only");
    let k2: String = join2(&base, "raw");
    let k3: String = join2(&base, "cas");
    let k4: String = join2(&base, "missing");
    let k5: String = join2(&base, "race");
    let k6: String = join2(&base, "exists");
    let k7: String = join2(&base, "never-written");
    let k8: String = join2(&base, "delete");
    let k9: String = join2(&base, "limited-exact");
    let k10: String = join2(&base, "limited-missing");
    proof {
        assert forall|t: Seq<char>| !old(backend)@.contains_key(#[trigger] (base@ + t)) by {
            assert(base@.is_prefix_of(base@ + t));
        }
        reveal_strlit("exists");
        reveal_strlit("never-written");
        assert(k6@.len() != k7@.len());
    }
    out.push(check_create(backend, &k1));
    out.push(check_read(backend, &k2));
    let cas: CasChecks = check_cas_writes(backend, &k3);
    out.push(cas.update);
    out.push(cas.stale);
    out.push(cas.create);
    out.push(check_missing(backend, &k4));
    out.push(check_race(backend, &k5));
    out.push(check_exists(backend, &k6, &k7));
    out.push(check_delete(backend, &k8));
    out.push(check_limited(backend, &k9));
    let read: Result<(Vec<u8>, Version)> = backend.get_limited(&k10, 8);
    out.push(limited_missing(&read));
    assert(out@.map_values(|c: CheckResult| (c.name@, c.detail@)) =~= memory_report(base@));
    out
}

} // verus!
