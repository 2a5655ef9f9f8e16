//! Calls into other crates and the parts of std without a specification:
//! BLAKE3, hexadecimal text, UTF-8, quoted text, the clock, RFC 3339 text,
//! randomness.
use vstd::prelude::*;
use vstd::utf8::{decode_utf8, encode_utf8, valid_utf8};

use crate::text::{digit_char, hex_bytes, hex_text, is_hex};

verus! {

/// `hex::encode`: two lowercase characters for each byte, high half first.
#[verifier::external_body]
pub(crate) fn hex_encode(bytes: &[u8]) -> (r: String)
    ensures
        r@ == hex_text(bytes@),
{
    hex::encode(bytes)
}

/// What the `hex` crate says of a text that is not hexadecimal.
pub uninterp spec fn hex_complaint(text: Seq<char>) -> Seq<char>;

/// `hex::decode`: succeeds exactly on text of even length made of
/// hexadecimal digits of either case, with the bytes that it spells. What
/// its error says depends on the text alone.
#[verifier::external_body]
pub(crate) fn hex_decode(text: &str) -> (r: Result<Vec<u8>, String>)
    ensures
        r is Ok <==> is_hex(encode_utf8(text@)),
        r matches Ok(v) ==> v@ == hex_bytes(encode_utf8(text@)),
        r matches Err(e) ==> e@ == hex_complaint(text@),
{
    hex::decode(text).map_err(|e| e.to_string())
}

/// What BLAKE3 in keyed mode makes of `data` under a 32-byte key.
pub uninterp spec fn keyed_blake3(key: Seq<u8>, data: Seq<u8>) -> Seq<u8>;

/// `blake3::keyed_hash`: 32 bytes that depend on the key and the data alone.
#[verifier::external_body]
pub(crate) fn blake3_keyed(key: &[u8; 32], data: &[u8]) -> (r: [u8; 32])
    ensures
        r@ == keyed_blake3(key@, data@),
{
    *blake3::keyed_hash(key, data).as_bytes()
}

/// What plain BLAKE3 makes of `data`.
pub uninterp spec fn plain_blake3(data: Seq<u8>) -> Seq<u8>;

/// `blake3::hash`: 32 bytes that depend on the data alone.
#[verifier::external_body]
pub(crate) fn blake3_plain(data: &[u8]) -> (r: [u8; 32])
    ensures
        r@ == plain_blake3(data@),
{
    *blake3::hash(data).as_bytes()
}

/// `String::from_utf8`: the text that the bytes encode, if they are UTF-8.
#[verifier::external_body]
pub(crate) fn utf8_text(bytes: Vec<u8>) -> (r: Option<String>)
    ensures
        r is Some <==> valid_utf8(bytes@),
        r matches Some(s) ==> s@ == decode_utf8(bytes@),
{
    String::from_utf8(bytes).ok()
}

/// What `String::from_utf8_lossy` makes of bytes.
pub uninterp spec fn lossy_text(bytes: Seq<u8>) -> Seq<char>;

/// `String::from_utf8_lossy`: the text that the bytes encode; where they are
/// not UTF-8, with something else in place of what is not.
#[verifier::external_body]
pub(crate) fn utf8_lossy(bytes: &[u8]) -> (r: String)
    ensures
        r@ == lossy_text(bytes@),
        valid_utf8(bytes@) ==> r@ == decode_utf8(bytes@),
{
    String::from_utf8_lossy(bytes).into_owned()
}

/// How `Debug` writes a text: between quotation marks, with escapes.
pub uninterp spec fn quoted(text: Seq<char>) -> Seq<char>;

/// std's `Debug` of a `str`, which depends on the text alone.
#[verifier::external_body]
pub(crate) fn quote(text: &str) -> (r: String)
    ensures
        r@ == quoted(text@),
{
    format!("{text:?}")
}

/// The first second that `chrono` can represent, counted from the Unix epoch.
pub const MIN_SECOND: i64 = -8_334_601_228_800;

/// The last second that `chrono` can represent, counted from the Unix epoch.
pub const MAX_SECOND: i64 = 8_210_266_876_799;

/// `chrono::Utc::now`, as the second since the Unix epoch and the
/// nanoseconds within it. A leap second shows as more than a billion of
/// the latter. Nothing else is known of what the clock shows.
#[verifier::external_body]
pub(crate) fn utc_clock() -> (r: (i64, u32))
    ensures
        MIN_SECOND <= r.0 <= MAX_SECOND,
        r.1 < 2_000_000_000,
{
    let t = chrono::Utc::now();
    (t.timestamp(), t.timestamp_subsec_nanos())
}

/// The RFC 3339 text in UTC of a second since the Unix epoch and the
/// nanoseconds within it.
pub uninterp spec fn rfc3339(second: i64, nanos: u32) -> Option<Seq<char>>;

/// `chrono::DateTime::from_timestamp` and `to_rfc3339`: there is a text
/// for every moment in the representable range.
#[verifier::external_body]
pub(crate) fn rfc3339_text(second: i64, nanos: u32) -> (r: Option<String>)
    ensures
        r matches Some(s) ==> rfc3339(second, nanos) == Some(s@),
        r is None ==> rfc3339(second, nanos) is None,
        MIN_SECOND <= second <= MAX_SECOND && nanos < 1_000_000_000 ==> r is Some,
{
    chrono::DateTime::from_timestamp(second, nanos).map(|t| t.to_rfc3339())
}

/// The moment that an RFC 3339 text denotes, in UTC.
pub uninterp spec fn moment_of(text: Seq<char>) -> Option<(i64, u32)>;

/// `chrono::DateTime::parse_from_rfc3339`, as the second since the Unix
/// epoch and the nanoseconds within it.
#[verifier::external_body]
pub(crate) fn parse_rfc3339(text: &str) -> (r: Option<(i64, u32)>)
    ensures
        r == moment_of(text@),
        r matches Some(m) ==> MIN_SECOND <= m.0 <= MAX_SECOND && m.1 < 2_000_000_000,
{
    let t = chrono::DateTime::parse_from_rfc3339(text).ok()?.to_utc();
    Some((t.timestamp(), t.timestamp_subsec_nanos()))
}

/// How a moment is written: as a time of day, with or without milliseconds,
/// with the date before it, or as one word of date and time.
pub open spec fn is_clock_pattern(pattern: Seq<char>) -> bool {
    ||| pattern == "%H:%M:%S"@
    ||| pattern == "%H:%M:%S%.3f"@
    ||| pattern == "%Y-%m-%d %H:%M:%S"@
    ||| pattern == "%Y%m%dT%H%M%S"@
}

/// Two decimal digits.
pub open spec fn two_digits(n: int) -> Seq<char> {
    seq![digit_char((n / 10 % 10) as nat), digit_char((n % 10) as nat)]
}

/// The hour, minute and second of a second since the Unix epoch.
pub open spec fn time_of_day(second: int) -> Seq<char> {
    two_digits(second % 86_400 / 3600) + ":"@ + two_digits(second % 3600 / 60) + ":"@ + two_digits(
        second % 60,
    )
}

/// The hour, minute, second and millisecond of a second since the Unix epoch
/// and the nanoseconds within it.
pub open spec fn fine_time_of_day(second: int, nanos: int) -> Seq<char> {
    time_of_day(second) + "."@ + seq![digit_char((nanos / 100_000_000) as nat)] + two_digits(
        nanos / 1_000_000 % 100,
    )
}

/// What `chrono` writes for a moment under a pattern.
pub uninterp spec fn clock_text(second: i64, nanos: u32, pattern: Seq<char>) -> Seq<char>;

/// `chrono::DateTime::format`: the moment as the pattern says. A time of day
/// has two digits for each of its parts, and three for the milliseconds; of
/// a date nothing is said but that it depends on the moment alone.
#[verifier::external_body]
pub(crate) fn format_moment(second: i64, nanos: u32, pattern: &str) -> (r: String)
    requires
        MIN_SECOND <= second <= MAX_SECOND,
        nanos < 1_000_000_000,
        is_clock_pattern(pattern@),
    ensures
        r@ == clock_text(second, nanos, pattern@),
        pattern@ == "%H:%M:%S"@ ==> r@ == time_of_day(second as int),
        pattern@ == "%H:%M:%S%.3f"@ ==> r@ == fine_time_of_day(second as int, nanos as int),
{
    let t = chrono::DateTime::from_timestamp(second, nanos).expect("the moment is in range");
    t.format(pattern).to_string()
}

/// `rand::RngCore::fill_bytes` on the thread's generator: a few bytes of
/// which nothing is known but how many they are.
#[verifier::external_body]
pub(crate) fn random_bytes(n: usize) -> (r: Vec<u8>)
    requires
        n <= 1024,
    ensures
        r@.len() == n,
{
    let mut out = vec![0u8; n];
    rand::RngCore::fill_bytes(&mut rand::rng(), &mut out);
    out
}

} // verus!
