//! Operation identity, clocks, and canonical material hashes.
use vstd::prelude::*;
use vstd::utf8::*;

use crate::bits::{
    bit, get_quintet, lemma_bits_determine, lemma_quintet_bits, lemma_quintet_range, quintet,
    unpack, unpacked,
};
use crate::bytes::{
    be, be64, copy_bytes, framed, framed_all, from_be, get_u64, lemma_be64_injective, lemma_be_len,
    lemma_from_be_of_be, lemma_framed_all_injective, pow256, put_bytes, put_u64, same_bytes,
};
use crate::digest::{digest_of, Digest, DigestKey};
use crate::error::{invalid_format, rejected, CoreError, ErrorView, Result};
use crate::foreign::{
    blake3_plain, hex_complaint, hex_decode, hex_encode, plain_blake3, random_bytes,
};
use crate::text::{
    ascii_text, hex_bytes, hex_text, is_hex, join2, join3, lemma_hex_roundtrip, lemma_prefix_unique,
    strip_prefix,
};
use crate::time::{is_moment, may_be_shown, millis_of, Timestamp};

verus! {

pub const MAX_STABLE_KEY_BYTES: usize = 512;

/// How many characters follow the tag of an operation id.
pub const OP_BODY_LEN: usize = 39;

/// Where the time comes from, so that expiry, first use and future skew
/// are deterministic under a clock that stands still.
pub trait Clock {
    /// Whether the clock may show `t`.
    spec fn may_show(&self, t: Timestamp) -> bool;

    fn now(&self) -> (t: Timestamp)
        ensures
            self.may_show(t),
    ;
}

/// The clock of this machine.
#[derive(Debug, Clone, Copy)]
pub struct SystemClock;

impl Clock for SystemClock {
    open spec fn may_show(&self, t: Timestamp) -> bool {
        may_be_shown(t)
    }

    fn now(&self) -> (t: Timestamp) {
        Timestamp::now()
    }
}

/// A clock that shows what it was set to.
#[derive(Debug, Clone, Copy)]
pub struct FrozenClock {
    now: Timestamp,
}

impl View for FrozenClock {
    type V = Timestamp;

    closed spec fn view(&self) -> Timestamp {
        self.now
    }
}

impl FrozenClock {
    pub fn new(now: Timestamp) -> (r: Self)
        ensures
            r@ == now,
    {
        FrozenClock { now }
    }

    pub fn set(&mut self, now: Timestamp)
        ensures
            final(self)@ == now,
    {
        self.now = now;
    }

    /// Moves the clock by `delta` nanoseconds.
    pub fn add(&mut self, delta: i128)
        requires
            is_moment(old(self)@@ + delta),
        ensures
            final(self)@@ == old(self)@@ + delta,
    {
        self.now = self.now.plus(delta);
    }
}

impl Clock for FrozenClock {
    open spec fn may_show(&self, t: Timestamp) -> bool {
        t == self@
    }

    fn now(&self) -> (t: Timestamp) {
        self.now
    }
}

/// Admission window for generic operation ids, in nanoseconds.
#[derive(Debug, Clone, Copy)]
pub struct OperationPolicy {
    pub window: i128,
    pub first_use: i128,
    pub max_future_skew: i128,
}

impl OperationPolicy {
    /// Seven days, five minutes and two minutes.
    pub open spec fn standard() -> OperationPolicy {
        OperationPolicy {
            window: 604_800_000_000_000,
            first_use: 300_000_000_000,
            max_future_skew: 120_000_000_000,
        }
    }
}

impl Default for OperationPolicy {
    /// Seven days, five minutes and two minutes.
    fn default() -> (r: Self)
        ensures
            r == OperationPolicy::standard(),
            r.window == 7 * 86_400 * 1_000_000_000,
            r.first_use == 5 * 60 * 1_000_000_000,
            r.max_future_skew == 2 * 60 * 1_000_000_000,
    {
        OperationPolicy {
            window: 604_800_000_000_000,
            first_use: 300_000_000_000,
            max_future_skew: 120_000_000_000,
        }
    }
}

/// Time-bearing operation id: a 48-bit millisecond timestamp and 144 bits
/// of entropy. Its text is `op_` and 39 Crockford base-32 characters.
#[derive(Clone, Copy, Debug, PartialEq, Eq, Hash, Structural)]
pub struct OperationId {
    w0: u64,
    w1: u64,
    w2: u64,
}

impl View for OperationId {
    type V = Seq<u8>;

    closed spec fn view(&self) -> Seq<u8> {
        be64(self.w0) + be64(self.w1) + be64(self.w2)
    }
}

/// The Crockford base-32 digit of `v`, for `0 <= v < 32`.
pub open spec fn crockford_digit(v: int) -> u8 {
    if v < 10 {
        (0x30 + v) as u8
    } else if v < 18 {
        (0x41 + v - 10) as u8
    } else if v < 20 {
        (0x4a + v - 18) as u8
    } else if v < 22 {
        (0x4d + v - 20) as u8
    } else if v < 27 {
        (0x50 + v - 22) as u8
    } else {
        (0x56 + v - 27) as u8
    }
}

/// The capital of an ASCII letter, and any other byte unchanged.
pub open spec fn capital(b: u8) -> u8 {
    if 0x61 <= b <= 0x7a {
        (b - 0x20) as u8
    } else {
        b
    }
}

/// `b` as a Crockford digit, where I and L read as 1 and O reads as 0,
/// in either case.
pub open spec fn crockford_plain(b: u8) -> u8 {
    if capital(b) == 0x49 || capital(b) == 0x4c {
        0x31
    } else if capital(b) == 0x4f {
        0x30
    } else {
        capital(b)
    }
}

/// Whether `v` is the value of the Crockford character `b`.
pub open spec fn crockford_reads(b: u8, v: int) -> bool {
    0 <= v < 32 && crockford_plain(b) == crockford_digit(v)
}

/// Whether `b` is a Crockford character.
pub open spec fn is_crockford(b: u8) -> bool {
    exists|v: int| crockford_reads(b, v)
}

/// The value of the Crockford character `b`.
pub open spec fn crockford_value_of(b: u8) -> int {
    choose|v: int| crockford_reads(b, v)
}

/// The 39 characters that spell the 24 bytes `s`.
pub open spec fn crockford_text(s: Seq<u8>) -> Seq<char> {
    Seq::new(39, |i: int| crockford_digit(quintet(s, i)) as char)
}

proof fn lemma_crockford_unique(b: u8, v: int, w: int)
    requires
        crockford_reads(b, v),
        crockford_reads(b, w),
    ensures
        v == w,
{
}

/// A digit reads as its own value, in either case.
proof fn lemma_crockford_digit_reads(v: int)
    requires
        0 <= v < 32,
    ensures
        crockford_digit(v) < 0x80,
        crockford_reads(crockford_digit(v), v),
        crockford_value_of(crockford_digit(v)) == v,
{
    let b = crockford_digit(v);
    assert(crockford_reads(b, v));
    lemma_crockford_unique(b, v, crockford_value_of(b));
}

fn crockford_byte(v: u8) -> (r: u8)
    requires
        v < 32,
    ensures
        r == crockford_digit(v as int),
        r < 0x80,
{
    if v < 10 {
        0x30 + v
    } else if v < 18 {
        0x41 + (v - 10)
    } else if v < 20 {
        0x4a + (v - 18)
    } else if v < 22 {
        0x4d + (v - 20)
    } else if v < 27 {
        0x50 + (v - 22)
    } else {
        0x56 + (v - 27)
    }
}

/// The value of a Crockford character.
fn crockford_value(c: u8) -> (r: Option<u8>)
    ensures
        r is Some <==> is_crockford(c),
        r matches Some(v) ==> v == crockford_value_of(c) && crockford_reads(c, v as int),
{
    let upper: u8 = if c >= 0x61 && c <= 0x7a {
        c - 0x20
    } else {
        c
    };
    let plain: u8 = if upper == 0x49 || upper == 0x4c {
        0x31
    } else if upper == 0x4f {
        0x30
    } else {
        upper
    };
    assert(plain == crockford_plain(c));
    let v: u8 = if plain >= 0x30 && plain <= 0x39 {
        plain - 0x30
    } else if plain >= 0x41 && plain <= 0x48 {
        plain - 0x41 + 10
    } else if plain >= 0x4a && plain <= 0x4b {
        plain - 0x4a + 18
    } else if plain >= 0x4d && plain <= 0x4e {
        plain - 0x4d + 20
    } else if plain >= 0x50 && plain <= 0x54 {
        plain - 0x50 + 22
    } else if plain >= 0x56 && plain <= 0x5a {
        plain - 0x56 + 27
    } else {
        return None;
    };
    proof {
        assert(crockford_reads(c, v as int));
        lemma_crockford_unique(c, v as int, crockford_value_of(c));
    }
    Some(v)
}

/// Text of bytes, five bits a character, zero bits behind the last byte.
fn crockford_encode(bytes: &[u8]) -> (r: String)
    requires
        bytes@.len() == 24,
    ensures
        r@ == crockford_text(bytes@),
{
    let mut out: Vec<u8> = Vec::new();
    let mut i: usize = 0;
    while i < 39
        invariant
            i <= 39,
            bytes@.len() == 24,
            out@.len() == i,
            forall|j: int|
                0 <= j < i ==> #[trigger] out@[j] == crockford_digit(quintet(bytes@, j)) && out@[j]
                    < 0x80,
        decreases 39 - i,
    {
        let v: u8 = get_quintet(bytes, i);
        out.push(crockford_byte(v));
        i = i + 1;
    }
    let text: String = ascii_text(out);
    assert(text@ =~= crockford_text(bytes@));
    text
}

/// The leading 24 bytes of the bit string that Crockford characters spell.
fn crockford_decode(s: &[u8]) -> (r: Vec<u8>)
    requires
        s@.len() == 39,
        forall|i: int| 0 <= i < 39 ==> is_crockford(#[trigger] s@[i]),
    ensures
        r@.len() == 24,
        r@ == crockford_bytes(s@),
{
    let mut groups: Vec<u8> = Vec::new();
    let mut i: usize = 0;
    while i < 39
        invariant
            i <= 39,
            s@.len() == 39,
            forall|j: int| 0 <= j < 39 ==> is_crockford(#[trigger] s@[j]),
            groups@.len() == i,
            forall|j: int|
                0 <= j < i ==> groups@[j] == crockford_value_of(#[trigger] s@[j]) && groups@[j] < 32,
        decreases 39 - i,
    {
        assert(is_crockford(s@[i as int]));
        let ghost was = groups@;
        if let Some(v) = crockford_value(s[i]) {
            groups.push(v);
            assert(groups@ == was.push(v));
        }
        proof {
            assert forall|j: int| 0 <= j < i + 1 implies groups@[j] == crockford_value_of(
                #[trigger] s@[j],
            ) && groups@[j] < 32 by {
                if j < i {
                    assert(groups@[j] == was[j]);
                }
            }
        }
        i = i + 1;
    }
    let out: Vec<u8> = unpack(&groups, 24);
    proof {
        let g = crockford_values(s@);
        assert(groups@ =~= g);
        let c = crockford_bytes(s@);
        assert(has_bits(out@, g));
        assert(exists|o: Seq<u8>| has_bits(o, g));
        assert(has_bits(c, g));
        lemma_same_bits(out@, c, g);
    }
    out
}

/// Whether a character is taken for a Crockford character. One that is not
/// ASCII is taken by its low byte, though no id is spelt with it.
pub open spec fn taken_for_crockford(c: char) -> bool {
    let b = (c as u32 % 256) as u8;
    is_crockford(b) && ((c as u32) < 0x80 || crockford_plain(b) == b)
}

fn takes_for_crockford(c: char) -> (r: bool)
    ensures
        r == taken_for_crockford(c),
{
    let code: u32 = c as u32;
    let b: u8 = (code % 256) as u8;
    let plain: bool = !(b >= 0x61 && b <= 0x7a) && b != 0x49 && b != 0x4c && b != 0x4f;
    assert(plain <==> crockford_plain(b) == b);
    crockford_value(b).is_some() && (code < 0x80 || plain)
}

/// The first character from the `i`-th on that is not taken for a Crockford
/// character.
pub open spec fn first_stray(body: Seq<char>, i: nat) -> Option<char>
    decreases body.len() - i,
{
    if i >= body.len() {
        None
    } else if !taken_for_crockford(body[i as int]) {
        Some(body[i as int])
    } else {
        first_stray(body, i + 1)
    }
}

/// Why a text is not the body of an operation id.
pub open spec fn id_body_fault(body: Seq<char>) -> Seq<char> {
    if encode_utf8(body).len() != 39 {
        "operation id body must be 39 Crockford characters"@
    } else {
        match first_stray(body, 0) {
            Some(c) => "invalid Crockford character "@ + seq![c],
            None => "operation id decoded length"@,
        }
    }
}

/// Why a text is not that of an operation id.
pub open spec fn operation_id_fault(s: Seq<char>) -> Seq<char> {
    if "op_"@.is_prefix_of(s) {
        id_body_fault(s.skip(3))
    } else {
        "operation id must start with op_"@
    }
}

/// What reading a text that is not that of a stable key gives.
pub open spec fn stable_key_fault(s: Seq<char>) -> ErrorView {
    if "sk_"@.is_prefix_of(s) {
        stable_hex_error(s.skip(3))
    } else {
        ErrorView::InvalidFormat("stable key must start with sk_"@)
    }
}

/// Whether `o` is the 24 bytes whose bits are those of the groups `g`.
pub open spec fn has_bits(o: Seq<u8>, g: Seq<u8>) -> bool {
    o.len() == 24 && forall|k: int| 0 <= k < 192 ==> #[trigger] bit(o, k) == unpacked(g, k)
}

/// The 24 bytes that 39 Crockford characters spell; the last three bits
/// of the last character count for nothing.
pub open spec fn crockford_bytes(s: Seq<u8>) -> Seq<u8> {
    bytes_of_groups(crockford_values(s))
}

/// The values of 39 Crockford characters.
pub open spec fn crockford_values(s: Seq<u8>) -> Seq<u8> {
    Seq::new(39, |i: int| crockford_value_of(s[i]) as u8)
}

/// The 24 bytes whose bits are those of the groups `g`.
pub open spec fn bytes_of_groups(g: Seq<u8>) -> Seq<u8> {
    choose|o: Seq<u8>| has_bits(o, g)
}

proof fn lemma_same_bits(a: Seq<u8>, b: Seq<u8>, g: Seq<u8>)
    requires
        has_bits(a, g),
        has_bits(b, g),
    ensures
        a == b,
{
    assert forall|k: int| 0 <= k < 8 * a.len() implies #[trigger] bit(a, k) == bit(b, k) by {
        assert(bit(a, k) == unpacked(g, k));
        assert(bit(b, k) == unpacked(g, k));
    }
    lemma_bits_determine(a, b);
}

/// What follows the 39 characters of 24 bytes is the bytes.
proof fn lemma_crockford_roundtrip(s: Seq<u8>)
    requires
        s.len() == 24,
    ensures
        is_ascii_chars(crockford_text(s)),
        encode_utf8(crockford_text(s)).len() == 39,
        forall|i: int| 0 <= i < 39 ==> is_crockford(#[trigger] encode_utf8(crockford_text(s))[i]),
        crockford_bytes(encode_utf8(crockford_text(s))) == s,
{
    let t = crockford_text(s);
    assert forall|i: int| 0 <= i < 39 implies '\0' <= #[trigger] t[i] <= '\u{7f}' by {
        lemma_quintet_range(s, i);
        lemma_crockford_digit_reads(quintet(s, i));
    }
    is_ascii_chars_encode_utf8(t);
    let e = encode_utf8(t);
    let g = crockford_values(e);
    assert forall|i: int| 0 <= i < 39 implies is_crockford(#[trigger] e[i]) && g[i] == quintet(
        s,
        i,
    ) by {
        lemma_quintet_range(s, i);
        lemma_crockford_digit_reads(quintet(s, i));
        assert(e[i] == crockford_digit(quintet(s, i)));
    }
    assert forall|k: int| 0 <= k < 192 implies #[trigger] bit(s, k) == unpacked(g, k) by {
        assert(is_crockford(e[k / 5]) && g[k / 5] == quintet(s, k / 5));
        lemma_quintet_bits(s, k / 5, k % 5);
        assert(5 * (k / 5) + k % 5 == k);
    }
    assert(has_bits(s, g));
    lemma_same_bits(s, crockford_bytes(e), g);
}

/// The first six bytes of an id hold its timestamp.
pub open spec fn id_millis(s: Seq<u8>) -> nat {
    from_be(s.take(6))
}

/// The bytes of the id of a timestamp and entropy.
pub open spec fn id_bytes(ms: u64, entropy: Seq<u8>) -> Seq<u8> {
    be((ms % 0x1_0000_0000_0000) as nat, 6) + entropy
}

pub proof fn lemma_operation_id_view(id: OperationId)
    ensures
        id@.len() == 24,
{
    lemma_be_len(id.w0 as nat, 8);
    lemma_be_len(id.w1 as nat, 8);
    lemma_be_len(id.w2 as nat, 8);
}

/// Ids with the same bytes are equal.
pub proof fn lemma_operation_id_injective(a: OperationId, b: OperationId)
    requires
        a@ == b@,
    ensures
        a == b,
{
    lemma_be_len(a.w0 as nat, 8);
    lemma_be_len(a.w1 as nat, 8);
    lemma_be_len(a.w2 as nat, 8);
    lemma_be_len(b.w0 as nat, 8);
    lemma_be_len(b.w1 as nat, 8);
    lemma_be_len(b.w2 as nat, 8);
    assert(a@.subrange(0, 8) =~= be64(a.w0));
    assert(a@.subrange(8, 16) =~= be64(a.w1));
    assert(a@.subrange(16, 24) =~= be64(a.w2));
    assert(b@.subrange(0, 8) =~= be64(b.w0));
    assert(b@.subrange(8, 16) =~= be64(b.w1));
    assert(b@.subrange(16, 24) =~= be64(b.w2));
    lemma_be64_injective(a.w0, b.w0);
    lemma_be64_injective(a.w1, b.w1);
    lemma_be64_injective(a.w2, b.w2);
}

proof fn lemma_word_millis(w: u64)
    ensures
        be64(w).take(6) == be((w / 0x1_0000) as nat, 6),
        from_be(be64(w).take(6)) == w / 0x1_0000,
        be64(w)[6] == (w / 0x100) % 256,
        be64(w)[7] == w % 256,
        be64(w).len() == 8,
{
    let n = w as nat;
    reveal_with_fuel(be, 3);
    lemma_be_len(n / 256 / 256, 6);
    assert(n / 256 / 256 == n / 0x1_0000);
    assert(be64(w) == be(n / 256 / 256, 6).push((n / 256 % 256) as u8).push((n % 256) as u8));
    assert(be64(w).take(6) =~= be((w / 0x1_0000) as nat, 6));
    reveal_with_fuel(pow256, 7);
    lemma_from_be_of_be((w / 0x1_0000) as nat, 6);
}

proof fn lemma_parts_of_a_word(stamp: int, a: int, b: int, w: int)
    requires
        0 <= stamp,
        0 <= a < 256,
        0 <= b < 256,
        w == stamp * 0x1_0000 + a * 0x100 + b,
    ensures
        w / 0x1_0000 == stamp,
        w / 0x100 % 256 == a,
        w % 256 == b,
{
    assert(w == stamp * 0x1_0000 + (a * 0x100 + b));
    vstd::arithmetic::div_mod::lemma_fundamental_div_mod_converse(
        w,
        0x1_0000,
        stamp,
        a * 0x100 + b,
    );
    let m = stamp * 256 + a;
    assert(w == m * 0x100 + b);
    vstd::arithmetic::div_mod::lemma_fundamental_div_mod_converse(w, 0x100, m, b);
    vstd::arithmetic::div_mod::lemma_fundamental_div_mod_converse(m, 256, stamp, a);
}

proof fn lemma_first_word(stamp: u64, a: u8, b: u8, w: u64)
    requires
        w == stamp * 0x1_0000 + a * 0x100 + b,
    ensures
        be64(w) == be(stamp as nat, 6).push(a).push(b),
{
    lemma_parts_of_a_word(stamp as int, a as int, b as int, w as int);
    lemma_word_millis(w);
    lemma_be_len(stamp as nat, 6);
    assert(be64(w) =~= be(stamp as nat, 6).push(a).push(b));
}

impl OperationId {
    /// A fresh id stamped with what the clock shows.
    pub fn mint<C: Clock>(clock: &C) -> (r: Self)
        ensures
            exists|t: Timestamp|
                #[trigger] clock.may_show(t) && id_millis(r@) == millis_of(t) % 0x1_0000_0000_0000,
    {
        let t: Timestamp = clock.now();
        let raw: Vec<u8> = random_bytes(18);
        let id: OperationId = Self::assemble(t.millis(), &raw);
        proof {
            id.lemma_millis(millis_of(t), raw@);
            assert(clock.may_show(t));
        }
        id
    }

    /// The id of a timestamp, of which the low 48 bits count, and entropy.
    pub fn from_millis_and_entropy(ms: u64, entropy: [u8; 18]) -> (r: Self)
        ensures
            r@ == id_bytes(ms, entropy@),
    {
        Self::assemble(ms, &entropy)
    }

    #[verifier::spinoff_prover]
    fn assemble(ms: u64, entropy: &[u8]) -> (r: Self)
        requires
            entropy@.len() == 18,
        ensures
            r@ == id_bytes(ms, entropy@),
    {
        let stamp: u64 = ms % 0x1_0000_0000_0000;
        let w0: u64 = stamp * 0x1_0000 + entropy[0] as u64 * 0x100 + entropy[1] as u64;
        let id: OperationId = OperationId {
            w0,
            w1: get_u64(entropy, 2),
            w2: get_u64(entropy, 10),
        };
        proof {
            lemma_first_word(stamp, entropy@[0], entropy@[1], w0);
            lemma_be_len(stamp as nat, 6);
            assert(id@ =~= id_bytes(ms, entropy@));
        }
        id
    }

    proof fn lemma_millis(self, ms: u64, entropy: Seq<u8>)
        requires
            self@ == id_bytes(ms, entropy),
        ensures
            id_millis(self@) == ms % 0x1_0000_0000_0000,
    {
        let stamp = (ms % 0x1_0000_0000_0000) as nat;
        lemma_be_len(stamp, 6);
        assert(self@.take(6) =~= be(stamp, 6));
        reveal_with_fuel(pow256, 7);
        lemma_from_be_of_be(stamp, 6);
    }

    /// `op_` and the 39 characters of the id.
    pub open spec fn text(self) -> Seq<char> {
        "op_"@ + crockford_text(self@)
    }

    pub fn to_string(&self) -> (r: String)
        ensures
            r@ == self.text(),
    {
        let mut buf: Vec<u8> = Vec::new();
        put_u64(&mut buf, self.w0);
        put_u64(&mut buf, self.w1);
        put_u64(&mut buf, self.w2);
        proof {
            lemma_operation_id_view(*self);
            assert(buf@ =~= self@);
        }
        let body: String = crockford_encode(&buf);
        let mut s: String = "op_".to_owned();
        s.append(&body);
        s
    }

    /// Reads the text of an id. Either case is read, and so are I and L
    /// for 1 and O for 0.
    pub fn parse(s: &str) -> (r: Result<Self>)
        ensures
            match r {
                Ok(id) => exists|body: Seq<char>|
                    s@ == "op_"@ + body && is_id_body(body) && id@ == crockford_bytes(
                        #[trigger] encode_utf8(body),
                    ),
                Err(e) => e@ == ErrorView::InvalidFormat(operation_id_fault(s@)) && forall|
                    body: Seq<char>,
                |
                    s@ == "op_"@ + body ==> !#[trigger] is_id_body(body),
            },
    {
        proof {
            reveal_strlit("op_");
        }
        let body: &str = match strip_prefix(s, "op_") {
            None => {
                assert forall|b: Seq<char>| s@ == "op_"@ + b implies !#[trigger] is_id_body(b) by {
                    lemma_prefix_unique(s@, "op_"@, b, b);
                }
                return Err(invalid_format("operation id must start with op_"));
            },
            Some(b) => b,
        };
        proof {
            assert forall|b: Seq<char>| s@ == "op_"@ + b implies b == body@ by {
                lemma_prefix_unique(s@, "op_"@, b, body@);
            }
            assert(s@.skip(3) =~= body@);
            assert("op_"@.is_prefix_of(s@));
        }
        let raw: &[u8] = body.as_bytes();
        if raw.len() != 39 {
            return Err(invalid_format("operation id body must be 39 Crockford characters"));
        }
        let n: usize = body.unicode_len();
        let mut i: usize = 0;
        while i < n
            invariant
                i <= n == body@.len(),
                encode_utf8(body@).len() == 39,
                s@.skip(3) == body@,
                "op_"@.is_prefix_of(s@),
                first_stray(body@, 0) == first_stray(body@, i as nat),
                forall|j: int| 0 <= j < i ==> taken_for_crockford(#[trigger] body@[j]),
                forall|b: Seq<char>| s@ == "op_"@ + b ==> b == body@,
            decreases n - i,
        {
            if !takes_for_crockford(body.get_char(i)) {
                let c: &str = body.substring_char(i, i + 1);
                proof {
                    assert(c@ =~= seq![body@[i as int]]);
                    if is_id_body(body@) {
                        is_ascii_chars_encode_utf8(body@);
                        assert(is_crockford(encode_utf8(body@)[i as int]));
                    }
                }
                return Err(CoreError::InvalidFormat(join2("invalid Crockford character ", c)));
            }
            i = i + 1;
        }
        if !body.is_ascii() {
            return Err(invalid_format("operation id decoded length"));
        }
        proof {
            is_ascii_chars_encode_utf8(body@);
            assert forall|j: int| 0 <= j < 39 implies is_crockford(#[trigger] raw@[j]) by {
                assert(taken_for_crockford(body@[j]));
            }
        }
        let v: Vec<u8> = crockford_decode(raw);
        let id: OperationId = OperationId {
            w0: get_u64(&v, 0),
            w1: get_u64(&v, 8),
            w2: get_u64(&v, 16),
        };
        assert(id@ =~= v@);
        assert(encode_utf8(body@) == raw@);
        Ok(id)
    }

    pub fn issued_at_millis(&self) -> (r: u64)
        ensures
            r == id_millis(self@),
            r < 0x1_0000_0000_0000,
    {
        proof {
            lemma_word_millis(self.w0);
            assert(self@.take(6) =~= be64(self.w0).take(6));
        }
        self.w0 / 0x1_0000
    }

    /// The moment of the timestamp.
    pub fn issued_at(&self) -> (r: Timestamp)
        ensures
            r@ == id_millis(self@) * 1_000_000,
    {
        let ms: u64 = self.issued_at_millis();
        match Timestamp::from_nanos(ms as i128 * 1_000_000) {
            Some(t) => t,
            None => Timestamp::epoch(),
        }
    }

    /// When the id stops being known.
    pub fn expires_at(&self, policy: &OperationPolicy) -> (r: Timestamp)
        requires
            is_moment(id_millis(self@) * 1_000_000 + policy.window),
        ensures
            r@ == id_millis(self@) * 1_000_000 + policy.window,
    {
        self.issued_at().plus(policy.window)
    }

    /// Whether the id can be used at `now`. `had_intent` says whether a
    /// durable record of it already exists.
    pub fn check_time(&self, now: Timestamp, policy: &OperationPolicy, had_intent: bool) -> (r:
        Result<()>)
        requires
            is_moment(now@ + policy.max_future_skew),
            is_moment(id_millis(self@) * 1_000_000 + policy.window),
            is_moment(id_millis(self@) * 1_000_000 + policy.first_use),
        ensures
            r is Ok <==> id_millis(self@) * 1_000_000 <= now@ + policy.max_future_skew && now@
                < id_millis(self@) * 1_000_000 + policy.window && (had_intent || now@ <= id_millis(
                self@,
            ) * 1_000_000 + policy.first_use),
            (r matches Err(e) && e is InvalidFormat) <==> id_millis(self@) * 1_000_000 > now@
                + policy.max_future_skew,
            match time_verdict(id_millis(self@), now@, *policy, had_intent) {
                TimeVerdict::TooEarly => r matches Err(e) && e@ == too_early(self.text()),
                TimeVerdict::Unknown => r matches Err(
                    CoreError::UnknownOperation { id, expired_at },
                ) && id@ == self.text() && (forall|t: Timestamp|
                    t@ == id_millis(self@) * 1_000_000 + policy.window ==> expired_at@
                        == #[trigger] t.text()),
                TimeVerdict::Usable => r is Ok,
            },
    {
        let issued: Timestamp = self.issued_at();
        let horizon: Timestamp = now.plus(policy.max_future_skew);
        if issued.after(&horizon) {
            let m: String = join3("operation id ", &self.to_string(), " is too far in the future");
            return Err(CoreError::InvalidFormat(m));
        }
        let expired_at: Timestamp = self.expires_at(policy);
        if !expired_at.after(&now) || (!had_intent && now.after(&issued.plus(policy.first_use))) {
            proof {
                assert forall|t: Timestamp| t@ == expired_at@ implies t.text() == expired_at.text() by {
                    crate::time::lemma_timestamp_injective(t, expired_at);
                }
            }
            return Err(
                CoreError::UnknownOperation {
                    id: self.to_string(),
                    expired_at: expired_at.to_rfc3339(),
                },
            );
        }
        Ok(())
    }
}

/// Whether `body` is 39 Crockford characters.
pub open spec fn is_id_body(body: Seq<char>) -> bool {
    &&& is_ascii_chars(body)
    &&& encode_utf8(body).len() == 39
    &&& forall|i: int| 0 <= i < 39 ==> is_crockford(#[trigger] encode_utf8(body)[i])
}

/// What the time says of an id.
pub enum TimeVerdict {
    TooEarly,
    Unknown,
    Usable,
}

/// What is said of an id that is too far in the future.
pub open spec fn too_early(id: Seq<char>) -> ErrorView {
    ErrorView::InvalidFormat("operation id "@ + id + " is too far in the future"@)
}

/// An id issued `millis` milliseconds after the epoch, looked at `now`
/// nanoseconds after it: too early while it is further ahead than the skew,
/// unknown once its window is over, and unknown without a durable record
/// once its time of first use is over.
pub open spec fn time_verdict(
    millis: nat,
    now: int,
    policy: OperationPolicy,
    had_intent: bool,
) -> TimeVerdict {
    let issued = millis * 1_000_000;
    if issued > now + policy.max_future_skew {
        TimeVerdict::TooEarly
    } else if now >= issued + policy.window || (!had_intent && now > issued + policy.first_use) {
        TimeVerdict::Unknown
    } else {
        TimeVerdict::Usable
    }
}

/// Reading the text of an operation id gives the id back, and its
/// timestamp is the low 48 bits of the milliseconds that it was made from.
pub proof fn law_operation_id_roundtrip(id: OperationId, body: Seq<char>)
    requires
        id.text() == "op_"@ + body,
    ensures
        is_id_body(body),
        crockford_bytes(encode_utf8(body)) == id@,
{
    lemma_prefix_unique(id.text(), "op_"@, body, crockford_text(id@));
    lemma_operation_id_view(id);
    lemma_crockford_roundtrip(id@);
}

/// Two operation ids never have one text.
pub proof fn law_operation_id_text_injective(a: OperationId, b: OperationId)
    requires
        a.text() == b.text(),
    ensures
        a == b,
{
    let body = crockford_text(a@);
    law_operation_id_roundtrip(a, body);
    law_operation_id_roundtrip(b, body);
    lemma_operation_id_injective(a, b);
}

/// An id that was made from a timestamp and entropy carries both.
pub proof fn law_operation_id_carries_its_parts(id: OperationId, ms: u64, entropy: Seq<u8>)
    requires
        entropy.len() == 18,
        id@ == id_bytes(ms, entropy),
    ensures
        id_millis(id@) == ms % 0x1_0000_0000_0000,
        id@.skip(6) == entropy,
{
    id.lemma_millis(ms, entropy);
    lemma_be_len((ms % 0x1_0000_0000_0000) as nat, 6);
    assert(id@.skip(6) =~= entropy);
}

/// An id with a durable record is usable through its whole window, however
/// short the time of first use is: from the skew before it was issued on, and
/// until the window is over.
pub proof fn law_recorded_id_is_usable_through_its_window(
    millis: nat,
    now: int,
    policy: OperationPolicy,
)
    ensures
        time_verdict(millis, now, policy, true) is Usable <==> millis * 1_000_000 <= now
            + policy.max_future_skew && now < millis * 1_000_000 + policy.window,
{
}

/// An id without a record is usable where one with a record is, as long as
/// its time of first use is not over.
pub proof fn law_new_id_is_usable_at_first(millis: nat, now: int, policy: OperationPolicy)
    ensures
        time_verdict(millis, now, policy, false) is Usable <==> millis * 1_000_000 <= now
            + policy.max_future_skew && now < millis * 1_000_000 + policy.window && now <= millis
            * 1_000_000 + policy.first_use,
        time_verdict(millis, now, policy, false) is Usable ==> time_verdict(
            millis,
            now,
            policy,
            true,
        ) is Usable,
{
}

/// An id is refused as too early only while it is further ahead than clocks
/// may differ, and as unknown only once one of its times is over.
pub proof fn law_refused_id_is_early_or_over(
    millis: nat,
    now: int,
    policy: OperationPolicy,
    had_intent: bool,
)
    ensures
        time_verdict(millis, now, policy, had_intent) is TooEarly <==> millis * 1_000_000 - now
            > policy.max_future_skew,
        time_verdict(millis, now, policy, had_intent) is Unknown ==> now - millis * 1_000_000
            >= policy.window || (!had_intent && now - millis * 1_000_000 > policy.first_use),
{
}

/// Once an id is unknown it stays unknown, whatever is recorded of it later.
pub proof fn law_unknown_is_final(millis: nat, now: int, later: int, policy: OperationPolicy)
    requires
        time_verdict(millis, now, policy, true) is Unknown,
        now <= later,
    ensures
        time_verdict(millis, later, policy, true) is Unknown,
        time_verdict(millis, later, policy, false) is Unknown,
{
}

/// Opaque stable append key of 1 to 512 bytes. Its text is `sk_` and
/// lowercase hexadecimal.
#[derive(Debug)]
pub struct StableKey {
    bytes: Vec<u8>,
}

impl View for StableKey {
    type V = Seq<u8>;

    closed spec fn view(&self) -> Seq<u8> {
        self.bytes@
    }
}

impl Clone for StableKey {
    fn clone(&self) -> (r: Self)
        ensures
            r@ == self@,
    {
        proof {
            use_type_invariant(self);
        }
        StableKey { bytes: copy_bytes(&self.bytes) }
    }
}

impl PartialEq for StableKey {
    fn eq(&self, other: &Self) -> (r: bool) {
        same_bytes(&self.bytes, &other.bytes)
    }
}

impl vstd::std_specs::cmp::PartialEqSpecImpl for StableKey {
    open spec fn obeys_eq_spec() -> bool {
        true
    }

    open spec fn eq_spec(&self, other: &Self) -> bool {
        self@ == other@
    }
}

/// Whether `bytes` can be a stable key.
pub open spec fn is_stable_key(bytes: Seq<u8>) -> bool {
    1 <= bytes.len() <= MAX_STABLE_KEY_BYTES
}

/// The bytes that the hash of `fields` in `domain` is taken of.
pub open spec fn domain_bytes(domain: Seq<u8>, fields: Seq<Seq<u8>>) -> Seq<u8> {
    framed(domain) + be64(fields.len() as u64) + framed_all(fields)
}

/// The hash of `fields` in `domain`.
pub open spec fn domain_digest(key: DigestKey, domain: Seq<char>, fields: Seq<Seq<u8>>) -> Digest {
    digest_of(key, domain_bytes(encode_utf8(domain), fields))
}

/// Where the stable key `stable` of a log stands in the log's index.
pub open spec fn stable_path(
    key: DigestKey,
    tenant: Seq<char>,
    log: Seq<char>,
    stable: Seq<u8>,
) -> Digest {
    domain_digest(
        key,
        "comb.log.stable-key-path/v1"@,
        seq![encode_utf8(tenant), encode_utf8(log), stable],
    )
}

/// The hash that a stable append is compared by.
pub open spec fn stable_payload_hash(key: DigestKey, payload: Seq<u8>) -> Digest {
    domain_digest(key, "comb.log.stable-payload/v1"@, seq![payload])
}

/// The hash of a stable append request.
pub open spec fn stable_request_hash(
    key: DigestKey,
    tenant: Seq<char>,
    log: Seq<char>,
    stable: Seq<u8>,
    payload_hash: Digest,
) -> Digest {
    domain_digest(
        key,
        "comb.log.append-stable/v1"@,
        seq![encode_utf8(tenant), encode_utf8(log), stable, payload_hash@],
    )
}

/// Length-prefixed domain-separated hash.
pub fn domain_hash(key: &DigestKey, domain: &str, fields: &[&[u8]]) -> (r: Digest)
    ensures
        r == domain_digest(*key, domain@, fields@.map_values(|f: &[u8]| f@)),
{
    let ghost all = fields@.map_values(|f: &[u8]| f@);
    let mut buf: Vec<u8> = Vec::new();
    put_bytes(&mut buf, domain.as_bytes());
    put_u64(&mut buf, fields.len() as u64);
    let ghost head = framed(encode_utf8(domain@)) + be64(fields@.len() as u64);
    assert(buf@ =~= head);
    let mut i: usize = 0;
    while i < fields.len()
        invariant
            i <= fields@.len(),
            all == fields@.map_values(|f: &[u8]| f@),
            buf@ == head + framed_all(all.take(i as int)),
        decreases fields@.len() - i,
    {
        put_bytes(&mut buf, fields[i]);
        proof {
            assert(all.take(i + 1).drop_last() =~= all.take(i as int));
            assert(buf@ =~= head + framed_all(all.take(i + 1)));
        }
        i = i + 1;
    }
    assert(all.take(i as int) =~= all);
    key.digest(&buf)
}

/// What reading a text that is not the hexadecimal text of a stable key
/// gives.
pub open spec fn stable_hex_error(s: Seq<char>) -> ErrorView {
    let n = encode_utf8(s).len();
    if n > 1024 {
        ErrorView::Rejected("stable key hex exceeds 1024 characters"@)
    } else if n % 2 != 0 {
        ErrorView::InvalidFormat("stable key hex must have even length"@)
    } else if !is_hex(encode_utf8(s)) {
        ErrorView::InvalidFormat("stable key hex: "@ + hex_complaint(s))
    } else {
        ErrorView::Rejected("stable key must be 1..512 bytes"@)
    }
}

impl StableKey {
    #[verifier::type_invariant]
    spec fn inv(self) -> bool {
        is_stable_key(self.bytes@)
    }

    /// A key made of `bytes`, if there are 1 to 512 of them.
    pub fn try_from_canonical(bytes: Vec<u8>) -> (r: Result<Self>)
        ensures
            r is Ok <==> is_stable_key(bytes@),
            r is Ok <==> 1 <= bytes@.len() <= 512,
            r matches Ok(k) ==> k@ == bytes@,
            r matches Err(e) ==> (e matches CoreError::Rejected(m) && m@
                == "stable key must be 1..512 bytes"@),
    {
        if bytes.len() == 0 || bytes.len() > MAX_STABLE_KEY_BYTES {
            return Err(rejected("stable key must be 1..512 bytes"));
        }
        Ok(StableKey { bytes })
    }

    pub fn as_bytes(&self) -> (r: &[u8])
        ensures
            r@ == self@,
            is_stable_key(r@),
    {
        proof {
            use_type_invariant(self);
        }
        &self.bytes
    }

    pub fn to_hex(&self) -> (r: String)
        ensures
            r@ == hex_text(self@),
    {
        hex_encode(&self.bytes)
    }

    /// Reads a key from hexadecimal text. The length is bounded before the
    /// text is decoded.
    pub fn from_hex(s: &str) -> (r: Result<Self>)
        ensures
            r is Ok <==> is_hex(encode_utf8(s@)) && 0 < encode_utf8(s@).len() <= 1024,
            r matches Ok(k) ==> k@ == hex_bytes(encode_utf8(s@)),
            r matches Err(e) ==> e@ == stable_hex_error(s@),
    {
        let raw: &[u8] = s.as_bytes();
        if raw.len() > MAX_STABLE_KEY_BYTES * 2 {
            return Err(rejected("stable key hex exceeds 1024 characters"));
        }
        if raw.len() % 2 != 0 {
            return Err(invalid_format("stable key hex must have even length"));
        }
        match hex_decode(s) {
            Err(e) => Err(CoreError::InvalidFormat(join2("stable key hex: ", &e))),
            Ok(v) => Self::try_from_canonical(v),
        }
    }

    /// Reads the text of a key.
    pub fn parse(s: &str) -> (r: Result<Self>)
        ensures
            r matches Ok(k) ==> exists|rest: Seq<char>|
                s@ == "sk_"@ + rest && is_hex(#[trigger] encode_utf8(rest)) && k@ == hex_bytes(
                    encode_utf8(rest),
                ) && is_stable_key(k@),
            r matches Err(e) ==> e@ == stable_key_fault(s@) && forall|rest: Seq<char>|
                s@ == "sk_"@ + rest ==> !(is_hex(#[trigger] encode_utf8(rest)) && 0 < encode_utf8(
                    rest,
                ).len() <= 1024),
    {
        proof {
            reveal_strlit("sk_");
        }
        match strip_prefix(s, "sk_") {
            None => {
                assert forall|rest: Seq<char>| s@ == "sk_"@ + rest implies false by {
                    lemma_prefix_unique(s@, "sk_"@, rest, rest);
                }
                Err(invalid_format("stable key must start with sk_"))
            },
            Some(rest) => {
                proof {
                    assert forall|b: Seq<char>| s@ == "sk_"@ + b implies b == rest@ by {
                        lemma_prefix_unique(s@, "sk_"@, b, rest@);
                    }
                    lemma_prefix_unique(s@, "sk_"@, rest@, rest@);
                    assert(s@.skip(3) =~= rest@);
                    assert("sk_"@.is_prefix_of(s@));
                }
                Self::from_hex(rest)
            },
        }
    }

    pub open spec fn text(self) -> Seq<char> {
        "sk_"@ + hex_text(self@)
    }

    pub fn to_string(&self) -> (r: String)
        ensures
            r@ == self.text(),
    {
        let h: String = self.to_hex();
        let mut s: String = "sk_".to_owned();
        s.append(&h);
        s
    }

    pub fn path_digest(&self, key: &DigestKey, tenant: &str, logical_log: &str) -> (r: Digest)
        ensures
            r == stable_path(*key, tenant@, logical_log@, self@),
            r == domain_digest(
                *key,
                "comb.log.stable-key-path/v1"@,
                seq![encode_utf8(tenant@), encode_utf8(logical_log@), self@],
            ),
    {
        let fields: [&[u8]; 3] = [tenant.as_bytes(), logical_log.as_bytes(), self.as_bytes()];
        let r: Digest = domain_hash(key, "comb.log.stable-key-path/v1", &fields);
        assert(fields@.map_values(|f: &[u8]| f@) =~= seq![
            encode_utf8(tenant@),
            encode_utf8(logical_log@),
            self@,
        ]);
        r
    }

    pub fn payload_hash(key: &DigestKey, payload: &[u8]) -> (r: Digest)
        ensures
            r == stable_payload_hash(*key, payload@),
            r == domain_digest(*key, "comb.log.stable-payload/v1"@, seq![payload@]),
    {
        let fields: [&[u8]; 1] = [payload];
        let r: Digest = domain_hash(key, "comb.log.stable-payload/v1", &fields);
        assert(fields@.map_values(|f: &[u8]| f@) =~= seq![payload@]);
        r
    }

    pub fn request_hash(
        &self,
        key: &DigestKey,
        tenant: &str,
        logical_log: &str,
        payload_hash: &Digest,
    ) -> (r: Digest)
        ensures
            r == stable_request_hash(*key, tenant@, logical_log@, self@, *payload_hash),
            r == domain_digest(
                *key,
                "comb.log.append-stable/v1"@,
                seq![encode_utf8(tenant@), encode_utf8(logical_log@), self@, payload_hash@],
            ),
    {
        let raw: [u8; 32] = payload_hash.raw();
        let fields: [&[u8]; 4] = [
            tenant.as_bytes(),
            logical_log.as_bytes(),
            self.as_bytes(),
            &raw,
        ];
        let r: Digest = domain_hash(key, "comb.log.append-stable/v1", &fields);
        assert(fields@.map_values(|f: &[u8]| f@) =~= seq![
            encode_utf8(tenant@),
            encode_utf8(logical_log@),
            self@,
            payload_hash@,
        ]);
        r
    }
}

/// Reading the text of a stable key gives the key back.
pub proof fn law_stable_key_roundtrip(k: StableKey, rest: Seq<char>)
    requires
        k.text() == "sk_"@ + rest,
    ensures
        is_hex(encode_utf8(rest)),
        hex_bytes(encode_utf8(rest)) == k@,
        encode_utf8(rest).len() == 2 * k@.len(),
{
    lemma_prefix_unique(k.text(), "sk_"@, rest, hex_text(k@));
    lemma_hex_roundtrip(k@);
}

/// A domain hash is taken of all its fields and of where each ends: equal
/// input bytes mean the same domain and the same fields.
pub proof fn law_domain_bytes_injective(
    domain: Seq<u8>,
    fields: Seq<Seq<u8>>,
    domain2: Seq<u8>,
    fields2: Seq<Seq<u8>>,
)
    requires
        domain.len() <= u64::MAX,
        domain2.len() <= u64::MAX,
        fields.len() <= u64::MAX,
        fields2.len() <= u64::MAX,
        forall|i: int| 0 <= i < fields.len() ==> (#[trigger] fields[i]).len() <= u64::MAX,
        forall|i: int| 0 <= i < fields2.len() ==> (#[trigger] fields2[i]).len() <= u64::MAX,
        domain_bytes(domain, fields) == domain_bytes(domain2, fields2),
    ensures
        domain == domain2,
        fields == fields2,
{
    lemma_counted(domain, fields, Seq::empty(), domain2, fields2, Seq::empty());
}

/// A framed head, a count and as many framed fields can be told apart,
/// whatever follows.
proof fn lemma_counted(
    head: Seq<u8>,
    fields: Seq<Seq<u8>>,
    rest: Seq<u8>,
    head2: Seq<u8>,
    fields2: Seq<Seq<u8>>,
    rest2: Seq<u8>,
)
    requires
        head.len() <= u64::MAX,
        head2.len() <= u64::MAX,
        fields.len() <= u64::MAX,
        fields2.len() <= u64::MAX,
        forall|i: int| 0 <= i < fields.len() ==> (#[trigger] fields[i]).len() <= u64::MAX,
        forall|i: int| 0 <= i < fields2.len() ==> (#[trigger] fields2[i]).len() <= u64::MAX,
        framed(head) + be64(fields.len() as u64) + framed_all(fields) + rest == framed(head2)
            + be64(fields2.len() as u64) + framed_all(fields2) + rest2,
    ensures
        head == head2,
        fields == fields2,
        rest == rest2,
{
    let a = be64(fields.len() as u64) + framed_all(fields) + rest;
    let b = be64(fields2.len() as u64) + framed_all(fields2) + rest2;
    reveal_with_fuel(framed_all, 2);
    assert(framed_all(seq![head]) =~= framed(head)) by {
        assert(seq![head].drop_last() =~= Seq::<Seq<u8>>::empty());
    }
    assert(framed_all(seq![head2]) =~= framed(head2)) by {
        assert(seq![head2].drop_last() =~= Seq::<Seq<u8>>::empty());
    }
    assert(framed(head) + be64(fields.len() as u64) + framed_all(fields) + rest =~= framed_all(
        seq![head],
    ) + a);
    assert(framed(head2) + be64(fields2.len() as u64) + framed_all(fields2) + rest2
        =~= framed_all(seq![head2]) + b);
    lemma_framed_all_injective(seq![head], seq![head2], a, b);
    assert(seq![head][0] == seq![head2][0]);
    lemma_be_len(fields.len(), 8);
    lemma_be_len(fields2.len(), 8);
    assert(a.take(8) =~= be64(fields.len() as u64));
    assert(b.take(8) =~= be64(fields2.len() as u64));
    lemma_be64_injective(fields.len() as u64, fields2.len() as u64);
    assert(a.skip(8) =~= framed_all(fields) + rest);
    assert(b.skip(8) =~= framed_all(fields2) + rest2);
    lemma_framed_all_injective(fields, fields2, rest, rest2);
}

/// Tenant-local identity used as the intent key and commit attribution.
#[derive(Debug)]
pub enum OpIdentity {
    Generic(OperationId),
    Stable(StableKey),
}

impl Clone for OpIdentity {
    fn clone(&self) -> (r: Self)
        ensures
            r.same(*self),
    {
        match self {
            OpIdentity::Generic(op) => OpIdentity::Generic(*op),
            OpIdentity::Stable(k) => OpIdentity::Stable(k.clone()),
        }
    }
}

impl OpIdentity {
    /// Whether two identities are the same.
    pub open spec fn same(self, other: OpIdentity) -> bool {
        match (self, other) {
            (OpIdentity::Generic(a), OpIdentity::Generic(b)) => a == b,
            (OpIdentity::Stable(a), OpIdentity::Stable(b)) => a@ == b@,
            _ => false,
        }
    }

    /// The text of the identity.
    pub open spec fn text(self) -> Seq<char> {
        match self {
            OpIdentity::Generic(op) => op.text(),
            OpIdentity::Stable(k) => k.text(),
        }
    }

    /// Reads the text of an identity of either kind.
    pub fn parse(s: &str) -> (r: Result<Self>)
        ensures
            r is Ok <==> is_identity_text(s@),
            r matches Ok(OpIdentity::Generic(op)) ==> exists|body: Seq<char>|
                s@ == "op_"@ + body && is_id_body(body) && op@ == crockford_bytes(
                    #[trigger] encode_utf8(body),
                ),
            r matches Ok(OpIdentity::Stable(k)) ==> exists|rest: Seq<char>|
                s@ == "sk_"@ + rest && is_hex(#[trigger] encode_utf8(rest)) && k@ == hex_bytes(
                    encode_utf8(rest),
                ),
            r matches Err(e) ==> e@ == identity_fault(s@),
    {
        proof {
            reveal_strlit("op_");
            reveal_strlit("sk_");
        }
        match strip_prefix(s, "op_") {
            Some(body) => {
                proof {
                    assert(s@[0] == 'o');
                    assert("op_"@.is_prefix_of(s@));
                    assert forall|b: Seq<char>| s@ == "sk_"@ + b implies false by {
                        assert(s@[0] == 's');
                    }
                }
                match OperationId::parse(s) {
                    Ok(op) => Ok(OpIdentity::Generic(op)),
                    Err(e) => Err(e),
                }
            },
            None => {
                proof {
                    assert forall|b: Seq<char>| s@ == "op_"@ + b implies false by {
                        lemma_prefix_unique(s@, "op_"@, b, b);
                    }
                }
                match strip_prefix(s, "sk_") {
                    Some(rest) => {
                        proof {
                            assert forall|b: Seq<char>| s@ == "sk_"@ + b implies b == rest@ by {
                                lemma_prefix_unique(s@, "sk_"@, b, rest@);
                            }
                        }
                        match StableKey::parse(s) {
                            Ok(k) => Ok(OpIdentity::Stable(k)),
                            Err(e) => {
                                assert(s@ == "sk_"@ + rest@ && encode_utf8(rest@).len() >= 0);
                                assert("sk_"@.is_prefix_of(s@));
                                Err(e)
                            },
                        }
                    },
                    None => {
                        proof {
                            assert forall|b: Seq<char>| s@ == "sk_"@ + b implies false by {
                                lemma_prefix_unique(s@, "sk_"@, b, b);
                            }
                        }
                        Err(invalid_format("identity must start with op_ or sk_"))
                    },
                }
            },
        }
    }

    pub fn canonical(&self) -> (r: String)
        ensures
            r@ == self.text(),
    {
        match self {
            OpIdentity::Generic(op) => op.to_string(),
            OpIdentity::Stable(k) => k.to_string(),
        }
    }

    pub fn is_stable(&self) -> (r: bool)
        ensures
            r == (self is Stable),
    {
        match self {
            OpIdentity::Generic(_) => false,
            OpIdentity::Stable(_) => true,
        }
    }

    /// Two hexadecimal characters that spread identities over key space.
    pub fn shard(&self) -> (r: String)
        ensures
            r@ == shard_of(self.text()),
    {
        let text: String = self.canonical();
        let hash: [u8; 32] = blake3_plain(text.as_str().as_bytes());
        let mut first: Vec<u8> = Vec::new();
        first.push(hash[0]);
        assert(first@ =~= plain_blake3(encode_utf8(self.text())).take(1));
        hex_encode(&first)
    }

    /// Whether the identity can be used at `now`. Stable keys always can.
    pub fn check_time(&self, now: Timestamp, policy: &OperationPolicy, had_intent: bool) -> (r:
        Result<()>)
        requires
            self matches OpIdentity::Generic(op) ==> is_moment(now@ + policy.max_future_skew)
                && is_moment(id_millis(op@) * 1_000_000 + policy.window) && is_moment(
                id_millis(op@) * 1_000_000 + policy.first_use,
            ),
        ensures
            self matches OpIdentity::Generic(op) ==> (r is Ok <==> id_millis(op@) * 1_000_000
                <= now@ + policy.max_future_skew && now@ < id_millis(op@) * 1_000_000
                + policy.window && (had_intent || now@ <= id_millis(op@) * 1_000_000
                + policy.first_use)),
            match self {
                OpIdentity::Stable(_) => r is Ok,
                OpIdentity::Generic(op) => match time_verdict(
                    id_millis(op@),
                    now@,
                    *policy,
                    had_intent,
                ) {
                    TimeVerdict::TooEarly => r matches Err(e) && e@ == too_early(op.text()),
                    TimeVerdict::Unknown => r matches Err(
                        CoreError::UnknownOperation { id, expired_at },
                    ) && id@ == op.text() && (forall|t: Timestamp|
                        t@ == id_millis(op@) * 1_000_000 + policy.window ==> expired_at@
                            == #[trigger] t.text()),
                    TimeVerdict::Usable => r is Ok,
                },
            },
    {
        match self {
            OpIdentity::Generic(op) => op.check_time(now, policy, had_intent),
            OpIdentity::Stable(_) => Ok(()),
        }
    }
}

/// The shard of the identity with the given text.
pub open spec fn shard_of(text: Seq<char>) -> Seq<char> {
    hex_text(plain_blake3(encode_utf8(text)).take(1))
}

/// Whether `s` reads as an identity.
pub open spec fn is_identity_text(s: Seq<char>) -> bool {
    (exists|body: Seq<char>| s == "op_"@ + body && #[trigger] is_id_body(body)) || (exists|
        rest: Seq<char>,
    |
        s == "sk_"@ + rest && is_hex(#[trigger] encode_utf8(rest)) && 0 < encode_utf8(rest).len()
            <= 1024)
}

/// What reading a text that names no identity gives.
pub open spec fn identity_fault(s: Seq<char>) -> ErrorView {
    if "op_"@.is_prefix_of(s) {
        ErrorView::InvalidFormat(operation_id_fault(s))
    } else if "sk_"@.is_prefix_of(s) {
        stable_key_fault(s)
    } else {
        ErrorView::InvalidFormat("identity must start with op_ or sk_"@)
    }
}

/// The text of an identity reads as an identity.
pub proof fn law_identity_text(identity: OpIdentity)
    requires
        identity matches OpIdentity::Stable(k) ==> is_stable_key(k@),
    ensures
        is_identity_text(identity.text()),
{
    match identity {
        OpIdentity::Generic(op) => {
            law_operation_id_roundtrip(op, crockford_text(op@));
        },
        OpIdentity::Stable(k) => {
            law_stable_key_roundtrip(k, hex_text(k@));
        },
    }
}

/// Canonical request body for material hashing. It leaves out provider
/// tokens, routes, writer instance, lease epoch, and allocated sequences.
#[derive(Debug)]
pub struct Material {
    pub kind: String,
    pub preconditions: Vec<(String, Vec<u8>)>,
    pub payload: Vec<Vec<u8>>,
}

/// What a material holds.
pub struct MaterialView {
    pub kind: Seq<char>,
    pub preconditions: Seq<(Seq<u8>, Seq<u8>)>,
    pub payload: Seq<Seq<u8>>,
}

impl View for Material {
    type V = MaterialView;

    open spec fn view(&self) -> MaterialView {
        MaterialView {
            kind: self.kind@,
            preconditions: self.preconditions@.map_values(
                |p: (String, Vec<u8>)| (encode_utf8(p.0@), p.1@),
            ),
            payload: self.payload@.map_values(|p: Vec<u8>| p@),
        }
    }
}

/// Whether `a` stands before `b` in the order of byte strings.
pub open spec fn bytes_before(a: Seq<u8>, b: Seq<u8>) -> bool
    decreases a.len(),
{
    if b.len() == 0 {
        false
    } else if a.len() == 0 {
        true
    } else {
        a[0] < b[0] || (a[0] == b[0] && bytes_before(a.drop_first(), b.drop_first()))
    }
}

/// `s`, sorted by name, with `x` placed behind everything of the same name.
pub open spec fn placed(s: Seq<(Seq<u8>, Seq<u8>)>, x: (Seq<u8>, Seq<u8>)) -> Seq<
    (Seq<u8>, Seq<u8>),
>
    decreases s.len(),
{
    if s.len() == 0 || !bytes_before(x.0, s.last().0) {
        s.push(x)
    } else {
        placed(s.drop_last(), x).push(s.last())
    }
}

/// `s` sorted by name; equal names keep their order.
pub open spec fn sorted_by_name(s: Seq<(Seq<u8>, Seq<u8>)>) -> Seq<(Seq<u8>, Seq<u8>)>
    decreases s.len(),
{
    if s.len() == 0 {
        s
    } else {
        placed(sorted_by_name(s.drop_last()), s.last())
    }
}

/// Names and values in a row.
pub open spec fn flattened(s: Seq<(Seq<u8>, Seq<u8>)>) -> Seq<Seq<u8>>
    decreases s.len(),
{
    if s.len() == 0 {
        Seq::empty()
    } else {
        flattened(s.drop_last()).push(s.last().0).push(s.last().1)
    }
}

/// The bytes that the hash of a material is taken of.
pub open spec fn material_bytes(m: MaterialView, tenant: Seq<char>, resource: Seq<char>) -> Seq<
    u8,
> {
    framed(encode_utf8("comb.material/v1"@)) + framed(encode_utf8(tenant)) + framed(
        encode_utf8(m.kind),
    ) + framed(encode_utf8(resource)) + be64(m.preconditions.len() as u64) + framed_all(
        flattened(sorted_by_name(m.preconditions)),
    ) + be64(m.payload.len() as u64) + framed_all(m.payload)
}

/// The hash of a material.
pub open spec fn material_hash(
    key: DigestKey,
    m: MaterialView,
    tenant: Seq<char>,
    resource: Seq<char>,
) -> Digest {
    digest_of(key, material_bytes(m, tenant, resource))
}

fn bytes_less(a: &[u8], b: &[u8]) -> (r: bool)
    ensures
        r == bytes_before(a@, b@),
{
    let mut i: usize = 0;
    assert(a@.skip(0) =~= a@ && b@.skip(0) =~= b@);
    loop
        invariant
            i <= a@.len(),
            i <= b@.len(),
            bytes_before(a@, b@) == bytes_before(a@.skip(i as int), b@.skip(i as int)),
        decreases a@.len() - i,
    {
        if i >= b.len() {
            return false;
        }
        if i >= a.len() {
            return true;
        }
        if a[i] < b[i] {
            return true;
        }
        if a[i] > b[i] {
            return false;
        }
        assert(a@.skip(i as int).drop_first() =~= a@.skip(i + 1));
        assert(b@.skip(i as int).drop_first() =~= b@.skip(i + 1));
        i = i + 1;
    }
}

proof fn lemma_placed_at(s: Seq<(Seq<u8>, Seq<u8>)>, x: (Seq<u8>, Seq<u8>), p: int)
    requires
        0 <= p <= s.len(),
        p > 0 ==> !bytes_before(x.0, s[p - 1].0),
        forall|i: int| p <= i < s.len() ==> bytes_before(x.0, (#[trigger] s[i]).0),
    ensures
        placed(s, x) == s.insert(p, x),
    decreases s.len(),
{
    if p == s.len() {
        assert(s.insert(p, x) =~= s.push(x));
    } else {
        assert(bytes_before(x.0, s[s.len() - 1].0));
        lemma_placed_at(s.drop_last(), x, p);
        assert(s.drop_last().insert(p, x).push(s.last()) =~= s.insert(p, x));
    }
}

impl Material {
    /// The order in which the preconditions are hashed.
    fn order(&self) -> (r: Vec<usize>)
        ensures
            r@.len() == self.preconditions@.len(),
            forall|i: int| 0 <= i < r@.len() ==> #[trigger] r@[i] < self.preconditions@.len(),
            r@.map_values(|k: usize| self@.preconditions[k as int]) == sorted_by_name(
                self@.preconditions,
            ),
    {
        let ghost all = self@.preconditions;
        let ghost at = |k: usize| all[k as int];
        let mut order: Vec<usize> = Vec::new();
        let mut k: usize = 0;
        assert(all.take(0) =~= Seq::<(Seq<u8>, Seq<u8>)>::empty());
        assert(order@.map_values(at) =~= sorted_by_name(all.take(0)));
        while k < self.preconditions.len()
            invariant
                k <= self.preconditions@.len(),
                all == self@.preconditions,
                all.len() == self.preconditions@.len(),
                at == (|k: usize| all[k as int]),
                order@.len() == k,
                forall|i: int| 0 <= i < order@.len() ==> #[trigger] order@[i] < k,
                order@.map_values(at) == sorted_by_name(all.take(k as int)),
            decreases self.preconditions@.len() - k,
        {
            let mut p: usize = k;
            let ghost sofar = order@.map_values(at);
            while p > 0 && bytes_less(
                self.preconditions[k].0.as_str().as_bytes(),
                self.preconditions[order[p - 1]].0.as_str().as_bytes(),
            )
                invariant
                    k < self.preconditions@.len(),
                    all == self@.preconditions,
                    at == (|k: usize| all[k as int]),
                    order@.len() == k,
                    sofar == order@.map_values(at),
                    p <= k,
                    forall|i: int| 0 <= i < order@.len() ==> #[trigger] order@[i] < k,
                    forall|i: int|
                        p <= i < sofar.len() ==> bytes_before(
                            all[k as int].0,
                            (#[trigger] sofar[i]).0,
                        ),
                decreases p,
            {
                p = p - 1;
            }
            proof {
                if p > 0 {
                    assert(sofar[p - 1] == all[order@[p - 1] as int]);
                }
                lemma_placed_at(sofar, all[k as int], p as int);
                assert(all.take(k + 1).drop_last() =~= all.take(k as int));
                assert(order@.insert(p as int, k).map_values(at) =~= sofar.insert(
                    p as int,
                    all[k as int],
                ));
            }
            let ghost was = order@;
            order.insert(p, k);
            assert forall|i: int| 0 <= i < order@.len() implies #[trigger] order@[i] < k + 1 by {
                if i < p {
                    assert(order@[i] == was[i]);
                } else if i > p {
                    assert(order@[i] == was[i - 1]);
                }
            }
            k = k + 1;
        }
        assert(all.take(k as int) =~= all);
        assert(order@.map_values(|k: usize| self@.preconditions[k as int]) =~= order@.map_values(
            at,
        ));
        order
    }

    /// The hash of the material for a resource of a tenant.
    pub fn hash(&self, key: &DigestKey, tenant: &str, resource: &str) -> (r: Digest)
        ensures
            r == material_hash(*key, self@, tenant@, resource@),
    {
        let mut buf: Vec<u8> = Vec::new();
        put_bytes(&mut buf, "comb.material/v1".as_bytes());
        put_bytes(&mut buf, tenant.as_bytes());
        put_bytes(&mut buf, self.kind.as_str().as_bytes());
        put_bytes(&mut buf, resource.as_bytes());
        let order: Vec<usize> = self.order();
        put_u64(&mut buf, order.len() as u64);
        let ghost head = buf@;
        let ghost sorted = sorted_by_name(self@.preconditions);
        assert(head =~= framed(encode_utf8("comb.material/v1"@)) + framed(encode_utf8(tenant@))
            + framed(encode_utf8(self.kind@)) + framed(encode_utf8(resource@)) + be64(
            self.preconditions@.len() as u64,
        ));
        let mut i: usize = 0;
        assert(sorted.take(0) =~= Seq::<(Seq<u8>, Seq<u8>)>::empty());
        assert(buf@ =~= head + framed_all(flattened(sorted.take(0))));
        while i < order.len()
            invariant
                i <= order@.len(),
                order@.len() == self.preconditions@.len(),
                forall|j: int|
                    0 <= j < order@.len() ==> #[trigger] order@[j] < self.preconditions@.len(),
                order@.map_values(|k: usize| self@.preconditions[k as int]) == sorted,
                buf@ == head + framed_all(flattened(sorted.take(i as int))),
            decreases order@.len() - i,
        {
            let k: usize = order[i];
            put_bytes(&mut buf, self.preconditions[k].0.as_str().as_bytes());
            put_bytes(&mut buf, &self.preconditions[k].1);
            proof {
                assert(sorted[i as int] == self@.preconditions[k as int]) by {
                    assert(order@.map_values(|k: usize| self@.preconditions[k as int])[i as int]
                        == self@.preconditions[order@[i as int] as int]);
                }
                assert(sorted.take(i + 1).drop_last() =~= sorted.take(i as int));
                let f = flattened(sorted.take(i as int));
                let n = sorted[i as int].0;
                let v = sorted[i as int].1;
                assert(f.push(n).push(v).drop_last() =~= f.push(n));
                assert(f.push(n).drop_last() =~= f);
                assert(framed_all(f.push(n)) == framed_all(f) + framed(n));
                assert(framed_all(f.push(n).push(v)) == framed_all(f.push(n)) + framed(v));
                assert(flattened(sorted.take(i + 1)) == f.push(n).push(v));
                assert(buf@ =~= head + framed_all(flattened(sorted.take(i + 1))));
            }
            i = i + 1;
        }
        assert(sorted.take(i as int) =~= sorted);
        put_u64(&mut buf, self.payload.len() as u64);
        let ghost mid = buf@;
        let ghost all = self@.payload;
        let mut j: usize = 0;
        assert(all.take(0) =~= Seq::<Seq<u8>>::empty());
        assert(buf@ =~= mid + framed_all(all.take(0)));
        while j < self.payload.len()
            invariant
                j <= self.payload@.len(),
                all == self@.payload,
                buf@ == mid + framed_all(all.take(j as int)),
            decreases self.payload@.len() - j,
        {
            put_bytes(&mut buf, &self.payload[j]);
            proof {
                assert(all.take(j + 1).drop_last() =~= all.take(j as int));
                assert(buf@ =~= mid + framed_all(all.take(j + 1)));
            }
            j = j + 1;
        }
        assert(all.take(j as int) =~= all);
        assert(buf@ =~= material_bytes(self@, tenant@, resource@));
        key.digest(&buf)
    }
}

/// A material hash is taken of everything passed in: materials, tenants and
/// resources with the same input bytes agree on the tenant, the kind, the
/// resource, the preconditions up to the order of different names, and the
/// payload.
pub proof fn law_material_bytes_injective(
    a: MaterialView,
    tenant: Seq<char>,
    resource: Seq<char>,
    b: MaterialView,
    tenant2: Seq<char>,
    resource2: Seq<char>,
)
    requires
        fits(a, tenant, resource),
        fits(b, tenant2, resource2),
        material_bytes(a, tenant, resource) == material_bytes(b, tenant2, resource2),
    ensures
        tenant == tenant2,
        resource == resource2,
        a.kind == b.kind,
        sorted_by_name(a.preconditions) == sorted_by_name(b.preconditions),
        a.payload == b.payload,
{
    let tag = encode_utf8("comb.material/v1"@);
    let fa = seq![tag, encode_utf8(tenant), encode_utf8(a.kind), encode_utf8(resource)];
    let fb = seq![tag, encode_utf8(tenant2), encode_utf8(b.kind), encode_utf8(resource2)];
    let ra = material_rest(a);
    let rb = material_rest(b);
    lemma_framed_four(fa[0], fa[1], fa[2], fa[3]);
    lemma_framed_four(fb[0], fb[1], fb[2], fb[3]);
    assert(material_bytes(a, tenant, resource) =~= framed_all(fa) + ra);
    assert(material_bytes(b, tenant2, resource2) =~= framed_all(fb) + rb);
    reveal_strlit("comb.material/v1");
    assert(is_ascii_chars("comb.material/v1"@));
    is_ascii_chars_encode_utf8("comb.material/v1"@);
    lemma_framed_all_injective(fa, fb, ra, rb);
    assert(fa[1] == fb[1] && fa[2] == fb[2] && fa[3] == fb[3]);
    encode_utf8_decode_utf8(tenant);
    encode_utf8_decode_utf8(tenant2);
    encode_utf8_decode_utf8(resource);
    encode_utf8_decode_utf8(resource2);
    encode_utf8_decode_utf8(a.kind);
    encode_utf8_decode_utf8(b.kind);
    lemma_material_rest_injective(a, b);
}

proof fn lemma_before_total(a: Seq<u8>, b: Seq<u8>)
    ensures
        !(bytes_before(a, b) && bytes_before(b, a)),
        !bytes_before(a, a),
        !bytes_before(a, b) && !bytes_before(b, a) ==> a == b,
    decreases a.len(),
{
    if a.len() > 0 {
        lemma_before_total(a.drop_first(), a.drop_first());
    }
    if a.len() > 0 && b.len() > 0 {
        lemma_before_total(a.drop_first(), b.drop_first());
        if a[0] == b[0] && a.drop_first() == b.drop_first() {
            assert(a =~= seq![a[0]] + a.drop_first());
            assert(b =~= seq![b[0]] + b.drop_first());
        }
    } else if a.len() == 0 && b.len() == 0 {
        assert(a =~= b);
    }
}

proof fn lemma_before_transitive(a: Seq<u8>, b: Seq<u8>, c: Seq<u8>)
    requires
        bytes_before(a, b),
        bytes_before(b, c),
    ensures
        bytes_before(a, c),
    decreases a.len(),
{
    if a.len() > 0 && a[0] == b[0] && b[0] == c[0] {
        lemma_before_transitive(a.drop_first(), b.drop_first(), c.drop_first());
    }
}

/// Whether no two of `s` have the same name.
pub open spec fn names_differ(s: Seq<(Seq<u8>, Seq<u8>)>) -> bool {
    forall|i: int, j: int| 0 <= i < j < s.len() ==> (#[trigger] s[i]).0 != (#[trigger] s[j]).0
}

spec fn rises(s: Seq<(Seq<u8>, Seq<u8>)>) -> bool {
    forall|i: int, j: int|
        0 <= i < j < s.len() ==> bytes_before((#[trigger] s[i]).0, (#[trigger] s[j]).0)
}

proof fn lemma_placed_rises(s: Seq<(Seq<u8>, Seq<u8>)>, x: (Seq<u8>, Seq<u8>))
    requires
        rises(s),
        forall|i: int| 0 <= i < s.len() ==> (#[trigger] s[i]).0 != x.0,
    ensures
        rises(placed(s, x)),
        placed(s, x).to_multiset() == s.to_multiset().insert(x),
        forall|y: (Seq<u8>, Seq<u8>)| #[trigger]
            placed(s, x).contains(y) ==> y == x || s.contains(y),
    decreases s.len(),
{
    s.to_multiset_ensures();
    let r = placed(s, x);
    if s.len() == 0 || !bytes_before(x.0, s.last().0) {
        assert forall|i: int, j: int| 0 <= i < j < r.len() implies bytes_before(
            (#[trigger] r[i]).0,
            (#[trigger] r[j]).0,
        ) by {
            if j == s.len() {
                lemma_before_total(x.0, s.last().0);
                if i < s.len() - 1 {
                    assert(bytes_before(s[i].0, s[s.len() - 1].0));
                    lemma_before_transitive(s[i].0, s.last().0, x.0);
                }
            }
        }
    } else {
        let init = s.drop_last();
        assert(rises(init)) by {
            assert forall|i: int, j: int| 0 <= i < j < init.len() implies bytes_before(
                (#[trigger] init[i]).0,
                (#[trigger] init[j]).0,
            ) by {
                assert(bytes_before(s[i].0, s[j].0));
            }
        }
        lemma_placed_rises(init, x);
        let p = placed(init, x);
        p.to_multiset_ensures();
        init.to_multiset_ensures();
        assert(init.push(s.last()) =~= s);
        assert(r.to_multiset() =~= s.to_multiset().insert(x));
        assert forall|i: int, j: int| 0 <= i < j < r.len() implies bytes_before(
            (#[trigger] r[i]).0,
            (#[trigger] r[j]).0,
        ) by {
            if j == p.len() {
                assert(p.contains(p[i]));
                if p[i] != x {
                    let k = choose|k: int| 0 <= k < init.len() && init[k] == p[i];
                    assert(bytes_before(s[k].0, s[s.len() - 1].0));
                }
            } else {
                assert(r[i] == p[i] && r[j] == p[j]);
            }
        }
        assert forall|y: (Seq<u8>, Seq<u8>)| #[trigger] r.contains(y) implies y == x || s.contains(
            y,
        ) by {
            let k = choose|k: int| 0 <= k < r.len() && r[k] == y;
            if k < p.len() {
                assert(p.contains(p[k]));
                if y != x {
                    let q = choose|q: int| 0 <= q < init.len() && init[q] == y;
                    assert(s[q] == y);
                }
            } else {
                assert(s[s.len() - 1] == y);
            }
        }
    }
}

proof fn lemma_sorted_rises(s: Seq<(Seq<u8>, Seq<u8>)>)
    requires
        names_differ(s),
    ensures
        rises(sorted_by_name(s)),
        sorted_by_name(s).to_multiset() == s.to_multiset(),
    decreases s.len(),
{
    if s.len() > 0 {
        let init = s.drop_last();
        assert(names_differ(init)) by {
            assert forall|i: int, j: int| 0 <= i < j < init.len() implies (#[trigger] init[i]).0 != (
            #[trigger] init[j]).0 by {
                assert(s[i].0 != s[j].0);
            }
        }
        lemma_sorted_rises(init);
        let sorted = sorted_by_name(init);
        init.to_multiset_ensures();
        sorted.to_multiset_ensures();
        assert forall|i: int| 0 <= i < sorted.len() implies (#[trigger] sorted[i]).0 != s.last().0 by {
            assert(sorted.contains(sorted[i]));
            assert(sorted.to_multiset().count(sorted[i]) > 0);
            let k = choose|k: int| 0 <= k < init.len() && init[k] == sorted[i];
            assert(s[k].0 != s[s.len() - 1].0);
        }
        lemma_placed_rises(sorted, s.last());
        assert(init.push(s.last()) =~= s);
    }
}

/// The order in which preconditions of different names are given makes no
/// difference: the bytes that are hashed are the same, and so is the hash.
pub proof fn law_order_of_preconditions_is_free(
    a: MaterialView,
    b: MaterialView,
    key: DigestKey,
    tenant: Seq<char>,
    resource: Seq<char>,
)
    requires
        a.kind == b.kind,
        a.payload == b.payload,
        names_differ(a.preconditions),
        names_differ(b.preconditions),
        a.preconditions.to_multiset() == b.preconditions.to_multiset(),
    ensures
        material_bytes(a, tenant, resource) == material_bytes(b, tenant, resource),
        material_hash(key, a, tenant, resource) == material_hash(key, b, tenant, resource),
{
    let x = sorted_by_name(a.preconditions);
    let y = sorted_by_name(b.preconditions);
    lemma_sorted_rises(a.preconditions);
    lemma_sorted_rises(b.preconditions);
    a.preconditions.to_multiset_ensures();
    b.preconditions.to_multiset_ensures();
    lemma_rising_unique(x, y);
}

proof fn lemma_rising_unique(x: Seq<(Seq<u8>, Seq<u8>)>, y: Seq<(Seq<u8>, Seq<u8>)>)
    requires
        rises(x),
        rises(y),
        x.to_multiset() == y.to_multiset(),
    ensures
        x == y,
    decreases x.len(),
{
    x.to_multiset_ensures();
    y.to_multiset_ensures();
    if x.len() > 0 {
        let n = x.len() - 1;
        let a = x[n];
        let b = y[n];
        assert(x.contains(a) && y.contains(b));
        assert(x.to_multiset().count(a) > 0);
        assert(y.to_multiset().count(b) > 0);
        let i = choose|i: int| 0 <= i < y.len() && y[i] == a;
        let j = choose|j: int| 0 <= j < x.len() && x[j] == b;
        lemma_before_total(a.0, b.0);
        assert(a == b) by {
            if i < n && j < n {
                assert(bytes_before(y[i].0, y[n].0));
                assert(bytes_before(x[j].0, x[n].0));
            }
        }
        let p = x.drop_last();
        let q = y.drop_last();
        assert(x.remove(n) =~= p);
        assert(y.remove(n) =~= q);
        assert forall|i: int, j: int| 0 <= i < j < p.len() implies bytes_before(
            (#[trigger] p[i]).0,
            (#[trigger] p[j]).0,
        ) by {
            assert(bytes_before(x[i].0, x[j].0));
        }
        assert forall|i: int, j: int| 0 <= i < j < q.len() implies bytes_before(
            (#[trigger] q[i]).0,
            (#[trigger] q[j]).0,
        ) by {
            assert(bytes_before(y[i].0, y[j].0));
        }
        lemma_rising_unique(p, q);
        assert(x =~= p.push(a));
        assert(y =~= q.push(b));
    } else {
        assert(x =~= y);
    }
}

/// What follows the kind and the resource in the bytes of a material.
spec fn material_rest(m: MaterialView) -> Seq<u8> {
    be64(m.preconditions.len() as u64) + framed_all(flattened(sorted_by_name(m.preconditions)))
        + be64(m.payload.len() as u64) + framed_all(m.payload)
}

proof fn lemma_material_rest_injective(a: MaterialView, b: MaterialView)
    requires
        a.preconditions.len() <= u64::MAX,
        b.preconditions.len() <= u64::MAX,
        a.payload.len() <= u64::MAX,
        b.payload.len() <= u64::MAX,
        all_fit(a.preconditions),
        all_fit(b.preconditions),
        forall|i: int| 0 <= i < a.payload.len() ==> (#[trigger] a.payload[i]).len() <= u64::MAX,
        forall|i: int| 0 <= i < b.payload.len() ==> (#[trigger] b.payload[i]).len() <= u64::MAX,
        material_rest(a) == material_rest(b),
    ensures
        sorted_by_name(a.preconditions) == sorted_by_name(b.preconditions),
        a.payload == b.payload,
{
    let ra = material_rest(a);
    let rb = material_rest(b);
    let sa = sorted_by_name(a.preconditions);
    let sb = sorted_by_name(b.preconditions);
    lemma_be_len(a.preconditions.len(), 8);
    lemma_be_len(b.preconditions.len(), 8);
    assert(ra.take(8) =~= be64(a.preconditions.len() as u64));
    assert(rb.take(8) =~= be64(b.preconditions.len() as u64));
    lemma_be64_injective(a.preconditions.len() as u64, b.preconditions.len() as u64);
    let ta = be64(a.payload.len() as u64) + framed_all(a.payload);
    let tb = be64(b.payload.len() as u64) + framed_all(b.payload);
    assert(ra.skip(8) =~= framed_all(flattened(sa)) + ta);
    assert(rb.skip(8) =~= framed_all(flattened(sb)) + tb);
    lemma_sorted_fits(a.preconditions);
    lemma_sorted_fits(b.preconditions);
    lemma_flattened_fits(sa);
    lemma_flattened_fits(sb);
    lemma_framed_all_injective(flattened(sa), flattened(sb), ta, tb);
    lemma_flattened_injective(sa, sb);
    lemma_be_len(a.payload.len(), 8);
    lemma_be_len(b.payload.len(), 8);
    assert(ta.take(8) =~= be64(a.payload.len() as u64));
    assert(tb.take(8) =~= be64(b.payload.len() as u64));
    lemma_be64_injective(a.payload.len() as u64, b.payload.len() as u64);
    assert(ta.skip(8) =~= framed_all(a.payload) + Seq::<u8>::empty());
    assert(tb.skip(8) =~= framed_all(b.payload) + Seq::<u8>::empty());
    lemma_framed_all_injective(a.payload, b.payload, Seq::empty(), Seq::empty());
}

/// Whether every length in a material can be written in 64 bits.
pub open spec fn fits(m: MaterialView, tenant: Seq<char>, resource: Seq<char>) -> bool {
    &&& encode_utf8(tenant).len() <= u64::MAX
    &&& encode_utf8(resource).len() <= u64::MAX
    &&& encode_utf8(m.kind).len() <= u64::MAX
    &&& m.preconditions.len() <= u64::MAX
    &&& m.payload.len() <= u64::MAX
    &&& all_fit(m.preconditions)
    &&& forall|i: int| 0 <= i < m.payload.len() ==> (#[trigger] m.payload[i]).len() <= u64::MAX
}

/// Whether every name and value can be framed.
pub open spec fn all_fit(s: Seq<(Seq<u8>, Seq<u8>)>) -> bool {
    forall|i: int|
        0 <= i < s.len() ==> (#[trigger] s[i]).0.len() <= u64::MAX && s[i].1.len() <= u64::MAX
}

proof fn lemma_framed_four(a: Seq<u8>, b: Seq<u8>, c: Seq<u8>, d: Seq<u8>)
    ensures
        framed_all(seq![a, b, c, d]) == framed(a) + framed(b) + framed(c) + framed(d),
{
    let s4 = seq![a, b, c, d];
    let s3 = seq![a, b, c];
    let s2 = seq![a, b];
    let s1 = seq![a];
    assert(s4.drop_last() =~= s3);
    assert(s3.drop_last() =~= s2);
    assert(s2.drop_last() =~= s1);
    assert(s1.drop_last() =~= Seq::<Seq<u8>>::empty());
    reveal_with_fuel(framed_all, 5);
    assert(framed_all(s1) =~= framed(a));
    assert(framed_all(s4) =~= framed(a) + framed(b) + framed(c) + framed(d));
}

proof fn lemma_placed_fits(s: Seq<(Seq<u8>, Seq<u8>)>, x: (Seq<u8>, Seq<u8>))
    requires
        all_fit(s),
        x.0.len() <= u64::MAX,
        x.1.len() <= u64::MAX,
    ensures
        all_fit(placed(s, x)),
        placed(s, x).len() == s.len() + 1,
    decreases s.len(),
{
    if s.len() > 0 && bytes_before(x.0, s.last().0) {
        lemma_placed_fits(s.drop_last(), x);
    }
}

proof fn lemma_sorted_fits(s: Seq<(Seq<u8>, Seq<u8>)>)
    requires
        all_fit(s),
    ensures
        all_fit(sorted_by_name(s)),
        sorted_by_name(s).len() == s.len(),
    decreases s.len(),
{
    if s.len() > 0 {
        lemma_sorted_fits(s.drop_last());
        lemma_placed_fits(sorted_by_name(s.drop_last()), s.last());
    }
}

proof fn lemma_flattened_fits(s: Seq<(Seq<u8>, Seq<u8>)>)
    requires
        all_fit(s),
    ensures
        flattened(s).len() == 2 * s.len(),
        forall|i: int|
            0 <= i < flattened(s).len() ==> (#[trigger] flattened(s)[i]).len() <= u64::MAX,
    decreases s.len(),
{
    if s.len() > 0 {
        lemma_flattened_fits(s.drop_last());
    }
}

proof fn lemma_flattened_len(s: Seq<(Seq<u8>, Seq<u8>)>)
    ensures
        flattened(s).len() == 2 * s.len(),
    decreases s.len(),
{
    if s.len() > 0 {
        lemma_flattened_len(s.drop_last());
    }
}

proof fn lemma_flattened_injective(a: Seq<(Seq<u8>, Seq<u8>)>, b: Seq<(Seq<u8>, Seq<u8>)>)
    requires
        flattened(a) == flattened(b),
    ensures
        a == b,
    decreases a.len(),
{
    lemma_flattened_len(a);
    lemma_flattened_len(b);
    if a.len() == 0 {
        assert(a =~= b);
    } else {
        let fa = flattened(a.drop_last());
        let fb = flattened(b.drop_last());
        lemma_flattened_len(a.drop_last());
        lemma_flattened_len(b.drop_last());
        let n = fa.len() as int;
        assert(flattened(a)[n] == a.last().0 && flattened(a)[n + 1] == a.last().1);
        assert(flattened(b)[n] == b.last().0 && flattened(b)[n + 1] == b.last().1);
        assert(flattened(a).take(n) =~= fa);
        assert(flattened(b).take(n) =~= fb);
        lemma_flattened_injective(a.drop_last(), b.drop_last());
        assert(a =~= a.drop_last().push(a.last()));
        assert(b =~= b.drop_last().push(b.last()));
    }
}

/// The texts of operation ids are all of one length.
pub proof fn lemma_id_lengths(x: OperationId, y: OperationId)
    ensures
        x.text().len() == y.text().len(),
{
    lemma_operation_id_view(x);
    lemma_operation_id_view(y);
    lemma_crockford_roundtrip(x@);
    lemma_crockford_roundtrip(y@);
}

/// The digits rise with their values, are figures or capital letters, and none
/// is I, L, O or U.
pub proof fn law_digits_of_an_id(v: int, w: int)
    requires
        0 <= v < w < 32,
    ensures
        crockford_digit(v) < crockford_digit(w),
        forall|x: int|
            0 <= x < 32 ==> {
                let d = #[trigger] crockford_digit(x);
                &&& (0x30 <= d <= 0x39) || (0x41 <= d <= 0x5a)
                &&& d != 0x49 && d != 0x4c && d != 0x4f && d != 0x55
            },
{
}

/// Every figure and every letter but U can stand in an id and nothing else
/// can. Both cases of a letter have one value; I and L are read as 1, O as 0.
pub proof fn law_letters_of_an_id(b: u8)
    ensures
        is_crockford(b) <==> (0x30 <= b <= 0x39) || (0x41 <= b <= 0x5a && b != 0x55) || (0x61 <= b
            <= 0x7a && b != 0x75),
        0x61 <= b <= 0x7a && b != 0x75 ==> crockford_value_of(b) == crockford_value_of((b - 0x20) as u8),
        0x30 <= b <= 0x39 ==> crockford_value_of(b) == b - 0x30,
        b == 0x49 || b == 0x4c ==> crockford_value_of(b) == 1,
        b == 0x4f ==> crockford_value_of(b) == 0,
        0x41 <= b <= 0x48 ==> crockford_value_of(b) == b - 0x41 + 10,
        b == 0x4a || b == 0x4b ==> crockford_value_of(b) == b - 0x4a + 18,
        b == 0x4d || b == 0x4e ==> crockford_value_of(b) == b - 0x4d + 20,
        0x50 <= b <= 0x54 ==> crockford_value_of(b) == b - 0x50 + 22,
        0x56 <= b <= 0x5a ==> crockford_value_of(b) == b - 0x56 + 27,
{
    let c = capital(b);
    let v: int = if c == 0x49 || c == 0x4c {
        1
    } else if c == 0x4f {
        0
    } else if c <= 0x39 {
        c - 0x30
    } else if c <= 0x48 {
        c - 0x41 + 10
    } else if c <= 0x4b {
        c - 0x4a + 18
    } else if c <= 0x4e {
        c - 0x4d + 20
    } else if c <= 0x54 {
        c - 0x50 + 22
    } else {
        c - 0x56 + 27
    };
    if (0x30 <= b <= 0x39) || (0x41 <= b <= 0x5a && b != 0x55) || (0x61 <= b <= 0x7a && b != 0x75) {
        assert(crockford_reads(b, v));
        assert(crockford_reads(b, crockford_value_of(b)));
        if 0x61 <= b <= 0x7a {
            let u = (b - 0x20) as u8;
            assert(crockford_reads(u, v));
            assert(crockford_reads(u, crockford_value_of(u)));
        }
    }
}

} // verus!
