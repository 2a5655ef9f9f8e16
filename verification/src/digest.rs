//! Tenant-keyed content digests.
use vstd::prelude::*;
use vstd::utf8::*;

use crate::bytes::{
    be64, from_be, get_u64, lemma_be64_injective, lemma_be_len, lemma_be_of_from_be, lemma_pow256_8,
    put_u64,
};
use crate::error::{invalid_format, CoreError, ErrorView, Result};
use crate::foreign::{blake3_keyed, hex_complaint, hex_decode, hex_encode, keyed_blake3};
use crate::text::{
    ascii, hex_bytes, hex_char, hex_text, is_hex, join2, lemma_hex_char_ascii, lemma_hex_roundtrip,
    strip_prefix,
};

verus! {

/// A tenant digest key. Object identity is BLAKE3-256 in keyed mode, so
/// identical plaintext in two tenants yields unrelated digests.
#[derive(Clone, Copy)]
pub struct DigestKey {
    bytes: [u8; 32],
}

/// A tenant-keyed content digest: 32 bytes, written `b3k:<lowercase hex>`.
#[derive(Clone, Copy, Debug, PartialEq, Eq, Hash, Structural)]
pub struct Digest {
    w0: u64,
    w1: u64,
    w2: u64,
    w3: u64,
}

impl View for DigestKey {
    type V = Seq<u8>;

    closed spec fn view(&self) -> Seq<u8> {
        self.bytes@
    }
}

impl View for Digest {
    type V = Seq<u8>;

    closed spec fn view(&self) -> Seq<u8> {
        be64(self.w0) + be64(self.w1) + be64(self.w2) + be64(self.w3)
    }
}

/// The bytes of the digest of `data` under `key`.
pub open spec fn digest_bytes(key: DigestKey, data: Seq<u8>) -> Seq<u8> {
    keyed_blake3(key@, data)
}

/// The digest whose bytes are `raw`.
pub open spec fn digest_from(raw: Seq<u8>) -> Digest {
    choose|d: Digest| d@ == raw
}

/// The digest of `data` under `key`.
pub open spec fn digest_of(key: DigestKey, data: Seq<u8>) -> Digest {
    digest_from(digest_bytes(key, data))
}

/// A digest is 32 bytes, and its bytes determine it.
pub proof fn lemma_digest_view(d: Digest)
    ensures
        d@.len() == 32,
        digest_from(d@) == d,
{
    lemma_be_len(d.w0 as nat, 8);
    lemma_be_len(d.w1 as nat, 8);
    lemma_be_len(d.w2 as nat, 8);
    lemma_be_len(d.w3 as nat, 8);
    lemma_digest_injective(d, digest_from(d@));
}

/// Any 32 bytes are those of a digest.
pub proof fn lemma_digest_exists(raw: Seq<u8>)
    requires
        raw.len() == 32,
    ensures
        digest_from(raw)@ == raw,
{
    let a = raw.subrange(0, 8);
    let b = raw.subrange(8, 16);
    let c = raw.subrange(16, 24);
    let e = raw.subrange(24, 32);
    lemma_be_of_from_be(a);
    lemma_be_of_from_be(b);
    lemma_be_of_from_be(c);
    lemma_be_of_from_be(e);
    lemma_pow256_8();
    let d = Digest {
        w0: from_be(a) as u64,
        w1: from_be(b) as u64,
        w2: from_be(c) as u64,
        w3: from_be(e) as u64,
    };
    assert(d@ =~= raw);
}

/// Digests with the same bytes are equal.
pub proof fn lemma_digest_injective(a: Digest, b: Digest)
    requires
        a@ == b@,
    ensures
        a == b,
{
    lemma_be_len(a.w0 as nat, 8);
    lemma_be_len(a.w1 as nat, 8);
    lemma_be_len(a.w2 as nat, 8);
    lemma_be_len(a.w3 as nat, 8);
    lemma_be_len(b.w0 as nat, 8);
    lemma_be_len(b.w1 as nat, 8);
    lemma_be_len(b.w2 as nat, 8);
    lemma_be_len(b.w3 as nat, 8);
    assert(a@.subrange(0, 8) =~= be64(a.w0));
    assert(a@.subrange(8, 16) =~= be64(a.w1));
    assert(a@.subrange(16, 24) =~= be64(a.w2));
    assert(a@.subrange(24, 32) =~= be64(a.w3));
    assert(b@.subrange(0, 8) =~= be64(b.w0));
    assert(b@.subrange(8, 16) =~= be64(b.w1));
    assert(b@.subrange(16, 24) =~= be64(b.w2));
    assert(b@.subrange(24, 32) =~= be64(b.w3));
    lemma_be64_injective(a.w0, b.w0);
    lemma_be64_injective(a.w1, b.w1);
    lemma_be64_injective(a.w2, b.w2);
    lemma_be64_injective(a.w3, b.w3);
}

/// What is said of a text that is not that of a digest.
pub open spec fn digest_fault(s: Seq<char>) -> Seq<char> {
    if "b3k:"@.is_prefix_of(s) {
        "malformed b3k digest: "@ + s
    } else {
        "digest must start with b3k: — got "@ + s
    }
}

impl DigestKey {
    pub fn from_bytes(bytes: [u8; 32]) -> (r: Self)
        ensures
            r@ == bytes@,
    {
        DigestKey { bytes }
    }

    /// Reads a key from hexadecimal text of exactly 32 bytes.
    pub fn from_hex(s: &str) -> (r: Result<Self>)
        ensures
            r is Ok <==> is_hex(encode_utf8(s@)) && encode_utf8(s@).len() == 64,
            r matches Ok(k) ==> k@ == hex_bytes(encode_utf8(s@)),
            r matches Err(e) ==> e@ == ErrorView::InvalidFormat(
                if is_hex(encode_utf8(s@)) {
                    "digest key must be 32 bytes"@
                } else {
                    "digest key hex: "@ + hex_complaint(s@)
                },
            ),
    {
        match hex_decode(s) {
            Err(e) => Err(CoreError::InvalidFormat(join2("digest key hex: ", &e))),
            Ok(raw) => {
                if raw.len() != 32 {
                    return Err(invalid_format("digest key must be 32 bytes"));
                }
                Ok(DigestKey { bytes: to_array32(&raw) })
            },
        }
    }

    pub fn to_hex(&self) -> (r: String)
        ensures
            r@ == hex_text(self@),
    {
        hex_encode(&self.bytes)
    }

    /// The tenant-keyed digest of `plaintext`.
    pub fn digest(&self, plaintext: &[u8]) -> (r: Digest)
        ensures
            r@ == digest_bytes(*self, plaintext@),
            r == digest_of(*self, plaintext@),
    {
        let raw: [u8; 32] = blake3_keyed(&self.bytes, plaintext);
        let d: Digest = Digest::from_raw(raw);
        proof {
            lemma_digest_view(d);
        }
        d
    }
}

/// The first 32 bytes of `v` as an array.
pub fn to_array32(v: &[u8]) -> (r: [u8; 32])
    requires
        v@.len() == 32,
    ensures
        r@ == v@,
{
    let mut out: [u8; 32] = [0u8; 32];
    let mut i: usize = 0;
    while i < 32
        invariant
            i <= 32,
            v@.len() == 32,
            forall|j: int| 0 <= j < i ==> out@[j] == v@[j],
        decreases 32 - i,
    {
        out[i] = v[i];
        i = i + 1;
    }
    assert(out@ =~= v@);
    out
}

/// The tag in front of every digest in text form.
pub const DIGEST_TAG: &'static str = "b3k";

impl Digest {
    /// `b3k:<lowercase hex>`.
    pub open spec fn text(self) -> Seq<char> {
        "b3k:"@ + hex_text(self@)
    }

    /// The digest with the given bytes.
    pub fn from_raw(raw: [u8; 32]) -> (r: Self)
        ensures
            r@ == raw@,
            r == digest_from(raw@),
    {
        let s: &[u8] = &raw;
        let d: Digest = Digest {
            w0: get_u64(s, 0),
            w1: get_u64(s, 8),
            w2: get_u64(s, 16),
            w3: get_u64(s, 24),
        };
        assert(d@ =~= raw@);
        proof {
            lemma_digest_view(d);
        }
        d
    }

    /// The 32 bytes of the digest.
    pub fn raw(&self) -> (r: [u8; 32])
        ensures
            r@ == self@,
    {
        let mut buf: Vec<u8> = Vec::new();
        put_u64(&mut buf, self.w0);
        put_u64(&mut buf, self.w1);
        put_u64(&mut buf, self.w2);
        put_u64(&mut buf, self.w3);
        assert(buf@ =~= self@);
        proof {
            lemma_digest_view(*self);
        }
        to_array32(&buf)
    }

    /// The 64 hexadecimal characters of the digest.
    pub fn hex(&self) -> (r: String)
        ensures
            r@ == hex_text(self@),
    {
        let raw: [u8; 32] = self.raw();
        hex_encode(&raw)
    }

    /// Two-character fan-out prefix used in object keys.
    pub fn key_prefix(&self) -> (r: String)
        ensures
            r@ == hex_text(self@).take(2),
            r@ == hex_text(self@.take(1)),
    {
        proof {
            lemma_digest_view(*self);
        }
        let raw: [u8; 32] = self.raw();
        let mut first: Vec<u8> = Vec::new();
        first.push(raw[0]);
        assert(first@ =~= self@.take(1));
        assert(hex_text(self@.take(1)) =~= hex_text(self@).take(2));
        hex_encode(&first)
    }

    /// The text form of the digest.
    pub fn to_string(&self) -> (r: String)
        ensures
            r@ == self.text(),
    {
        let h: String = self.hex();
        let mut s: String = "b3k:".to_owned();
        s.append(&h);
        s
    }

    /// Reads the text form of a digest, and nothing else.
    pub fn parse(s: &str) -> (r: Result<Self>)
        ensures
            r matches Ok(d) ==> s@ == d.text(),
            r is Err ==> forall|d: Digest| s@ != #[trigger] d.text(),
            r matches Err(e) ==> e@ == ErrorView::InvalidFormat(digest_fault(s@)),
    {
        proof {
            reveal_strlit("b3k:");
            assert forall|d: Digest| s@ == #[trigger] d.text() implies is_ascii_chars(s@) && s@.len()
                == 68 && s@[0] == 'b' && s@[1] == '3' && s@[2] == 'k' && s@[3] == ':' && forall|
                i: int,
            |
                4 <= i < 68 ==> is_lower_hex(#[trigger] s@[i]) by {
                lemma_digest_view(d);
                lemma_digest_text_shape(d);
            }
        }
        if strip_prefix(s, "b3k:").is_none() {
            return Err(
                CoreError::InvalidFormat(join2("digest must start with b3k: — got ", s)),
            );
        }
        if !s.is_ascii() {
            return Err(CoreError::InvalidFormat(join2("malformed b3k digest: ", s)));
        }
        let b: &[u8] = s.as_bytes();
        assert(b@ =~= ascii(s@));
        if b.len() != 68 {
            return Err(CoreError::InvalidFormat(join2("malformed b3k digest: ", s)));
        }
        let mut i: usize = 4;
        while i < 68
            invariant
                4 <= i <= 68,
                s@.len() == 68,
                "b3k:"@.is_prefix_of(s@),
                b@ == ascii(s@),
                is_ascii_chars(s@),
                forall|j: int| 4 <= j < i ==> is_lower_hex(#[trigger] s@[j]),
                forall|d: Digest|
                    s@ == #[trigger] d.text() ==> forall|j: int|
                        4 <= j < 68 ==> is_lower_hex(#[trigger] s@[j]),
            decreases 68 - i,
        {
            let c: u8 = b[i];
            if !((c >= 0x30 && c <= 0x39) || (c >= 0x61 && c <= 0x66)) {
                assert(!is_lower_hex(s@[i as int]));
                return Err(CoreError::InvalidFormat(join2("malformed b3k digest: ", s)));
            }
            assert(is_lower_hex(s@[i as int]));
            i = i + 1;
        }
        let rest: &str = s.substring_ascii(4, 68);
        proof {
            is_ascii_chars_encode_utf8(rest@);
            assert(encode_utf8(rest@) =~= ascii(rest@));
        }
        proof {
            assert forall|j: int| 0 <= j < encode_utf8(rest@).len() implies crate::text::is_hex_digit(
                #[trigger] encode_utf8(rest@)[j],
            ) by {
                assert(is_lower_hex(s@[j + 4]));
            }
        }
        match hex_decode(rest) {
            Err(_) => {
                assert(false);
                Err(CoreError::InvalidFormat(join2("malformed b3k digest: ", s)))
            },
            Ok(raw) => {
                let d: Digest = Digest::from_raw(to_array32(&raw));
                proof {
                    assert forall|j: int| 0 <= j < 64 implies hex_text(d@)[j] == #[trigger] rest@[j] by {
                        assert(is_lower_hex(s@[j + 4]));
                        assert(is_lower_hex(s@[2 * (j / 2) + 4]));
                        assert(is_lower_hex(s@[2 * (j / 2) + 1 + 4]));
                        lemma_lower_hex_char(rest@[2 * (j / 2)]);
                        lemma_lower_hex_char(rest@[2 * (j / 2) + 1]);
                    }
                    assert(hex_text(d@) =~= rest@);
                    assert(s@ =~= "b3k:"@ + rest@);
                }
                Ok(d)
            },
        }
    }
}

/// Whether `c` is a lowercase hexadecimal digit.
pub open spec fn is_lower_hex(c: char) -> bool {
    ('0' <= c && c <= '9') || ('a' <= c && c <= 'f')
}

proof fn lemma_lower_hex_char(c: char)
    requires
        is_lower_hex(c),
    ensures
        0 <= crate::text::hex_value(c as u8) < 16,
        hex_char(crate::text::hex_value(c as u8)) == c,
{
}

proof fn lemma_digest_text_shape(d: Digest)
    ensures
        is_ascii_chars(d.text()),
        d.text().len() == 68,
        d.text()[0] == 'b',
        d.text()[1] == '3',
        d.text()[2] == 'k',
        d.text()[3] == ':',
        forall|i: int| 4 <= i < 68 ==> is_lower_hex(#[trigger] d.text()[i]),
{
    reveal_strlit("b3k:");
    lemma_digest_view(d);
    let h = hex_text(d@);
    assert forall|i: int| 0 <= i < 64 implies is_lower_hex(#[trigger] h[i]) by {
        lemma_hex_char_ascii(d@[i / 2] as int / 16);
        lemma_hex_char_ascii(d@[i / 2] as int % 16);
    }
    assert forall|i: int| 4 <= i < 68 implies is_lower_hex(#[trigger] d.text()[i]) by {
        assert(d.text()[i] == h[i - 4]);
    }
}

/// Reading the text form of a digest gives the digest back: no two digests
/// share a text form.
pub proof fn law_digest_text_injective(a: Digest, b: Digest)
    requires
        a.text() == b.text(),
    ensures
        a == b,
{
    lemma_digest_text_shape(a);
    lemma_digest_text_shape(b);
    reveal_strlit("b3k:");
    assert(a.text().skip(4) =~= hex_text(a@));
    assert(b.text().skip(4) =~= hex_text(b@));
    lemma_hex_roundtrip(a@);
    lemma_hex_roundtrip(b@);
    lemma_digest_injective(a, b);
}

} // verus!
