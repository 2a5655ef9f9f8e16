//! The binary envelope of every stored object: the magic `COMB`, version,
//! flags and metadata length (little-endian), JSON metadata, payload.
use vstd::prelude::*;

use crate::bytes::{append_slice, copy_bytes};
use crate::digest::{digest_fault, digest_of, law_digest_text_injective, Digest, DigestKey};
use crate::error::{invalid_format, CoreError, EnvelopeFormatField, ErrorView, Result};
use crate::foreign::{quote, quoted};
use crate::json::{
    distinct_names, fault_message, fault_text, field, fields_view, get_field, json_of,
    lemma_object_view, object_text, parse, pieces, pieces_view, read_pieces, reads_as, scalars_view,
    write_object, written_as, Json, JsonFaultView, JsonView, Scalar,
};
use crate::text::{decimal, decimal_text, join2, join3, join4, same_text};
use crate::time::{may_be_shown, Timestamp};

verus! {

pub const MAX_ENVELOPE_META_BYTES: u32 = 65_536;

/// Encoded-object caps for classed reads.
pub const MAX_REF_OBJECT_BYTES: u64 = 65_536;

pub const MAX_MANIFEST_OBJECT_BYTES: u64 = 524_288;

pub const MAX_STABLE_INDEX_NODE_OBJECT_BYTES: u64 = 8_192;

#[derive(Debug, Clone, Copy, PartialEq, Eq, Structural)]
pub enum ObjectKind {
    Blob,
    Manifest,
    JournalEntry,
}

impl ObjectKind {
    /// What metadata calls the kind.
    pub open spec fn text(self) -> Seq<char> {
        match self {
            ObjectKind::Blob => "blob"@,
            ObjectKind::Manifest => "manifest"@,
            ObjectKind::JournalEntry => "journal-entry"@,
        }
    }

    pub fn as_str(self) -> (r: &'static str)
        ensures
            r@ == self.text(),
    {
        match self {
            ObjectKind::Blob => "blob",
            ObjectKind::Manifest => "manifest",
            ObjectKind::JournalEntry => "journal-entry",
        }
    }

    /// The kind that metadata calls `s`.
    pub fn from_meta_str(s: &str) -> (r: Option<ObjectKind>)
        ensures
            r == kind_of(s@),
    {
        proof {
            lemma_kind_texts();
        }
        if same_text(s, "blob") {
            Some(ObjectKind::Blob)
        } else if same_text(s, "manifest") {
            Some(ObjectKind::Manifest)
        } else if same_text(s, "journal-entry") {
            Some(ObjectKind::JournalEntry)
        } else {
            None
        }
    }
}

/// The kind that metadata calls `s`.
pub open spec fn kind_of(s: Seq<char>) -> Option<ObjectKind> {
    if s == "blob"@ {
        Some(ObjectKind::Blob)
    } else if s == "manifest"@ {
        Some(ObjectKind::Manifest)
    } else if s == "journal-entry"@ {
        Some(ObjectKind::JournalEntry)
    } else {
        None
    }
}

/// The three kinds have three names.
proof fn lemma_kind_texts()
    ensures
        "blob"@ != "manifest"@,
        "blob"@ != "journal-entry"@,
        "manifest"@ != "journal-entry"@,
{
    reveal_strlit("blob");
    reveal_strlit("manifest");
    reveal_strlit("journal-entry");
    assert("blob"@.len() != "manifest"@.len());
    assert("blob"@.len() != "journal-entry"@.len());
    assert("manifest"@.len() != "journal-entry"@.len());
}

/// Kind and schema that a reader requires before it looks at a payload.
#[derive(Debug, Clone, Copy)]
pub struct EnvelopeExpectation<'a> {
    pub kind: ObjectKind,
    pub schema: &'a str,
}

/// Size and format class of a digest-addressed object.
#[derive(Debug, Clone, Copy)]
pub struct ObjectClass {
    pub kind: ObjectKind,
    pub schema: &'static str,
    pub max_encoded_bytes: u64,
    pub max_plaintext_bytes: u64,
}

impl ObjectClass {
    pub fn expectation(self) -> (r: EnvelopeExpectation<'static>)
        ensures
            r.kind == self.kind,
            r.schema@ == self.schema@,
    {
        EnvelopeExpectation { kind: self.kind, schema: self.schema }
    }

    pub fn blob(max_encoded_bytes: u64, max_plaintext_bytes: u64) -> (r: Self)
        ensures
            r.kind == ObjectKind::Blob,
            r.schema@ == "comb.object/v1"@,
            r.max_encoded_bytes == max_encoded_bytes,
            r.max_plaintext_bytes == max_plaintext_bytes,
    {
        ObjectClass {
            kind: ObjectKind::Blob,
            schema: "comb.object/v1",
            max_encoded_bytes,
            max_plaintext_bytes,
        }
    }
}

#[derive(Debug)]
pub struct EnvelopeMeta {
    pub schema: String,
    pub tenant: String,
    pub kind: ObjectKind,
    pub digest: Digest,
    pub plaintext_bytes: u64,
    pub compression: String,
    pub encryption: String,
    pub created_at: String,
}

impl Clone for EnvelopeMeta {
    fn clone(&self) -> (r: Self)
        ensures
            r == *self,
    {
        EnvelopeMeta {
            schema: self.schema.clone(),
            tenant: self.tenant.clone(),
            kind: self.kind,
            digest: self.digest,
            plaintext_bytes: self.plaintext_bytes,
            compression: self.compression.clone(),
            encryption: self.encryption.clone(),
            created_at: self.created_at.clone(),
        }
    }
}

pub struct MetaView {
    pub schema: Seq<char>,
    pub tenant: Seq<char>,
    pub kind: ObjectKind,
    pub digest: Digest,
    pub plaintext_bytes: u64,
    pub compression: Seq<char>,
    pub encryption: Seq<char>,
    pub created_at: Seq<char>,
}

impl View for EnvelopeMeta {
    type V = MetaView;

    open spec fn view(&self) -> MetaView {
        MetaView {
            schema: self.schema@,
            tenant: self.tenant@,
            kind: self.kind,
            digest: self.digest,
            plaintext_bytes: self.plaintext_bytes,
            compression: self.compression@,
            encryption: self.encryption@,
            created_at: self.created_at@,
        }
    }
}

/// A decoded immutable object.
#[derive(Debug)]
pub struct Envelope {
    pub meta: EnvelopeMeta,
    pub payload: Vec<u8>,
}

/// The metadata as the fields of a JSON object.
pub open spec fn meta_fields(m: MetaView) -> Seq<(Seq<char>, JsonView)> {
    seq![
        ("schema"@, JsonView::Text(m.schema)),
        ("tenant"@, JsonView::Text(m.tenant)),
        ("kind"@, JsonView::Text(m.kind.text())),
        ("digest"@, JsonView::Text(m.digest.text())),
        ("plaintext_bytes"@, JsonView::Number(m.plaintext_bytes)),
        ("compression"@, JsonView::Text(m.compression)),
        ("encryption"@, JsonView::Text(m.encryption)),
        ("created_at"@, JsonView::Text(m.created_at)),
    ]
}

/// The text in a field, if there is one.
pub open spec fn text_field(fields: Seq<(Seq<char>, JsonView)>, name: Seq<char>) -> Option<
    Seq<char>,
> {
    match field(fields, name) {
        Some(JsonView::Text(s)) => Some(s),
        _ => None,
    }
}

/// The number in a field, if there is one.
pub open spec fn number_field(fields: Seq<(Seq<char>, JsonView)>, name: Seq<char>) -> Option<u64> {
    match field(fields, name) {
        Some(JsonView::Number(n)) => Some(n),
        _ => None,
    }
}

/// The digest with the given text.
pub open spec fn digest_of_text(s: Seq<char>) -> Option<Digest> {
    if exists|d: Digest| s == #[trigger] d.text() {
        Some(choose|d: Digest| s == #[trigger] d.text())
    } else {
        None
    }
}

/// The metadata in the fields of a JSON object, if all of it is there.
pub open spec fn meta_of(fields: Seq<(Seq<char>, JsonView)>) -> Option<MetaView> {
    match (
        text_field(fields, "schema"@),
        text_field(fields, "tenant"@),
        text_field(fields, "kind"@),
        text_field(fields, "digest"@),
        number_field(fields, "plaintext_bytes"@),
        text_field(fields, "compression"@),
        text_field(fields, "encryption"@),
        text_field(fields, "created_at"@),
    ) {
        (
            Some(schema),
            Some(tenant),
            Some(kind),
            Some(digest),
            Some(plaintext_bytes),
            Some(compression),
            Some(encryption),
            Some(created_at),
        ) => match (kind_of(kind), digest_of_text(digest)) {
            (Some(k), Some(d)) => Some(
                MetaView {
                    schema,
                    tenant,
                    kind: k,
                    digest: d,
                    plaintext_bytes,
                    compression,
                    encryption,
                    created_at,
                },
            ),
            _ => None,
        },
        _ => None,
    }
}

/// The two-byte little-endian number at `i`.
pub open spec fn u16_le(b: Seq<u8>, i: int) -> int {
    b[i] + 0x100 * b[i + 1]
}

/// The four-byte little-endian number at `i`.
pub open spec fn u32_le(b: Seq<u8>, i: int) -> int {
    b[i] + 0x100 * b[i + 1] + 0x1_0000 * b[i + 2] + 0x100_0000 * b[i + 3]
}

/// Whether a header of the known magic is there.
pub open spec fn has_magic(b: Seq<u8>) -> bool {
    b.len() >= 12 && b[0] == 0x43 && b[1] == 0x4f && b[2] == 0x4d && b[3] == 0x42
}

/// Whether the metadata that the header announces is there.
pub open spec fn has_meta(b: Seq<u8>) -> bool {
    u32_le(b, 8) <= MAX_ENVELOPE_META_BYTES && 12 + u32_le(b, 8) <= b.len()
}

pub open spec fn meta_part(b: Seq<u8>) -> Seq<u8> {
    b.subrange(12, 12 + u32_le(b, 8))
}

pub open spec fn payload_part(b: Seq<u8>) -> Seq<u8> {
    b.skip(12 + u32_le(b, 8))
}

/// The fields of the metadata, if it is a JSON object.
pub open spec fn fields_of(b: Seq<u8>) -> Option<Seq<(Seq<char>, JsonView)>> {
    match json_of(meta_part(b)) {
        Ok(JsonView::Object(f)) => Some(f),
        _ => None,
    }
}

/// What decoding an object gives.
pub enum Decoded {
    TooLarge,
    Bad(ErrorView),
    Good(MetaView, Seq<u8>),
}

/// The decoding of an object with a tag that is not spoken here.
pub open spec fn unspoken(field: EnvelopeFormatField, value: Seq<char>) -> Decoded {
    Decoded::Bad(ErrorView::UnsupportedEnvelopeFormat { field, value })
}

/// The decoding of an object that does not have the form of one.
pub open spec fn misformed(message: Seq<char>) -> Decoded {
    Decoded::Bad(ErrorView::InvalidFormat(message))
}

/// What is wrong with a field that should hold a text.
pub open spec fn text_fault(f: Seq<(Seq<char>, JsonView)>, name: Seq<char>) -> Option<Seq<char>> {
    match field(f, name) {
        Some(JsonView::Text(_)) => None,
        Some(_) => Some("metadata "@ + name + " must be a string"@),
        None => Some("metadata missing "@ + name),
    }
}

/// An integer in decimal.
pub open spec fn signed(i: i64) -> Seq<char> {
    if i < 0 {
        "-"@ + decimal((-(i as int)) as nat)
    } else {
        decimal(i as nat)
    }
}

/// How a value is called that is not of the type that is wanted.
pub open spec fn unexpected(v: JsonView) -> Seq<char> {
    match v {
        JsonView::Null => "null"@,
        JsonView::Bool(b) => if b {
            "boolean `true`"@
        } else {
            "boolean `false`"@
        },
        JsonView::Number(n) => "integer `"@ + decimal(n as nat) + "`"@,
        JsonView::Negative(i) => "integer `"@ + signed(i) + "`"@,
        JsonView::OtherNumber(s) => "floating point `"@ + s + "`"@,
        JsonView::Text(s) => "string "@ + quoted(s),
        JsonView::List(_) => "sequence"@,
        JsonView::Object(_) => "map"@,
    }
}

/// What is said of a value of another type than `wanted`.
pub open spec fn mistyped(v: JsonView, wanted: Seq<char>) -> Seq<char> {
    "invalid type: "@ + unexpected(v) + ", expected "@ + wanted
}

/// The fields of metadata, in the order in which they are written.
pub open spec fn meta_names() -> Seq<Seq<char>> {
    seq![
        "schema"@,
        "tenant"@,
        "kind"@,
        "digest"@,
        "plaintext_bytes"@,
        "compression"@,
        "encryption"@,
        "created_at"@,
    ]
}

/// What is wrong with the value of a field of metadata.
pub open spec fn value_fault(name: Seq<char>, v: JsonView) -> Option<Seq<char>> {
    if name == "plaintext_bytes"@ {
        match v {
            JsonView::Number(_) => None,
            JsonView::Negative(_) => Some(
                "invalid value: "@ + unexpected(v) + ", expected "@ + "u64"@,
            ),
            _ => Some(mistyped(v, "u64"@)),
        }
    } else {
        match v {
            JsonView::Text(s) => if name == "kind"@ && kind_of(s) is None {
                Some(
                    "unknown variant `"@ + s
                        + "`, expected one of `blob`, `manifest`, `journal-entry`"@,
                )
            } else if name == "digest"@ && digest_of_text(s) is None {
                Some("invalid format: "@ + digest_fault(s))
            } else {
                None
            },
            _ => Some(mistyped(v, "a string"@)),
        }
    }
}

/// `f` with one more field, unless it is none of metadata, or what is wrong
/// with it: it is there already, cannot be read, or does not hold what it
/// should.
pub open spec fn with_field(
    f: Seq<(Seq<char>, JsonView)>,
    name: Seq<char>,
    value: core::result::Result<JsonView, Seq<char>>,
) -> (core::result::Result<Seq<(Seq<char>, JsonView)>, Seq<char>>) {
    if !meta_names().contains(name) {
        Ok(f)
    } else if field(f, name) is Some {
        Err("duplicate field `"@ + name + "`"@)
    } else {
        match value {
            Err(m) => Err(m),
            Ok(v) => match value_fault(name, v) {
                Some(m) => Err(m),
                None => Ok(f.push((name, v))),
            },
        }
    }
}

/// The fields of metadata among `items`, in order, or what is wrong with the
/// first that cannot be used.
pub open spec fn sound_fields(items: Seq<(Seq<char>, core::result::Result<JsonView, Seq<char>>)>) -> (
core::result::Result<Seq<(Seq<char>, JsonView)>, Seq<char>>)
    decreases items.len(),
{
    if items.len() == 0 {
        Ok(Seq::empty())
    } else {
        match sound_fields(items.drop_last()) {
            Err(m) => Err(m),
            Ok(f) => with_field(f, items.last().0, items.last().1),
        }
    }
}

/// The first field of metadata that is not there.
pub open spec fn missing_field(f: Seq<(Seq<char>, JsonView)>, i: nat) -> Option<Seq<char>>
    decreases 8 - i,
{
    if i >= 8 {
        None
    } else if field(f, meta_names()[i as int]) is None {
        Some(meta_names()[i as int])
    } else {
        missing_field(f, i + 1)
    }
}

/// The metadata that `items` hold, or what is wrong with them.
pub open spec fn meta_in(items: Seq<(Seq<char>, core::result::Result<JsonView, Seq<char>>)>) -> (
core::result::Result<MetaView, Seq<char>>) {
    match sound_fields(items) {
        Err(m) => Err(m),
        Ok(f) => match missing_field(f, 0) {
            Some(name) => Err("missing field `"@ + name + "`"@),
            None => Ok(meta_of(f)->0),
        },
    }
}

/// What a piece of metadata holds. A kind may also be written as an object
/// with the kind as its only name and nothing behind it.
pub open spec fn piece_value(name: Seq<char>, raw: Seq<u8>) -> core::result::Result<
    JsonView,
    Seq<char>,
> {
    match json_of(raw) {
        Err(f) => Err(fault_text(f)),
        Ok(JsonView::Object(o)) => if name == "kind"@ && pieces(raw, true) is Some {
            let p = pieces(raw, true)->0;
            if p.len() == 1 && json_of(p[0].1) == Ok::<JsonView, JsonFaultView>(JsonView::Null) {
                Ok(JsonView::Text(p[0].0))
            } else {
                Ok(JsonView::Object(o))
            }
        } else {
            Ok(JsonView::Object(o))
        },
        Ok(v) => Ok(v),
    }
}

/// Pieces of metadata and what they hold.
pub open spec fn piece_items(p: Seq<(Seq<char>, Seq<u8>)>) -> Seq<
    (Seq<char>, core::result::Result<JsonView, Seq<char>>),
> {
    p.map_values(|x: (Seq<char>, Seq<u8>)| (x.0, piece_value(x.0, x.1)))
}

/// The values of a list as the fields of metadata in their order.
pub open spec fn named_in_order(p: Seq<(Seq<char>, Seq<u8>)>) -> Seq<(Seq<char>, Seq<u8>)> {
    Seq::new(8, |i: int| (meta_names()[i], p[i].1))
}

/// What is wrong with metadata that is neither an object nor a list.
pub open spec fn shape_fault(t: Seq<u8>) -> Seq<char> {
    match json_of(t) {
        Err(f) => fault_text(f),
        Ok(v) => mistyped(v, "struct EnvelopeMeta"@),
    }
}

/// The metadata in a text: an object with every field once, or a list of the
/// values of all fields in order. Other fields are passed over.
pub open spec fn meta_in_text(t: Seq<u8>) -> core::result::Result<MetaView, Seq<char>> {
    match pieces(t, true) {
        Some(p) => meta_in(piece_items(p)),
        None => match pieces(t, false) {
            Some(p) => if p.len() == 8 {
                meta_in(piece_items(named_in_order(p)))
            } else if p.len() < 8 {
                Err(
                    "invalid length "@ + decimal(p.len())
                        + ", expected struct EnvelopeMeta with 8 elements"@,
                )
            } else {
                Err("trailing characters"@)
            },
            None => Err(shape_fault(t)),
        },
    }
}

/// Fields that were read, as items.
pub open spec fn field_items(f: Seq<(Seq<char>, JsonView)>) -> Seq<
    (Seq<char>, core::result::Result<JsonView, Seq<char>>),
> {
    f.map_values(|x: (Seq<char>, JsonView)| (x.0, Ok::<JsonView, Seq<char>>(x.1)))
}

/// What is wrong with metadata of which no fields can be read.
pub open spec fn fields_fault(b: Seq<u8>) -> Seq<char> {
    if !has_meta(b) {
        "truncated envelope metadata"@
    } else {
        match json_of(meta_part(b)) {
            Err(f) => "meta decode: "@ + fault_text(f),
            Ok(_) => "envelope metadata must be an object"@,
        }
    }
}

/// What the body says once the metadata is read: the payload has the
/// declared length and digest, or the object is corrupt.
pub open spec fn checked(m: MetaView, payload: Seq<u8>, key: DigestKey) -> Decoded {
    if payload.len() != m.plaintext_bytes {
        Decoded::Bad(
            ErrorView::IntegrityError(
                "payload length "@ + decimal(payload.len()) + " does not match declared "@
                    + decimal(m.plaintext_bytes as nat),
            ),
        )
    } else if digest_of(key, payload) != m.digest {
        Decoded::Bad(
            ErrorView::IntegrityError(
                "digest mismatch: declared "@ + m.digest.text() + ", computed "@ + digest_of(
                    key,
                    payload,
                ).text(),
            ),
        )
    } else {
        Decoded::Good(m, payload)
    }
}

/// What decoding `b` gives.
pub open spec fn decoded(b: Seq<u8>, key: DigestKey) -> Decoded {
    if !has_magic(b) {
        misformed("bad envelope magic"@)
    } else if u16_le(b, 4) != 1 {
        misformed("unsupported envelope version "@ + decimal(u16_le(b, 4) as nat))
    } else if !has_meta(b) {
        misformed(fields_fault(b))
    } else {
        match meta_in_text(meta_part(b)) {
            Ok(m) => checked(m, payload_part(b), key),
            Err(m) => misformed("meta decode: "@ + m),
        }
    }
}

/// What the format tags of the metadata say, in the order in which they are
/// looked at; `None` if all are as expected.
pub open spec fn tags_verdict(
    f: Seq<(Seq<char>, JsonView)>,
    kind: ObjectKind,
    schema: Seq<char>,
) -> Option<Decoded> {
    match text_field(f, "compression"@) {
        None => Some(misformed(text_fault(f, "compression"@)->0)),
        Some(c) => if c != "none"@ {
            Some(unspoken(EnvelopeFormatField::Compression, c))
        } else {
            match text_field(f, "encryption"@) {
                None => Some(misformed(text_fault(f, "encryption"@)->0)),
                Some(e) => if e != "none"@ {
                    Some(unspoken(EnvelopeFormatField::Encryption, e))
                } else {
                    match text_field(f, "kind"@) {
                        None => Some(misformed(text_fault(f, "kind"@)->0)),
                        Some(k) => if kind_of(k) != Some(kind) {
                            Some(unspoken(EnvelopeFormatField::ObjectKind, k))
                        } else {
                            match text_field(f, "schema"@) {
                                None => Some(misformed(text_fault(f, "schema"@)->0)),
                                Some(s) => if s != schema {
                                    Some(unspoken(EnvelopeFormatField::Schema, s))
                                } else {
                                    None
                                },
                            }
                        },
                    }
                },
            }
        },
    }
}

/// What the bounded decoding of `b` gives.
pub open spec fn decoded_limited(
    b: Seq<u8>,
    key: DigestKey,
    limit: u64,
    kind: ObjectKind,
    schema: Seq<char>,
) -> Decoded {
    if b.len() > limit {
        Decoded::TooLarge
    } else if !has_magic(b) {
        misformed("bad envelope magic"@)
    } else if u16_le(b, 4) != 1 {
        unspoken(EnvelopeFormatField::Version, decimal(u16_le(b, 4) as nat))
    } else if u16_le(b, 6) != 0 {
        unspoken(EnvelopeFormatField::Flags, decimal(u16_le(b, 6) as nat))
    } else if !has_meta(b) {
        misformed(fields_fault(b))
    } else {
        match fields_of(b) {
            None => misformed(fields_fault(b)),
            Some(f) => match tags_verdict(f, kind, schema) {
                Some(v) => v,
                None => match meta_in(field_items(f)) {
                    Ok(m) => checked(m, payload_part(b), key),
                    Err(m) => misformed("meta decode: "@ + m),
                },
            },
        }
    }
}

/// Whether `r` is what `d` says, for the object at `object_key` with `limit`.
pub open spec fn matches_decoded(
    r: Result<Envelope>,
    d: Decoded,
    b: Seq<u8>,
    object_key: Seq<char>,
    limit: u64,
) -> bool {
    match d {
        Decoded::TooLarge => r matches Err(e) && e@ == (ErrorView::ObjectTooLarge {
            key: object_key,
            limit,
            actual: Some(b.len() as u64),
        }),
        Decoded::Bad(v) => r matches Err(e) && e@ == v,
        Decoded::Good(m, p) => r matches Ok(e) && e.meta@ == m && e.payload@ == p,
    }
}

/// The bytes of an envelope.
pub open spec fn encoded(m: MetaView, payload: Seq<u8>) -> Seq<u8> {
    let meta = object_text(meta_fields(m));
    let n = meta.len();
    seq![
        0x43u8,
        0x4fu8,
        0x4du8,
        0x42u8,
        1u8,
        0u8,
        0u8,
        0u8,
        (n % 0x100) as u8,
        (n / 0x100 % 0x100) as u8,
        (n / 0x1_0000 % 0x100) as u8,
        (n / 0x100_0000 % 0x100) as u8,
    ] + meta + payload
}

/// Whether the metadata describes the payload under `key`.
pub open spec fn describes(m: MetaView, payload: Seq<u8>, key: DigestKey) -> bool {
    m.plaintext_bytes == payload.len() && m.digest == digest_of(key, payload)
}

proof fn lemma_field_names()
    ensures
        "schema"@.len() == 6,
        "tenant"@.len() == 6,
        "schema"@[0] != "tenant"@[0],
        "kind"@.len() == 4,
        "digest"@.len() == 6,
        "digest"@[0] != "schema"@[0],
        "digest"@[0] != "tenant"@[0],
        "plaintext_bytes"@.len() == 15,
        "compression"@.len() == 11,
        "encryption"@.len() == 10,
        "created_at"@.len() == 10,
        "encryption"@[0] != "created_at"@[0],
{
    reveal_strlit("schema");
    reveal_strlit("tenant");
    reveal_strlit("kind");
    reveal_strlit("digest");
    reveal_strlit("plaintext_bytes");
    reveal_strlit("compression");
    reveal_strlit("encryption");
    reveal_strlit("created_at");
}

/// Metadata reads back from the fields that it is written as.
proof fn lemma_meta_roundtrip(m: MetaView)
    ensures
        distinct_names(meta_fields(m)),
        meta_of(meta_fields(m)) == Some(m),
        field(meta_fields(m), "compression"@) == Some(JsonView::Text(m.compression)),
        field(meta_fields(m), "encryption"@) == Some(JsonView::Text(m.encryption)),
        field(meta_fields(m), "kind"@) == Some(JsonView::Text(m.kind.text())),
        field(meta_fields(m), "schema"@) == Some(JsonView::Text(m.schema)),
        kind_of(m.kind.text()) == Some(m.kind),
        meta_in(field_items(meta_fields(m))) == Ok::<MetaView, Seq<char>>(m),
{
    lemma_field_names();
    lemma_kind_texts();
    let f = meta_fields(m);
    reveal_with_fuel(field, 9);
    let f1 = f.drop_first();
    let f2 = f1.drop_first();
    let f3 = f2.drop_first();
    let f4 = f3.drop_first();
    let f5 = f4.drop_first();
    let f6 = f5.drop_first();
    let f7 = f6.drop_first();
    assert(f1[0] == f[1] && f2[0] == f[2] && f3[0] == f[3] && f4[0] == f[4] && f5[0] == f[5]
        && f6[0] == f[6] && f7[0] == f[7]);
    assert(digest_of_text(m.digest.text()) == Some(m.digest)) by {
        let d = choose|d: Digest| m.digest.text() == #[trigger] d.text();
        law_digest_text_injective(m.digest, d);
    }
    lemma_names_known();
    assert forall|i: int| 0 <= i < f.len() implies meta_names().contains((#[trigger] f[i]).0)
        && value_fault(f[i].0, f[i].1) is None by {
        assert(f[i].0 == meta_names()[i]);
    }
    lemma_sound(f);
    reveal_with_fuel(missing_field, 9);
}

/// The names of the fields, each in its place.
proof fn lemma_names_known()
    ensures
        forall|i: int| 0 <= i < 8 ==> meta_names().contains(#[trigger] meta_names()[i]),
        meta_names().len() == 8,
        "kind"@ != "digest"@,
        "kind"@ != "plaintext_bytes"@,
        "digest"@ != "plaintext_bytes"@,
{
    lemma_field_names();
}

proof fn lemma_field_absent(f: Seq<(Seq<char>, JsonView)>, name: Seq<char>)
    requires
        forall|i: int| 0 <= i < f.len() ==> (#[trigger] f[i]).0 != name,
    ensures
        field(f, name) is None,
    decreases f.len(),
{
    if f.len() > 0 {
        assert(f[0].0 != name);
        assert forall|i: int| 0 <= i < f.drop_first().len() implies (#[trigger] f.drop_first()[i]).0
            != name by {
            assert(f[i + 1].0 != name);
        }
        lemma_field_absent(f.drop_first(), name);
    }
}

proof fn lemma_field_member(f: Seq<(Seq<char>, JsonView)>, name: Seq<char>) -> (i: int)
    requires
        field(f, name) is Some,
    ensures
        0 <= i < f.len(),
        f[i] == (name, field(f, name)->0),
    decreases f.len(),
{
    if f[0].0 == name {
        0
    } else {
        let i = lemma_field_member(f.drop_first(), name);
        assert(f.drop_first()[i] == f[i + 1]);
        i + 1
    }
}

/// Sound fields of different names are taken as they are.
proof fn lemma_sound(f: Seq<(Seq<char>, JsonView)>)
    requires
        distinct_names(f),
        forall|i: int|
            0 <= i < f.len() ==> meta_names().contains((#[trigger] f[i]).0) && value_fault(
                f[i].0,
                f[i].1,
            ) is None,
    ensures
        sound_fields(field_items(f)) == Ok::<Seq<(Seq<char>, JsonView)>, Seq<char>>(f),
    decreases f.len(),
{
    if f.len() == 0 {
        assert(f =~= Seq::empty());
    } else {
        let init = f.drop_last();
        assert(field_items(f).drop_last() =~= field_items(init));
        assert forall|i: int, j: int| 0 <= i < j < init.len() implies (#[trigger] init[i]).0 != (
        #[trigger] init[j]).0 by {
            assert(f[i].0 != f[j].0);
        }
        assert forall|i: int| 0 <= i < init.len() implies meta_names().contains(
            (#[trigger] init[i]).0,
        ) && value_fault(init[i].0, init[i].1) is None by {
            assert(init[i] == f[i]);
        }
        lemma_sound(init);
        let last = f[f.len() - 1];
        assert forall|i: int| 0 <= i < init.len() implies (#[trigger] init[i]).0 != last.0 by {
            assert(f[i].0 != f[f.len() - 1].0);
        }
        lemma_field_absent(init, last.0);
        assert(init.push(last) =~= f);
    }
}

/// What is decoded of an envelope is what was encoded.
proof fn lemma_envelope_roundtrip(m: MetaView, payload: Seq<u8>, key: DigestKey)
    requires
        object_text(meta_fields(m)).len() <= MAX_ENVELOPE_META_BYTES,
        reads_as(object_text(meta_fields(m)), JsonView::Object(meta_fields(m))),
        written_as(object_text(meta_fields(m)), meta_fields(m)),
        describes(m, payload, key),
    ensures
        decoded(encoded(m, payload), key) == Decoded::Good(m, payload),
        m.compression == "none"@ && m.encryption == "none"@ ==> forall|limit: u64|
            encoded(m, payload).len() <= limit ==> #[trigger] decoded_limited(
                encoded(m, payload),
                key,
                limit,
                m.kind,
                m.schema,
            ) == Decoded::Good(m, payload),
{
    let b = encoded(m, payload);
    let meta = object_text(meta_fields(m));
    let n = meta.len();
    assert(b[0] == 0x43 && b[1] == 0x4f && b[2] == 0x4d && b[3] == 0x42);
    assert(b[4] == 1 && b[5] == 0 && b[6] == 0 && b[7] == 0);
    assert(b[8] == n % 0x100 && b[9] == n / 0x100 % 0x100 && b[10] == n / 0x1_0000 % 0x100
        && b[11] == n / 0x100_0000 % 0x100);
    assert(u32_le(b, 8) == n);
    assert(meta_part(b) =~= meta);
    assert(payload_part(b) =~= payload);
    lemma_meta_roundtrip(m);
    let p = pieces(meta, true)->0;
    assert(piece_items(p) =~= field_items(meta_fields(m))) by {
        assert forall|i: int| 0 <= i < p.len() implies #[trigger] piece_items(p)[i] == field_items(
            meta_fields(m),
        )[i] by {
            assert(p[i].0 == meta_fields(m)[i].0);
            assert(!(meta_fields(m)[i].1 is Object));
        }
    }
}

fn meta_string(fields: &Vec<(String, Json)>, name: &str) -> (r: Result<String>)
    ensures
        match text_field(fields_view(fields@), name@) {
            Some(s) => r matches Ok(t) && t@ == s,
            None => r matches Err(e) && e@ == ErrorView::InvalidFormat(
                text_fault(fields_view(fields@), name@)->0,
            ),
        },
{
    match get_field(fields, name) {
        Some(Json::Text(s)) => Ok(s.clone()),
        Some(_) => Err(CoreError::InvalidFormat(join3("metadata ", name, " must be a string"))),
        None => Err(CoreError::InvalidFormat(join2("metadata missing ", name))),
    }
}

fn meta_number(fields: &Vec<(String, Json)>, name: &str) -> (r: Option<u64>)
    ensures
        r == number_field(fields_view(fields@), name@),
{
    match get_field(fields, name) {
        Some(Json::Number(n)) => Some(*n),
        _ => None,
    }
}

fn is_meta_name(name: &str) -> (r: bool)
    ensures
        r == meta_names().contains(name@),
{
    let r: bool = same_text(name, "schema") || same_text(name, "tenant") || same_text(name, "kind")
        || same_text(name, "digest") || same_text(name, "plaintext_bytes") || same_text(
        name,
        "compression",
    ) || same_text(name, "encryption") || same_text(name, "created_at");
    proof {
        let n = meta_names();
        assert(n[0] == "schema"@ && n[1] == "tenant"@ && n[2] == "kind"@ && n[3] == "digest"@ && n[4]
            == "plaintext_bytes"@ && n[5] == "compression"@ && n[6] == "encryption"@ && n[7]
            == "created_at"@);
        if n.contains(name@) {
            let i = choose|i: int| 0 <= i < n.len() && n[i] == name@;
            assert(0 <= i < 8);
        }
    }
    r
}

fn signed_text(i: i64) -> (r: String)
    ensures
        r@ == signed(i),
{
    if i < 0 {
        let n: u64 = (-(i as i128)) as u64;
        join2("-", &decimal_text(n))
    } else {
        decimal_text(i as u64)
    }
}

fn unexpected_text(v: &Json) -> (r: String)
    ensures
        r@ == unexpected(v@),
{
    match v {
        Json::Null => "null".to_owned(),
        Json::Bool(true) => "boolean `true`".to_owned(),
        Json::Bool(false) => "boolean `false`".to_owned(),
        Json::Number(n) => join3("integer `", &decimal_text(*n), "`"),
        Json::Negative(i) => join3("integer `", &signed_text(*i), "`"),
        Json::OtherNumber(s) => join3("floating point `", s, "`"),
        Json::Text(s) => join2("string ", &quote(s)),
        Json::List(_) => "sequence".to_owned(),
        Json::Object(_) => "map".to_owned(),
    }
}

fn mistyped_text(v: &Json, wanted: &str) -> (r: String)
    ensures
        r@ == mistyped(v@, wanted@),
{
    join4("invalid type: ", &unexpected_text(v), ", expected ", wanted)
}

/// What is wrong with the value of a field.
fn judge_value(name: &str, v: &Json) -> (r: Option<String>)
    ensures
        match r {
            Some(m) => value_fault(name@, v@) == Some(m@),
            None => value_fault(name@, v@) is None,
        },
{
    if same_text(name, "plaintext_bytes") {
        return match v {
            Json::Number(_) => None,
            Json::Negative(_) => Some(
                join4("invalid value: ", &unexpected_text(v), ", expected ", "u64"),
            ),
            _ => Some(mistyped_text(v, "u64")),
        };
    }
    let s: &String = match v {
        Json::Text(s) => s,
        _ => {
            return Some(mistyped_text(v, "a string"));
        },
    };
    if same_text(name, "kind") && ObjectKind::from_meta_str(s).is_none() {
        return Some(
            join3(
                "unknown variant `",
                s,
                "`, expected one of `blob`, `manifest`, `journal-entry`",
            ),
        );
    }
    if same_text(name, "digest") {
        return match Digest::parse(s) {
            Ok(_) => None,
            Err(e) => Some(e.to_string()),
        };
    }
    None
}

/// What a read value comes to, by view.
pub open spec fn value_view(v: core::result::Result<Json, String>) -> core::result::Result<
    JsonView,
    Seq<char>,
> {
    match v {
        Ok(j) => Ok(j@),
        Err(m) => Err(m@),
    }
}

/// Takes in one more field.
fn take_field(
    fields: &mut Vec<(String, Json)>,
    name: String,
    value: core::result::Result<Json, String>,
) -> (r: core::result::Result<(), String>)
    ensures
        match with_field(fields_view(old(fields)@), name@, value_view(value)) {
            Ok(f) => r is Ok && fields_view(final(fields)@) == f,
            Err(m) => r matches Err(e) && e@ == m,
        },
{
    if !is_meta_name(&name) {
        return Ok(());
    }
    if get_field(fields, &name).is_some() {
        return Err(join3("duplicate field `", &name, "`"));
    }
    let v: Json = match value {
        Err(m) => {
            return Err(m);
        },
        Ok(v) => v,
    };
    match judge_value(&name, &v) {
        Some(m) => Err(m),
        None => {
            let ghost before = fields@;
            let ghost added = (name@, v@);
            fields.push((name, v));
            assert(fields_view(fields@) =~= fields_view(before).push(added));
            Ok(())
        },
    }
}

/// Whether every one of `f` is a field of metadata with what it should hold.
spec fn all_sound(f: Seq<(Seq<char>, JsonView)>) -> bool {
    forall|i: int| 0 <= i < f.len() ==> value_fault((#[trigger] f[i]).0, f[i].1) is None
}

proof fn lemma_all_sound(items: Seq<(Seq<char>, core::result::Result<JsonView, Seq<char>>)>)
    ensures
        sound_fields(items) matches Ok(f) ==> all_sound(f),
    decreases items.len(),
{
    if items.len() > 0 {
        lemma_all_sound(items.drop_last());
    }
}

/// A sound field that is there holds what it should.
proof fn lemma_sound_field(f: Seq<(Seq<char>, JsonView)>, name: Seq<char>)
    requires
        all_sound(f),
    ensures
        name == "plaintext_bytes"@ ==> (field(f, name) is Some <==> number_field(f, name) is Some),
        name != "plaintext_bytes"@ ==> (field(f, name) is Some <==> text_field(f, name) is Some),
        name == "kind"@ && name != "plaintext_bytes"@ ==> (text_field(f, name) matches Some(s)
            ==> kind_of(s) is Some),
        name == "digest"@ && name != "plaintext_bytes"@ && name != "kind"@ ==> (text_field(
            f,
            name,
        ) matches Some(s) ==> digest_of_text(s) is Some),
{
    if field(f, name) is Some {
        let i = lemma_field_member(f, name);
        assert(value_fault(f[i].0, f[i].1) is None);
    }
}

fn missing(name: &str) -> (r: String)
    ensures
        r@ == "missing field `"@ + name@ + "`"@,
{
    join3("missing field `", name, "`")
}

/// The metadata in sound fields.
fn finish_meta(fields: &Vec<(String, Json)>) -> (r: core::result::Result<EnvelopeMeta, String>)
    requires
        all_sound(fields_view(fields@)),
    ensures
        match missing_field(fields_view(fields@), 0) {
            Some(name) => r matches Err(m) && m@ == "missing field `"@ + name + "`"@,
            None => r matches Ok(e) && meta_of(fields_view(fields@)) == Some(e@),
        },
{
    proof {
        let f = fields_view(fields@);
        lemma_field_names();
        reveal_with_fuel(missing_field, 9);
        lemma_sound_field(f, "schema"@);
        lemma_sound_field(f, "tenant"@);
        lemma_sound_field(f, "kind"@);
        lemma_sound_field(f, "digest"@);
        lemma_sound_field(f, "plaintext_bytes"@);
        lemma_sound_field(f, "compression"@);
        lemma_sound_field(f, "encryption"@);
        lemma_sound_field(f, "created_at"@);
    }
    let schema: String = match meta_string(fields, "schema") {
        Ok(s) => s,
        Err(_) => {
            return Err(missing("schema"));
        },
    };
    let tenant: String = match meta_string(fields, "tenant") {
        Ok(s) => s,
        Err(_) => {
            return Err(missing("tenant"));
        },
    };
    let kind_text: String = match meta_string(fields, "kind") {
        Ok(s) => s,
        Err(_) => {
            return Err(missing("kind"));
        },
    };
    let digest_text: String = match meta_string(fields, "digest") {
        Ok(s) => s,
        Err(_) => {
            return Err(missing("digest"));
        },
    };
    let plaintext_bytes: u64 = match meta_number(fields, "plaintext_bytes") {
        Some(n) => n,
        None => {
            return Err(missing("plaintext_bytes"));
        },
    };
    let compression: String = match meta_string(fields, "compression") {
        Ok(s) => s,
        Err(_) => {
            return Err(missing("compression"));
        },
    };
    let encryption: String = match meta_string(fields, "encryption") {
        Ok(s) => s,
        Err(_) => {
            return Err(missing("encryption"));
        },
    };
    let created_at: String = match meta_string(fields, "created_at") {
        Ok(s) => s,
        Err(_) => {
            return Err(missing("created_at"));
        },
    };
    let kind: ObjectKind = match ObjectKind::from_meta_str(&kind_text) {
        Some(k) => k,
        None => {
            return Err(missing("kind"));
        },
    };
    let digest: Digest = match Digest::parse(&digest_text) {
        Ok(d) => {
            proof {
                let c = choose|c: Digest| digest_text@ == #[trigger] c.text();
                law_digest_text_injective(d, c);
            }
            d
        },
        Err(_) => {
            return Err(missing("digest"));
        },
    };
    Ok(
        EnvelopeMeta {
            schema,
            tenant,
            kind,
            digest,
            plaintext_bytes,
            compression,
            encryption,
            created_at,
        },
    )
}

/// `v` in reverse.
fn reversed<T>(v: Vec<T>) -> (r: Vec<T>)
    ensures
        r@ == v@.reverse(),
{
    let ghost all = v@;
    let mut rest: Vec<T> = v;
    let mut back: Vec<T> = Vec::new();
    assert(all.skip(rest@.len() as int).reverse() =~= back@);
    while rest.len() > 0
        invariant
            rest@.len() <= all.len(),
            rest@ == all.take(rest@.len() as int),
            back@ == all.skip(rest@.len() as int).reverse(),
        decreases rest@.len(),
    {
        let ghost n = rest@.len() as int;
        if let Some(x) = rest.pop() {
            assert(rest@ =~= all.take(n - 1));
            back.push(x);
            assert(back@ =~= all.skip(n - 1).reverse());
        }
    }
    assert(all.skip(0) =~= all);
    back
}

/// After a field that cannot be used, nothing else counts.
proof fn lemma_sound_stops(
    items: Seq<(Seq<char>, core::result::Result<JsonView, Seq<char>>)>,
    n: int,
)
    requires
        0 <= n <= items.len(),
        sound_fields(items.take(n)) is Err,
    ensures
        sound_fields(items) == sound_fields(items.take(n)),
    decreases items.len() - n,
{
    if n < items.len() {
        assert(items.take(n + 1).drop_last() =~= items.take(n));
        lemma_sound_stops(items, n + 1);
    } else {
        assert(items.take(n) =~= items);
    }
}

/// The metadata in the fields of a JSON object.
fn read_meta(fields: Vec<(String, Json)>) -> (r: core::result::Result<EnvelopeMeta, String>)
    ensures
        match meta_in(field_items(fields_view(fields@))) {
            Ok(m) => r matches Ok(e) && e@ == m,
            Err(m) => r matches Err(e) && e@ == m,
        },
{
    let ghost all = fields@;
    let ghost items = field_items(fields_view(all));
    let mut rest: Vec<(String, Json)> = reversed(fields);
    let mut good: Vec<(String, Json)> = Vec::new();
    proof {
        assert(items.take(0) =~= Seq::empty());
        assert(fields_view(good@) =~= Seq::empty());
        assert(all.skip(0) =~= all);
    }
    while rest.len() > 0
        invariant
            rest@.len() <= all.len(),
            all == fields@,
            items == field_items(fields_view(all)),
            rest@ == all.skip(all.len() - rest@.len()).reverse(),
            sound_fields(items.take(all.len() - rest@.len())) == Ok::<
                Seq<(Seq<char>, JsonView)>,
                Seq<char>,
            >(fields_view(good@)),
        decreases rest@.len(),
    {
        let ghost n = all.len() - rest@.len();
        let ghost was = rest@;
        if let Some((name, value)) = rest.pop() {
            proof {
                assert(was.last() == all.skip(n)[0]);
                assert(all[n] == (name, value));
                assert(rest@ =~= all.skip(n + 1).reverse());
                assert(items.take(n + 1).drop_last() =~= items.take(n));
                assert(items.take(n + 1).last() == items[n]);
                assert(items[n] == (name@, Ok::<JsonView, Seq<char>>(value@)));
                if sound_fields(items.take(n + 1)) is Err {
                    lemma_sound_stops(items, n + 1);
                }
            }
            match take_field(&mut good, name, Ok(value)) {
                Err(m) => {
                    return Err(m);
                },
                Ok(_) => {},
            }
        }
    }
    proof {
        assert(items.take(all.len() as int) =~= items);
        lemma_all_sound(items);
    }
    finish_meta(&good)
}

/// What a piece of metadata holds.
fn read_piece(name: &str, raw: &Vec<u8>) -> (r: core::result::Result<Json, String>)
    ensures
        value_view(r) == piece_value(name@, raw@),
{
    match parse(raw) {
        Err(f) => Err(fault_message(f)),
        Ok(Json::Object(o)) => {
            if same_text(name, "kind") {
                if let Some(mut p) = read_pieces(raw, true) {
                    if p.len() == 1 {
                        let ghost only = pieces_view(p@)[0];
                        if let Some((variant, value)) = p.pop() {
                            assert(only == (variant@, value@));
                            if let Ok(Json::Null) = parse(&value) {
                                return Ok(Json::Text(variant));
                            }
                        }
                    }
                }
            }
            Ok(Json::Object(o))
        },
        Ok(v) => Ok(v),
    }
}

/// The metadata in pieces of a text.
fn piece_meta(parts: Vec<(String, Vec<u8>)>) -> (r: core::result::Result<EnvelopeMeta, String>)
    ensures
        match meta_in(piece_items(pieces_view(parts@))) {
            Ok(m) => r matches Ok(e) && e@ == m,
            Err(m) => r matches Err(e) && e@ == m,
        },
{
    let ghost items = piece_items(pieces_view(parts@));
    let mut good: Vec<(String, Json)> = Vec::new();
    let mut i: usize = 0;
    proof {
        assert(items.take(0) =~= Seq::empty());
        assert(fields_view(good@) =~= Seq::empty());
    }
    while i < parts.len()
        invariant
            i <= parts@.len(),
            items == piece_items(pieces_view(parts@)),
            items.len() == parts@.len(),
            sound_fields(items.take(i as int)) == Ok::<Seq<(Seq<char>, JsonView)>, Seq<char>>(
                fields_view(good@),
            ),
        decreases parts@.len() - i,
    {
        proof {
            let k = i as int;
            assert(items.take(k + 1).drop_last() =~= items.take(k));
            assert(items.take(k + 1).last() == items[k]);
            assert(pieces_view(parts@)[k] == (parts@[k].0@, parts@[k].1@));
            if sound_fields(items.take(k + 1)) is Err {
                lemma_sound_stops(items, k + 1);
            }
        }
        let name: String = parts[i].0.clone();
        let value: core::result::Result<Json, String> = if is_meta_name(&name) {
            read_piece(&name, &parts[i].1)
        } else {
            Ok(Json::Null)
        };
        match take_field(&mut good, name, value) {
            Err(m) => {
                return Err(m);
            },
            Ok(_) => {},
        }
        i = i + 1;
    }
    proof {
        assert(items.take(i as int) =~= items);
        lemma_all_sound(items);
    }
    finish_meta(&good)
}

/// The values of a list under the names of the fields in order.
fn name_in_order(values: Vec<(String, Vec<u8>)>) -> (r: Vec<(String, Vec<u8>)>)
    requires
        values@.len() == 8,
    ensures
        pieces_view(r@) == named_in_order(pieces_view(values@)),
{
    let mut out: Vec<(String, Vec<u8>)> = Vec::new();
    out.push(("schema".to_owned(), copy_bytes(&values[0].1)));
    out.push(("tenant".to_owned(), copy_bytes(&values[1].1)));
    out.push(("kind".to_owned(), copy_bytes(&values[2].1)));
    out.push(("digest".to_owned(), copy_bytes(&values[3].1)));
    out.push(("plaintext_bytes".to_owned(), copy_bytes(&values[4].1)));
    out.push(("compression".to_owned(), copy_bytes(&values[5].1)));
    out.push(("encryption".to_owned(), copy_bytes(&values[6].1)));
    out.push(("created_at".to_owned(), copy_bytes(&values[7].1)));
    assert(pieces_view(out@) =~= named_in_order(pieces_view(values@)));
    out
}

/// The metadata in a text.
fn read_meta_text(t: &[u8]) -> (r: core::result::Result<EnvelopeMeta, String>)
    ensures
        match meta_in_text(t@) {
            Ok(m) => r matches Ok(e) && e@ == m,
            Err(m) => r matches Err(e) && e@ == m,
        },
{
    if let Some(p) = read_pieces(t, true) {
        return piece_meta(p);
    }
    if let Some(p) = read_pieces(t, false) {
        if p.len() < 8 {
            return Err(
                join3(
                    "invalid length ",
                    &decimal_text(p.len() as u64),
                    ", expected struct EnvelopeMeta with 8 elements",
                ),
            );
        }
        if p.len() > 8 {
            return Err("trailing characters".to_owned());
        }
        return piece_meta(name_in_order(p));
    }
    match parse(t) {
        Err(f) => Err(fault_message(f)),
        Ok(v) => Err(mistyped_text(&v, "struct EnvelopeMeta")),
    }
}

fn read_u16(b: &[u8], i: usize) -> (r: u16)
    requires
        i + 2 <= b@.len(),
    ensures
        r == u16_le(b@, i as int),
{
    b[i] as u16 + 0x100 * b[i + 1] as u16
}

fn read_u32(b: &[u8], i: usize) -> (r: u32)
    requires
        i + 4 <= b@.len(),
    ensures
        r == u32_le(b@, i as int),
{
    b[i] as u32 + 0x100 * b[i + 1] as u32 + 0x1_0000 * b[i + 2] as u32 + 0x100_0000 * b[i
        + 3] as u32
}

fn check_magic(b: &[u8]) -> (r: bool)
    ensures
        r == has_magic(b@),
{
    b.len() >= 12 && b[0] == 0x43 && b[1] == 0x4f && b[2] == 0x4d && b[3] == 0x42
}

/// The metadata and where the payload begins.
fn read_frame(b: &[u8]) -> (r: Result<(EnvelopeMeta, usize)>)
    requires
        has_magic(b@),
    ensures
        if !has_meta(b@) {
            r matches Err(e) && e@ == ErrorView::InvalidFormat(fields_fault(b@))
        } else {
            match meta_in_text(meta_part(b@)) {
                Ok(m) => r matches Ok(p) && p.0@ == m && p.1 == 12 + u32_le(b@, 8) && p.1
                    <= b@.len(),
                Err(m) => r matches Err(e) && e@ == ErrorView::InvalidFormat("meta decode: "@ + m),
            }
        },
{
    let n: u32 = read_u32(b, 8);
    if n > MAX_ENVELOPE_META_BYTES || b.len() - 12 < n as usize {
        return Err(invalid_format("truncated envelope metadata"));
    }
    let end: usize = 12 + n as usize;
    let part: &[u8] = vstd::slice::slice_subrange(b, 12, end);
    assert(part@ =~= meta_part(b@));
    match read_meta_text(part) {
        Ok(m) => Ok((m, end)),
        Err(m) => Err(CoreError::InvalidFormat(join2("meta decode: ", &m))),
    }
}

/// The fields of the metadata and where the payload begins.
fn read_fields(b: &[u8]) -> (r: Result<(Vec<(String, Json)>, usize)>)
    requires
        has_magic(b@),
    ensures
        if has_meta(b@) && fields_of(b@) is Some {
            r matches Ok(p) && fields_view(p.0@) == fields_of(b@)->0 && p.1 == 12 + u32_le(b@, 8)
                && p.1 <= b@.len()
        } else {
            r matches Err(e) && e@ == ErrorView::InvalidFormat(fields_fault(b@))
        },
{
    let n: u32 = read_u32(b, 8);
    if n > MAX_ENVELOPE_META_BYTES || b.len() - 12 < n as usize {
        return Err(invalid_format("truncated envelope metadata"));
    }
    let end: usize = 12 + n as usize;
    let part: &[u8] = vstd::slice::slice_subrange(b, 12, end);
    assert(part@ =~= meta_part(b@));
    match parse(part) {
        Err(f) => Err(CoreError::InvalidFormat(join2("meta decode: ", &fault_message(f)))),
        Ok(Json::Object(fields)) => {
            proof {
                lemma_object_view(fields);
            }
            Ok((fields, end))
        },
        Ok(_) => Err(invalid_format("envelope metadata must be an object")),
    }
}

/// Holds the payload against its metadata.
fn check_payload(meta: EnvelopeMeta, payload: Vec<u8>, key: &DigestKey) -> (r: Result<Envelope>)
    ensures
        match checked(meta@, payload@, *key) {
            Decoded::Good(m, p) => r matches Ok(e) && e.meta@ == m && e.payload@ == p,
            Decoded::Bad(v) => r matches Err(e) && e@ == v,
            Decoded::TooLarge => false,
        },
{
    if payload.len() as u64 != meta.plaintext_bytes {
        let m: String = join4(
            "payload length ",
            &decimal_text(payload.len() as u64),
            " does not match declared ",
            &decimal_text(meta.plaintext_bytes),
        );
        return Err(CoreError::IntegrityError(m));
    }
    let actual: Digest = key.digest(&payload);
    if actual != meta.digest {
        let m: String = join4(
            "digest mismatch: declared ",
            &meta.digest.to_string(),
            ", computed ",
            &actual.to_string(),
        );
        return Err(CoreError::IntegrityError(m));
    }
    Ok(Envelope { meta, payload })
}

fn rest_of(b: &[u8], from: usize) -> (r: Vec<u8>)
    requires
        from <= b@.len(),
    ensures
        r@ == b@.skip(from as int),
{
    let part: &[u8] = vstd::slice::slice_subrange(b, from, b.len());
    assert(part@ =~= b@.skip(from as int));
    copy_bytes(part)
}

impl Envelope {
    /// An envelope for plaintext. The digest is taken of the plaintext with
    /// the tenant's key; there is no compression and no encryption.
    pub fn new(tenant: &str, kind: ObjectKind, schema: &str, payload: Vec<u8>, key: &DigestKey) -> (r:
        Self)
        ensures
            r.payload@ == payload@,
            r.meta.schema@ == schema@,
            r.meta.tenant@ == tenant@,
            r.meta.kind == kind,
            describes(r.meta@, payload@, *key),
            r.meta.compression@ == "none"@,
            r.meta.encryption@ == "none"@,
            exists|t: Timestamp|
                #![trigger t.text()]
                may_be_shown(t) && r.meta.created_at@ == t.text(),
    {
        let digest: Digest = key.digest(&payload);
        let now: Timestamp = Timestamp::now();
        let created_at: String = now.to_rfc3339();
        assert(created_at@ == now.text());
        Envelope {
            meta: EnvelopeMeta {
                schema: schema.to_owned(),
                tenant: tenant.to_owned(),
                kind,
                digest,
                plaintext_bytes: payload.len() as u64,
                compression: "none".to_owned(),
                encryption: "none".to_owned(),
                created_at,
            },
            payload,
        }
    }

    /// The bytes of the envelope. Decoding them gives it back.
    pub fn encode(&self) -> (r: Result<Vec<u8>>)
        ensures
            match r {
                Ok(b) => {
                    &&& b@ == encoded(self.meta@, self.payload@)
                    &&& object_text(meta_fields(self.meta@)).len() <= MAX_ENVELOPE_META_BYTES
                    &&& forall|key: DigestKey|
                        #![trigger decoded(b@, key)]
                        describes(self.meta@, self.payload@, key) ==> decoded(b@, key)
                            == Decoded::Good(self.meta@, self.payload@)
                    &&& forall|key: DigestKey, limit: u64|
                        #![trigger decoded_limited(b@, key, limit, self.meta.kind, self.meta.schema@)]
                        describes(self.meta@, self.payload@, key) && b@.len() <= limit
                            && self.meta.compression@ == "none"@ && self.meta.encryption@
                            == "none"@ ==> decoded_limited(
                            b@,
                            key,
                            limit,
                            self.meta.kind,
                            self.meta.schema@,
                        ) == Decoded::Good(self.meta@, self.payload@)
                },
                Err(e) => e@ == ErrorView::InvalidFormat("metadata exceeds 64 KiB"@)
                    && object_text(meta_fields(self.meta@)).len() > MAX_ENVELOPE_META_BYTES,
            },
    {
        let mut fields: Vec<(String, Scalar)> = Vec::new();
        fields.push(("schema".to_owned(), Scalar::Text(self.meta.schema.clone())));
        fields.push(("tenant".to_owned(), Scalar::Text(self.meta.tenant.clone())));
        fields.push(("kind".to_owned(), Scalar::Text(self.meta.kind.as_str().to_owned())));
        fields.push(("digest".to_owned(), Scalar::Text(self.meta.digest.to_string())));
        fields.push(("plaintext_bytes".to_owned(), Scalar::Number(self.meta.plaintext_bytes)));
        fields.push(("compression".to_owned(), Scalar::Text(self.meta.compression.clone())));
        fields.push(("encryption".to_owned(), Scalar::Text(self.meta.encryption.clone())));
        fields.push(("created_at".to_owned(), Scalar::Text(self.meta.created_at.clone())));
        proof {
            lemma_meta_roundtrip(self.meta@);
            assert(scalars_view(fields@) =~= meta_fields(self.meta@));
        }
        let meta: Vec<u8> = write_object(fields);
        if meta.len() > MAX_ENVELOPE_META_BYTES as usize {
            return Err(invalid_format("metadata exceeds 64 KiB"));
        }
        let n: u32 = meta.len() as u32;
        let mut out: Vec<u8> = Vec::new();
        out.push(0x43);
        out.push(0x4f);
        out.push(0x4d);
        out.push(0x42);
        out.push(1);
        out.push(0);
        out.push(0);
        out.push(0);
        out.push((n % 0x100) as u8);
        out.push((n / 0x100 % 0x100) as u8);
        out.push((n / 0x1_0000 % 0x100) as u8);
        out.push((n / 0x100_0000 % 0x100) as u8);
        append_slice(&mut out, &meta);
        append_slice(&mut out, &self.payload);
        proof {
            assert(out@ =~= encoded(self.meta@, self.payload@));
            assert forall|key: DigestKey|
                describes(self.meta@, self.payload@, key) implies #[trigger] decoded(out@, key)
                == Decoded::Good(self.meta@, self.payload@) by {
                lemma_envelope_roundtrip(self.meta@, self.payload@, key);
            }
            assert forall|key: DigestKey, limit: u64|
                describes(self.meta@, self.payload@, key) && out@.len() <= limit
                    && self.meta.compression@ == "none"@ && self.meta.encryption@
                    == "none"@ implies #[trigger] decoded_limited(
                out@,
                key,
                limit,
                self.meta.kind,
                self.meta.schema@,
            ) == Decoded::Good(self.meta@, self.payload@) by {
                lemma_envelope_roundtrip(self.meta@, self.payload@, key);
            }
        }
        Ok(out)
    }

    /// Decodes and verifies. Wrong magic, a truncated frame, and a plaintext
    /// length or digest that does not match are all errors.
    pub fn decode(bytes: &[u8], key: &DigestKey) -> (r: Result<Self>)
        ensures
            matches_decoded(r, decoded(bytes@, *key), bytes@, Seq::empty(), 0),
    {
        if !check_magic(bytes) {
            return Err(invalid_format("bad envelope magic"));
        }
        if read_u16(bytes, 4) != 1 {
            let v: String = decimal_text(read_u16(bytes, 4) as u64);
            return Err(CoreError::InvalidFormat(join2("unsupported envelope version ", &v)));
        }
        let (meta, at) = match read_frame(bytes) {
            Ok(p) => p,
            Err(e) => {
                return Err(e);
            },
        };
        check_payload(meta, rest_of(bytes, at), key)
    }

    /// Bounded decoding for classed reads. The order is fixed: encoded-size
    /// cap, header and at most 64 KiB of metadata, format tags, then payload
    /// length and digest. An object with an unknown tag never reaches a
    /// codec or a payload parser.
    pub fn decode_limited(
        bytes: &[u8],
        digest_key: &DigestKey,
        max_encoded_bytes: u64,
        expected: EnvelopeExpectation<'_>,
        object_key: &str,
    ) -> (r: Result<Self>)
        ensures
            matches_decoded(
                r,
                decoded_limited(
                    bytes@,
                    *digest_key,
                    max_encoded_bytes,
                    expected.kind,
                    expected.schema@,
                ),
                bytes@,
                object_key@,
                max_encoded_bytes,
            ),
    {
        if bytes.len() as u64 > max_encoded_bytes {
            return Err(
                CoreError::ObjectTooLarge {
                    key: object_key.to_owned(),
                    limit: max_encoded_bytes,
                    actual: Some(bytes.len() as u64),
                },
            );
        }
        if !check_magic(bytes) {
            return Err(invalid_format("bad envelope magic"));
        }
        let version: u16 = read_u16(bytes, 4);
        if version != 1 {
            return Err(unsupported(EnvelopeFormatField::Version, decimal_text(version as u64)));
        }
        let flags: u16 = read_u16(bytes, 6);
        if flags != 0 {
            return Err(unsupported(EnvelopeFormatField::Flags, decimal_text(flags as u64)));
        }
        let (fields, at) = match read_fields(bytes) {
            Ok(p) => p,
            Err(e) => {
                return Err(e);
            },
        };
        match check_tags(&fields, expected) {
            Ok(_) => {},
            Err(e) => {
                return Err(e);
            },
        }
        let meta: EnvelopeMeta = match read_meta(fields) {
            Ok(m) => m,
            Err(m) => {
                return Err(CoreError::InvalidFormat(join2("meta decode: ", &m)));
            },
        };
        check_payload(meta, rest_of(bytes, at), digest_key)
    }

    /// `decode_limited`, and then the payload decoder of the caller, which
    /// runs only on a payload that was accepted and verified.
    pub fn decode_limited_with<T, F: FnOnce(&[u8]) -> Result<T>>(
        bytes: &[u8],
        digest_key: &DigestKey,
        max_encoded_bytes: u64,
        expected: EnvelopeExpectation<'_>,
        object_key: &str,
        decode_payload: F,
    ) -> (r: Result<(Self, T)>)
        requires
            decoded_limited(
                bytes@,
                *digest_key,
                max_encoded_bytes,
                expected.kind,
                expected.schema@,
            ) matches Decoded::Good(_, payload) ==> forall|p: &[u8]|
                p@ == payload ==> call_requires(decode_payload, (p,)),
        ensures
            match decoded_limited(
                bytes@,
                *digest_key,
                max_encoded_bytes,
                expected.kind,
                expected.schema@,
            ) {
                Decoded::Good(m, payload) => exists|p: &[u8], t: Result<T>|
                    p@ == payload && #[trigger] call_ensures(decode_payload, (p,), t) && match t {
                        Ok(v) => r matches Ok(x) && x.0.meta@ == m && x.0.payload@ == payload
                            && x.1 == v,
                        Err(e) => r matches Err(f) && f == e,
                    },
                d => match r {
                    Ok(_) => false,
                    Err(e) => matches_decoded(
                        Err(e),
                        d,
                        bytes@,
                        object_key@,
                        max_encoded_bytes,
                    ),
                },
            },
    {
        let env: Envelope = match Self::decode_limited(
            bytes,
            digest_key,
            max_encoded_bytes,
            expected,
            object_key,
        ) {
            Ok(e) => e,
            Err(e) => {
                return Err(e);
            },
        };
        let payload: &[u8] = &env.payload;
        let t: Result<T> = decode_payload(payload);
        assert(call_ensures(decode_payload, (payload,), t));
        match t {
            Ok(v) => Ok((env, v)),
            Err(e) => Err(e),
        }
    }
}

fn unsupported(field: EnvelopeFormatField, value: String) -> (r: CoreError)
    ensures
        r == (CoreError::UnsupportedEnvelopeFormat { field, value }),
{
    CoreError::UnsupportedEnvelopeFormat { field, value }
}

/// Looks at the format tags of the metadata.
fn check_tags(fields: &Vec<(String, Json)>, expected: EnvelopeExpectation<'_>) -> (r: Result<()>)
    ensures
        match tags_verdict(fields_view(fields@), expected.kind, expected.schema@) {
            None => r is Ok,
            Some(Decoded::Bad(v)) => r matches Err(e) && e@ == v,
            Some(_) => false,
        },
{
    let compression: String = match meta_string(fields, "compression") {
        Ok(s) => s,
        Err(e) => {
            return Err(e);
        },
    };
    if !same_text(&compression, "none") {
        return Err(unsupported(EnvelopeFormatField::Compression, compression));
    }
    let encryption: String = match meta_string(fields, "encryption") {
        Ok(s) => s,
        Err(e) => {
            return Err(e);
        },
    };
    if !same_text(&encryption, "none") {
        return Err(unsupported(EnvelopeFormatField::Encryption, encryption));
    }
    let kind: String = match meta_string(fields, "kind") {
        Ok(s) => s,
        Err(e) => {
            return Err(e);
        },
    };
    match ObjectKind::from_meta_str(&kind) {
        Some(k) if k == expected.kind => {},
        _ => {
            return Err(unsupported(EnvelopeFormatField::ObjectKind, kind));
        },
    }
    let schema: String = match meta_string(fields, "schema") {
        Ok(s) => s,
        Err(e) => {
            return Err(e);
        },
    };
    if !same_text(&schema, expected.schema) {
        return Err(unsupported(EnvelopeFormatField::Schema, schema));
    }
    Ok(())
}

/// A payload that decodes is the one that was digested: whatever the bytes,
/// what comes out has the declared length and digest under the key.
pub proof fn law_decoded_payload_is_verified(b: Seq<u8>, key: DigestKey, m: MetaView, p: Seq<u8>)
    requires
        decoded(b, key) == Decoded::Good(m, p),
    ensures
        describes(m, p, key),
        p == payload_part(b),
{
}

proof fn lemma_field_push(f: Seq<(Seq<char>, JsonView)>, x: (Seq<char>, JsonView), name: Seq<char>)
    ensures
        field(f.push(x), name) == match field(f, name) {
            Some(v) => Some(v),
            None => if x.0 == name {
                Some(x.1)
            } else {
                None
            },
        },
    decreases f.len(),
{
    let all = f.push(x);
    if f.len() == 0 {
        assert(all.drop_first() =~= Seq::empty());
    } else {
        assert(all.drop_first() =~= f.drop_first().push(x));
        lemma_field_push(f.drop_first(), x, name);
    }
}

/// Sound fields are among those that they were taken from.
proof fn lemma_sound_kept(f: Seq<(Seq<char>, JsonView)>, name: Seq<char>)
    requires
        meta_names().contains(name),
        sound_fields(field_items(f)) is Ok,
    ensures
        field(sound_fields(field_items(f))->Ok_0, name) == field(f, name),
    decreases f.len(),
{
    if f.len() > 0 {
        let init = f.drop_last();
        let last = f[f.len() - 1];
        assert(field_items(f).drop_last() =~= field_items(init));
        lemma_sound_kept(init, name);
        assert(init.push(last) =~= f);
        lemma_field_push(init, last, name);
        lemma_field_push(sound_fields(field_items(init))->Ok_0, last, name);
    }
}

/// Bounded decoding accepts no more than plain decoding does, but for metadata
/// that names a field twice: there it takes the last.
pub proof fn law_limited_decoding_is_stricter(
    b: Seq<u8>,
    key: DigestKey,
    limit: u64,
    kind: ObjectKind,
    schema: Seq<char>,
    m: MetaView,
    p: Seq<u8>,
)
    requires
        decoded_limited(b, key, limit, kind, schema) == Decoded::Good(m, p),
        meta_in_text(meta_part(b)) == meta_in(field_items(fields_of(b)->0)),
    ensures
        decoded(b, key) == Decoded::Good(m, p),
        b.len() <= limit,
        m.kind == kind,
        m.schema == schema,
        m.compression == "none"@,
        m.encryption == "none"@,
{
    let f = fields_of(b)->0;
    lemma_names_known();
    let n = meta_names();
    assert(n[0] == "schema"@ && n[2] == "kind"@ && n[5] == "compression"@ && n[6] == "encryption"@);
    lemma_sound_kept(f, n[0]);
    lemma_sound_kept(f, n[2]);
    lemma_sound_kept(f, n[5]);
    lemma_sound_kept(f, n[6]);
    let g = sound_fields(field_items(f))->Ok_0;
    lemma_all_sound(field_items(f));
    reveal_with_fuel(missing_field, 9);
    lemma_field_names();
    lemma_sound_field(g, "schema"@);
    lemma_sound_field(g, "tenant"@);
    lemma_sound_field(g, "kind"@);
    lemma_sound_field(g, "digest"@);
    lemma_sound_field(g, "plaintext_bytes"@);
    lemma_sound_field(g, "compression"@);
    lemma_sound_field(g, "encryption"@);
    lemma_sound_field(g, "created_at"@);
}

proof fn lemma_four_bytes_of_a_length(n: nat)
    requires
        n <= 65_536,
    ensures
        n % 0x100 + 0x100 * (n / 0x100 % 0x100) + 0x1_0000 * (n / 0x1_0000 % 0x100) + 0x100_0000
            * (n / 0x100_0000 % 0x100) == n,
{
    assert(n / 0x100_0000 == 0);
    assert(n / 0x1_0000 <= 1);
    if n == 65_536 {
        assert(n / 0x100 == 0x100);
    } else {
        assert(n / 0x1_0000 == 0);
        assert(n / 0x100 < 0x100);
    }
}

/// What an envelope looks like: `COMB`, version 1 and no flags, the length of
/// the metadata in four bytes with the lowest first, the metadata, and the
/// payload as it is.
pub proof fn law_envelope_is_framed(m: MetaView, payload: Seq<u8>)
    requires
        object_text(meta_fields(m)).len() <= 65_536,
    ensures
        ({
            let b = encoded(m, payload);
            let meta = object_text(meta_fields(m));
            &&& b.len() == 12 + meta.len() + payload.len()
            &&& b.take(8) == seq![67u8, 79, 77, 66, 1, 0, 0, 0]
            &&& b[8] + 256 * b[9] + 256 * 256 * b[10] + 256 * 256 * 256 * b[11] == meta.len()
            &&& b.subrange(12, 12 + meta.len() as int) == meta
            &&& b.skip(12 + meta.len() as int) == payload
            &&& has_magic(b) && has_meta(b) && meta_part(b) == meta && payload_part(b) == payload
        }),
{
    let b = encoded(m, payload);
    let meta = object_text(meta_fields(m));
    let n = meta.len();
    assert(b[8] == n % 0x100 && b[9] == n / 0x100 % 0x100 && b[10] == n / 0x1_0000 % 0x100
        && b[11] == n / 0x100_0000 % 0x100);
    lemma_four_bytes_of_a_length(n);
    assert(u32_le(b, 8) == n);
    assert(b.take(8) =~= seq![67u8, 79, 77, 66, 1, 0, 0, 0]);
    assert(b.subrange(12, 12 + meta.len() as int) =~= meta);
    assert(b.skip(12 + meta.len() as int) =~= payload);
}

/// Metadata is read back from the fields that it is written as, kinds among
/// them, and no text is taken for a kind that is not its own.
pub proof fn law_metadata_reads_back(m: MetaView, k: ObjectKind, s: Seq<char>)
    ensures
        meta_in(field_items(meta_fields(m))) == Ok::<MetaView, Seq<char>>(m),
        kind_of(k.text()) == Some(k),
        kind_of(s) == Some(k) <==> s == k.text(),
        meta_fields(m) == seq![
            ("schema"@, JsonView::Text(m.schema)),
            ("tenant"@, JsonView::Text(m.tenant)),
            ("kind"@, JsonView::Text(m.kind.text())),
            ("digest"@, JsonView::Text(m.digest.text())),
            ("plaintext_bytes"@, JsonView::Number(m.plaintext_bytes)),
            ("compression"@, JsonView::Text(m.compression)),
            ("encryption"@, JsonView::Text(m.encryption)),
            ("created_at"@, JsonView::Text(m.created_at)),
        ],
{
    lemma_meta_roundtrip(m);
    lemma_kind_texts();
}

/// What is written is read back: an envelope decodes to the metadata and the
/// payload that it was made of, with a limit and without, wherever the
/// metadata is not too long.
pub proof fn law_encoded_envelope_decodes(m: MetaView, payload: Seq<u8>, key: DigestKey, limit: u64)
    requires
        object_text(meta_fields(m)).len() <= 65_536,
        reads_as(object_text(meta_fields(m)), JsonView::Object(meta_fields(m))),
        written_as(object_text(meta_fields(m)), meta_fields(m)),
        m.plaintext_bytes == payload.len(),
        m.digest == digest_of(key, payload),
    ensures
        decoded(encoded(m, payload), key) == Decoded::Good(m, payload),
        m.compression == "none"@ && m.encryption == "none"@ && encoded(m, payload).len() <= limit
            ==> decoded_limited(encoded(m, payload), key, limit, m.kind, m.schema)
            == Decoded::Good(m, payload),
{
    lemma_envelope_roundtrip(m, payload, key);
}

/// An envelope is decoded exactly if it is framed as one, of version 1, its
/// metadata can be read, and the payload has the length and the digest that it
/// declares. A bounded read refuses as too large exactly what is longer than
/// the limit, and asks for no flags and for what it expects.
pub proof fn law_envelope_is_decoded_if_it_is_sound(
    b: Seq<u8>,
    key: DigestKey,
    limit: u64,
    kind: ObjectKind,
    schema: Seq<char>,
)
    ensures
        decoded(b, key) is Good <==> {
            &&& b.len() >= 12 && b[0] == 67 && b[1] == 79 && b[2] == 77 && b[3] == 66
            &&& b[4] == 1 && b[5] == 0
            &&& u32_le(b, 8) <= 65_536 && 12 + u32_le(b, 8) <= b.len()
            &&& meta_in_text(meta_part(b)) matches Ok(m) && m.plaintext_bytes == b.len() - 12
                - u32_le(b, 8) && m.digest == digest_of(key, b.skip(12 + u32_le(b, 8)))
        },
        decoded(b, key) matches Decoded::Good(m, p) ==> p == b.skip(12 + u32_le(b, 8))
            && meta_in_text(meta_part(b)) == Ok::<MetaView, Seq<char>>(m),
        decoded_limited(b, key, limit, kind, schema) is TooLarge <==> b.len() > limit,
        decoded_limited(b, key, limit, kind, schema) is Good <==> {
            &&& b.len() <= limit
            &&& b.len() >= 12 && b[0] == 67 && b[1] == 79 && b[2] == 77 && b[3] == 66
            &&& b[4] == 1 && b[5] == 0 && b[6] == 0 && b[7] == 0
            &&& u32_le(b, 8) <= 65_536 && 12 + u32_le(b, 8) <= b.len()
            &&& fields_of(b) matches Some(f) && text_field(f, "compression"@) == Some("none"@)
                && text_field(f, "encryption"@) == Some("none"@) && (text_field(f, "kind"@) matches
                Some(k) && kind_of(k) == Some(kind)) && text_field(f, "schema"@) == Some(schema) && (
            meta_in(field_items(f)) matches Ok(m) && m.plaintext_bytes == b.len() - 12 - u32_le(
                b,
                8,
            ) && m.digest == digest_of(key, b.skip(12 + u32_le(b, 8))))
        },
{
}

} // verus!
