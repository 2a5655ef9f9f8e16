//! Digests, envelopes, operations and commits.
use comb::commit::{skip_distance, skip_target_generation};
use comb::digest::{Digest, DigestKey};
use comb::envelope::{Envelope, EnvelopeExpectation, ObjectKind};
use comb::error::{CoreError, EnvelopeFormatField, Result};
use comb::operation::{
    FrozenClock, Material, OpIdentity, OperationId, OperationPolicy, StableKey,
    MAX_STABLE_KEY_BYTES, OP_BODY_LEN,
};
use comb::time::Timestamp;

const MINUTE: i128 = 60 * 1_000_000_000;

#[test]
fn skip_distances() {
    assert_eq!(skip_distance(0), 0);
    assert_eq!(skip_distance(1), 1);
    assert_eq!(skip_distance(2), 2);
    assert_eq!(skip_distance(3), 1);
    assert_eq!(skip_distance(8), 8);
    assert_eq!(skip_distance(12), 4);
    assert_eq!(skip_target_generation(12), 8);
    assert_eq!(skip_target_generation(1), 0);
}

#[test]
fn keyed_digests_differ_across_tenants() {
    let a = DigestKey::from_bytes([1u8; 32]);
    let b = DigestKey::from_bytes([2u8; 32]);
    assert_ne!(a.digest(b"hello"), b.digest(b"hello"));
    assert_eq!(a.digest(b"hello"), a.digest(b"hello"));
}

#[test]
fn digest_roundtrip() {
    let d = DigestKey::from_bytes([0u8; 32]).digest(b"x");
    let parsed = Digest::parse(&d.to_string()).unwrap();
    assert_eq!(d, parsed);
    assert!(Digest::parse("sha256:abcd").is_err());
}

#[test]
fn digest_texts_are_strict() {
    let d = DigestKey::from_bytes([0u8; 32]).digest(b"x");
    let text = d.to_string();
    assert_eq!(text.len(), 68);
    assert!(text.starts_with("b3k:"));
    assert_eq!(&text[4..], d.hex());
    assert_eq!(d.key_prefix(), &d.hex()[..2]);
    assert!(Digest::parse(&text.to_uppercase()).is_err());
    assert!(Digest::parse(&text[..67]).is_err());
    assert!(Digest::parse(&format!("b3k:{}", "A".repeat(64))).is_err());
    assert_eq!(DigestKey::from_hex(&DigestKey::from_bytes([9u8; 32]).to_hex()).unwrap().digest(b"x"),
        DigestKey::from_bytes([9u8; 32]).digest(b"x"));
    assert!(DigestKey::from_hex("00").is_err());
}

#[test]
fn digest_is_the_keyed_blake3() {
    let d = DigestKey::from_bytes([5u8; 32]).digest(b"abc");
    assert_eq!(d.raw(), *blake3::keyed_hash(&[5u8; 32], b"abc").as_bytes());
}

fn key() -> DigestKey {
    DigestKey::from_bytes([7u8; 32])
}

fn blob(payload: &[u8]) -> Envelope {
    Envelope::new("org_t", ObjectKind::Blob, "comb.object/v1", payload.to_vec(), &key())
}

#[test]
fn roundtrip() {
    let env = blob(b"payload");
    let bytes = env.encode().unwrap();
    let back = Envelope::decode(&bytes, &key()).unwrap();
    assert_eq!(back.payload, b"payload");
    assert_eq!(back.meta.digest, env.meta.digest);
}

#[test]
fn envelope_begins_with_its_frame() {
    let bytes = blob(b"payload").encode().unwrap();
    assert_eq!(&bytes[..4], b"COMB");
    assert_eq!(&bytes[4..8], &[1, 0, 0, 0]);
    let meta_len = u32::from_le_bytes([bytes[8], bytes[9], bytes[10], bytes[11]]) as usize;
    assert_eq!(&bytes[12 + meta_len..], b"payload");
    let meta: serde_json::Value = serde_json::from_slice(&bytes[12..12 + meta_len]).unwrap();
    assert_eq!(meta["schema"], "comb.object/v1");
    assert_eq!(meta["tenant"], "org_t");
    assert_eq!(meta["plaintext_bytes"], 7);
}

#[test]
fn bit_flip_is_detected() {
    let mut bytes = blob(b"payload").encode().unwrap();
    let last = bytes.len() - 1;
    bytes[last] ^= 0x01;
    match Envelope::decode(&bytes, &key()) {
        Err(CoreError::IntegrityError(_)) => {}
        other => panic!("expected IntegrityError, got {other:?}"),
    }
}

#[test]
fn wrong_tenant_key_fails_verification() {
    let bytes = blob(b"payload").encode().unwrap();
    let other = DigestKey::from_bytes([9u8; 32]);
    assert!(matches!(Envelope::decode(&bytes, &other), Err(CoreError::IntegrityError(_))));
}

fn blob_expected() -> EnvelopeExpectation<'static> {
    EnvelopeExpectation { kind: ObjectKind::Blob, schema: "comb.object/v1" }
}

fn frame(version: u16, flags: u16, meta: &serde_json::Value, payload: &[u8]) -> Vec<u8> {
    frame_text(version, flags, &serde_json::to_string(meta).unwrap(), payload)
}

fn frame_text(version: u16, flags: u16, meta: &str, payload: &[u8]) -> Vec<u8> {
    let meta_bytes = meta.as_bytes();
    let mut out = Vec::new();
    out.extend_from_slice(b"COMB");
    out.extend_from_slice(&version.to_le_bytes());
    out.extend_from_slice(&flags.to_le_bytes());
    out.extend_from_slice(&(meta_bytes.len() as u32).to_le_bytes());
    out.extend_from_slice(meta_bytes);
    out.extend_from_slice(payload);
    out
}

fn panic_payload(_: &[u8]) -> Result<serde_json::Value> {
    panic!("payload decoder invoked");
}

fn sample() -> (Envelope, Vec<u8>, serde_json::Value) {
    let env = blob(br#"{"ok":true}"#);
    let bytes = env.encode().unwrap();
    let meta_len = u32::from_le_bytes([bytes[8], bytes[9], bytes[10], bytes[11]]) as usize;
    let meta = serde_json::from_slice(&bytes[12..12 + meta_len]).unwrap();
    (env, bytes, meta)
}

fn reject_format(bytes: &[u8], field: EnvelopeFormatField, value: &str) {
    let err = Envelope::decode_limited_with(bytes, &key(), 4096, blob_expected(), "obj", panic_payload)
        .expect_err("format must fail before payload decode");
    match err {
        CoreError::UnsupportedEnvelopeFormat { field: got_field, value: got_value } => {
            assert_eq!(got_field, field);
            assert_eq!(got_value, value);
        }
        other => panic!("expected UnsupportedEnvelopeFormat, got {other:?}"),
    }
}

#[test]
fn limited_roundtrip_then_payload_decode() {
    let (env, bytes, _) = sample();
    let (back, value) = Envelope::decode_limited_with(
        &bytes,
        &key(),
        bytes.len() as u64,
        blob_expected(),
        "obj",
        |payload: &[u8]| {
            serde_json::from_slice::<serde_json::Value>(payload)
                .map_err(|e| CoreError::InvalidFormat(format!("payload: {e}")))
        },
    )
    .unwrap();
    assert_eq!(back.payload, env.payload);
    assert_eq!(value["ok"], serde_json::Value::Bool(true));
}

#[test]
fn limited_rejects_one_byte_over_encoded_cap() {
    let (_, bytes, _) = sample();
    let err =
        Envelope::decode_limited(&bytes, &key(), bytes.len() as u64 - 1, blob_expected(), "obj")
            .unwrap_err();
    match err {
        CoreError::ObjectTooLarge { key, limit, actual } => {
            assert_eq!(key, "obj");
            assert_eq!(limit, bytes.len() as u64 - 1);
            assert_eq!(actual, Some(bytes.len() as u64));
        }
        other => panic!("expected ObjectTooLarge, got {other:?}"),
    }
}

#[test]
fn unsupported_format_fields_skip_payload_decoder() {
    let (env, bytes, meta) = sample();
    let payload = env.payload.as_slice();
    let text = |s: &str| serde_json::Value::String(s.to_owned());

    let mut versioned = bytes.clone();
    versioned[4] = 2;
    versioned[5] = 0;
    reject_format(&versioned, EnvelopeFormatField::Version, "2");

    let mut flagged = bytes.clone();
    flagged[6] = 1;
    flagged[7] = 0;
    reject_format(&flagged, EnvelopeFormatField::Flags, "1");

    let mut compression = meta.clone();
    compression["compression"] = text("gzip");
    reject_format(&frame(1, 0, &compression, payload), EnvelopeFormatField::Compression, "gzip");

    let mut encryption = meta.clone();
    encryption["encryption"] = text("aesg");
    reject_format(&frame(1, 0, &encryption, payload), EnvelopeFormatField::Encryption, "aesg");

    let mut kind = meta.clone();
    kind["kind"] = text("manifest");
    reject_format(&frame(1, 0, &kind, payload), EnvelopeFormatField::ObjectKind, "manifest");

    let mut unknown_kind = meta.clone();
    unknown_kind["kind"] = text("chunk");
    reject_format(&frame(1, 0, &unknown_kind, payload), EnvelopeFormatField::ObjectKind, "chunk");

    let mut schema = meta.clone();
    schema["schema"] = text("comb.object/v2");
    reject_format(&frame(1, 0, &schema, payload), EnvelopeFormatField::Schema, "comb.object/v2");
}

#[test]
fn malformed_frames_are_bad_format() {
    let (_, bytes, _) = sample();
    for n in [0, 3, 11, 12, 20] {
        assert!(matches!(Envelope::decode(&bytes[..n], &key()), Err(CoreError::InvalidFormat(_))));
    }
    let mut magic = bytes.clone();
    magic[0] = b'X';
    assert!(matches!(Envelope::decode(&magic, &key()), Err(CoreError::InvalidFormat(_))));
}

/// The metadata of a blob, written field by field.
fn meta_text(kind: &str, size: &str, rest: &str) -> String {
    let digest = key().digest(b"payload");
    format!(
        "{{\"schema\":\"comb.object/v1\",\"tenant\":\"org_t\",\"kind\":{kind},\
         \"digest\":\"{digest}\",\"plaintext_bytes\":{size},\"compression\":\"none\",\
         \"encryption\":\"none\"{rest}}}",
        digest = digest.to_string(),
    )
}

const AT: &str = ",\"created_at\":\"2024-03-05T06:07:08Z\"";

fn plainly(meta: &str) -> Result<Envelope> {
    Envelope::decode(&frame_text(1, 0, meta, b"payload"), &key())
}

fn within_a_limit(meta: &str) -> Result<Envelope> {
    let bytes = frame_text(1, 0, meta, b"payload");
    Envelope::decode_limited(&bytes, &key(), 4096, blob_expected(), "obj")
}

fn refused(r: Result<Envelope>, text: &str) {
    match r {
        Err(CoreError::InvalidFormat(m)) => assert_eq!(m, text),
        other => panic!("expected {text}, got {other:?}"),
    }
}

#[test]
fn metadata_is_read_field_by_field() {
    let good = meta_text("\"blob\"", "7", AT);
    assert_eq!(plainly(&good).unwrap().payload, b"payload");
    assert_eq!(within_a_limit(&good).unwrap().payload, b"payload");

    let spaced = good.replace(',', " ,\n").replace("\":", "\"\t: ");
    assert_eq!(plainly(&spaced).unwrap().meta.created_at, "2024-03-05T06:07:08Z");

    let unknown = meta_text("\"blob\"", "7", &format!("{AT},\"more\":{{\"a\":[1,-2.5,null]}},\"more\":0"));
    assert_eq!(plainly(&unknown).unwrap().meta.tenant, "org_t");

    let missing = meta_text("\"blob\"", "7", "");
    refused(plainly(&missing), "meta decode: missing field `created_at`");
    refused(within_a_limit(&missing), "meta decode: missing field `created_at`");

    let mistyped = meta_text("\"blob\"", "\"7\"", AT);
    refused(plainly(&mistyped), "meta decode: invalid type: string \"7\", expected u64");
    refused(within_a_limit(&mistyped), "meta decode: invalid type: string \"7\", expected u64");

    let negative = meta_text("\"blob\"", "-7", AT);
    refused(plainly(&negative), "meta decode: invalid value: integer `-7`, expected u64");

    assert!(matches!(plainly("{\"schema\""), Err(CoreError::InvalidFormat(_))));
}

#[test]
fn a_field_named_twice_is_refused_without_a_limit() {
    let twice = meta_text("\"blob\"", "7", &format!("{AT},\"tenant\":\"org_u\""));
    refused(plainly(&twice), "meta decode: duplicate field `tenant`");
    assert_eq!(within_a_limit(&twice).unwrap().meta.tenant, "org_u");
}

#[test]
fn metadata_may_be_a_list_of_its_values() {
    let digest = key().digest(b"payload").to_string();
    let list = |more: &str| {
        format!(
            "[\"comb.object/v1\",\"org_t\",\"blob\",\"{digest}\",7,\"none\",\"none\",\
             \"2024-03-05T06:07:08Z\"{more}]"
        )
    };
    let env = plainly(&list("")).unwrap();
    assert_eq!(env.meta.tenant, "org_t");
    assert_eq!(env.meta.kind, ObjectKind::Blob);
    assert_eq!(env.meta.plaintext_bytes, 7);
    assert!(matches!(plainly(&list(",1")), Err(CoreError::InvalidFormat(_))));
    refused(
        plainly("[\"comb.object/v1\"]"),
        "meta decode: invalid length 1, expected struct EnvelopeMeta with 8 elements",
    );
    assert!(within_a_limit(&list("")).is_err());

    let named = meta_text("{\"blob\":null}", "7", AT);
    assert_eq!(plainly(&named).unwrap().meta.kind, ObjectKind::Blob);
}

#[test]
fn operation_id_roundtrip_and_timestamp() {
    let ms = 1_704_000_000_000u64;
    let id = OperationId::from_millis_and_entropy(ms, [7u8; 18]);
    let s = id.to_string();
    assert!(s.starts_with("op_"));
    assert_eq!(s.len(), 3 + OP_BODY_LEN);
    let parsed = OperationId::parse(&s).unwrap();
    assert_eq!(parsed, id);
    assert_eq!(parsed.issued_at_millis(), ms);
    let lower = s.to_ascii_lowercase();
    assert_eq!(OperationId::parse(&lower).unwrap(), id);
}

#[test]
fn retries_do_not_change_bytes() {
    let id = OperationId::from_millis_and_entropy(42, [1u8; 18]);
    assert_eq!(id.to_string(), id.to_string());
    assert_eq!(OperationId::parse(&id.to_string()).unwrap(), id);
}

#[test]
fn future_skew_and_expiry() {
    let policy = OperationPolicy::default();
    let now = Timestamp::from_millis(1_800_000_000_000).unwrap();
    let clock = FrozenClock::new(now);
    let id = OperationId::mint(&clock);
    id.check_time(now, &policy, false).unwrap();
    let far = OperationId::from_millis_and_entropy(now.plus(60 * MINUTE).millis(), [2u8; 18]);
    assert!(matches!(far.check_time(now, &policy, false), Err(CoreError::InvalidFormat(_))));
    assert!(matches!(
        id.check_time(now.plus(8 * 24 * 60 * MINUTE), &policy, true),
        Err(CoreError::UnknownOperation { .. })
    ));
    assert!(matches!(
        id.check_time(now.plus(6 * MINUTE), &policy, false),
        Err(CoreError::UnknownOperation { .. })
    ));
    id.check_time(now.plus(6 * MINUTE), &policy, true).unwrap();
}

#[test]
fn stable_key_is_opaque_and_bounded() {
    let k = StableKey::try_from_canonical(b"doc\x00hash".to_vec()).unwrap();
    let parsed = StableKey::parse(&k.to_string()).unwrap();
    assert_eq!(parsed, k);
    assert!(StableKey::try_from_canonical(vec![0u8; MAX_STABLE_KEY_BYTES + 1]).is_err());
    assert!(StableKey::parse("op_abc").is_err());
    assert!(StableKey::try_from_canonical(Vec::new()).is_err());
    let huge = "aa".repeat(MAX_STABLE_KEY_BYTES + 1);
    assert!(matches!(StableKey::from_hex(&huge), Err(CoreError::Rejected(_))));
    assert!(StableKey::from_hex("abc").is_err());
}

fn material(payload: &[&[u8]]) -> Material {
    Material {
        kind: "append".to_owned(),
        preconditions: vec![("target".to_owned(), b"t".to_vec())],
        payload: payload.iter().map(|p| p.to_vec()).collect(),
    }
}

#[test]
fn material_hash_excludes_nothing_passed_in() {
    let key = DigestKey::from_bytes([3u8; 32]);
    let a = material(&[b"one", b"two"]);
    let b = material(&[b"one", b"two"]);
    assert_eq!(a.hash(&key, "org", "log/demo/p0"), b.hash(&key, "org", "log/demo/p0"));
    let c = material(&[b"one", b"TWO"]);
    assert_ne!(a.hash(&key, "org", "log/demo/p0"), c.hash(&key, "org", "log/demo/p0"));
    assert_ne!(a.hash(&key, "org", "log/demo/p0"), a.hash(&key, "org", "log/other/p0"));
}

#[test]
fn material_hash_keeps_fields_apart() {
    let key = DigestKey::from_bytes([3u8; 32]);
    let a = material(&[b"ab", b"c"]);
    let b = material(&[b"a", b"bc"]);
    assert_ne!(a.hash(&key, "org", "log/demo/p0"), b.hash(&key, "org", "log/demo/p0"));
}

#[test]
fn identities_read_back() {
    let id = OpIdentity::Generic(OperationId::from_millis_and_entropy(42, [1u8; 18]));
    assert!(!id.is_stable());
    assert_eq!(OpIdentity::parse(&id.canonical()).unwrap().canonical(), id.canonical());
    let stable = OpIdentity::Stable(StableKey::try_from_canonical(b"k".to_vec()).unwrap());
    assert!(stable.is_stable());
    assert_eq!(stable.canonical(), "sk_6b");
    assert_eq!(OpIdentity::parse("sk_6b").unwrap().canonical(), "sk_6b");
    assert!(OpIdentity::parse("nothing").is_err());
}

#[test]
fn moments_read_back() {
    let t = Timestamp::parse_rfc3339("2024-03-05T06:07:08.9Z").unwrap();
    assert_eq!(t.millis(), 1_709_618_828_900);
    assert_eq!(Timestamp::parse_rfc3339(&t.to_rfc3339()).unwrap(), t);
    assert_eq!(Timestamp::epoch().to_rfc3339(), "1970-01-01T00:00:00+00:00");
    assert!(Timestamp::parse_rfc3339("yesterday").is_none());
    assert!(t.after(&Timestamp::epoch()));
    assert!(Timestamp::now().after(&t));
}

#[test]
fn error_texts() {
    assert_eq!(CoreError::NotFound("k".to_owned()).to_string(), "not found: k");
    assert_eq!(CoreError::Fenced { caller: 1, live: 2 }.to_string(),
        "fenced: writer epoch 1 is stale (live epoch 2)");
}

#[test]
fn the_reading_of_a_clock_is_a_moment() {
    let t = Timestamp::from_clock(1_700_000_000, 5);
    assert_eq!(t.nanos(), 1_700_000_000_000_000_005);
    let leap = Timestamp::from_clock(59, 1_500_000_000);
    assert_eq!(leap.nanos(), 60_500_000_000);
    let before = Timestamp::from_clock(-1, 999_999_999);
    assert_eq!(before.nanos(), -1);
    let last = Timestamp::from_clock(8_210_266_876_799, 1_999_999_999);
    assert_eq!(last.nanos(), 8_210_266_876_799_999_999_999);
    assert!(Timestamp::now().after(&Timestamp::from_clock(1_600_000_000, 0)));
}

#[test]
fn preconditions_may_come_in_any_order() {
    let pair = |name: &str, value: u8| (name.to_owned(), vec![value]);
    let with = |preconditions| Material { kind: "append".to_owned(), preconditions, payload: vec![vec![1]] };
    let hash = |m: Material| m.hash(&key(), "org", "log/a");
    let one = hash(with(vec![pair("b", 2), pair("", 0), pair("a", 1)]));
    assert_eq!(one, hash(with(vec![pair("a", 1), pair("b", 2), pair("", 0)])));
    assert_eq!(one, hash(with(vec![pair("", 0), pair("a", 1), pair("b", 2)])));
    assert_ne!(one, hash(with(vec![pair("", 0), pair("a", 2), pair("b", 1)])));
    let twice = hash(with(vec![pair("a", 1), pair("a", 2)]));
    assert_ne!(twice, hash(with(vec![pair("a", 2), pair("a", 1)])));
}
