//! What one tenant's store decides about keys, heads, cached objects and
//! plain refs. Reading and writing objects is left to the caller.
use vstd::prelude::*;

use crate::digest::{digest_of, law_digest_text_injective, lemma_digest_view, Digest, DigestKey};
use crate::envelope::{
    decoded, decoded_limited, describes, encoded, field_items, fields_of, meta_fields, meta_in,
    meta_in_text, meta_part, Decoded, Envelope, EnvelopeExpectation, MAX_ENVELOPE_META_BYTES,
    MetaView, ObjectKind,
};
use crate::error::{CoreError, ErrorView, Result};
use crate::json::object_text;
use crate::object::{object_too_large, Version};
use crate::operation::{
    id_millis, shard_of, Clock, OpIdentity, OperationId, OperationPolicy, StableKey,
};
use crate::refs::{RefValue, REF_SCHEMA};
use crate::text::{decimal, decimal_text, hex_text, join2, join3, join4, join5, same_text};
use crate::time::{may_be_shown, Timestamp};

verus! {

pub const NS_V1: &'static str = "comb/v1";

pub const NS_V2: &'static str = "comb/v2";

pub const NS_V3: &'static str = "comb/v3";

/// The schema of plain objects.
pub const OBJECT_SCHEMA: &'static str = "comb.object/v1";

/// Which key space a store lives in.
#[derive(Clone, Copy, Debug, PartialEq, Eq, Structural)]
pub enum KeyLayout {
    V2,
    V3,
}

impl KeyLayout {
    pub open spec fn text(self) -> Seq<char> {
        match self {
            KeyLayout::V2 => NS_V2@,
            KeyLayout::V3 => NS_V3@,
        }
    }

    pub fn prefix(self) -> (r: &'static str)
        ensures
            r@ == self.text(),
    {
        match self {
            KeyLayout::V2 => NS_V2,
            KeyLayout::V3 => NS_V3,
        }
    }
}

/// One tenant's store.
pub struct Store {
    pub tenant: String,
    pub key: DigestKey,
    pub layout: KeyLayout,
    pub policy: OperationPolicy,
}

/// What came of fetching a ref: an error, bytes that do not parse, or a
/// value with its version.
#[derive(Debug)]
pub enum RefFetch {
    Failed(CoreError),
    Malformed { detail: String },
    Value { value: RefValue, version: Version },
}

/// A ref as it was read, or as it is before its first publication.
#[derive(Debug)]
pub struct HeadSnapshot {
    pub value: RefValue,
    pub version: Option<Version>,
}

pub fn copy_version(v: &Option<Version>) -> (r: Option<Version>)
    ensures
        r == *v,
{
    match v {
        Some(x) => Some(x.clone()),
        None => None,
    }
}

impl Clone for HeadSnapshot {
    fn clone(&self) -> (r: Self)
        ensures
            r == *self,
    {
        HeadSnapshot { value: self.value.clone(), version: copy_version(&self.version) }
    }
}

/// `<prefix>/tenants/<tenant>/<rest>`.
pub open spec fn tenant_key(prefix: Seq<char>, tenant: Seq<char>, rest: Seq<char>) -> Seq<char> {
    prefix + "/tenants/"@ + tenant + ("/"@ + rest)
}

fn make_tenant_key(prefix: &str, tenant: &str, rest: &str) -> (r: String)
    ensures
        r@ == tenant_key(prefix@, tenant@, rest@),
{
    let tail: String = join2("/", rest);
    let mut s: String = join3(prefix, "/tenants/", tenant);
    s.append(&tail);
    s
}

/// What a ref read at `name` of `tenant` comes to.
pub open spec fn head_verdict(tenant: Seq<char>, name: Seq<char>, value: RefValue) -> Option<
    ErrorView,
> {
    if value.schema@ != REF_SCHEMA@ {
        Some(value.schema_fault())
    } else if value.tenant@ != tenant || value.name@ != name {
        Some(
            ErrorView::RecoveryFailed(
                "ref "@ + name + " identity mismatch (stored tenant "@ + value.tenant@ + " name "@
                    + value.name@ + ")"@,
            ),
        )
    } else if value.generation > 0 && value.head_commit is None {
        Some(
            ErrorView::RecoveryFailed(
                "ref "@ + name + " generation "@ + decimal(value.generation as nat)
                    + " has no head_commit"@,
            ),
        )
    } else {
        None
    }
}

/// What is said of a name that the oldest key space holds a ref for.
pub open spec fn v1_refusal(name: Seq<char>) -> Seq<char> {
    "comb/v1 ref "@ + name
        + " exists; this process uses comb/v2 only and will not read or rewrite v1 tenants"@
}

impl Store {
    pub fn new(tenant: &str, key: DigestKey) -> (r: Self)
        ensures
            r.tenant@ == tenant@,
            r.key == key,
            r.layout == KeyLayout::V2,
            r.policy == OperationPolicy::standard(),
    {
        Store {
            tenant: tenant.to_owned(),
            key,
            layout: KeyLayout::V2,
            policy: OperationPolicy::default(),
        }
    }

    pub fn with_policy(self, policy: OperationPolicy) -> (r: Self)
        ensures
            r == (Store { policy, ..self }),
    {
        Store { policy, ..self }
    }

    pub fn with_layout(self, layout: KeyLayout) -> (r: Self)
        ensures
            r == (Store { layout, ..self }),
    {
        Store { layout, ..self }
    }

    /// A fresh operation id that carries what the clock shows.
    pub fn mint_operation<C: Clock>(&self, clock: &C) -> (r: OperationId)
        ensures
            exists|t: Timestamp|
                #[trigger] clock.may_show(t) && id_millis(r@) == crate::time::millis_of(t)
                    % 0x1_0000_0000_0000,
    {
        OperationId::mint(clock)
    }

    /// The key of an object.
    pub fn object_key(&self, digest: &Digest) -> (r: String)
        ensures
            r@ == object_key_of(self.layout, self.tenant@, *digest),
    {
        let hex: String = digest.hex();
        let tail: String = join2("/", &hex);
        let prefix: String = digest.key_prefix();
        let rest: String = join3("objects/b3k/", &prefix, &tail);
        make_tenant_key(self.layout.prefix(), &self.tenant, &rest)
    }

    /// The key of a ref.
    pub fn ref_key(&self, name: &str) -> (r: String)
        ensures
            r@ == ref_key_of(self.layout, self.tenant@, name@),
    {
        let rest: String = join3("refs/", name, ".json");
        make_tenant_key(self.layout.prefix(), &self.tenant, &rest)
    }

    /// The key of a ref in the oldest key space, which is never read.
    pub fn v1_ref_key(&self, name: &str) -> (r: String)
        ensures
            r@ == tenant_key(NS_V1@, self.tenant@, "refs/"@ + name@ + ".json"@),
    {
        let rest: String = join3("refs/", name, ".json");
        make_tenant_key(NS_V1, &self.tenant, &rest)
    }

    /// The key of an identity's intent.
    pub fn intent_key(&self, identity: &OpIdentity) -> (r: String)
        ensures
            r@ == intent_key_of(self.layout, self.tenant@, *identity),
    {
        match identity {
            OpIdentity::Generic(_) => {
                let id: String = identity.canonical();
                let tail: String = join3("/", &id, ".json");
                let shard: String = identity.shard();
                let rest: String = join3("ops/", &shard, &tail);
                make_tenant_key(self.layout.prefix(), &self.tenant, &rest)
            },
            OpIdentity::Stable(k) => {
                let hex: String = k.to_hex();
                let rest: String = join3("stable/", &hex, ".json");
                make_tenant_key(self.layout.prefix(), &self.tenant, &rest)
            },
        }
    }

    /// Refuses a name that the oldest key space holds a ref for.
    pub fn reject_v1(&self, name: &str, found: Result<bool>) -> (r: Result<()>)
        ensures
            match found {
                Err(e) => r == Err::<(), CoreError>(e),
                Ok(true) => r matches Err(CoreError::InvalidFormat(m)) && m@ == v1_refusal(name@),
                Ok(false) => r is Ok,
            },
    {
        match found {
            Err(e) => Err(e),
            Ok(v1) => {
                if v1 {
                    let m: String = join3(
                        "comb/v1 ref ",
                        name,
                        " exists; this process uses comb/v2 only and will not read or rewrite v1 tenants",
                    );
                    Err(CoreError::InvalidFormat(m))
                } else {
                    Ok(())
                }
            },
        }
    }

    /// The head of the ref `name`, from what was found of it in the oldest
    /// key space and what came of fetching it.
    pub fn read_head(&self, name: &str, v1: Result<bool>, fetched: RefFetch) -> (r: Result<
        Option<HeadSnapshot>,
    >)
        ensures
            match v1 {
                Err(e) => r == Err::<Option<HeadSnapshot>, CoreError>(e),
                Ok(true) => r matches Err(CoreError::InvalidFormat(m)) && m@ == v1_refusal(name@),
                Ok(false) => match fetched {
                    RefFetch::Failed(e) => if e is NotFound {
                        r matches Ok(None)
                    } else {
                        r == Err::<Option<HeadSnapshot>, CoreError>(e)
                    },
                    RefFetch::Malformed { detail } => r matches Err(e) && e@
                        == ErrorView::InvalidFormat("ref "@ + name@ + ": "@ + detail@),
                    RefFetch::Value { value, version } => match head_verdict(
                        self.tenant@,
                        name@,
                        value,
                    ) {
                        Some(c) => r matches Err(e) && e@ == c,
                        None => r matches Ok(Some(h)) && h == (HeadSnapshot {
                            value,
                            version: Some(version),
                        }),
                    },
                },
            },
    {
        match self.reject_v1(name, v1) {
            Err(e) => {
                return Err(e);
            },
            Ok(_) => {},
        }
        match fetched {
            RefFetch::Failed(CoreError::NotFound(_)) => Ok(None),
            RefFetch::Failed(e) => Err(e),
            RefFetch::Malformed { detail } => Err(
                CoreError::InvalidFormat(join4("ref ", name, ": ", &detail)),
            ),
            RefFetch::Value { value, version } => {
                match value.validate_schema() {
                    Err(e) => {
                        return Err(e);
                    },
                    Ok(_) => {},
                }
                if !same_text(&value.tenant, &self.tenant) || !same_text(&value.name, name) {
                    let mut m: String = join3("ref ", name, " identity mismatch (stored tenant ");
                    m.append(&value.tenant);
                    m.append(" name ");
                    m.append(&value.name);
                    m.append(")");
                    return Err(CoreError::RecoveryFailed(m));
                }
                if value.generation > 0 && value.head_commit.is_none() {
                    let m: String = join5(
                        "ref ",
                        name,
                        " generation ",
                        &decimal_text(value.generation),
                        " has no head_commit",
                    );
                    return Err(CoreError::RecoveryFailed(m));
                }
                Ok(Some(HeadSnapshot { value, version: Some(version) }))
            },
        }
    }

    /// The head of a ref that was never published.
    pub fn empty_head(&self, name: &str, now: Timestamp) -> (r: HeadSnapshot)
        ensures
            r.version is None,
            r.value.tenant@ == self.tenant@,
            r.value.name@ == name@,
            r.value.generation == 0,
            r.value.epoch == 0,
            r.value.target is None,
            r.value.lease is None,
            r.value.head_commit is None,
            r.value.updated_at == now,
            r.value.schema@ == REF_SCHEMA@,
    {
        HeadSnapshot { value: RefValue::new(&self.tenant, name, now), version: None }
    }

    /// The digest and the bytes under which a plain object is stored.
    pub fn put_blob(&self, payload: Vec<u8>) -> (r: Result<(Digest, Vec<u8>)>)
        ensures
            match r {
                Ok(p) => stored_as(
                    p.0,
                    p.1@,
                    ObjectKind::Blob,
                    OBJECT_SCHEMA@,
                    payload@,
                    self.tenant@,
                    self.key,
                ),
                Err(e) => e@ == heavy_meta() && oversized_meta(
                    ObjectKind::Blob,
                    OBJECT_SCHEMA@,
                    payload@,
                    self.tenant@,
                    self.key,
                ),
            },
    {
        self.seal(ObjectKind::Blob, OBJECT_SCHEMA, payload)
    }

    /// The digest and the bytes under which an object is stored.
    pub fn seal(&self, kind: ObjectKind, schema: &str, payload: Vec<u8>) -> (r: Result<
        (Digest, Vec<u8>),
    >)
        ensures
            match r {
                Ok(p) => stored_as(p.0, p.1@, kind, schema@, payload@, self.tenant@, self.key),
                Err(e) => e@ == heavy_meta() && oversized_meta(
                    kind,
                    schema@,
                    payload@,
                    self.tenant@,
                    self.key,
                ),
            },
    {
        let env: Envelope = Envelope::new(&self.tenant, kind, schema, payload, &self.key);
        let digest: Digest = env.meta.digest;
        match env.encode() {
            Ok(bytes) => {
                assert(decoded(bytes@, self.key) == Decoded::Good(env.meta@, payload@));
                Ok((digest, bytes))
            },
            Err(e) => {
                assert(meta_for(env.meta@, kind, schema@, payload@, self.tenant@, self.key));
                Err(e)
            },
        }
    }

    /// The digest and the bytes under which an object is stored, if these
    /// are not more than a bounded read allows.
    pub fn seal_limited(
        &self,
        kind: ObjectKind,
        schema: &str,
        payload: Vec<u8>,
        max_encoded_bytes: u64,
    ) -> (r: Result<(Digest, Vec<u8>)>)
        ensures
            match r {
                Ok(p) => p.1@.len() <= max_encoded_bytes && stored_as(
                    p.0,
                    p.1@,
                    kind,
                    schema@,
                    payload@,
                    self.tenant@,
                    self.key,
                ),
                Err(e) => {
                    ||| e@ == heavy_meta() && oversized_meta(
                        kind,
                        schema@,
                        payload@,
                        self.tenant@,
                        self.key,
                    )
                    ||| exists|d: Digest, b: Seq<u8>| #[trigger]
                        stored_as(d, b, kind, schema@, payload@, self.tenant@, self.key) && b.len()
                            > max_encoded_bytes && e@ == (ErrorView::ObjectTooLarge {
                            key: object_key_of(self.layout, self.tenant@, d),
                            limit: max_encoded_bytes,
                            actual: Some(b.len() as u64),
                        })
                },
            },
    {
        let ghost body = payload@;
        let (digest, bytes) = match self.seal(kind, schema, payload) {
            Err(e) => {
                return Err(e);
            },
            Ok(p) => p,
        };
        let size: u64 = bytes.len() as u64;
        if size > max_encoded_bytes {
            let e: CoreError = object_too_large(
                &self.object_key(&digest),
                max_encoded_bytes,
                Some(size),
            );
            assert(stored_as(digest, bytes@, kind, schema@, body, self.tenant@, self.key));
            return Err(e);
        }
        Ok((digest, bytes))
    }

    /// The payload of the object that was fetched for `digest`.
    pub fn open_blob(&self, digest: &Digest, bytes: &[u8]) -> (r: core::result::Result<
        Vec<u8>,
        Failure,
    >)
        ensures
            match opened(bytes@, *digest, self.key) {
                Opened::Payload(body) => r matches Ok(p) && p@ == body,
                Opened::OtherDigest => r == Err::<Vec<u8>, Failure>(
                    Failure::DigestMismatch { digest: *digest },
                ),
                Opened::Fail(c) => r matches Err(Failure::Core(e)) && e@ == c,
            },
    {
        match Envelope::decode(bytes, &self.key) {
            Err(e) => Err(Failure::Core(e)),
            Ok(env) => {
                if env.meta.digest != *digest {
                    return Err(Failure::DigestMismatch { digest: *digest });
                }
                Ok(env.payload)
            },
        }
    }

    /// What to do with a cached object: use it, or set it aside and fetch
    /// the object from the backend.
    pub fn get_blob(&self, digest: &Digest, cached: &[u8]) -> (r: CacheUse)
        ensures
            match opened(cached@, *digest, self.key) {
                Opened::Payload(body) => r matches CacheUse::Hit(p) && p@ == body,
                _ => r is Quarantine,
            },
    {
        match self.open_blob(digest, cached) {
            Ok(payload) => CacheUse::Hit(payload),
            Err(_) => CacheUse::Quarantine,
        }
    }

    /// The payload of the object that was fetched for `digest` within the
    /// limits of a bounded read.
    pub fn open_blob_limited(&self, digest: &Digest, bytes: &[u8], spec: &EnvelopeReadSpec<'_>) -> (r:
        core::result::Result<Vec<u8>, Failure>)
        ensures
            match opened_limited(bytes@, *digest, self.key, *spec) {
                OpenedLimited::Payload(body) => r matches Ok(p) && p@ == body,
                OpenedLimited::OtherDigest => r == Err::<Vec<u8>, Failure>(
                    Failure::DigestMismatch { digest: *digest },
                ),
                OpenedLimited::TooLarge(limit, actual) => r matches Err(
                    Failure::Core(CoreError::ObjectTooLarge { key, limit: l, actual: a }),
                ) && l == limit && a == Some(actual as u64) && key@ == object_key_of(
                    self.layout,
                    self.tenant@,
                    *digest,
                ),
                OpenedLimited::Fail(c) => r matches Err(Failure::Core(e)) && e@ == c,
            },
    {
        let key: String = self.object_key(digest);
        let expected: EnvelopeExpectation<'_> = EnvelopeExpectation {
            kind: spec.kind,
            schema: spec.schema,
        };
        match Envelope::decode_limited(bytes, &self.key, spec.max_encoded_bytes, expected, &key) {
            Err(e) => Err(Failure::Core(e)),
            Ok(env) => {
                if !same_text(&env.meta.tenant, spec.tenant) {
                    return Err(
                        Failure::Core(
                            CoreError::IntegrityError("object of another tenant".to_owned()),
                        ),
                    );
                }
                if env.payload.len() as u64 > spec.max_plaintext_bytes {
                    return Err(
                        Failure::Core(
                            object_too_large(
                                &key,
                                spec.max_plaintext_bytes,
                                Some(env.payload.len() as u64),
                            ),
                        ),
                    );
                }
                if env.meta.digest != *digest {
                    return Err(Failure::DigestMismatch { digest: *digest });
                }
                Ok(env.payload)
            },
        }
    }

    /// What to do with a cached object of which `read` bytes or the size
    /// are known: use it; set it aside if it is too large, corrupt or of
    /// another digest; or fail if it has a format that is not spoken here.
    pub fn get_blob_limited(
        &self,
        digest: &Digest,
        cached: &CachedRead,
        spec: &EnvelopeReadSpec<'_>,
    ) -> (r: CacheUse)
        ensures
            match cached {
                CachedRead::Absent => r is Absent,
                CachedRead::Oversized => r is Quarantine,
                CachedRead::Bytes(b) => match opened_limited(b@, *digest, self.key, *spec) {
                    OpenedLimited::Payload(body) => r matches CacheUse::Hit(p) && p@ == body,
                    OpenedLimited::OtherDigest => r is Quarantine,
                    OpenedLimited::TooLarge(limit, actual) => if b@.len()
                        > spec.max_encoded_bytes {
                        r is Quarantine
                    } else {
                        r matches CacheUse::Fail(e) && e@ == (ErrorView::ObjectTooLarge {
                            key: object_key_of(self.layout, self.tenant@, *digest),
                            limit,
                            actual: Some(actual as u64),
                        })
                    },
                    OpenedLimited::Fail(c) => if c is IntegrityError || c is InvalidFormat {
                        r is Quarantine
                    } else {
                        r matches CacheUse::Fail(e) && e@ == c
                    },
                },
            },
    {
        match cached {
            CachedRead::Absent => CacheUse::Absent,
            CachedRead::Oversized => CacheUse::Quarantine,
            CachedRead::Bytes(b) => {
                if b.len() as u64 > spec.max_encoded_bytes {
                    return CacheUse::Quarantine;
                }
                match self.open_blob_limited(digest, b, spec) {
                    Ok(payload) => CacheUse::Hit(payload),
                    Err(Failure::Core(CoreError::IntegrityError(_))) => CacheUse::Quarantine,
                    Err(Failure::Core(CoreError::InvalidFormat(_))) => CacheUse::Quarantine,
                    Err(Failure::Core(e)) => CacheUse::Fail(e),
                    Err(_) => CacheUse::Quarantine,
                }
            },
        }
    }
}

/// Why an operation of a store failed.
#[derive(Debug)]
pub enum Failure {
    Core(CoreError),
    DigestMismatch { digest: Digest },
    PlanGeneration { set: u64, want: u64 },
    NoCommitUpload,
    PublicationNotConverged,
    AdmissionNotConverged,
    AppendNotConverged,
    NoSuchRef { name: String },
    NoLease { name: String },
    NoSuchLog { name: String },
    NoManifest { name: String },
    LostRace,
    Unreadable { detail: String },
    NothingToCompact,
}

/// What was found in the disk cache: nothing, a file larger than the limit,
/// or bytes.
#[derive(Debug)]
pub enum CachedRead {
    Absent,
    Oversized,
    Bytes(Vec<u8>),
}

/// What becomes of a cached object.
#[derive(Debug)]
pub enum CacheUse {
    Absent,
    Hit(Vec<u8>),
    Quarantine,
    Fail(CoreError),
}

/// Where a blob came from.
#[derive(Clone, Copy, Debug, PartialEq, Eq, Structural)]
pub enum GetSource {
    Cache,
    Backend,
}

/// What a bounded read accepts.
#[derive(Debug, Clone, Copy)]
pub struct EnvelopeReadSpec<'a> {
    pub tenant: &'a str,
    pub kind: ObjectKind,
    pub schema: &'a str,
    pub max_encoded_bytes: u64,
    pub max_plaintext_bytes: u64,
}

/// How many bytes of a cached object to read, given the size of its file;
/// nothing if that is over the limit.
pub fn cache_read_limited(size: u64, max_encoded_bytes: u64) -> (r: Option<u64>)
    ensures
        r is Some <==> size <= max_encoded_bytes,
        r matches Some(n) ==> n == if max_encoded_bytes == u64::MAX {
            u64::MAX as int
        } else {
            max_encoded_bytes + 1
        },
{
    if size > max_encoded_bytes {
        None
    } else if max_encoded_bytes == u64::MAX {
        Some(u64::MAX)
    } else {
        Some(max_encoded_bytes + 1)
    }
}

/// What was read of a cached object, of which one byte more than the limit
/// was asked for.
pub fn cached_bytes(read: Vec<u8>, max_encoded_bytes: u64) -> (r: CachedRead)
    ensures
        if read@.len() > max_encoded_bytes {
            r is Oversized
        } else {
            r == CachedRead::Bytes(read)
        },
{
    if read.len() as u64 > max_encoded_bytes {
        CachedRead::Oversized
    } else {
        CachedRead::Bytes(read)
    }
}

/// The error with the key of the object that it is about.
pub fn size_key(err: CoreError, object_key: &str) -> (r: CoreError)
    ensures
        match err {
            CoreError::ObjectTooLarge { limit, actual, .. } => r matches CoreError::ObjectTooLarge {
                key,
                limit: l,
                actual: a,
            } && key@ == object_key@ && l == limit && a == actual,
            _ => r == err,
        },
{
    match err {
        CoreError::ObjectTooLarge { limit, actual, .. } => object_too_large(
            object_key,
            limit,
            actual,
        ),
        other => other,
    }
}

pub open spec fn object_key_of(layout: KeyLayout, tenant: Seq<char>, digest: Digest) -> Seq<char> {
    tenant_key(
        layout.text(),
        tenant,
        "objects/b3k/"@ + hex_text(digest@).take(2) + ("/"@ + hex_text(digest@)),
    )
}

pub open spec fn ref_key_of(layout: KeyLayout, tenant: Seq<char>, name: Seq<char>) -> Seq<char> {
    tenant_key(layout.text(), tenant, "refs/"@ + name + ".json"@)
}

pub open spec fn intent_key_of(
    layout: KeyLayout,
    tenant: Seq<char>,
    identity: OpIdentity,
) -> Seq<char> {
    match identity {
        OpIdentity::Generic(op) => tenant_key(
            layout.text(),
            tenant,
            "ops/"@ + shard_of(op.text()) + ("/"@ + op.text() + ".json"@),
        ),
        OpIdentity::Stable(k) => tenant_key(
            layout.text(),
            tenant,
            "stable/"@ + hex_text(k@) + ".json"@,
        ),
    }
}

/// Whether `m` is the metadata that a payload of a tenant is stored with: it
/// is neither compressed nor encrypted, and made at some time.
pub open spec fn meta_for(
    m: MetaView,
    kind: ObjectKind,
    schema: Seq<char>,
    payload: Seq<u8>,
    tenant: Seq<char>,
    key: DigestKey,
) -> bool {
    &&& m.kind == kind
    &&& m.schema == schema
    &&& m.tenant == tenant
    &&& describes(m, payload, key)
    &&& m.compression == "none"@
    &&& m.encryption == "none"@
    &&& exists|t: Timestamp|
        #![trigger t.text()]
        may_be_shown(t) && m.created_at == t.text()
}

/// Whether `bytes`, to be stored under `digest`, are those of the payload and
/// its metadata, for a reading of them without a limit and for one within a
/// limit.
pub open spec fn stored_as(
    digest: Digest,
    bytes: Seq<u8>,
    kind: ObjectKind,
    schema: Seq<char>,
    payload: Seq<u8>,
    tenant: Seq<char>,
    key: DigestKey,
) -> bool {
    digest == digest_of(key, payload) && (decoded(bytes, key) matches Decoded::Good(m, body) && body
        == payload && meta_for(m, kind, schema, payload, tenant, key) && bytes == encoded(m, payload)
        && forall|limit: u64|
        bytes.len() <= limit ==> #[trigger] decoded_limited(bytes, key, limit, kind, schema)
            == Decoded::Good(m, payload))
}

/// What is said of metadata that is too large to be stored.
pub open spec fn heavy_meta() -> ErrorView {
    ErrorView::InvalidFormat("metadata exceeds 64 KiB"@)
}

/// Whether metadata of the payload can be too large to be stored.
pub open spec fn oversized_meta(
    kind: ObjectKind,
    schema: Seq<char>,
    payload: Seq<u8>,
    tenant: Seq<char>,
    key: DigestKey,
) -> bool {
    exists|m: MetaView| #[trigger]
        meta_for(m, kind, schema, payload, tenant, key) && object_text(meta_fields(m)).len()
            > MAX_ENVELOPE_META_BYTES
}

/// What the bytes found under a digest come to.
pub enum Opened {
    Payload(Seq<u8>),
    OtherDigest,
    Fail(ErrorView),
}

pub open spec fn opened(bytes: Seq<u8>, digest: Digest, key: DigestKey) -> Opened {
    match decoded(bytes, key) {
        Decoded::Good(m, body) => if m.digest == digest {
            Opened::Payload(body)
        } else {
            Opened::OtherDigest
        },
        Decoded::Bad(e) => Opened::Fail(e),
        Decoded::TooLarge => Opened::Fail(
            ErrorView::ObjectTooLarge { key: Seq::empty(), limit: 0, actual: None },
        ),
    }
}

/// What a bounded read of the bytes found under a digest comes to.
pub enum OpenedLimited {
    Payload(Seq<u8>),
    OtherDigest,
    TooLarge(u64, nat),
    Fail(ErrorView),
}

pub open spec fn opened_limited(
    bytes: Seq<u8>,
    digest: Digest,
    key: DigestKey,
    spec: EnvelopeReadSpec<'_>,
) -> OpenedLimited {
    match decoded_limited(bytes, key, spec.max_encoded_bytes, spec.kind, spec.schema@) {
        Decoded::TooLarge => OpenedLimited::TooLarge(spec.max_encoded_bytes, bytes.len()),
        Decoded::Bad(e) => OpenedLimited::Fail(e),
        Decoded::Good(m, body) => if m.tenant != spec.tenant@ {
            OpenedLimited::Fail(ErrorView::IntegrityError("object of another tenant"@))
        } else if body.len() > spec.max_plaintext_bytes {
            OpenedLimited::TooLarge(spec.max_plaintext_bytes, body.len())
        } else if m.digest != digest {
            OpenedLimited::OtherDigest
        } else {
            OpenedLimited::Payload(body)
        },
    }
}

/// What is read under the digest of a stored object is its payload, and it
/// has that digest.
pub proof fn law_blob_reads_back(
    digest: Digest,
    bytes: Seq<u8>,
    kind: ObjectKind,
    schema: Seq<char>,
    payload: Seq<u8>,
    tenant: Seq<char>,
    key: DigestKey,
)
    requires
        stored_as(digest, bytes, kind, schema, payload, tenant, key),
    ensures
        opened(bytes, digest, key) == Opened::Payload(payload),
{
}

/// A bounded read of a stored object gives its payload, if both are within
/// its limits.
pub proof fn law_limited_read_reads_back(
    digest: Digest,
    bytes: Seq<u8>,
    payload: Seq<u8>,
    key: DigestKey,
    spec: EnvelopeReadSpec<'_>,
)
    requires
        stored_as(digest, bytes, spec.kind, spec.schema@, payload, spec.tenant@, key),
        bytes.len() <= spec.max_encoded_bytes,
        payload.len() <= spec.max_plaintext_bytes,
    ensures
        opened_limited(bytes, digest, key, spec) == OpenedLimited::Payload(payload),
{
}

/// Whatever is read under a digest has that digest.
pub proof fn law_what_is_read_has_the_digest(bytes: Seq<u8>, digest: Digest, key: DigestKey)
    ensures
        opened(bytes, digest, key) matches Opened::Payload(body) ==> digest_of(key, body) == digest,
{
}

/// A bounded read gives what has the digest, within its limits, and nothing
/// that an unbounded one would not give. Only metadata that names a field
/// twice is read by the one and refused by the other.
pub proof fn law_limited_read_agrees(
    bytes: Seq<u8>,
    digest: Digest,
    key: DigestKey,
    spec: EnvelopeReadSpec<'_>,
)
    ensures
        opened_limited(bytes, digest, key, spec) matches OpenedLimited::Payload(body) ==> {
            &&& body.len() <= spec.max_plaintext_bytes
            &&& bytes.len() <= spec.max_encoded_bytes
            &&& digest_of(key, body) == digest
            &&& opened(bytes, digest, key) matches Opened::Payload(other) ==> other == body
            &&& meta_in_text(meta_part(bytes)) == meta_in(field_items(fields_of(bytes)->0))
                ==> opened(bytes, digest, key) == Opened::Payload(body)
        },
{
}

/// No key of one layout is a key of the other, nor a key of the oldest key
/// space, whatever the tenants and the rest of the keys are: what is written
/// under one is never read or replaced under another.
pub proof fn law_layouts_are_disjoint(
    tenant: Seq<char>,
    rest: Seq<char>,
    other_tenant: Seq<char>,
    other_rest: Seq<char>,
)
    ensures
        tenant_key(KeyLayout::V2.text(), tenant, rest) != tenant_key(
            KeyLayout::V3.text(),
            other_tenant,
            other_rest,
        ),
        tenant_key(NS_V1@, tenant, rest) != tenant_key(
            KeyLayout::V2.text(),
            other_tenant,
            other_rest,
        ),
        tenant_key(NS_V1@, tenant, rest) != tenant_key(
            KeyLayout::V3.text(),
            other_tenant,
            other_rest,
        ),
{
    reveal_strlit("comb/v1");
    reveal_strlit("comb/v2");
    reveal_strlit("comb/v3");
    assert(tenant_key(NS_V1@, tenant, rest)[6] == '1');
    assert(tenant_key(NS_V2@, tenant, rest)[6] == '2');
    assert(tenant_key(NS_V2@, other_tenant, other_rest)[6] == '2');
    assert(tenant_key(NS_V3@, other_tenant, other_rest)[6] == '3');
}

proof fn lemma_rest_of_key(prefix: Seq<char>, tenant: Seq<char>, a: Seq<char>, b: Seq<char>)
    requires
        tenant_key(prefix, tenant, a) == tenant_key(prefix, tenant, b),
    ensures
        a == b,
{
    let n = (prefix + "/tenants/"@ + tenant).len() + "/"@.len();
    assert(tenant_key(prefix, tenant, a).skip(n as int) =~= a);
    assert(tenant_key(prefix, tenant, b).skip(n as int) =~= b);
}

/// Refs, intents and objects of a tenant never have one key.
pub proof fn law_kinds_of_keys_are_disjoint(
    layout: KeyLayout,
    tenant: Seq<char>,
    name: Seq<char>,
    identity: OpIdentity,
    digest: Digest,
)
    ensures
        ref_key_of(layout, tenant, name) != intent_key_of(layout, tenant, identity),
        ref_key_of(layout, tenant, name) != object_key_of(layout, tenant, digest),
        intent_key_of(layout, tenant, identity) != object_key_of(layout, tenant, digest),
{
    reveal_strlit("refs/");
    reveal_strlit("ops/");
    reveal_strlit("stable/");
    reveal_strlit("objects/b3k/");
    let named = "refs/"@ + name + ".json"@;
    let object = "objects/b3k/"@ + hex_text(digest@).take(2) + ("/"@ + hex_text(digest@));
    let intent = match identity {
        OpIdentity::Generic(op) => "ops/"@ + shard_of(op.text()) + ("/"@ + op.text() + ".json"@),
        OpIdentity::Stable(k) => "stable/"@ + hex_text(k@) + ".json"@,
    };
    assert(named[0] == 'r');
    assert(object[0] == 'o' && object[1] == 'b');
    assert(intent[0] == 's' || (intent[0] == 'o' && intent[1] == 'p'));
    if ref_key_of(layout, tenant, name) == intent_key_of(layout, tenant, identity) {
        lemma_rest_of_key(layout.text(), tenant, named, intent);
    }
    if ref_key_of(layout, tenant, name) == object_key_of(layout, tenant, digest) {
        lemma_rest_of_key(layout.text(), tenant, named, object);
    }
    if intent_key_of(layout, tenant, identity) == object_key_of(layout, tenant, digest) {
        lemma_rest_of_key(layout.text(), tenant, intent, object);
    }
}

/// Objects with different digests have different keys.
pub proof fn law_object_key_injective(
    layout: KeyLayout,
    tenant: Seq<char>,
    a: Digest,
    b: Digest,
)
    requires
        object_key_of(layout, tenant, a) == object_key_of(layout, tenant, b),
    ensures
        a == b,
{
    let rest_of = |d: Digest|
        "objects/b3k/"@ + hex_text(d@).take(2) + ("/"@ + hex_text(d@));
    lemma_rest_of_key(layout.text(), tenant, rest_of(a), rest_of(b));
    lemma_digest_view(a);
    lemma_digest_view(b);
    let n = "objects/b3k/"@.len() + 2 + "/"@.len();
    assert(rest_of(a).skip(n as int) =~= hex_text(a@));
    assert(rest_of(b).skip(n as int) =~= hex_text(b@));
    assert(a.text() == b.text());
    law_digest_text_injective(a, b);
}

/// A ref is read exactly if it has the schema, is of the tenant and the name
/// that it is read under, and names a commit once it was published.
pub proof fn law_ref_is_read_by_its_name(tenant: Seq<char>, name: Seq<char>, value: RefValue)
    ensures
        head_verdict(tenant, name, value) is None <==> value.schema@ == "comb.ref/v2"@
            && value.tenant@ == tenant && value.name@ == name && (value.generation == 0
            || value.head_commit is Some),
{
}

/// Where things are kept: refs by name, intents by identity and objects by
/// digest, under the tenant.
pub proof fn law_keys_say_what_is_kept(tenant: Seq<char>, name: Seq<char>, k: StableKey, d: Digest)
    ensures
        ref_key_of(KeyLayout::V2, tenant, name) == "comb/v2"@ + "/tenants/"@ + tenant + ("/"@ + (
        "refs/"@ + name + ".json"@)),
        ref_key_of(KeyLayout::V3, tenant, name) == "comb/v3"@ + "/tenants/"@ + tenant + ("/"@ + (
        "refs/"@ + name + ".json"@)),
        intent_key_of(KeyLayout::V2, tenant, OpIdentity::Stable(k)) == "comb/v2"@ + "/tenants/"@
            + tenant + ("/"@ + ("stable/"@ + hex_text(k@) + ".json"@)),
        object_key_of(KeyLayout::V2, tenant, d) == "comb/v2"@ + "/tenants/"@ + tenant + ("/"@ + (
        "objects/b3k/"@ + hex_text(d@).take(2) + ("/"@ + hex_text(d@)))),
{
}

/// Refs of different names have different keys, and so have intents of
/// different stable keys and of different operation ids.
pub proof fn law_names_have_keys_of_their_own(
    layout: KeyLayout,
    tenant: Seq<char>,
    a: Seq<char>,
    b: Seq<char>,
    j: StableKey,
    k: StableKey,
    x: OperationId,
    y: OperationId,
)
    ensures
        ref_key_of(layout, tenant, a) == ref_key_of(layout, tenant, b) ==> a == b,
        intent_key_of(layout, tenant, OpIdentity::Stable(j)) == intent_key_of(
            layout,
            tenant,
            OpIdentity::Stable(k),
        ) ==> j@ == k@,
        intent_key_of(layout, tenant, OpIdentity::Generic(x)) == intent_key_of(
            layout,
            tenant,
            OpIdentity::Generic(y),
        ) ==> x == y,
{
    let end = ".json"@;
    let front = "refs/"@;
    if ref_key_of(layout, tenant, a) == ref_key_of(layout, tenant, b) {
        lemma_rest_of_key(layout.text(), tenant, front + a + end, front + b + end);
        lemma_between(front, a, b, end);
    }
    let held = "stable/"@;
    if intent_key_of(layout, tenant, OpIdentity::Stable(j)) == intent_key_of(
        layout,
        tenant,
        OpIdentity::Stable(k),
    ) {
        lemma_rest_of_key(
            layout.text(),
            tenant,
            held + hex_text(j@) + end,
            held + hex_text(k@) + end,
        );
        lemma_between(held, hex_text(j@), hex_text(k@), end);
        crate::text::lemma_hex_roundtrip(j@);
        crate::text::lemma_hex_roundtrip(k@);
    }
    if intent_key_of(layout, tenant, OpIdentity::Generic(x)) == intent_key_of(
        layout,
        tenant,
        OpIdentity::Generic(y),
    ) {
        let p = "ops/"@ + shard_of(x.text()) + ("/"@ + x.text() + end);
        let q = "ops/"@ + shard_of(y.text()) + ("/"@ + y.text() + end);
        lemma_rest_of_key(layout.text(), tenant, p, q);
        crate::operation::lemma_id_lengths(x, y);
        let n = p.len() - end.len();
        assert(p.subrange(n - x.text().len(), n) =~= x.text());
        assert(q.subrange(n - y.text().len(), n) =~= y.text());
        crate::operation::law_operation_id_text_injective(x, y);
    }
}

proof fn lemma_between(front: Seq<char>, a: Seq<char>, b: Seq<char>, end: Seq<char>)
    requires
        front + a + end == front + b + end,
    ensures
        a == b,
{
    let s = front + a + end;
    let t = front + b + end;
    assert(s.len() == t.len());
    assert(s.subrange(front.len() as int, (front.len() + a.len()) as int) =~= a);
    assert(t.subrange(front.len() as int, (front.len() + b.len()) as int) =~= b);
}

/// An object is opened under a digest exactly if it decodes and was made under
/// that digest. Only metadata of more than 64 KiB keeps an object from being
/// stored.
pub proof fn law_object_is_opened_under_its_digest(
    bytes: Seq<u8>,
    digest: Digest,
    key: DigestKey,
    kind: ObjectKind,
    schema: Seq<char>,
    payload: Seq<u8>,
    tenant: Seq<char>,
)
    ensures
        opened(bytes, digest, key) is Payload <==> (decoded(bytes, key) matches Decoded::Good(m, _)
            && m.digest == digest),
        opened(bytes, digest, key) is OtherDigest <==> (decoded(bytes, key) matches
            Decoded::Good(m, _) && m.digest != digest),
        oversized_meta(kind, schema, payload, tenant, key) ==> exists|m: MetaView|
            object_text(#[trigger] meta_fields(m)).len() > 64 * 1024 && m.kind == kind && m.schema
                == schema && m.tenant == tenant && m.plaintext_bytes == payload.len() && m.digest
                == digest_of(key, payload),
{
    if oversized_meta(kind, schema, payload, tenant, key) {
        let m = choose|m: MetaView| #[trigger]
            meta_for(m, kind, schema, payload, tenant, key) && object_text(meta_fields(m)).len()
                > MAX_ENVELOPE_META_BYTES;
        assert(object_text(meta_fields(m)).len() > 64 * 1024);
    }
}

/// A bounded read opens an object exactly if it decodes within the limit, is
/// of the tenant and under the digest, and its payload is within its limit.
pub proof fn law_bounded_read_opens_what_fits(
    bytes: Seq<u8>,
    digest: Digest,
    key: DigestKey,
    spec: EnvelopeReadSpec<'_>,
)
    ensures
        opened_limited(bytes, digest, key, spec) is Payload <==> (decoded_limited(
            bytes,
            key,
            spec.max_encoded_bytes,
            spec.kind,
            spec.schema@,
        ) matches Decoded::Good(m, p) && m.tenant == spec.tenant@ && p.len()
            <= spec.max_plaintext_bytes && m.digest == digest),
        opened_limited(bytes, digest, key, spec) matches OpenedLimited::TooLarge(limit, actual)
            ==> actual > limit && (limit == spec.max_encoded_bytes && actual == bytes.len()
            || limit == spec.max_plaintext_bytes && bytes.len() <= spec.max_encoded_bytes),
        bytes.len() > spec.max_encoded_bytes ==> opened_limited(bytes, digest, key, spec)
            == OpenedLimited::TooLarge(spec.max_encoded_bytes, bytes.len()),
{
}

/// A sealed object says of itself what it is: its kind, its schema, whose it
/// is, how long it is and its digest. It is neither compressed nor encrypted.
pub proof fn law_sealed_object_says_what_it_is(
    m: MetaView,
    kind: ObjectKind,
    schema: Seq<char>,
    payload: Seq<u8>,
    tenant: Seq<char>,
    key: DigestKey,
)
    requires
        meta_for(m, kind, schema, payload, tenant, key),
    ensures
        m.kind == kind,
        m.schema == schema,
        m.tenant == tenant,
        m.plaintext_bytes == payload.len(),
        m.digest == digest_of(key, payload),
        m.compression == "none"@,
        m.encryption == "none"@,
{
}

} // verus!
