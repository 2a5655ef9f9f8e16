//! Logical changes of a plain ref: what each asks of the current value and
//! what it makes of it.
use vstd::prelude::*;
use vstd::utf8::encode_utf8;

use crate::bytes::copy_bytes;
use crate::chain::{Published, LOG_MANIFEST_SCHEMA};
use crate::commit::{Admission, CommitHeader, HEADER_SCHEMA};
use crate::digest::Digest;
use crate::envelope::ObjectKind;
use crate::error::{rejected, CoreError, ErrorView, Result};
use crate::json::{
    field, fields_view, get_field, lemma_object_view, object_json, object_string, parse, reads_as,
    scalars_view, Json, JsonView, Scalar,
};
use crate::operation::{Material, MaterialView, OpIdentity};
use crate::refs::{Lease, RefValue};
use crate::session::{failure_message, failure_text};
use crate::store::{Failure, HeadSnapshot};
use crate::text::{join4, same_text};
use crate::time::{is_moment, Timestamp};

verus! {

/// An object to be stored.
#[derive(Debug)]
pub struct Upload {
    pub kind: ObjectKind,
    pub schema: String,
    pub payload: Vec<u8>,
}

/// Another identity that a publication admits. `result` is a JSON text.
#[derive(Debug)]
pub struct Companion {
    pub identity: OpIdentity,
    pub result: String,
}

/// What a plan makes of a head. If `commit_upload` is set, that upload
/// already embeds the commit header; otherwise a separate commit object is
/// written. `change` and `result` are JSON texts, `result` that of `outcome`.
/// The intents of `companions` are moved to the same base before the ref is
/// written, so that a crash cannot apply them twice.
#[derive(Debug)]
pub struct PreparedMutation<R> {
    pub next: RefValue,
    pub uploads: Vec<Upload>,
    pub commit_upload: Option<usize>,
    pub change: String,
    pub outcome: R,
    pub result: String,
    pub admitted: Vec<Admission>,
    pub companions: Vec<Companion>,
}

/// What a plan is prepared against.
pub struct PrepareCtx<'a> {
    pub snapshot: &'a HeadSnapshot,
    pub identity: &'a OpIdentity,
    pub request: Digest,
    pub generation: u64,
    pub parent: Option<Digest>,
    pub skip: Option<Digest>,
    pub now: Timestamp,
}

impl<'a> PrepareCtx<'a> {
    /// The header of the commit under the given epoch.
    pub fn header(&self, epoch: u64) -> (r: CommitHeader)
        ensures
            r.schema@ == HEADER_SCHEMA@,
            r.resource == self.snapshot.value.name,
            r.generation == self.generation,
            r.epoch == epoch,
            r.identity@ == self.identity.text(),
            r.request == self.request,
            r.parent == self.parent,
            r.skip == self.skip,
            r.at == self.now,
    {
        CommitHeader {
            schema: HEADER_SCHEMA.to_owned(),
            resource: self.snapshot.value.name.clone(),
            generation: self.generation,
            epoch,
            identity: self.identity.canonical(),
            request: self.request,
            parent: self.parent,
            skip: self.skip,
            at: self.now,
        }
    }
}

/// The outcome of a change of a plain ref.
#[derive(Clone, Copy, Debug, PartialEq, Eq, Structural)]
pub struct MutationResult {
    pub generation: u64,
    pub epoch: u64,
}

/// A published change of a plain ref.
#[derive(Debug)]
pub struct MutationOutcome {
    pub generation: u64,
    pub epoch: u64,
    pub commit: Digest,
    pub value: RefValue,
    pub first_delivery: bool,
}

impl MutationOutcome {
    pub fn from_published(p: Published<MutationResult>) -> (r: Self)
        ensures
            r.generation == p.generation,
            r.epoch == p.epoch,
            r.commit == p.commit,
            r.value == p.value,
            r.first_delivery == p.first_delivery,
    {
        MutationOutcome {
            generation: p.generation,
            epoch: p.epoch,
            commit: p.commit,
            value: p.value,
            first_delivery: p.first_delivery,
        }
    }
}

/// The JSON object of a mutation result.
pub open spec fn result_fields(r: MutationResult) -> Seq<(Seq<char>, JsonView)> {
    seq![
        ("generation"@, JsonView::Number(r.generation)),
        ("epoch"@, JsonView::Number(r.epoch)),
    ]
}

fn result_json(r: MutationResult) -> (s: String)
    ensures
        s@ == object_string(result_fields(r)),
        reads_as(encode_utf8(s@), JsonView::Object(result_fields(r))),
{
    let mut fields: Vec<(String, Scalar)> = Vec::new();
    fields.push(("generation".to_owned(), Scalar::Number(r.generation)));
    fields.push(("epoch".to_owned(), Scalar::Number(r.epoch)));
    proof {
        reveal_strlit("generation");
        reveal_strlit("epoch");
        assert("generation"@.len() != "epoch"@.len());
        assert(scalars_view(fields@) =~= result_fields(r));
    }
    object_json(fields)
}

/// A change without objects of its own: only the ref and a commit.
pub open spec fn is_plain(
    p: PreparedMutation<MutationResult>,
    next: RefValue,
    change: Seq<(Seq<char>, JsonView)>,
) -> bool {
    &&& p.next == next
    &&& p.uploads@.len() == 0
    &&& p.commit_upload is None
    &&& p.change@ == object_string(change)
    &&& p.outcome == (MutationResult { generation: next.generation, epoch: next.epoch })
    &&& p.result@ == object_string(result_fields(p.outcome))
    &&& p.admitted@.len() == 0
    &&& p.companions@.len() == 0
}

fn plain(next: RefValue, change: String) -> (r: PreparedMutation<MutationResult>)
    ensures
        forall|c: Seq<(Seq<char>, JsonView)>|
            change@ == #[trigger] object_string(c) ==> is_plain(r, next, c),
{
    let outcome: MutationResult = MutationResult { generation: next.generation, epoch: next.epoch };
    PreparedMutation {
        next,
        uploads: Vec::new(),
        commit_upload: None,
        change,
        outcome,
        result: result_json(outcome),
        admitted: Vec::new(),
        companions: Vec::new(),
    }
}

/// The holder of the lease and the time until which it holds it.
fn lease_held(lease: &Lease) -> (r: CoreError)
    ensures
        is_held(r, *lease),
{
    CoreError::LeaseHeld { holder: lease.writer.clone(), until: lease.lease_until.to_rfc3339() }
}

/// Whether `e` names the holder of the lease and the time it ends.
pub open spec fn is_held(e: CoreError, lease: Lease) -> bool {
    e matches CoreError::LeaseHeld { holder, until } && holder@ == lease.writer@ && until@
        == lease.lease_until.text()
}

// ------------------------------------------------------------- set target
/// What is found at the target of a ref.
#[derive(Debug)]
pub enum TargetContent {
    Absent,
    Unreadable { digest: Digest, failure: Failure },
    Payload(Vec<u8>),
}

/// Whether a payload is a log's partition manifest.
pub open spec fn is_log_manifest(payload: Seq<u8>) -> bool {
    exists|f: Seq<(Seq<char>, JsonView)>| #[trigger]
        reads_as(payload, JsonView::Object(f)) && field(f, "schema"@) == Some(
            JsonView::Text(LOG_MANIFEST_SCHEMA@),
        )
}

/// What is said of a ref whose target cannot be read.
pub open spec fn unreadable_target(digest: Digest, failure: Failure) -> Seq<char> {
    "core set-target cannot overwrite a ref whose target "@ + digest.text() + " cannot be read: "@
        + failure_message(failure)
}

/// Refuses a ref whose target is a log manifest, or cannot be read.
pub fn reject_existing_log_manifest(target: &TargetContent) -> (r: Result<()>)
    ensures
        match target {
            TargetContent::Absent => r is Ok,
            TargetContent::Unreadable { digest, failure } => r matches Err(CoreError::Rejected(m))
                && m@ == unreadable_target(*digest, *failure),
            TargetContent::Payload(p) => if is_log_manifest(p@) {
                r matches Err(CoreError::Rejected(m)) && m@
                    == "core set-target cannot overwrite a log-owned ref"@
            } else {
                r is Ok
            },
        },
{
    match target {
        TargetContent::Absent => Ok(()),
        TargetContent::Unreadable { digest, failure } => Err(
            CoreError::Rejected(
                join4(
                    "core set-target cannot overwrite a ref whose target ",
                    &digest.to_string(),
                    " cannot be read: ",
                    &failure_text(failure),
                ),
            ),
        ),
        TargetContent::Payload(payload) => {
            let value: Json = match parse(payload) {
                Ok(v) => v,
                Err(_) => {
                    return Ok(());
                },
            };
            if let Json::Object(fields) = &value {
                proof {
                    lemma_object_view(*fields);
                }
                if let Some(Json::Text(schema)) = get_field(fields, "schema") {
                    if same_text(schema, LOG_MANIFEST_SCHEMA) {
                        assert(reads_as(payload@, JsonView::Object(fields_view(fields@))));
                        return Err(rejected("core set-target cannot overwrite a log-owned ref"));
                    }
                }
            }
            Ok(())
        },
    }
}

/// Points a ref at an object.
#[derive(Debug)]
pub struct SetTargetPlan {
    pub name: String,
    pub target: Digest,
    pub fence: Option<u64>,
}

/// Why a change is refused.
pub enum Refusal {
    Fenced { caller: u64, live: u64 },
    Held(Lease),
    NoEpoch,
}

pub open spec fn refused_as(e: CoreError, why: Refusal) -> bool {
    match why {
        Refusal::Fenced { caller, live } => e == (CoreError::Fenced { caller, live }),
        Refusal::Held(l) => is_held(e, l),
        Refusal::NoEpoch => e@ == ErrorView::Rejected("epoch overflow"@),
    }
}

impl SetTargetPlan {
    pub fn resource(&self) -> (r: &str)
        ensures
            r@ == self.name@,
    {
        &self.name
    }

    pub fn material(&self) -> (r: Material)
        ensures
            r@.kind == "set-target"@,
            r@.preconditions == seq![(encode_utf8("target"@), encode_utf8(self.target.text()))],
            r@.payload == Seq::<Seq<u8>>::empty(),
    {
        let text: String = self.target.to_string();
        let mut preconditions: Vec<(String, Vec<u8>)> = Vec::new();
        preconditions.push(("target".to_owned(), copy_bytes(text.as_str().as_bytes())));
        let m: Material = Material {
            kind: "set-target".to_owned(),
            preconditions,
            payload: Vec::new(),
        };
        assert(m@.preconditions =~= seq![(encode_utf8("target"@), encode_utf8(self.target.text()))]);
        assert(m@.payload =~= Seq::<Seq<u8>>::empty());
        m
    }

    /// Why the change is refused on `current` at `now`: the fence is not the
    /// live epoch, or there is no fence and somebody holds the lease.
    pub open spec fn refusal(self, current: RefValue, now: Timestamp) -> Option<Refusal> {
        match self.fence {
            Some(f) => if f != current.epoch {
                Some(Refusal::Fenced { caller: f, live: current.epoch })
            } else {
                None
            },
            None => if current.leased(now) {
                Some(Refusal::Held(current.lease->0))
            } else {
                None
            },
        }
    }

    /// What the change makes of `current`.
    pub open spec fn applied(self, current: RefValue, generation: u64, now: Timestamp) -> RefValue {
        RefValue { generation, target: Some(self.target), updated_at: now, ..current }
    }

    pub open spec fn change(self) -> Seq<(Seq<char>, JsonView)> {
        seq![
            ("kind"@, JsonView::Text("set-target"@)),
            ("target"@, JsonView::Text(self.target.text())),
        ]
    }

    pub fn prepare(&self, ctx: &PrepareCtx<'_>, target: &TargetContent) -> (r: Result<
        PreparedMutation<MutationResult>,
    >)
        ensures
            match target {
                TargetContent::Unreadable { digest, failure } => r matches Err(e) && e@
                    == ErrorView::Rejected(unreadable_target(*digest, *failure)),
                TargetContent::Payload(p) => is_log_manifest(p@) ==> (r matches Err(e) && e@
                    == ErrorView::Rejected("core set-target cannot overwrite a log-owned ref"@)),
                TargetContent::Absent => true,
            },
            r matches Ok(p) ==> p.next.target == Some(self.target) && p.next.generation
                == ctx.generation && p.next.updated_at == ctx.now && p.next.schema
                == ctx.snapshot.value.schema && p.next.tenant == ctx.snapshot.value.tenant
                && p.next.name == ctx.snapshot.value.name && p.next.epoch
                == ctx.snapshot.value.epoch && p.next.lease == ctx.snapshot.value.lease
                && p.next.head_commit == ctx.snapshot.value.head_commit,
            (r matches Err(e) && e is Fenced) ==> (self.fence matches Some(f) && f
                != ctx.snapshot.value.epoch),
            (r matches Err(e) && e is LeaseHeld) ==> self.fence is None && (
            ctx.snapshot.value.lease matches Some(l) && l.lease_until@ > ctx.now@),
            (target is Absent || (target matches TargetContent::Payload(p) && !is_log_manifest(p@)))
                ==> (r is Ok <==> match self.fence {
                Some(f) => f == ctx.snapshot.value.epoch,
                None => ctx.snapshot.value.lease is None
                    || ctx.snapshot.value.lease->0.lease_until@ <= ctx.now@,
            }),
            (target is Absent || (target matches TargetContent::Payload(p) && !is_log_manifest(p@)))
                ==> match self.refusal(ctx.snapshot.value, ctx.now) {
                Some(why) => r matches Err(e) && refused_as(e, why),
                None => r matches Ok(p) && is_plain(
                    p,
                    self.applied(ctx.snapshot.value, ctx.generation, ctx.now),
                    self.change(),
                ),
            },
    {
        match reject_existing_log_manifest(target) {
            Err(e) => {
                return Err(e);
            },
            Ok(_) => {},
        }
        let current: &RefValue = &ctx.snapshot.value;
        match self.fence {
            Some(f) => {
                if f != current.epoch {
                    return Err(CoreError::Fenced { caller: f, live: current.epoch });
                }
            },
            None => {
                if let Some(lease) = &current.lease {
                    if lease.lease_until.after(&ctx.now) {
                        return Err(lease_held(lease));
                    }
                }
            },
        }
        let mut next: RefValue = current.clone();
        next.generation = ctx.generation;
        next.target = Some(self.target);
        next.updated_at = ctx.now;
        let mut fields: Vec<(String, Scalar)> = Vec::new();
        fields.push(("kind".to_owned(), Scalar::Text("set-target".to_owned())));
        fields.push(("target".to_owned(), Scalar::Text(self.target.to_string())));
        proof {
            reveal_strlit("kind");
            reveal_strlit("target");
            assert("kind"@.len() != "target"@.len());
            assert(scalars_view(fields@) =~= self.change());
        }
        let change: String = object_json(fields);
        Ok(plain(next, change))
    }
}

// ------------------------------------------------------------------ claim
/// Takes the lease on a ref under a new epoch.
#[derive(Debug)]
pub struct ClaimPlan {
    pub name: String,
    pub writer: String,
    pub ttl_secs: i64,
    pub steal: bool,
}

impl ClaimPlan {
    pub fn resource(&self) -> (r: &str)
        ensures
            r@ == self.name@,
    {
        &self.name
    }

    pub fn material(&self) -> (r: Material)
        ensures
            r@.kind == "claim"@,
            r@.preconditions == seq![
                (encode_utf8("writer"@), encode_utf8(self.writer@)),
                (encode_utf8("steal"@), if self.steal { seq![0x31u8] } else { seq![0x30u8] }),
            ],
            r@.payload == Seq::<Seq<u8>>::empty(),
    {
        let mut flag: Vec<u8> = Vec::new();
        flag.push(if self.steal { 0x31 } else { 0x30 });
        assert(flag@ =~= if self.steal { seq![0x31u8] } else { seq![0x30u8] });
        let mut preconditions: Vec<(String, Vec<u8>)> = Vec::new();
        preconditions.push(("writer".to_owned(), copy_bytes(self.writer.as_str().as_bytes())));
        preconditions.push(("steal".to_owned(), flag));
        let m: Material = Material { kind: "claim".to_owned(), preconditions, payload: Vec::new() };
        assert(m@.preconditions =~= seq![
            (encode_utf8("writer"@), encode_utf8(self.writer@)),
            (encode_utf8("steal"@), if self.steal { seq![0x31u8] } else { seq![0x30u8] }),
        ]);
        assert(m@.payload =~= Seq::<Seq<u8>>::empty());
        m
    }

    /// Why the claim is refused: another writer holds the lease and it is
    /// not to be stolen, or there is no epoch left.
    pub open spec fn refusal(self, current: RefValue, now: Timestamp) -> Option<Refusal> {
        if current.leased(now) && !self.steal && current.lease->0.writer@ != self.writer@ {
            Some(Refusal::Held(current.lease->0))
        } else if current.epoch == u64::MAX {
            Some(Refusal::NoEpoch)
        } else {
            None
        }
    }

    /// Whether `next` is what the claim makes of `current`.
    pub open spec fn applied(
        self,
        next: RefValue,
        current: RefValue,
        generation: u64,
        now: Timestamp,
    ) -> bool {
        &&& next == (RefValue {
            generation,
            epoch: (current.epoch + 1) as u64,
            lease: next.lease,
            updated_at: now,
            ..current
        })
        &&& next.lease matches Some(l) && l.writer@ == self.writer@ && l.lease_until@ == now@
            + self.ttl_secs * 1_000_000_000
    }

    pub open spec fn change(self) -> Seq<(Seq<char>, JsonView)> {
        seq![
            ("kind"@, JsonView::Text("claim"@)),
            ("writer"@, JsonView::Text(self.writer@)),
            ("steal"@, JsonView::Bool(self.steal)),
        ]
    }

    pub fn prepare(&self, ctx: &PrepareCtx<'_>) -> (r: Result<PreparedMutation<MutationResult>>)
        requires
            is_moment(ctx.now@ + self.ttl_secs * 1_000_000_000),
        ensures
            r is Ok <==> ctx.snapshot.value.epoch < u64::MAX && (self.steal
                || ctx.snapshot.value.lease is None || ctx.snapshot.value.lease->0.lease_until@
                <= ctx.now@ || ctx.snapshot.value.lease->0.writer@ == self.writer@),
            r matches Ok(p) ==> p.next.epoch == ctx.snapshot.value.epoch + 1 && p.next.generation
                == ctx.generation && p.next.updated_at == ctx.now && p.next.schema
                == ctx.snapshot.value.schema && p.next.tenant == ctx.snapshot.value.tenant
                && p.next.name == ctx.snapshot.value.name && p.next.target
                == ctx.snapshot.value.target && p.next.head_commit
                == ctx.snapshot.value.head_commit && (p.next.lease matches Some(l) && l.writer@
                == self.writer@ && l.lease_until@ == ctx.now@ + self.ttl_secs * 1_000_000_000),
            match self.refusal(ctx.snapshot.value, ctx.now) {
                Some(why) => r matches Err(e) && refused_as(e, why),
                None => r matches Ok(p) && is_plain(p, p.next, self.change()) && self.applied(
                    p.next,
                    ctx.snapshot.value,
                    ctx.generation,
                    ctx.now,
                ),
            },
    {
        let current: &RefValue = &ctx.snapshot.value;
        if !self.steal {
            if let Some(lease) = &current.lease {
                if lease.lease_until.after(&ctx.now) && !same_text(&lease.writer, &self.writer) {
                    return Err(lease_held(lease));
                }
            }
        }
        if current.epoch == u64::MAX {
            return Err(rejected("epoch overflow"));
        }
        let mut next: RefValue = current.clone();
        next.generation = ctx.generation;
        next.epoch = current.epoch + 1;
        next.lease = Some(
            Lease {
                writer: self.writer.clone(),
                lease_until: ctx.now.plus(self.ttl_secs as i128 * 1_000_000_000),
            },
        );
        next.updated_at = ctx.now;
        let mut fields: Vec<(String, Scalar)> = Vec::new();
        fields.push(("kind".to_owned(), Scalar::Text("claim".to_owned())));
        fields.push(("writer".to_owned(), Scalar::Text(self.writer.clone())));
        fields.push(("steal".to_owned(), Scalar::Bool(self.steal)));
        proof {
            reveal_strlit("kind");
            reveal_strlit("writer");
            reveal_strlit("steal");
            assert("kind"@.len() == 4 && "writer"@.len() == 6 && "steal"@.len() == 5);
            assert(scalars_view(fields@) =~= self.change());
        }
        let change: String = object_json(fields);
        Ok(plain(next, change))
    }
}

// ---------------------------------------------------------------- release
/// Gives the lease on a ref back.
#[derive(Debug)]
pub struct ReleasePlan {
    pub name: String,
    pub fence: u64,
}

impl ReleasePlan {
    pub fn resource(&self) -> (r: &str)
        ensures
            r@ == self.name@,
    {
        &self.name
    }

    pub fn material(&self) -> (r: Material)
        ensures
            r@ == (MaterialView {
                kind: "release"@,
                preconditions: Seq::empty(),
                payload: Seq::empty(),
            }),
    {
        let m: Material = Material {
            kind: "release".to_owned(),
            preconditions: Vec::new(),
            payload: Vec::new(),
        };
        assert(m@.preconditions =~= Seq::empty());
        assert(m@.payload =~= Seq::empty());
        m
    }

    /// What the release makes of `current`.
    pub open spec fn applied(self, current: RefValue, generation: u64, now: Timestamp) -> RefValue {
        RefValue { generation, lease: None, updated_at: now, ..current }
    }

    pub open spec fn change(self) -> Seq<(Seq<char>, JsonView)> {
        seq![("kind"@, JsonView::Text("release"@))]
    }

    pub fn prepare(&self, ctx: &PrepareCtx<'_>) -> (r: Result<PreparedMutation<MutationResult>>)
        ensures
            r matches Ok(p) ==> p.next.lease is None && p.next.epoch == ctx.snapshot.value.epoch
                && p.next.target == ctx.snapshot.value.target && p.next.generation
                == ctx.generation,
            if ctx.snapshot.value.epoch != self.fence {
                r matches Err(e) && e == (CoreError::Fenced {
                    caller: self.fence,
                    live: ctx.snapshot.value.epoch,
                })
            } else {
                r matches Ok(p) && is_plain(
                    p,
                    self.applied(ctx.snapshot.value, ctx.generation, ctx.now),
                    self.change(),
                )
            },
    {
        let current: &RefValue = &ctx.snapshot.value;
        if current.epoch != self.fence {
            return Err(CoreError::Fenced { caller: self.fence, live: current.epoch });
        }
        let mut next: RefValue = current.clone();
        next.generation = ctx.generation;
        next.lease = None;
        next.updated_at = ctx.now;
        let mut fields: Vec<(String, Scalar)> = Vec::new();
        fields.push(("kind".to_owned(), Scalar::Text("release".to_owned())));
        assert(scalars_view(fields@) =~= self.change());
        let change: String = object_json(fields);
        Ok(plain(next, change))
    }
}

/// A set-target moves the ref, with a fence and without one, and only that:
/// the lease and its epoch stay. It is refused only where the fence is not
/// the live epoch or, without a fence, where somebody holds the lease.
pub proof fn law_set_target_moves_the_ref(
    plan: SetTargetPlan,
    current: RefValue,
    generation: u64,
    now: Timestamp,
)
    ensures
        ({
            let next = plan.applied(current, generation, now);
            &&& next.target == Some(plan.target)
            &&& next.generation == generation && next.updated_at == now
            &&& next.schema == current.schema && next.tenant == current.tenant && next.name
                == current.name
            &&& next.epoch == current.epoch && next.lease == current.lease
            &&& next.head_commit == current.head_commit
            &&& plan.refusal(current, now) is None <==> match plan.fence {
                Some(f) => f == current.epoch,
                None => current.lease is None || current.lease->0.lease_until@ <= now@,
            }
        }),
{
}

/// A claim takes the lease and the epoch after the live one, and leaves the
/// rest of the ref as it is. It is refused only where another holds the lease
/// and it is not to be stolen, or where there is no epoch left.
pub proof fn law_claim_takes_the_lease(
    plan: ClaimPlan,
    next: RefValue,
    current: RefValue,
    generation: u64,
    now: Timestamp,
)
    ensures
        plan.refusal(current, now) is None <==> current.epoch < u64::MAX && (plan.steal
            || current.lease is None || current.lease->0.lease_until@ <= now@
            || current.lease->0.writer@ == plan.writer@),
        plan.applied(next, current, generation, now) && current.epoch < u64::MAX ==> {
            &&& next.epoch == current.epoch + 1
            &&& next.lease matches Some(l) && l.writer@ == plan.writer@ && l.lease_until@ == now@
                + plan.ttl_secs * 1_000_000_000
            &&& next.generation == generation && next.updated_at == now
            &&& next.schema == current.schema && next.tenant == current.tenant && next.name
                == current.name
            &&& next.target == current.target && next.head_commit == current.head_commit
        },
{
}

/// A release takes the lease off the ref and nothing else: everybody may then
/// change the ref without a fence, and the epoch still fences those before.
pub proof fn law_release_frees_the_ref(
    plan: ReleasePlan,
    current: RefValue,
    generation: u64,
    now: Timestamp,
    change: SetTargetPlan,
    claim: ClaimPlan,
    later: Timestamp,
)
    ensures
        ({
            let next = plan.applied(current, generation, now);
            &&& next.lease is None
            &&& next.epoch == current.epoch && next.target == current.target
            &&& next.generation == generation && next.updated_at == now
            &&& next.schema == current.schema && next.tenant == current.tenant && next.name
                == current.name && next.head_commit == current.head_commit
            &&& change.fence is None ==> change.refusal(next, later) is None
            &&& current.epoch < u64::MAX ==> claim.refusal(next, later) is None
        }),
{
}

/// Gives back the lease that `writer` took under the release's fence. A lease
/// that is gone, or another's, stays as it is.
#[derive(Debug)]
pub struct OwnedReleasePlan {
    pub release: ReleasePlan,
    pub writer: String,
}

impl OwnedReleasePlan {
    pub fn resource(&self) -> (r: &str)
        ensures
            r@ == self.release.name@,
    {
        self.release.resource()
    }

    pub fn material(&self) -> (r: Material)
        ensures
            r@ == (MaterialView {
                kind: "release"@,
                preconditions: Seq::empty(),
                payload: Seq::empty(),
            }),
    {
        self.release.material()
    }

    pub fn prepare(&self, ctx: &PrepareCtx<'_>) -> (r: Result<PreparedMutation<MutationResult>>)
        ensures
            if ctx.snapshot.value.epoch != self.release.fence {
                r matches Err(e) && e == (CoreError::Fenced {
                    caller: self.release.fence,
                    live: ctx.snapshot.value.epoch,
                })
            } else if ctx.snapshot.value.lease is None {
                r matches Err(e) && e == CoreError::LeaseExpired
            } else if ctx.snapshot.value.lease->0.writer@ != self.writer@ {
                r matches Err(e) && is_held(e, ctx.snapshot.value.lease->0)
            } else {
                r matches Ok(p) && is_plain(
                    p,
                    self.release.applied(ctx.snapshot.value, ctx.generation, ctx.now),
                    self.release.change(),
                )
            },
    {
        let current: &RefValue = &ctx.snapshot.value;
        if current.epoch != self.release.fence {
            return Err(CoreError::Fenced { caller: self.release.fence, live: current.epoch });
        }
        match &current.lease {
            None => Err(CoreError::LeaseExpired),
            Some(lease) => {
                if !same_text(&lease.writer, &self.writer) {
                    return Err(
                        CoreError::LeaseHeld {
                            holder: lease.writer.clone(),
                            until: lease.lease_until.to_rfc3339(),
                        },
                    );
                }
                self.release.prepare(ctx)
            },
        }
    }
}

/// After a claim every fence of an earlier epoch is refused: a writer that
/// lost its lease can neither set the target nor release.
pub proof fn law_claim_fences_earlier_writers(
    claim: ClaimPlan,
    next: RefValue,
    current: RefValue,
    generation: u64,
    now: Timestamp,
    plan: SetTargetPlan,
    later: Timestamp,
)
    requires
        claim.refusal(current, now) is None,
        claim.applied(next, current, generation, now),
        plan.fence matches Some(f) && f <= current.epoch,
    ensures
        next.epoch == current.epoch + 1,
        plan.refusal(next, later) matches Some(Refusal::Fenced { caller, live }) && caller
            == plan.fence->0 && live == next.epoch,
{
}

/// While a lease is live nobody else changes the ref without stealing it.
pub proof fn law_live_lease_excludes_others(
    claim: ClaimPlan,
    plan: SetTargetPlan,
    current: RefValue,
    now: Timestamp,
)
    requires
        current.leased(now),
        !claim.steal,
        claim.writer@ != current.lease->0.writer@,
        plan.fence is None,
    ensures
        claim.refusal(current, now) == Some(Refusal::Held(current.lease->0)),
        plan.refusal(current, now) == Some(Refusal::Held(current.lease->0)),
{
}

} // verus!
