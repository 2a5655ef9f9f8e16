//! The commit chain of a ref: recovery truth. Every commit names its parent
//! and a commit further back, so that any generation is found in few steps.
use vstd::prelude::*;

use crate::commit::{
    skip_target, skip_target_generation, Admission, Commit, CommitHeader, HistoryEntry, COMMIT_SCHEMA,
};
use crate::digest::Digest;
use crate::error::{recovery_failed, CoreError, ErrorView, Result};
use crate::json::{
    fault_message, fault_text, field, get_field, json_of, lemma_object_view, parse, Json, JsonView,
};
use crate::operation::OpIdentity;
use crate::refs::RefValue;
use crate::session::{failure_message, failure_text};
use crate::store::Failure;
use crate::table::{extends, Fetched, FetchedView, Step, Table};
use crate::text::{decimal, decimal_text, join2, join3, join4, join5, same_text};

verus! {

pub const LOG_MANIFEST_SCHEMA: &'static str = "comb.log.partition-manifest/v2";

pub const LOG_MANIFEST_SCHEMA_V3: &'static str = "comb.log.partition-manifest/v3";

/// The most steps that a walk along the chain takes.
pub const MAX_SEEK_HOPS: u32 = 10_000;

/// What a commit object says. `result` is a JSON text, absent for null.
#[derive(Debug)]
pub struct CommitView {
    pub digest: Digest,
    pub header: CommitHeader,
    pub result: Option<String>,
    pub admitted: Vec<Admission>,
    pub ref_state: Option<RefValue>,
    /// Log publications store the manifest as the ref target; that digest
    /// is the commit object and is filled after the object exists.
    pub target_follows_commit: bool,
}

pub struct CommitRecord {
    pub digest: Digest,
    pub header: CommitHeader,
    pub result: Option<String>,
    pub admitted: Seq<Admission>,
    pub ref_state: Option<RefValue>,
    pub target_follows_commit: bool,
}

impl View for CommitView {
    type V = CommitRecord;

    open spec fn view(&self) -> CommitRecord {
        CommitRecord {
            digest: self.digest,
            header: self.header,
            result: self.result,
            admitted: self.admitted@,
            ref_state: self.ref_state,
            target_follows_commit: self.target_follows_commit,
        }
    }
}

pub fn copy_admissions(v: &Vec<Admission>) -> (r: Vec<Admission>)
    ensures
        r@ == v@,
{
    let mut out: Vec<Admission> = Vec::new();
    let mut i: usize = 0;
    while i < v.len()
        invariant
            i <= v@.len(),
            out@ == v@.take(i as int),
        decreases v@.len() - i,
    {
        out.push(v[i].clone());
        assert(v@.take(i + 1) =~= v@.take(i as int).push(v@[i as int]));
        i = i + 1;
    }
    assert(v@.take(i as int) =~= v@);
    out
}

fn copy_text(t: &Option<String>) -> (r: Option<String>)
    ensures
        r == *t,
{
    match t {
        Some(s) => Some(s.clone()),
        None => None,
    }
}

pub fn copy_ref(v: &Option<RefValue>) -> (r: Option<RefValue>)
    ensures
        r == *v,
{
    match v {
        Some(x) => Some(x.clone()),
        None => None,
    }
}

impl Clone for CommitView {
    fn clone(&self) -> (r: Self)
        ensures
            r@ == self@,
    {
        CommitView {
            digest: self.digest,
            header: self.header.clone(),
            result: copy_text(&self.result),
            admitted: copy_admissions(&self.admitted),
            ref_state: copy_ref(&self.ref_state),
            target_follows_commit: self.target_follows_commit,
        }
    }
}

// --------------------------------------------------------- commit objects
/// What kind of commit object a payload is, by its schema: a plain commit, a
/// log manifest with the commit header in it, or neither.
#[derive(Debug)]
pub enum CommitKind {
    NotJson { detail: String },
    NoSchema,
    Unknown { schema: String },
    NoHeader,
    Plain,
    Manifest,
}

pub enum CommitKindView {
    NotJson { detail: Seq<char> },
    NoSchema,
    Unknown { schema: Seq<char> },
    NoHeader,
    Plain,
    Manifest,
}

impl View for CommitKind {
    type V = CommitKindView;

    open spec fn view(&self) -> CommitKindView {
        match self {
            CommitKind::NotJson { detail } => CommitKindView::NotJson { detail: detail@ },
            CommitKind::NoSchema => CommitKindView::NoSchema,
            CommitKind::Unknown { schema } => CommitKindView::Unknown { schema: schema@ },
            CommitKind::NoHeader => CommitKindView::NoHeader,
            CommitKind::Plain => CommitKindView::Plain,
            CommitKind::Manifest => CommitKindView::Manifest,
        }
    }
}

/// Whether `s` is the schema of a log manifest.
pub open spec fn is_manifest_schema(s: Seq<char>) -> bool {
    s == LOG_MANIFEST_SCHEMA@ || s == LOG_MANIFEST_SCHEMA_V3@
}

/// The kind of the commit object with the given fields.
pub open spec fn kind_of_fields(fields: Seq<(Seq<char>, JsonView)>) -> CommitKindView {
    match field(fields, "schema"@) {
        Some(JsonView::Text(schema)) => if schema == COMMIT_SCHEMA@ {
            CommitKindView::Plain
        } else if !is_manifest_schema(schema) {
            CommitKindView::Unknown { schema }
        } else if field(fields, "header"@) is None {
            CommitKindView::NoHeader
        } else {
            CommitKindView::Manifest
        },
        _ => CommitKindView::NoSchema,
    }
}

/// The kind of the commit object with the given payload.
pub open spec fn kind_of(payload: Seq<u8>) -> CommitKindView {
    match json_of(payload) {
        Err(f) => CommitKindView::NotJson { detail: fault_text(f) },
        Ok(JsonView::Object(fields)) => kind_of_fields(fields),
        Ok(_) => CommitKindView::NoSchema,
    }
}

/// The kind of the commit object with the given payload.
pub fn commit_kind(payload: &[u8]) -> (r: CommitKind)
    ensures
        r@ == kind_of(payload@),
{
    let value: Json = match parse(payload) {
        Err(f) => {
            return CommitKind::NotJson { detail: fault_message(f) };
        },
        Ok(v) => v,
    };
    if let Json::Object(fields) = &value {
        proof {
            lemma_object_view(*fields);
        }
        if let Some(Json::Text(schema)) = get_field(fields, "schema") {
            if same_text(schema, COMMIT_SCHEMA) {
                return CommitKind::Plain;
            }
            if !same_text(schema, LOG_MANIFEST_SCHEMA) && !same_text(
                schema,
                LOG_MANIFEST_SCHEMA_V3,
            ) {
                return CommitKind::Unknown { schema: schema.clone() };
            }
            if get_field(fields, "header").is_none() {
                return CommitKind::NoHeader;
            }
            return CommitKind::Manifest;
        }
    }
    CommitKind::NoSchema
}

/// What was found where a commit is stored: nothing that can be read, a
/// payload that cannot hold a commit, one of which a part does not parse, a
/// plain commit, or a log manifest with the commit header in it.
#[derive(Debug)]
pub enum CommitObject {
    Unreadable(Failure),
    Unfit(CommitKind),
    BadCommit { detail: String },
    BadHeader { detail: String },
    BadAdmitted { header: CommitHeader, detail: String },
    BadRefState { header: CommitHeader, detail: String },
    Plain(Commit),
    Manifest {
        header: CommitHeader,
        admitted: Vec<Admission>,
        result: Option<String>,
        ref_state: Option<RefValue>,
    },
}

/// Why a payload of some kind holds no commit.
pub open spec fn unfit_text(digest: Digest, kind: CommitKindView) -> Seq<char> {
    match kind {
        CommitKindView::NotJson { detail } => "commit "@ + digest.text() + " is not JSON: "@
            + detail,
        CommitKindView::NoSchema => "object "@ + digest.text() + " has no schema"@,
        CommitKindView::Unknown { schema } => "object "@ + digest.text()
            + " has unknown commit schema "@ + schema,
        CommitKindView::NoHeader => "manifest "@ + digest.text() + " has no commit header"@,
        _ => "commit "@ + digest.text() + " is not readable"@,
    }
}

fn unfit_message(digest: &Digest, kind: &CommitKind) -> (r: String)
    ensures
        r@ == unfit_text(*digest, kind@),
{
    let id: String = digest.to_string();
    match kind {
        CommitKind::NotJson { detail } => join4("commit ", &id, " is not JSON: ", detail),
        CommitKind::NoSchema => join3("object ", &id, " has no schema"),
        CommitKind::Unknown { schema } => join4(
            "object ",
            &id,
            " has unknown commit schema ",
            schema,
        ),
        CommitKind::NoHeader => join3("manifest ", &id, " has no commit header"),
        CommitKind::Plain | CommitKind::Manifest => join3("commit ", &id, " is not readable"),
    }
}

/// Whether `e` is the error of a header with a fault, or else says `message`.
pub open spec fn header_first(header: CommitHeader, e: CoreError, message: Seq<char>) -> bool {
    match header.fault() {
        Some(f) => e@ == f,
        None => e matches CoreError::RecoveryFailed(m) && m@ == message,
    }
}

fn header_fault(header: &CommitHeader, message: String) -> (r: CoreError)
    ensures
        header_first(*header, r, message@),
{
    match header.validate() {
        Err(e) => e,
        Ok(_) => CoreError::RecoveryFailed(message),
    }
}

/// What a plain commit at `digest` says.
pub open spec fn plain_record(digest: Digest, c: Commit) -> CommitRecord {
    CommitRecord {
        digest,
        header: c.header,
        result: if c.result@ == "null"@ {
            None
        } else {
            Some(c.result)
        },
        admitted: Seq::empty(),
        ref_state: Some(c.ref_state),
        target_follows_commit: false,
    }
}

/// What the object at `digest` says as a commit. `null` as the result of a
/// plain commit is no result.
pub fn load_commit_view(digest: Digest, object: CommitObject) -> (r: Result<CommitView>)
    ensures
        match object {
            CommitObject::Unreadable(f) => r matches Err(CoreError::RecoveryFailed(m)) && m@
                == "commit "@ + digest.text() + " unreadable: "@ + failure_message(f),
            CommitObject::Unfit(kind) => r matches Err(CoreError::RecoveryFailed(m)) && m@
                == unfit_text(digest, kind@),
            CommitObject::BadCommit { detail } => r matches Err(CoreError::RecoveryFailed(m)) && m@
                == "commit "@ + digest.text() + " schema: "@ + detail@,
            CommitObject::BadHeader { detail } => r matches Err(CoreError::RecoveryFailed(m)) && m@
                == "header in "@ + digest.text() + ": "@ + detail@,
            CommitObject::BadAdmitted { header, detail } => r matches Err(e) && header_first(
                header,
                e,
                "admitted in "@ + digest.text() + ": "@ + detail@,
            ),
            CommitObject::BadRefState { header, detail } => r matches Err(e) && header_first(
                header,
                e,
                "ref_state in "@ + digest.text() + ": "@ + detail@,
            ),
            CommitObject::Plain(c) => match c.fault() {
                None => r matches Ok(v) && v@ == plain_record(digest, c),
                Some(f) => r matches Err(e) && e@ == f,
            },
            CommitObject::Manifest { header, admitted, result, ref_state } =>
                match header.fault() {
                None => r matches Ok(v) && v@ == (CommitRecord {
                    digest,
                    header,
                    result,
                    admitted: admitted@,
                    ref_state,
                    target_follows_commit: true,
                }),
                Some(f) => r matches Err(e) && e@ == f,
            },
        },
{
    let id: String = digest.to_string();
    match object {
        CommitObject::Unreadable(f) => Err(
            CoreError::RecoveryFailed(
                join4("commit ", &id, " unreadable: ", &failure_text(&f)),
            ),
        ),
        CommitObject::Unfit(kind) => Err(
            CoreError::RecoveryFailed(unfit_message(&digest, &kind)),
        ),
        CommitObject::BadCommit { detail } => Err(
            CoreError::RecoveryFailed(join4("commit ", &id, " schema: ", &detail)),
        ),
        CommitObject::BadHeader { detail } => Err(
            CoreError::RecoveryFailed(join4("header in ", &id, ": ", &detail)),
        ),
        CommitObject::BadAdmitted { header, detail } => Err(
            header_fault(&header, join4("admitted in ", &id, ": ", &detail)),
        ),
        CommitObject::BadRefState { header, detail } => Err(
            header_fault(&header, join4("ref_state in ", &id, ": ", &detail)),
        ),
        CommitObject::Plain(c) => {
            match c.validate() {
                Err(e) => {
                    return Err(e);
                },
                Ok(_) => {},
            }
            let result: Option<String> = if same_text(&c.result, "null") {
                None
            } else {
                Some(c.result)
            };
            let v: CommitView = CommitView {
                digest,
                header: c.header,
                result,
                admitted: Vec::new(),
                ref_state: Some(c.ref_state),
                target_follows_commit: false,
            };
            assert(v.admitted@ =~= Seq::<Admission>::empty());
            Ok(v)
        },
        CommitObject::Manifest { header, admitted, result, ref_state } => {
            match header.validate() {
                Err(e) => {
                    return Err(e);
                },
                Ok(_) => {},
            }
            Ok(
                CommitView {
                    digest,
                    header,
                    result,
                    admitted,
                    ref_state,
                    target_follows_commit: true,
                },
            )
        },
    }
}

/// What is known of a commit.
pub enum ChainLoad {
    Need,
    Fail(ErrorView),
    View(CommitRecord),
}

pub open spec fn load(m: Map<Digest, FetchedView<CommitRecord>>, d: Digest) -> ChainLoad {
    if !m.contains_key(d) {
        ChainLoad::Need
    } else {
        match m[d] {
            FetchedView::Failed(c) => ChainLoad::Fail(c),
            FetchedView::Malformed { detail } => ChainLoad::Fail(ErrorView::RecoveryFailed(detail)),
            FetchedView::Object { object, .. } => ChainLoad::View(object),
        }
    }
}

fn load_view<'a>(table: &'a Table<CommitView>, d: &Digest) -> (r: Result<Option<&'a CommitView>>)
    ensures
        match load(table@, *d) {
            ChainLoad::Need => r matches Ok(None),
            ChainLoad::Fail(c) => r matches Err(e) && e@ == c,
            ChainLoad::View(v) => r matches Ok(Some(x)) && x@ == v,
        },
{
    match table.get(d) {
        None => Ok(None),
        Some(Fetched::Failed(e)) => Err(e.clone()),
        Some(Fetched::Malformed { detail }) => Err(CoreError::RecoveryFailed(detail.clone())),
        Some(Fetched::Object { object, .. }) => Ok(Some(object)),
    }
}

/// What is said of a commit that belongs to another resource.
pub open spec fn other_resource(digest: Digest, resource: Seq<char>) -> Seq<char> {
    "commit "@ + digest.text() + " belongs to resource "@ + resource
}

/// Whether a commit belongs to the resource.
pub fn check_view_resource(view: &CommitView, resource: &str) -> (r: Result<()>)
    ensures
        r is Ok <==> view.header.resource@ == resource@,
        r matches Err(e) ==> (e matches CoreError::RecoveryFailed(m) && m@ == other_resource(
            view.digest,
            view.header.resource@,
        )),
{
    if !same_text(&view.header.resource, resource) {
        return Err(
            CoreError::RecoveryFailed(
                join4(
                    "commit ",
                    &view.digest.to_string(),
                    " belongs to resource ",
                    &view.header.resource,
                ),
            ),
        );
    }
    Ok(())
}

// ------------------------------------------------------------------- seek
/// Where a walk along the chain ends.
pub enum ChainSeek {
    Fetch(Digest),
    Fail(ErrorView),
    Found(CommitRecord, nat),
}

/// A walk that ends without the commit it was for.
pub open spec fn lost(message: Seq<char>) -> ChainSeek {
    ChainSeek::Fail(ErrorView::RecoveryFailed(message))
}

/// The walk from `cur` back to generation `target` of `resource`. A skip
/// pointer leads to the generation that its commit claims and is followed
/// unless it leads too far back; parents are dense. `reads` commits were read
/// before.
pub open spec fn seek_from(
    m: Map<Digest, FetchedView<CommitRecord>>,
    cur: CommitRecord,
    target: u64,
    resource: Seq<char>,
    hops: nat,
    reads: nat,
) -> ChainSeek
    decreases MAX_SEEK_HOPS + 1 - hops,
{
    if cur.header.generation == target {
        ChainSeek::Found(cur, reads)
    } else if hops >= MAX_SEEK_HOPS {
        lost(
            "seek from "@ + decimal(cur.header.generation as nat) + " to "@ + decimal(target as nat)
                + " exceeded 10000 hops"@,
        )
    } else if cur.header.generation < target {
        lost(
            "commit generation "@ + decimal(cur.header.generation as nat) + " is below target "@
                + decimal(target as nat),
        )
    } else {
        let skipped = match cur.header.skip {
            None => None,
            Some(s) => match load(m, s) {
                ChainLoad::Need => Some(ChainSeek::Fetch(s)),
                ChainLoad::Fail(e) => Some(
                    lost("skip target "@ + s.text() + ": "@ + e.text()),
                ),
                ChainLoad::View(v) => if v.header.resource@ != resource {
                    Some(lost(other_resource(v.digest, v.header.resource@)))
                } else if v.header.generation >= cur.header.generation {
                    Some(lost("skip pointer does not strictly decrease generation"@))
                } else if v.header.generation != skip_target(cur.header.generation as nat) {
                    Some(
                        lost(
                            "skip claimed generation "@ + decimal(
                                skip_target(cur.header.generation as nat),
                            ) + ", found "@ + decimal(v.header.generation as nat),
                        ),
                    )
                } else if v.header.generation >= target {
                    Some(seek_from(m, v, target, resource, hops + 1, reads + 1))
                } else {
                    None
                },
            },
        };
        match skipped {
            Some(r) => r,
            None => match cur.header.parent {
                None => lost(
                    "commit generation "@ + decimal(cur.header.generation as nat)
                        + " missing parent while seeking "@ + decimal(target as nat),
                ),
                Some(p) => match load(m, p) {
                    ChainLoad::Need => ChainSeek::Fetch(p),
                    ChainLoad::Fail(e) => lost("parent "@ + p.text() + ": "@ + e.text()),
                    ChainLoad::View(v) => if v.header.resource@ != resource {
                        lost(other_resource(v.digest, v.header.resource@))
                    } else if v.header.generation + 1 != cur.header.generation {
                        lost(
                            "dense ancestry broken: parent "@ + decimal(v.header.generation as nat)
                                + " then "@ + decimal(cur.header.generation as nat),
                        )
                    } else {
                        seek_from(
                            m,
                            v,
                            target,
                            resource,
                            hops + 1,
                            if cur.header.skip is Some {
                                reads + 2
                            } else {
                                reads + 1
                            },
                        )
                    },
                },
            },
        }
    }
}

/// The walk from the commit at `start` back to generation `target`.
pub open spec fn seek(
    m: Map<Digest, FetchedView<CommitRecord>>,
    start: Digest,
    target: u64,
    resource: Seq<char>,
) -> ChainSeek {
    match load(m, start) {
        ChainLoad::Need => ChainSeek::Fetch(start),
        ChainLoad::Fail(c) => ChainSeek::Fail(c),
        ChainLoad::View(v) => if v.header.resource@ != resource {
            lost(other_resource(v.digest, v.header.resource@))
        } else {
            seek_from(m, v, target, resource, 0, 1)
        },
    }
}

/// Walks skip pointers and parents from `start` to generation `target`.
/// Returns the commit and how many commits were read.
pub fn seek_generation(
    table: &Table<CommitView>,
    start: &Digest,
    target: u64,
    resource: &str,
) -> (r: Result<Step<(CommitView, u64)>>)
    ensures
        match seek(table@, *start, target, resource@) {
            ChainSeek::Fetch(d) => r matches Ok(Step::Fetch(n)) && n == d,
            ChainSeek::Fail(c) => r matches Err(e) && e@ == c,
            ChainSeek::Found(v, reads) => r matches Ok(Step::Done(p)) && p.0@ == v && p.1 == reads,
        },
{
    let mut current: &CommitView = match load_view(table, start) {
        Err(e) => {
            return Err(e);
        },
        Ok(None) => {
            return Ok(Step::Fetch(*start));
        },
        Ok(Some(v)) => v,
    };
    match check_view_resource(current, resource) {
        Err(e) => {
            return Err(e);
        },
        Ok(_) => {},
    }
    let mut reads: u64 = 1;
    let mut hops: u32 = 0;
    while current.header.generation != target
        invariant
            hops <= MAX_SEEK_HOPS,
            1 <= reads <= 1 + 2 * hops,
            seek(table@, *start, target, resource@) == seek_from(
                table@,
                current@,
                target,
                resource@,
                hops as nat,
                reads as nat,
            ),
        decreases MAX_SEEK_HOPS + 1 - hops,
    {
        if hops >= MAX_SEEK_HOPS {
            let m: String = join5(
                "seek from ",
                &decimal_text(current.header.generation),
                " to ",
                &decimal_text(target),
                " exceeded 10000 hops",
            );
            return Err(CoreError::RecoveryFailed(m));
        }
        hops = hops + 1;
        if current.header.generation < target {
            let m: String = join4(
                "commit generation ",
                &decimal_text(current.header.generation),
                " is below target ",
                &decimal_text(target),
            );
            return Err(CoreError::RecoveryFailed(m));
        }
        let mut followed: bool = false;
        if let Some(skip) = current.header.skip {
            let view: &CommitView = match load_view(table, &skip) {
                Err(e) => {
                    let m: String = join4("skip target ", &skip.to_string(), ": ", &e.to_string());
                    return Err(CoreError::RecoveryFailed(m));
                },
                Ok(None) => {
                    return Ok(Step::Fetch(skip));
                },
                Ok(Some(v)) => v,
            };
            reads = reads + 1;
            match check_view_resource(view, resource) {
                Err(e) => {
                    return Err(e);
                },
                Ok(_) => {},
            }
            if view.header.generation >= current.header.generation {
                return Err(recovery_failed("skip pointer does not strictly decrease generation"));
            }
            let claimed: u64 = skip_target_generation(current.header.generation);
            if view.header.generation != claimed {
                let m: String = join4(
                    "skip claimed generation ",
                    &decimal_text(claimed),
                    ", found ",
                    &decimal_text(view.header.generation),
                );
                return Err(CoreError::RecoveryFailed(m));
            }
            if view.header.generation >= target {
                current = view;
                followed = true;
            }
        }
        if !followed {
            let parent: Digest = match current.header.parent {
                None => {
                    let m: String = join4(
                        "commit generation ",
                        &decimal_text(current.header.generation),
                        " missing parent while seeking ",
                        &decimal_text(target),
                    );
                    return Err(CoreError::RecoveryFailed(m));
                },
                Some(p) => p,
            };
            let view: &CommitView = match load_view(table, &parent) {
                Err(e) => {
                    let m: String = join4("parent ", &parent.to_string(), ": ", &e.to_string());
                    return Err(CoreError::RecoveryFailed(m));
                },
                Ok(None) => {
                    return Ok(Step::Fetch(parent));
                },
                Ok(Some(v)) => v,
            };
            reads = reads + 1;
            match check_view_resource(view, resource) {
                Err(e) => {
                    return Err(e);
                },
                Ok(_) => {},
            }
            if view.header.generation == u64::MAX || view.header.generation + 1
                != current.header.generation {
                let m: String = join4(
                    "dense ancestry broken: parent ",
                    &decimal_text(view.header.generation),
                    " then ",
                    &decimal_text(current.header.generation),
                );
                return Err(CoreError::RecoveryFailed(m));
            }
            current = view;
        }
    }
    Ok(Step::Done((current.clone(), reads)))
}

/// What a walk finds is the commit of the wanted generation of the resource.
pub proof fn law_seek_finds_the_generation(
    m: Map<Digest, FetchedView<CommitRecord>>,
    cur: CommitRecord,
    target: u64,
    resource: Seq<char>,
    hops: nat,
    reads: nat,
)
    requires
        cur.header.resource@ == resource,
    ensures
        match seek_from(m, cur, target, resource, hops, reads) {
            ChainSeek::Found(v, _) => v.header.generation == target && v.header.resource@
                == resource && target <= cur.header.generation,
            _ => true,
        },
    decreases MAX_SEEK_HOPS + 1 - hops,
{
    if cur.header.generation > target && hops < MAX_SEEK_HOPS {
        match cur.header.skip {
            Some(s) => match load(m, s) {
                ChainLoad::View(v) => {
                    if v.header.resource@ == resource {
                        law_seek_finds_the_generation(m, v, target, resource, hops + 1, reads + 1);
                    }
                },
                _ => {},
            },
            None => {},
        }
        match cur.header.parent {
            Some(p) => match load(m, p) {
                ChainLoad::View(v) => {
                    if v.header.resource@ == resource {
                        law_seek_finds_the_generation(m, v, target, resource, hops + 1, reads + 1);
                        law_seek_finds_the_generation(m, v, target, resource, hops + 1, reads + 2);
                    }
                },
                _ => {},
            },
            None => {},
        }
    }
}

/// A walk that came to an end comes to the same end when more is known.
pub proof fn law_seek_is_stable(
    t: Map<Digest, FetchedView<CommitRecord>>,
    m: Map<Digest, FetchedView<CommitRecord>>,
    cur: CommitRecord,
    target: u64,
    resource: Seq<char>,
    hops: nat,
    reads: nat,
)
    requires
        extends(m, t),
        !(seek_from(t, cur, target, resource, hops, reads) is Fetch),
    ensures
        seek_from(m, cur, target, resource, hops, reads) == seek_from(
            t,
            cur,
            target,
            resource,
            hops,
            reads,
        ),
    decreases MAX_SEEK_HOPS + 1 - hops,
{
    if hops < MAX_SEEK_HOPS && cur.header.generation > target {
        match cur.header.skip {
            Some(s) => {
                assert(t.contains_key(s));
                match load(t, s) {
                    ChainLoad::View(v) => {
                        if !(seek_from(t, v, target, resource, hops + 1, reads + 1) is Fetch) {
                            law_seek_is_stable(t, m, v, target, resource, hops + 1, reads + 1);
                        }
                    },
                    _ => {},
                }
            },
            None => {},
        }
        match cur.header.parent {
            Some(p) => {
                if t.contains_key(p) {
                    match load(t, p) {
                        ChainLoad::View(v) => {
                            let r = if cur.header.skip is Some {
                                reads + 2
                            } else {
                                reads + 1
                            };
                            if !(seek_from(t, v, target, resource, hops + 1, r) is Fetch) {
                                law_seek_is_stable(t, m, v, target, resource, hops + 1, r);
                            }
                        },
                        _ => {},
                    }
                }
            },
            None => {},
        }
    }
}

/// The skip pointer of a new commit: none before there is anything to skip
/// to, its parent where that is the commit to skip to, and else the commit
/// found by walking back.
pub enum SkipView {
    Fetch(Digest),
    Fail(ErrorView),
    Skip(Option<Digest>),
}

pub open spec fn skip_pointer(
    m: Map<Digest, FetchedView<CommitRecord>>,
    generation: u64,
    parent: Option<Digest>,
    resource: Seq<char>,
) -> SkipView {
    let target = skip_target(generation as nat);
    match parent {
        None => SkipView::Skip(None),
        Some(p) => if target == 0 {
            SkipView::Skip(None)
        } else if target == generation - 1 {
            SkipView::Skip(Some(p))
        } else {
            match seek(m, p, target as u64, resource) {
                ChainSeek::Fetch(d) => SkipView::Fetch(d),
                ChainSeek::Fail(c) => SkipView::Fail(c),
                ChainSeek::Found(v, _) => SkipView::Skip(Some(v.digest)),
            }
        },
    }
}

pub fn compute_skip(
    table: &Table<CommitView>,
    generation: u64,
    parent: Option<Digest>,
    resource: &str,
) -> (r: Result<Step<Option<Digest>>>)
    ensures
        match skip_pointer(table@, generation, parent, resource@) {
            SkipView::Fetch(d) => r matches Ok(Step::Fetch(n)) && n == d,
            SkipView::Fail(c) => r matches Err(e) && e@ == c,
            SkipView::Skip(s) => r matches Ok(Step::Done(x)) && x == s,
        },
{
    let target: u64 = skip_target_generation(generation);
    if target == 0 {
        return Ok(Step::Done(None));
    }
    let parent: Digest = match parent {
        None => {
            return Ok(Step::Done(None));
        },
        Some(p) => p,
    };
    if target == generation - 1 {
        return Ok(Step::Done(Some(parent)));
    }
    match seek_generation(table, &parent, target, resource) {
        Err(e) => Err(e),
        Ok(Step::Fetch(d)) => Ok(Step::Fetch(d)),
        Ok(Step::Done((view, _))) => Ok(Step::Done(Some(view.digest))),
    }
}

// ---------------------------------------------------------------- outcome
/// Whether a commit records an identity, as its author or among its
/// admissions.
pub open spec fn records(v: CommitRecord, id: Seq<char>) -> bool {
    v.header.identity@ == id || admission_of(v.admitted, id) is Some
}

/// The first admission of an identity.
pub open spec fn admission_of(admitted: Seq<Admission>, id: Seq<char>) -> Option<Admission>
    decreases admitted.len(),
{
    if admitted.len() == 0 {
        None
    } else if admitted[0].identity@ == id {
        Some(admitted[0])
    } else {
        admission_of(admitted.drop_first(), id)
    }
}

/// Whether a commit records `request` for an identity.
pub open spec fn records_request(v: CommitRecord, id: Seq<char>, request: Digest) -> bool {
    v.header.request == request || exists|i: int|
        0 <= i < v.admitted.len() && (#[trigger] v.admitted[i]).identity@ == id
            && v.admitted[i].request == request
}

pub fn find_admission<'a>(admitted: &'a Vec<Admission>, id: &str) -> (r: Option<&'a Admission>)
    ensures
        match r {
            Some(a) => admission_of(admitted@, id@) == Some(*a),
            None => admission_of(admitted@, id@) is None,
        },
{
    let mut i: usize = 0;
    assert(admitted@.skip(0) =~= admitted@);
    while i < admitted.len()
        invariant
            i <= admitted@.len(),
            admission_of(admitted@, id@) == admission_of(admitted@.skip(i as int), id@),
        decreases admitted@.len() - i,
    {
        if same_text(&admitted[i].identity, id) {
            return Some(&admitted[i]);
        }
        assert(admitted@.skip(i as int).drop_first() =~= admitted@.skip(i + 1));
        i = i + 1;
    }
    None
}

pub fn identity_in_commit(view: &CommitView, identity: &OpIdentity) -> (r: bool)
    ensures
        r == records(view@, identity.text()),
{
    let id: String = identity.canonical();
    if same_text(&view.header.identity, &id) {
        return true;
    }
    match find_admission(&view.admitted, &id) {
        Some(_) => true,
        None => false,
    }
}

/// Whether the commit records `request` for the identity.
pub fn request_in_commit(view: &CommitView, identity: &OpIdentity, request: &Digest) -> (r: bool)
    ensures
        r == records_request(view@, identity.text(), *request),
{
    if view.header.request == *request {
        return true;
    }
    let id: String = identity.canonical();
    let mut i: usize = 0;
    while i < view.admitted.len()
        invariant
            i <= view.admitted@.len(),
            id@ == identity.text(),
            view.header.request != *request,
            forall|j: int|
                0 <= j < i ==> !((#[trigger] view.admitted@[j]).identity@ == id@
                    && view.admitted@[j].request == *request),
        decreases view.admitted@.len() - i,
    {
        if same_text(&view.admitted[i].identity, &id) && view.admitted[i].request == *request {
            assert(view@.admitted[i as int].identity@ == id@);
            return true;
        }
        i = i + 1;
    }
    false
}

/// What a commit recorded as the outcome of one of its identities: the
/// result of its author, as a JSON text, or the range of an admission.
#[derive(Debug)]
pub enum RecordedOutcome {
    Result(String),
    Range { first: u64, last: u64 },
}

impl Clone for RecordedOutcome {
    fn clone(&self) -> (r: Self)
        ensures
            r == *self,
    {
        match self {
            RecordedOutcome::Result(s) => RecordedOutcome::Result(s.clone()),
            RecordedOutcome::Range { first, last } => RecordedOutcome::Range {
                first: *first,
                last: *last,
            },
        }
    }
}

/// What a commit recorded for the identity with the given text.
pub open spec fn outcome_of(v: CommitRecord, id: Seq<char>) -> Option<RecordedOutcome> {
    if v.header.identity@ == id && v.result is Some {
        Some(RecordedOutcome::Result(v.result->0))
    } else {
        match admission_of(v.admitted, id) {
            Some(a) => Some(RecordedOutcome::Range { first: a.first, last: a.last }),
            None => None,
        }
    }
}

/// What the commit recorded for the identity; a result of another identity
/// is never returned.
pub fn outcome_from_view(view: &CommitView, identity: &OpIdentity) -> (r: Result<RecordedOutcome>)
    ensures
        match outcome_of(view@, identity.text()) {
            Some(o) => r matches Ok(x) && x == o,
            None => r matches Err(CoreError::RecoveryFailed(m)) && m@ == "commit does not record "@
                + identity.text(),
        },
{
    let id: String = identity.canonical();
    if same_text(&view.header.identity, &id) {
        if let Some(result) = &view.result {
            return Ok(RecordedOutcome::Result(result.clone()));
        }
    }
    match find_admission(&view.admitted, &id) {
        Some(a) => Ok(RecordedOutcome::Range { first: a.first, last: a.last }),
        None => Err(CoreError::RecoveryFailed(join2("commit does not record ", &id))),
    }
}

/// A publication and what came of it.
#[derive(Debug)]
pub struct Published<T> {
    pub outcome: T,
    pub generation: u64,
    pub epoch: u64,
    pub commit: Digest,
    pub value: RefValue,
    pub first_delivery: bool,
    pub admitted: Vec<Admission>,
}

/// Whether a commit holds the ref state that it produced, under the tenant.
pub open spec fn restorable(v: CommitRecord, tenant: Seq<char>) -> bool {
    v.ref_state matches Some(s) && s.tenant@ == tenant && s.name@ == v.header.resource@
        && s.generation == v.header.generation && s.epoch == v.header.epoch
}

/// The ref value that a commit produced.
pub open spec fn restored(v: CommitRecord) -> RefValue {
    RefValue {
        head_commit: Some(v.digest),
        target: if v.target_follows_commit {
            Some(v.digest)
        } else {
            v.ref_state->0.target
        },
        ..v.ref_state->0
    }
}

/// Whether `p` is the publication that `v` records for `id`.
pub open spec fn is_publication(
    p: Published<RecordedOutcome>,
    v: CommitRecord,
    id: Seq<char>,
    first_delivery: bool,
) -> bool {
    &&& outcome_of(v, id) == Some(p.outcome)
    &&& p.generation == v.header.generation
    &&& p.epoch == v.header.epoch
    &&& p.commit == v.digest
    &&& p.value == restored(v)
    &&& p.first_delivery == first_delivery
    &&& p.admitted@ == v.admitted
}

/// Why a commit records no publication for an identity.
pub open spec fn unrecorded(v: CommitRecord, id: Seq<char>, tenant: Seq<char>) -> Seq<char> {
    if outcome_of(v, id) is None {
        "commit does not record "@ + id
    } else if v.ref_state is None {
        "commit "@ + v.digest.text() + " is missing the original ref state"@
    } else {
        let s = v.ref_state->0;
        if s.tenant@ != tenant || s.name@ != v.header.resource@ {
            "commit "@ + v.digest.text() + " ref state identity "@ + s.tenant@ + "/"@ + s.name@
                + " does not match "@ + tenant + "/"@ + v.header.resource@
        } else {
            "commit "@ + v.digest.text() + " ref state generation/epoch "@ + decimal(
                s.generation as nat,
            ) + "/"@ + decimal(s.epoch as nat) + " disagrees with header "@ + decimal(
                v.header.generation as nat,
            ) + "/"@ + decimal(v.header.epoch as nat)
        }
    }
}

/// The publication that a commit records for an identity.
pub fn published_from_view(
    view: &CommitView,
    identity: &OpIdentity,
    tenant: &str,
    first_delivery: bool,
) -> (r: Result<Published<RecordedOutcome>>)
    ensures
        if outcome_of(view@, identity.text()) is Some && restorable(view@, tenant@) {
            r matches Ok(p) && is_publication(p, view@, identity.text(), first_delivery)
        } else {
            r matches Err(CoreError::RecoveryFailed(m)) && m@ == unrecorded(
                view@,
                identity.text(),
                tenant@,
            )
        },
{
    let outcome: RecordedOutcome = match outcome_from_view(view, identity) {
        Ok(o) => o,
        Err(e) => {
            return Err(e);
        },
    };
    let mut value: RefValue = match &view.ref_state {
        Some(v) => v.clone(),
        None => {
            let m: String = join3(
                "commit ",
                &view.digest.to_string(),
                " is missing the original ref state",
            );
            return Err(CoreError::RecoveryFailed(m));
        },
    };
    if !same_text(&value.tenant, tenant) || !same_text(&value.name, &view.header.resource) {
        let mut m: String = join5(
            "commit ",
            &view.digest.to_string(),
            " ref state identity ",
            &value.tenant,
            "/",
        );
        m.append(&value.name);
        m.append(" does not match ");
        m.append(tenant);
        m.append("/");
        m.append(&view.header.resource);
        return Err(CoreError::RecoveryFailed(m));
    }
    if value.generation != view.header.generation || value.epoch != view.header.epoch {
        let mut m: String = join5(
            "commit ",
            &view.digest.to_string(),
            " ref state generation/epoch ",
            &decimal_text(value.generation),
            "/",
        );
        m.append(&decimal_text(value.epoch));
        m.append(" disagrees with header ");
        m.append(&decimal_text(view.header.generation));
        m.append("/");
        m.append(&decimal_text(view.header.epoch));
        return Err(CoreError::RecoveryFailed(m));
    }
    value.head_commit = Some(view.digest);
    if view.target_follows_commit {
        value.target = Some(view.digest);
    }
    Ok(
        Published {
            outcome,
            generation: view.header.generation,
            epoch: view.header.epoch,
            commit: view.digest,
            value,
            first_delivery,
            admitted: copy_admissions(&view.admitted),
        },
    )
}

/// What a ref is recorded as inside the commit that produces it.
pub fn durable_ref_state(next: &RefValue) -> (r: RefValue)
    ensures
        r == (RefValue { head_commit: None, ..*next }),
{
    let mut value: RefValue = next.clone();
    value.head_commit = None;
    value
}

/// What a commit gives back of the ref value that it was made from: all of
/// it, with the commit as its head.
pub proof fn law_restored_is_what_was_recorded(v: CommitRecord, next: RefValue)
    requires
        v.ref_state == Some(RefValue { head_commit: None, ..next }),
        !v.target_follows_commit,
    ensures
        restored(v) == (RefValue { head_commit: Some(v.digest), ..next }),
{
}

pub proof fn lemma_admission_of(admitted: Seq<Admission>, id: Seq<char>)
    ensures
        admission_of(admitted, id) matches Some(a) ==> exists|i: int|
            0 <= i < admitted.len() && admitted[i] == a && a.identity@ == id && forall|j: int|
                0 <= j < i ==> (#[trigger] admitted[j]).identity@ != id,
        admission_of(admitted, id) is None ==> forall|i: int|
            0 <= i < admitted.len() ==> (#[trigger] admitted[i]).identity@ != id,
    decreases admitted.len(),
{
    if admitted.len() > 0 {
        let rest = admitted.drop_first();
        lemma_admission_of(rest, id);
        assert(forall|i: int| 0 <= i < rest.len() ==> #[trigger] rest[i] == admitted[i + 1]);
        if admitted[0].identity@ == id {
            assert(admitted[0] == admitted[0]);
        } else {
            match admission_of(rest, id) {
                Some(a) => {
                    let i = choose|i: int|
                        0 <= i < rest.len() && rest[i] == a && a.identity@ == id && forall|j: int|
                            0 <= j < i ==> (#[trigger] rest[j]).identity@ != id;
                    assert(admitted[i + 1] == a);
                    assert forall|j: int| 0 <= j < i + 1 implies (#[trigger] admitted[j]).identity@
                        != id by {
                        if j > 0 {
                            assert(rest[j - 1].identity@ != id);
                        }
                    }
                },
                None => {
                    assert forall|i: int| 0 <= i < admitted.len() implies (
                    #[trigger] admitted[i]).identity@ != id by {
                        if i > 0 {
                            assert(rest[i - 1].identity@ != id);
                        }
                    }
                },
            }
        }
    }
}

/// A commit records an identity exactly if it is its own or one of those that
/// it admitted. Its own is told the result; each other is told its own range,
/// the first that was admitted under it, and never that of another.
pub proof fn law_commit_answers_each_identity(v: CommitRecord, id: Seq<char>)
    ensures
        records(v, id) <==> v.header.identity@ == id || exists|i: int|
            0 <= i < v.admitted.len() && (#[trigger] v.admitted[i]).identity@ == id,
        v.header.identity@ == id && v.result is Some ==> outcome_of(v, id) == Some(
            RecordedOutcome::Result(v.result->0),
        ),
        outcome_of(v, id) matches Some(RecordedOutcome::Result(t)) ==> v.header.identity@ == id
            && v.result == Some(t),
        outcome_of(v, id) matches Some(RecordedOutcome::Range { first, last }) ==> exists|i: int|
            0 <= i < v.admitted.len() && (#[trigger] v.admitted[i]).identity@ == id
                && v.admitted[i].first == first && v.admitted[i].last == last && forall|j: int|
                0 <= j < i ==> (#[trigger] v.admitted[j]).identity@ != id,
        (exists|i: int| 0 <= i < v.admitted.len() && (#[trigger] v.admitted[i]).identity@ == id)
            ==> outcome_of(v, id) is Some,
        outcome_of(v, id) is Some ==> records(v, id),
{
    lemma_admission_of(v.admitted, id);
    match admission_of(v.admitted, id) {
        Some(a) => {
            let i = choose|i: int|
                0 <= i < v.admitted.len() && v.admitted[i] == a && a.identity@ == id && forall|
                    j: int,
                |
                    0 <= j < i ==> (#[trigger] v.admitted[j]).identity@ != id;
            assert(v.admitted[i].identity@ == id);
        },
        None => {},
    }
}

/// A commit is of a request if its header says so, or if it admitted the
/// request under the identity.
pub proof fn law_commit_knows_its_requests(v: CommitRecord, id: Seq<char>, request: Digest)
    ensures
        v.header.request == request ==> records_request(v, id, request),
        forall|i: int|
            0 <= i < v.admitted.len() && (#[trigger] v.admitted[i]).identity@ == id
                && v.admitted[i].request == request ==> records_request(v, id, request),
        v.header.request != request && (forall|i: int|
            0 <= i < v.admitted.len() && (#[trigger] v.admitted[i]).identity@ == id
                ==> v.admitted[i].request != request) ==> !records_request(v, id, request),
{
}

/// What is told of a commit that was found is what it says: its generation,
/// epoch and digest, and the ref that it recorded, which has to agree with it.
pub proof fn law_found_publication_is_the_commit(
    p: Published<RecordedOutcome>,
    v: CommitRecord,
    id: Seq<char>,
    tenant: Seq<char>,
    first_delivery: bool,
)
    ensures
        restorable(v, tenant) <==> v.ref_state is Some && v.ref_state->0.tenant@ == tenant
            && v.ref_state->0.name@ == v.header.resource@ && v.ref_state->0.generation
            == v.header.generation && v.ref_state->0.epoch == v.header.epoch,
        is_publication(p, v, id, first_delivery) ==> {
            &&& p.generation == v.header.generation && p.epoch == v.header.epoch
            &&& p.commit == v.digest && p.first_delivery == first_delivery
            &&& outcome_of(v, id) == Some(p.outcome)
            &&& p.value.head_commit == Some(v.digest)
            &&& p.admitted@ == v.admitted
            &&& restorable(v, tenant) ==> p.value.tenant@ == tenant && p.value.name@
                == v.header.resource@ && p.value.generation == v.header.generation
                && p.value.epoch == v.header.epoch && p.value.lease == v.ref_state->0.lease
                && p.value.updated_at == v.ref_state->0.updated_at && p.value.target == if
                v.target_follows_commit {
                Some(v.digest)
            } else {
                v.ref_state->0.target
            }
        },
{
}

/// A plain commit is taken for what it says, and an object for a commit or a
/// manifest by its schema alone.
pub proof fn law_commit_is_taken_for_what_it_says(
    digest: Digest,
    c: Commit,
    fields: Seq<(Seq<char>, JsonView)>,
)
    ensures
        ({
            let v = plain_record(digest, c);
            &&& v.digest == digest && v.header == c.header && v.admitted.len() == 0
            &&& v.ref_state == Some(c.ref_state) && !v.target_follows_commit
            &&& v.result is None <==> c.result@ == "null"@
            &&& v.result is Some ==> v.result == Some(c.result)
        }),
        kind_of_fields(fields) is Plain <==> field(fields, "schema"@) == Some(
            JsonView::Text("comb.commit/v1"@),
        ),
        kind_of_fields(fields) is Manifest ==> field(fields, "header"@) is Some && (field(
            fields,
            "schema"@,
        ) == Some(JsonView::Text("comb.log.partition-manifest/v2"@)) || field(fields, "schema"@)
            == Some(JsonView::Text("comb.log.partition-manifest/v3"@))),
        field(fields, "schema"@) == Some(JsonView::Text("comb.log.partition-manifest/v2"@))
            && field(fields, "header"@) is Some ==> kind_of_fields(fields) is Manifest,
        field(fields, "schema"@) == Some(JsonView::Text("comb.log.partition-manifest/v3"@))
            && field(fields, "header"@) is Some ==> kind_of_fields(fields) is Manifest,
{
    reveal_strlit("comb.commit/v1");
    reveal_strlit("comb.log.partition-manifest/v2");
    reveal_strlit("comb.log.partition-manifest/v3");
    assert("comb.commit/v1"@.len() != "comb.log.partition-manifest/v2"@.len());
    assert("comb.commit/v1"@.len() != "comb.log.partition-manifest/v3"@.len());
}

/// Whether `path` leads from the commit at `d` back, each commit the parent of
/// the one before it.
pub open spec fn is_line(
    m: Map<Digest, FetchedView<CommitRecord>>,
    d: Digest,
    path: Seq<CommitRecord>,
) -> bool {
    &&& path.len() > 0
    &&& load(m, d) == ChainLoad::View(path[0])
    &&& forall|i: int|
        0 < i < path.len() ==> ((#[trigger] path[i - 1]).header.parent matches Some(p) && load(m, p)
            == ChainLoad::View(path[i]))
}

/// A scan that finds nothing passed over nothing: no commit of the line behind
/// records the identity. One that finds a commit, or a conflict, found it in
/// the newest commit of the line that records the identity.
pub proof fn law_scan_passes_over_nothing(
    m: Map<Digest, FetchedView<CommitRecord>>,
    d: Digest,
    id: Seq<char>,
    request: Digest,
    resource: Seq<char>,
    hops: nat,
    path: Seq<CommitRecord>,
    i: int,
)
    requires
        is_line(m, d, path),
        0 <= i < path.len(),
    ensures
        scan(m, d, id, request, resource, hops) is Absent ==> !records(path[i], id),
        scan(m, d, id, request, resource, hops) matches ScanView::Found(v) ==> records(v, id)
            && records_request(v, id, request) && v.header.resource@ == resource && (records(
            path[i],
            id,
        ) ==> exists|j: int| 0 <= j <= i && path[j] == v),
        scan(m, d, id, request, resource, hops) matches ScanView::Conflict { original } ==> (records(
            path[i],
            id,
        ) ==> exists|j: int|
            0 <= j <= i && records(#[trigger] path[j], id) && !records_request(path[j], id, request)
                && path[j].header.request == original),
    decreases path.len(),
{
    let v = path[0];
    if hops < MAX_SEEK_HOPS && v.header.resource@ == resource {
        if records(v, id) {
            assert(path[0] == v);
        } else if v.header.parent is Some {
            let p = v.header.parent->0;
            if i > 0 {
                let rest = path.drop_first();
                assert(path[1 - 1].header.parent == Some(p));
                assert(rest[0] == path[1]);
                assert forall|k: int| 0 < k < rest.len() implies ((
                #[trigger] rest[k - 1]).header.parent matches Some(q) && load(m, q)
                    == ChainLoad::View(rest[k])) by {
                    assert(path[k + 1 - 1] == rest[k - 1]);
                    assert(rest[k] == path[k + 1]);
                }
                assert(is_line(m, p, rest));
                law_scan_passes_over_nothing(
                    m,
                    p,
                    id,
                    request,
                    resource,
                    hops + 1,
                    rest,
                    i - 1,
                );
                assert(rest[i - 1] == path[i]);
                match scan(m, p, id, request, resource, hops + 1) {
                    ScanView::Found(w) => {
                        if records(path[i], id) {
                            let j = choose|j: int| 0 <= j <= i - 1 && rest[j] == w;
                            assert(path[j + 1] == w);
                        }
                    },
                    ScanView::Conflict { original } => {
                        if records(path[i], id) {
                            let j = choose|j: int|
                                0 <= j <= i - 1 && records(#[trigger] rest[j], id)
                                    && !records_request(rest[j], id, request)
                                    && rest[j].header.request == original;
                            assert(path[j + 1] == rest[j]);
                        }
                    },
                    _ => {},
                }
            } else {
                lemma_scan_found(m, p, id, request, resource, hops + 1);
            }
        }
    }
}

proof fn lemma_scan_found(
    m: Map<Digest, FetchedView<CommitRecord>>,
    d: Digest,
    id: Seq<char>,
    request: Digest,
    resource: Seq<char>,
    hops: nat,
)
    ensures
        scan(m, d, id, request, resource, hops) matches ScanView::Found(v) ==> records(v, id)
            && records_request(v, id, request) && v.header.resource@ == resource,
    decreases MAX_SEEK_HOPS + 1 - hops,
{
    if hops < MAX_SEEK_HOPS {
        match load(m, d) {
            ChainLoad::View(v) => {
                if v.header.resource@ == resource && !records(v, id) && v.header.parent is Some {
                    lemma_scan_found(m, v.header.parent->0, id, request, resource, hops + 1);
                }
            },
            _ => {},
        }
    }
}

// ------------------------------------------------------------------- scan
/// What scanning the chain for an identity comes to.
pub enum ScanView {
    Fetch(Digest),
    Fail(ErrorView),
    Conflict { original: Digest },
    Found(CommitRecord),
    Absent,
}

/// The scan from the commit at `d` back to the first commit for one that
/// records `id`. A record of another request is a conflict.
pub open spec fn scan(
    m: Map<Digest, FetchedView<CommitRecord>>,
    d: Digest,
    id: Seq<char>,
    request: Digest,
    resource: Seq<char>,
    hops: nat,
) -> ScanView
    decreases MAX_SEEK_HOPS + 1 - hops,
{
    if hops >= MAX_SEEK_HOPS {
        ScanView::Fail(
            ErrorView::RecoveryFailed(
                "scan for "@ + id + " on "@ + resource + " exceeded 10000 hops"@,
            ),
        )
    } else {
        match load(m, d) {
            ChainLoad::Need => ScanView::Fetch(d),
            ChainLoad::Fail(c) => ScanView::Fail(c),
            ChainLoad::View(v) => if v.header.resource@ != resource {
                ScanView::Fail(
                    ErrorView::RecoveryFailed(other_resource(v.digest, v.header.resource@)),
                )
            } else if records(v, id) {
                if records_request(v, id, request) {
                    ScanView::Found(v)
                } else {
                    ScanView::Conflict { original: v.header.request }
                }
            } else {
                match v.header.parent {
                    Some(p) => scan(m, p, id, request, resource, hops + 1),
                    None => ScanView::Absent,
                }
            },
        }
    }
}

/// The conflict of two requests under one identity.
pub fn idempotency_conflict(identity: &OpIdentity, original: &Digest, supplied: &Digest) -> (r:
    CoreError)
    ensures
        r matches CoreError::IdempotencyConflict { id, original: o, supplied: s } && id@
            == identity.text() && o@ == original.text() && s@ == supplied.text(),
{
    CoreError::IdempotencyConflict {
        id: identity.canonical(),
        original: original.to_string(),
        supplied: supplied.to_string(),
    }
}

/// Whether `e` says that `identity` was used for `original` and not for
/// `supplied`.
pub open spec fn is_conflict(e: CoreError, id: Seq<char>, original: Digest, supplied: Digest) -> bool {
    e matches CoreError::IdempotencyConflict { id: i, original: o, supplied: s } && i@ == id && o@
        == original.text() && s@ == supplied.text()
}

/// Looks for the publication of an identity in the chain of a ref whose head
/// is `head_commit`.
pub fn recover_without_intent(
    table: &Table<CommitView>,
    head_commit: Option<Digest>,
    identity: &OpIdentity,
    request: &Digest,
    resource: &str,
    tenant: &str,
) -> (r: Result<Step<Option<Published<RecordedOutcome>>>>)
    ensures
        match head_commit {
            None => r matches Ok(Step::Done(None)),
            Some(d) => match scan(table@, d, identity.text(), *request, resource@, 0) {
                ScanView::Fetch(n) => r matches Ok(Step::Fetch(x)) && x == n,
                ScanView::Fail(c) => r matches Err(e) && e@ == c,
                ScanView::Conflict { original } => r matches Err(e) && is_conflict(
                    e,
                    identity.text(),
                    original,
                    *request,
                ),
                ScanView::Absent => r matches Ok(Step::Done(None)),
                ScanView::Found(v) => if outcome_of(v, identity.text()) is Some && restorable(
                    v,
                    tenant@,
                ) {
                    r matches Ok(Step::Done(Some(p))) && is_publication(
                        p,
                        v,
                        identity.text(),
                        false,
                    )
                } else {
                    r matches Err(e) && e@ == ErrorView::RecoveryFailed(
                        unrecorded(v, identity.text(), tenant@),
                    )
                },
            },
        },
{
    let mut digest: Digest = match head_commit {
        None => {
            return Ok(Step::Done(None));
        },
        Some(d) => d,
    };
    let ghost first = digest;
    let mut hops: u32 = 0;
    loop
        invariant
            hops <= MAX_SEEK_HOPS,
            head_commit == Some(first),
            scan(table@, first, identity.text(), *request, resource@, 0) == scan(
                table@,
                digest,
                identity.text(),
                *request,
                resource@,
                hops as nat,
            ),
        decreases MAX_SEEK_HOPS + 1 - hops,
    {
        if hops >= MAX_SEEK_HOPS {
            let m: String = join5(
                "scan for ",
                &identity.canonical(),
                " on ",
                resource,
                " exceeded 10000 hops",
            );
            return Err(CoreError::RecoveryFailed(m));
        }
        hops = hops + 1;
        let view: &CommitView = match load_view(table, &digest) {
            Err(e) => {
                return Err(e);
            },
            Ok(None) => {
                return Ok(Step::Fetch(digest));
            },
            Ok(Some(v)) => v,
        };
        match check_view_resource(view, resource) {
            Err(e) => {
                return Err(e);
            },
            Ok(_) => {},
        }
        if identity_in_commit(view, identity) {
            if !request_in_commit(view, identity, request) {
                return Err(idempotency_conflict(identity, &view.header.request, request));
            }
            return match published_from_view(view, identity, tenant, false) {
                Ok(p) => Ok(Step::Done(Some(p))),
                Err(e) => Err(e),
            };
        }
        match view.header.parent {
            Some(p) => {
                digest = p;
            },
            None => {
                return Ok(Step::Done(None));
            },
        }
    }
}

/// What the chain of a ref makes of an intent that says it was applied.
pub enum CachedView {
    Fetch(Digest),
    Fail(ErrorView),
    Found(CommitRecord),
    Unconfirmed,
}

/// Whether the commit of the chain at `generation` is `commit`, and records
/// the request and all that a publication gives back.
pub open spec fn cached(
    m: Map<Digest, FetchedView<CommitRecord>>,
    head_generation: u64,
    head_commit: Option<Digest>,
    id: Seq<char>,
    request: Digest,
    resource: Seq<char>,
    tenant: Seq<char>,
    generation: u64,
    commit: Digest,
) -> CachedView {
    match head_commit {
        None => CachedView::Unconfirmed,
        Some(head) => if generation == 0 || generation > head_generation {
            CachedView::Unconfirmed
        } else {
            match seek(m, head, generation, resource) {
                ChainSeek::Fetch(d) => CachedView::Fetch(d),
                ChainSeek::Fail(c) => CachedView::Fail(c),
                ChainSeek::Found(v, _) => if v.digest == commit && records_request(v, id, request)
                    && records(v, id) && outcome_of(v, id) is Some && restorable(v, tenant) {
                    CachedView::Found(v)
                } else {
                    CachedView::Unconfirmed
                },
            }
        },
    }
}

/// Looks in the chain of a ref for the commit that an intent says it was
/// applied by. The intent is a cache: only a commit of the live chain with
/// that digest, identity and request counts.
pub fn try_cached_applied(
    table: &Table<CommitView>,
    head_generation: u64,
    head_commit: Option<Digest>,
    identity: &OpIdentity,
    request: &Digest,
    resource: &str,
    tenant: &str,
    generation: u64,
    commit: &Digest,
) -> (r: Result<Step<Option<Published<RecordedOutcome>>>>)
    ensures
        match cached(
            table@,
            head_generation,
            head_commit,
            identity.text(),
            *request,
            resource@,
            tenant@,
            generation,
            *commit,
        ) {
            CachedView::Fetch(d) => r matches Ok(Step::Fetch(n)) && n == d,
            CachedView::Fail(c) => r matches Err(e) && e@ == c,
            CachedView::Unconfirmed => r matches Ok(Step::Done(None)),
            CachedView::Found(v) => r matches Ok(Step::Done(Some(p))) && is_publication(
                p,
                v,
                identity.text(),
                false,
            ),
        },
{
    let head: Digest = match head_commit {
        None => {
            return Ok(Step::Done(None));
        },
        Some(d) => d,
    };
    if generation == 0 || generation > head_generation {
        return Ok(Step::Done(None));
    }
    let view: CommitView = match seek_generation(table, &head, generation, resource) {
        Err(e) => {
            return Err(e);
        },
        Ok(Step::Fetch(d)) => {
            return Ok(Step::Fetch(d));
        },
        Ok(Step::Done((v, _))) => v,
    };
    if view.digest != *commit || !request_in_commit(&view, identity, request)
        || !identity_in_commit(&view, identity) {
        return Ok(Step::Done(None));
    }
    match published_from_view(&view, identity, tenant, false) {
        Ok(p) => Ok(Step::Done(Some(p))),
        Err(_) => Ok(Step::Done(None)),
    }
}

// ---------------------------------------------------------------- history
/// The history of a ref, newest first, of at most `max` commits.
pub enum HistoryView {
    Fetch(Digest),
    Fail(ErrorView),
    Entries(Seq<CommitRecord>),
}

pub open spec fn history(
    m: Map<Digest, FetchedView<CommitRecord>>,
    d: Digest,
    name: Seq<char>,
    max: nat,
) -> HistoryView
    decreases max,
{
    if max == 0 {
        HistoryView::Entries(Seq::empty())
    } else {
        match load(m, d) {
            ChainLoad::Need => HistoryView::Fetch(d),
            ChainLoad::Fail(c) => HistoryView::Fail(c),
            ChainLoad::View(v) => if v.header.resource@ != name {
                HistoryView::Fail(
                    ErrorView::RecoveryFailed(
                        "history for "@ + name + " includes resource "@ + v.header.resource@,
                    ),
                )
            } else {
                match v.header.parent {
                    None => HistoryView::Entries(seq![v]),
                    Some(p) => match history(m, p, name, (max - 1) as nat) {
                        HistoryView::Entries(rest) => HistoryView::Entries(seq![v] + rest),
                        other => other,
                    },
                }
            },
        }
    }
}

/// Whether `e` is what history says of commit `v` of a ref with `target`.
pub open spec fn is_entry(e: HistoryEntry, v: CommitRecord, target: Option<Digest>) -> bool {
    e.generation == v.header.generation && e.epoch == v.header.epoch && e.identity
        == v.header.identity && e.request == v.header.request && e.target == target && e.at
        == v.header.at && e.commit == v.digest
}

pub fn history_chain(
    table: &Table<CommitView>,
    head: &RefValue,
    name: &str,
    max: usize,
) -> (r: Result<Step<Vec<HistoryEntry>>>)
    ensures
        match head.head_commit {
            None => r matches Ok(Step::Done(v)) && v@.len() == 0,
            Some(d) => match history(table@, d, name@, max as nat) {
                HistoryView::Fetch(n) => r matches Ok(Step::Fetch(x)) && x == n,
                HistoryView::Fail(c) => r matches Err(e) && e@ == c,
                HistoryView::Entries(s) => r matches Ok(Step::Done(v)) && v@.len() == s.len()
                    && forall|i: int|
                    0 <= i < s.len() ==> is_entry(#[trigger] v@[i], s[i], head.target),
            },
        },
{
    let mut digest: Digest = match head.head_commit {
        None => {
            return Ok(Step::Done(Vec::new()));
        },
        Some(d) => d,
    };
    let ghost first = digest;
    let ghost mut seen: Seq<CommitRecord> = Seq::empty();
    let mut out: Vec<HistoryEntry> = Vec::new();
    proof {
        match history(table@, first, name@, max as nat) {
            HistoryView::Entries(s) => {
                assert(seen + s =~= s);
            },
            _ => {},
        }
    }
    while out.len() < max
        invariant
            out@.len() <= max,
            head.head_commit == Some(first),
            seen.len() == out@.len(),
            forall|i: int| 0 <= i < seen.len() ==> is_entry(#[trigger] out@[i], seen[i], head.target),
            history(table@, first, name@, max as nat) == match history(
                table@,
                digest,
                name@,
                (max - out@.len()) as nat,
            ) {
                HistoryView::Entries(rest) => HistoryView::Entries(seen + rest),
                other => other,
            },
        decreases max - out@.len(),
    {
        let view: &CommitView = match load_view(table, &digest) {
            Err(e) => {
                return Err(e);
            },
            Ok(None) => {
                return Ok(Step::Fetch(digest));
            },
            Ok(Some(v)) => v,
        };
        if !same_text(&view.header.resource, name) {
            let m: String = join4(
                "history for ",
                name,
                " includes resource ",
                &view.header.resource,
            );
            return Err(CoreError::RecoveryFailed(m));
        }
        let ghost before = seen;
        out.push(
            HistoryEntry {
                generation: view.header.generation,
                epoch: view.header.epoch,
                identity: view.header.identity.clone(),
                request: view.header.request,
                target: head.target,
                at: view.header.at,
                commit: view.digest,
            },
        );
        proof {
            seen = seen.push(view@);
            assert(before + seq![view@] =~= seen);
        }
        match view.header.parent {
            Some(p) => {
                digest = p;
                proof {
                    match history(table@, p, name@, (max - out@.len()) as nat) {
                        HistoryView::Entries(rest) => {
                            assert(before + (seq![view@] + rest) =~= seen + rest);
                        },
                        _ => {},
                    }
                }
            },
            None => {
                return Ok(Step::Done(out));
            },
        }
    }
    assert(seen + Seq::<CommitRecord>::empty() =~= seen);
    Ok(Step::Done(out))
}

/// A seek that starts at its target takes one read; every step from there adds
/// what it read.
pub proof fn law_reads_of_a_seek(
    m: Map<Digest, FetchedView<CommitRecord>>,
    start: Digest,
    v: CommitRecord,
    parent: CommitRecord,
    resource: Seq<char>,
)
    requires
        load(m, start) == ChainLoad::View(v),
        v.header.resource@ == resource,
    ensures
        seek(m, start, v.header.generation, resource) == ChainSeek::Found(v, 1),
        v.header.skip is None && v.header.parent is Some && load(m, v.header.parent->0)
            == ChainLoad::View(parent) && parent.header.resource@ == resource
            && parent.header.generation + 1 == v.header.generation ==> seek(
            m,
            start,
            parent.header.generation,
            resource,
        ) == ChainSeek::Found(parent, 2),
{
    reveal_with_fuel(seek_from, 3);
}

} // verus!
