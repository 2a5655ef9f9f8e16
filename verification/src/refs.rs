//! Named refs: the only generally mutable objects.
use vstd::prelude::*;

use crate::digest::Digest;
use crate::error::{CoreError, ErrorView, Result};
use crate::text::{join5, same_text};
use crate::time::Timestamp;

verus! {

/// A lease on a ref. The lease lives inside the ref value, so one
/// conditional update manages target and lease together; the ref's epoch
/// is the fencing token.
#[derive(Debug)]
pub struct Lease {
    pub writer: String,
    pub lease_until: Timestamp,
}

impl Clone for Lease {
    fn clone(&self) -> (r: Self)
        ensures
            r == *self,
    {
        Lease { writer: self.writer.clone(), lease_until: self.lease_until }
    }
}

/// The decoded value of a named ref. `generation` advances on every logical
/// change; lease renewals rewrite `lease` without advancing it. `head_commit`
/// is the digest of the commit (or log manifest) that produced this
/// generation.
#[derive(Debug)]
pub struct RefValue {
    pub schema: String,
    pub tenant: String,
    pub name: String,
    pub generation: u64,
    pub epoch: u64,
    pub target: Option<Digest>,
    pub lease: Option<Lease>,
    pub updated_at: Timestamp,
    pub head_commit: Option<Digest>,
}

/// The schema of every ref.
pub const REF_SCHEMA: &'static str = "comb.ref/v2";

impl Clone for RefValue {
    fn clone(&self) -> (r: Self)
        ensures
            r == *self,
    {
        RefValue {
            schema: self.schema.clone(),
            tenant: self.tenant.clone(),
            name: self.name.clone(),
            generation: self.generation,
            epoch: self.epoch,
            target: self.target,
            lease: match &self.lease {
                Some(l) => Some(l.clone()),
                None => None,
            },
            updated_at: self.updated_at,
            head_commit: self.head_commit,
        }
    }
}

impl RefValue {
    /// A ref that was never published, looked at `now`.
    pub fn new(tenant: &str, name: &str, now: Timestamp) -> (r: Self)
        ensures
            r.schema@ == REF_SCHEMA@,
            r.tenant@ == tenant@,
            r.name@ == name@,
            r.generation == 0,
            r.epoch == 0,
            r.target is None,
            r.lease is None,
            r.updated_at == now,
            r.head_commit is None,
    {
        RefValue {
            schema: REF_SCHEMA.to_owned(),
            tenant: tenant.to_owned(),
            name: name.to_owned(),
            generation: 0,
            epoch: 0,
            target: None,
            lease: None,
            updated_at: now,
            head_commit: None,
        }
    }

    /// What is said of a schema that is not that of a ref.
    pub open spec fn schema_fault(self) -> ErrorView {
        ErrorView::InvalidFormat(
            "unsupported ref schema "@ + self.schema@ + " (want "@ + REF_SCHEMA@ + ")"@,
        )
    }

    pub fn validate_schema(&self) -> (r: Result<()>)
        ensures
            r is Ok <==> self.schema@ == REF_SCHEMA@,
            r matches Err(e) ==> e@ == self.schema_fault(),
    {
        if !same_text(&self.schema, REF_SCHEMA) {
            let m: String = join5("unsupported ref schema ", &self.schema, " (want ", REF_SCHEMA, ")");
            return Err(CoreError::InvalidFormat(m));
        }
        Ok(())
    }

    /// Whether somebody holds the lease at `now`.
    pub open spec fn leased(self, now: Timestamp) -> bool {
        self.lease matches Some(l) && l.lease_until@ > now@
    }

    /// Whether somebody holds the lease at `now`.
    pub fn lease_live(&self, now: Timestamp) -> (r: bool)
        ensures
            r == self.leased(now),
            r <==> (self.lease matches Some(l) && now@ < l.lease_until@),
    {
        match &self.lease {
            Some(l) => l.lease_until.after(&now),
            None => false,
        }
    }
}

/// One entry in the ref journal. Entries chain by parent digest;
/// consecutive entries for one ref carry consecutive generations.
#[derive(Debug)]
pub struct RefJournalEntry {
    pub schema: String,
    pub ref_name: String,
    pub prev_generation: u64,
    pub new_generation: u64,
    pub epoch: u64,
    pub target: Option<Digest>,
    pub writer: Option<String>,
    pub parent: Option<Digest>,
    pub at: Timestamp,
}

} // verus!
