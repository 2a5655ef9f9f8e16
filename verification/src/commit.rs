//! Immutable commit headers, intents, and skip-pointer helpers.
use vstd::prelude::*;

use crate::digest::Digest;
use crate::error::{CoreError, ErrorView, Result};
use crate::operation::{identity_fault, is_identity_text, OpIdentity};
use crate::refs::{RefValue, REF_SCHEMA};
use crate::text::{join2, join3, same_text};
use crate::time::Timestamp;

verus! {

pub const COMMIT_SCHEMA: &'static str = "comb.commit/v1";

pub const INTENT_SCHEMA: &'static str = "comb.op-intent/v1";

pub const HEADER_SCHEMA: &'static str = "comb.commit-header/v1";

/// The most digests that an intent may propose.
pub const MAX_PROPOSED: usize = 64;

/// Header embedded in every logical publication (plain commit or log
/// manifest).
#[derive(Debug)]
pub struct CommitHeader {
    pub schema: String,
    pub resource: String,
    pub generation: u64,
    pub epoch: u64,
    pub identity: String,
    pub request: Digest,
    pub parent: Option<Digest>,
    pub skip: Option<Digest>,
    pub at: Timestamp,
}

impl Clone for CommitHeader {
    fn clone(&self) -> (r: Self)
        ensures
            r == *self,
    {
        CommitHeader {
            schema: self.schema.clone(),
            resource: self.resource.clone(),
            generation: self.generation,
            epoch: self.epoch,
            identity: self.identity.clone(),
            request: self.request,
            parent: self.parent,
            skip: self.skip,
            at: self.at,
        }
    }
}

impl CommitHeader {
    /// Whether the header has the known schema and names an identity.
    pub open spec fn valid(self) -> bool {
        self.fault() is None
    }

    /// What is wrong with the header.
    pub open spec fn fault(self) -> Option<ErrorView> {
        if self.schema@ != HEADER_SCHEMA@ {
            Some(
                ErrorView::InvalidFormat("unsupported commit header schema "@ + self.schema@),
            )
        } else if !is_identity_text(self.identity@) {
            Some(identity_fault(self.identity@))
        } else {
            None
        }
    }

    pub fn validate(&self) -> (r: Result<()>)
        ensures
            match self.fault() {
                None => r is Ok,
                Some(c) => r matches Err(e) && e@ == c,
            },
    {
        if !same_text(&self.schema, HEADER_SCHEMA) {
            return Err(
                CoreError::InvalidFormat(join2("unsupported commit header schema ", &self.schema)),
            );
        }
        match OpIdentity::parse(&self.identity) {
            Ok(_) => Ok(()),
            Err(e) => Err(e),
        }
    }
}

/// Immutable commit object for plain refs. Log publications embed the
/// header in the partition manifest instead. `change` and `result` are JSON
/// texts. `ref_state` is the ref value that the commit produced, without
/// `head_commit`, which is the digest of this object.
#[derive(Debug)]
pub struct Commit {
    pub schema: String,
    pub header: CommitHeader,
    pub change: String,
    pub result: String,
    pub ref_state: RefValue,
}

impl Commit {
    /// Whether commit, ref and header all have their known schemas, and
    /// the header names an identity.
    pub open spec fn valid(self) -> bool {
        self.fault() is None
    }

    /// What is wrong with the commit.
    pub open spec fn fault(self) -> Option<ErrorView> {
        if self.schema@ != COMMIT_SCHEMA@ {
            Some(ErrorView::InvalidFormat("unsupported commit schema "@ + self.schema@))
        } else if self.ref_state.schema@ != REF_SCHEMA@ {
            Some(self.ref_state.schema_fault())
        } else {
            self.header.fault()
        }
    }

    pub fn validate(&self) -> (r: Result<()>)
        ensures
            match self.fault() {
                None => r is Ok,
                Some(c) => r matches Err(e) && e@ == c,
            },
    {
        if !same_text(&self.schema, COMMIT_SCHEMA) {
            return Err(CoreError::InvalidFormat(join2("unsupported commit schema ", &self.schema)));
        }
        match self.ref_state.validate_schema() {
            Ok(_) => self.header.validate(),
            Err(e) => Err(e),
        }
    }
}

/// One producer admission recorded in a log publication. Bounded per commit.
#[derive(Debug)]
pub struct Admission {
    pub identity: String,
    pub request: Digest,
    pub first: u64,
    pub last: u64,
}

impl Clone for Admission {
    fn clone(&self) -> (r: Self)
        ensures
            r == *self,
    {
        Admission {
            identity: self.identity.clone(),
            request: self.request,
            first: self.first,
            last: self.last,
        }
    }
}

/// What is known of an intent. `result` is a JSON text.
#[derive(Debug)]
pub enum IntentState {
    Pending,
    Applied { generation: u64, commit: Digest, result: String },
}

impl Clone for IntentState {
    fn clone(&self) -> (r: Self)
        ensures
            r == *self,
    {
        match self {
            IntentState::Pending => IntentState::Pending,
            IntentState::Applied { generation, commit, result } => IntentState::Applied {
                generation: *generation,
                commit: *commit,
                result: result.clone(),
            },
        }
    }
}

/// Per-identity intent, guarded by compare-and-swap. Completed state is a
/// cache; the commit chain is recovery truth. `expires_at` is `None` for
/// stable keys.
#[derive(Debug)]
pub struct OpIntent {
    pub schema: String,
    pub identity: String,
    pub resource: String,
    pub request: Digest,
    pub base_generation: u64,
    pub proposed: Vec<Digest>,
    pub state: IntentState,
    pub expires_at: Option<Timestamp>,
}

impl OpIntent {
    /// Whether the intent has the known schema, names an identity and
    /// proposes no unreasonable number of digests.
    pub open spec fn valid(self) -> bool {
        self.fault() is None
    }

    /// What is wrong with the intent.
    pub open spec fn fault(self) -> Option<ErrorView> {
        if self.schema@ != INTENT_SCHEMA@ {
            Some(ErrorView::InvalidFormat("unsupported intent schema "@ + self.schema@))
        } else if !is_identity_text(self.identity@) {
            Some(identity_fault(self.identity@))
        } else if self.proposed@.len() > MAX_PROPOSED {
            Some(
                ErrorView::InvalidFormat(
                    "intent "@ + self.identity@ + " proposed digest list is unreasonably large"@,
                ),
            )
        } else {
            None
        }
    }

    pub fn validate(&self) -> (r: Result<()>)
        ensures
            match self.fault() {
                None => r is Ok,
                Some(c) => r matches Err(e) && e@ == c,
            },
    {
        if !same_text(&self.schema, INTENT_SCHEMA) {
            return Err(CoreError::InvalidFormat(join2("unsupported intent schema ", &self.schema)));
        }
        match OpIdentity::parse(&self.identity) {
            Ok(_) => {},
            Err(e) => {
                return Err(e);
            },
        }
        if self.proposed.len() > MAX_PROPOSED {
            let m: String = join3(
                "intent ",
                &self.identity,
                " proposed digest list is unreasonably large",
            );
            return Err(CoreError::InvalidFormat(m));
        }
        Ok(())
    }

    /// The intent of a request that has not been published yet.
    pub fn pending(
        identity: &OpIdentity,
        resource: &str,
        request: Digest,
        base_generation: u64,
        expires_at: Option<Timestamp>,
    ) -> (r: Self)
        ensures
            r.schema@ == INTENT_SCHEMA@,
            r.identity@ == identity.text(),
            r.resource@ == resource@,
            r.request == request,
            r.base_generation == base_generation,
            r.proposed@ == Seq::<Digest>::empty(),
            r.state is Pending,
            r.expires_at == expires_at,
    {
        OpIntent {
            schema: INTENT_SCHEMA.to_owned(),
            identity: identity.canonical(),
            resource: resource.to_owned(),
            request,
            base_generation,
            proposed: Vec::new(),
            state: IntentState::Pending,
            expires_at,
        }
    }
}

/// One step of a ref's history.
#[derive(Debug)]
pub struct HistoryEntry {
    pub generation: u64,
    pub epoch: u64,
    pub identity: String,
    pub request: Digest,
    pub target: Option<Digest>,
    pub at: Timestamp,
    pub commit: Digest,
}

/// Whether `d` is a power of two.
pub open spec fn is_power_of_two(d: nat) -> bool
    decreases d,
{
    if d <= 1 {
        d == 1
    } else {
        d % 2 == 0 && is_power_of_two(d / 2)
    }
}

/// The largest power of two that divides `g`; 0 for 0.
pub open spec fn skip_of(g: nat) -> nat
    decreases g,
{
    if g == 0 {
        0
    } else if g % 2 == 1 {
        1
    } else {
        2 * skip_of(g / 2)
    }
}

/// `skip_of` is a power of two, divides its argument, and twice it does not.
pub proof fn law_skip_is_largest_power(g: nat)
    requires
        g > 0,
    ensures
        is_power_of_two(skip_of(g)),
        1 <= skip_of(g) <= g,
        g % skip_of(g) == 0,
        (g / skip_of(g)) % 2 == 1,
    decreases g,
{
    if g % 2 == 1 {
        assert(g % 1 == 0 && g / 1 == g);
    } else {
        let h = g / 2;
        law_skip_is_largest_power(h);
        let s = skip_of(h);
        assert((2 * s) / 2 == s);
        assert(g == 2 * h);
        let q = h / s;
        assert(h == s * q) by (nonlinear_arith)
            requires
                s > 0,
                h % s == 0,
                q == h / s,
        ;
        assert(g == (2 * s) * q) by (nonlinear_arith)
            requires
                g == 2 * h,
                h == s * q,
        ;
        assert(g % (2 * s) == 0 && g / (2 * s) == q) by (nonlinear_arith)
            requires
                s > 0,
                g == (2 * s) * q,
        ;
    }
}

/// `-g` in 64 bits, for `g > 0`.
spec fn negated(g: u64) -> u64 {
    (0xffff_ffff_ffff_ffff - g + 1) as u64
}

proof fn lemma_lowest_bit(g: u64)
    requires
        g > 0,
    ensures
        g & negated(g) == skip_of(g as nat),
    decreases g,
{
    if g % 2 == 1 {
        assert(g % 2 == 1 ==> g & negated(g) == 1) by (bit_vector);
    } else {
        let h: u64 = g / 2;
        lemma_lowest_bit(h);
        assert(g % 2 == 0 && g > 0 && h == g / 2 ==> g & negated(g) == (h & negated(h)) + (h
            & negated(h))) by (bit_vector);
    }
}

/// Largest power of two that divides `generation`; 0 for generation 0.
pub fn skip_distance(generation: u64) -> (r: u64)
    ensures
        r == skip_of(generation as nat),
        r <= generation,
{
    if generation == 0 {
        0
    } else {
        let negated: u64 = 0xffff_ffff_ffff_ffff - generation + 1;
        proof {
            lemma_lowest_bit(generation);
            law_skip_is_largest_power(generation as nat);
        }
        generation & negated
    }
}

/// The generation that the skip pointer of `generation` leads to.
pub open spec fn skip_target(g: nat) -> nat {
    (g - skip_of(g)) as nat
}

/// The generation that the skip pointer of `generation` leads to.
pub fn skip_target_generation(generation: u64) -> (r: u64)
    ensures
        r == skip_target(generation as nat),
        r <= generation,
        generation > 0 ==> r < generation,
{
    proof {
        if generation > 0 {
            law_skip_is_largest_power(generation as nat);
        }
    }
    generation - skip_distance(generation)
}

/// A header, a commit and an intent are read exactly if they are of their
/// schema and name an identity; a commit has to hold a ref, too, and an intent
/// no more than 64 proposed objects.
pub proof fn law_records_are_read_by_their_schema(h: CommitHeader, c: Commit, i: OpIntent)
    ensures
        h.fault() is None <==> h.schema@ == "comb.commit-header/v1"@ && is_identity_text(
            h.identity@,
        ),
        c.fault() is None <==> c.schema@ == "comb.commit/v1"@ && c.ref_state.schema@
            == "comb.ref/v2"@ && c.header.fault() is None,
        i.fault() is None <==> i.schema@ == "comb.op-intent/v1"@ && is_identity_text(i.identity@)
            && i.proposed@.len() <= 64,
        h.valid() <==> h.fault() is None,
        c.valid() <==> c.fault() is None,
        i.valid() <==> i.fault() is None,
{
}

} // verus!
