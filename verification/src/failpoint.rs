//! A backend that fails at named calls, and one that counts its calls.
use vstd::prelude::*;

use crate::error::{CoreError, Result};
use crate::object::{
    created, got, got_limited, lists, updated, version_view, MemoryBackend, ObjectInfo, ObjectView, Version,
};
use crate::text::{contains_text, has_part, join2};

verus! {

#[derive(Clone, Copy, Debug, PartialEq, Eq, Structural)]
pub enum FailMethod {
    PutUpdate,
    PutCreate,
    Get,
}

#[derive(Clone, Copy, Debug, PartialEq, Eq, Structural)]
pub enum FailAction {
    /// The inner backend is not called.
    DropRequest,
    /// The inner backend is called; its answer is lost.
    DropResponse,
    /// An I/O error, without calling the inner backend.
    Io,
}

/// When to fail.
#[derive(Debug)]
pub struct FailRule {
    pub method: FailMethod,
    pub key_contains: String,
    /// How many matching successes are let through before.
    pub successes_before_fire: u64,
    pub fires: u64,
    pub action: FailAction,
}

/// A rule and what has happened under it.
#[derive(Debug)]
pub struct LiveRule {
    pub spec: FailRule,
    pub seen_successes: u64,
    pub fired: u64,
}

#[verifier::ext_equal]
pub struct RuleView {
    pub method: FailMethod,
    pub key_contains: Seq<char>,
    pub successes_before_fire: u64,
    pub fires: u64,
    pub action: FailAction,
    pub seen_successes: u64,
    pub fired: u64,
}

impl View for LiveRule {
    type V = RuleView;

    open spec fn view(&self) -> RuleView {
        RuleView {
            method: self.spec.method,
            key_contains: self.spec.key_contains@,
            successes_before_fire: self.spec.successes_before_fire,
            fires: self.spec.fires,
            action: self.spec.action,
            seen_successes: self.seen_successes,
            fired: self.fired,
        }
    }
}

impl RuleView {
    /// Whether a rule still speaks of a call.
    pub open spec fn speaks_of(self, method: FailMethod, key: Seq<char>) -> bool {
        self.method == method && has_part(key, self.key_contains) && self.fired < self.fires
    }

    /// Whether a rule fails a call: once it has let through as many matching
    /// successes as it should.
    pub open spec fn fails(self, method: FailMethod, key: Seq<char>) -> bool {
        self.speaks_of(method, key) && self.seen_successes >= self.successes_before_fire
    }

    /// A rule after a call was failed by it. One that loses an answer has
    /// fired only once there was an answer to lose.
    pub open spec fn after_failing(self) -> RuleView {
        if self.action == FailAction::DropResponse {
            self
        } else {
            RuleView { fired: (self.fired + 1) as u64, ..self }
        }
    }

    /// A rule after the inner backend succeeded, where `armed` says that the
    /// answer is lost. The count of successes stops at its end.
    pub open spec fn after_success(self, method: FailMethod, key: Seq<char>, armed: bool) -> RuleView {
        if !self.speaks_of(method, key) {
            self
        } else if armed && self.action == FailAction::DropResponse && self.seen_successes
            >= self.successes_before_fire {
            RuleView { fired: (self.fired + 1) as u64, ..self }
        } else if self.seen_successes == u64::MAX {
            self
        } else {
            RuleView { seen_successes: (self.seen_successes + 1) as u64, ..self }
        }
    }
}

/// The first rule from `i` on that fails a call.
pub open spec fn failing_rule(rules: Seq<RuleView>, method: FailMethod, key: Seq<char>, i: int) -> Option<int>
    decreases rules.len() - i,
{
    if i >= rules.len() {
        None
    } else if rules[i].fails(method, key) {
        Some(i)
    } else {
        failing_rule(rules, method, key, i + 1)
    }
}

/// What a call is met with.
pub open spec fn decision(rules: Seq<RuleView>, method: FailMethod, key: Seq<char>) -> Option<FailAction> {
    match failing_rule(rules, method, key, 0) {
        Some(i) => Some(rules[i].action),
        None => None,
    }
}

/// The rules after a call was met.
pub open spec fn decided(rules: Seq<RuleView>, method: FailMethod, key: Seq<char>) -> Seq<RuleView> {
    match failing_rule(rules, method, key, 0) {
        Some(i) => rules.update(i, rules[i].after_failing()),
        None => rules,
    }
}

/// The rules after the inner backend succeeded.
pub open spec fn noted(rules: Seq<RuleView>, method: FailMethod, key: Seq<char>, armed: bool) -> Seq<RuleView> {
    rules.map_values(|r: RuleView| r.after_success(method, key, armed))
}

proof fn lemma_failing_rule(rules: Seq<RuleView>, method: FailMethod, key: Seq<char>, i: int)
    requires
        0 <= i,
    ensures
        failing_rule(rules, method, key, i) matches Some(n) ==> i <= n < rules.len()
            && rules[n].fails(method, key),
    decreases rules.len() - i,
{
    if i < rules.len() && !rules[i].fails(method, key) {
        lemma_failing_rule(rules, method, key, i + 1);
    }
}

pub open spec fn rules_view(s: Seq<LiveRule>) -> Seq<RuleView> {
    s.map_values(|r: LiveRule| r@)
}

/// A backend in memory that fails where its rules say so.
#[derive(Debug)]
pub struct FailpointBackend {
    inner: MemoryBackend,
    rules: Vec<LiveRule>,
    pub injected: u64,
}

/// Whether an error is an injected one that stands for an unreachable
/// backend.
pub open spec fn is_injected<T>(r: Result<T>, what: Seq<char>) -> bool {
    r matches Err(CoreError::BackendUnavailable(m)) && m@ == "injected: "@ + what
}

/// Whether an error is an injected I/O error.
pub open spec fn is_injected_io<T>(r: Result<T>, what: Seq<char>) -> bool {
    r matches Err(CoreError::Io(m)) && m@ == "injected io: "@ + what
}

fn rule(method: FailMethod, needle: &str, action: FailAction) -> (r: FailRule)
    ensures
        r.method == method,
        r.key_contains@ == needle@,
        r.successes_before_fire == 0,
        r.fires == 1,
        r.action == action,
{
    FailRule { method, key_contains: needle.to_owned(), successes_before_fire: 0, fires: 1, action }
}

impl FailpointBackend {
    /// What the inner backend holds.
    pub closed spec fn objects(self) -> Map<Seq<char>, ObjectView> {
        self.inner@
    }

    pub closed spec fn live_rules(self) -> Seq<RuleView> {
        rules_view(self.rules@)
    }

    /// How many failures were injected.
    pub closed spec fn injections(self) -> u64 {
        self.injected
    }

    pub closed spec fn wf(self) -> bool {
        self.inner.wf()
    }

    pub fn new(inner: MemoryBackend) -> (r: Self)
        requires
            inner.wf(),
        ensures
            r.wf(),
            r.objects() == inner@,
            r.live_rules() == Seq::<RuleView>::empty(),
            r.injections() == 0,
    {
        let r: FailpointBackend = FailpointBackend { inner, rules: Vec::new(), injected: 0 };
        assert(r.live_rules() =~= Seq::empty());
        r
    }

    /// The inner backend.
    pub fn into_inner(self) -> (r: MemoryBackend)
        requires
            self.wf(),
        ensures
            r.wf(),
            r@ == self.objects(),
    {
        self.inner
    }

    pub fn arm(&mut self, rule: FailRule)
        requires
            old(self).wf(),
        ensures
            final(self).wf(),
            final(self).objects() == old(self).objects(),
            final(self).injections() == old(self).injections(),
            final(self).live_rules() == old(self).live_rules().push(
                (RuleView {
                    method: rule.method,
                    key_contains: rule.key_contains@,
                    successes_before_fire: rule.successes_before_fire,
                    fires: rule.fires,
                    action: rule.action,
                    seen_successes: 0,
                    fired: 0,
                }),
            ),
    {
        let ghost before = self.live_rules();
        self.rules.push(LiveRule { spec: rule, seen_successes: 0, fired: 0 });
        assert(self.live_rules() =~= before.push(self.rules@.last()@));
    }

    fn armed(inner: MemoryBackend, method: FailMethod, needle: &str, action: FailAction) -> (r: Self)
        requires
            inner.wf(),
        ensures
            r.armed_once(inner, method, needle@, action),
    {
        let mut fp: FailpointBackend = Self::new(inner);
        fp.arm(rule(method, needle, action));
        assert(fp.live_rules() =~= seq![fp.live_rules()[0]]);
        fp
    }

    /// Whether a backend fails one call of the given kind.
    pub open spec fn armed_once(
        self,
        inner: MemoryBackend,
        method: FailMethod,
        needle: Seq<char>,
        action: FailAction,
    ) -> bool {
        &&& self.wf()
        &&& self.objects() == inner@
        &&& self.injections() == 0
        &&& self.live_rules() == seq![
            RuleView {
                method,
                key_contains: needle,
                successes_before_fire: 0,
                fires: 1,
                action,
                seen_successes: 0,
                fired: 0,
            },
        ]
    }

    /// The answer of the next update of a key that contains `needle` is lost.
    pub fn drop_next_put_update_response(inner: MemoryBackend, needle: &str) -> (r: Self)
        requires
            inner.wf(),
        ensures
            r.armed_once(inner, FailMethod::PutUpdate, needle@, FailAction::DropResponse),
    {
        Self::armed(inner, FailMethod::PutUpdate, needle, FailAction::DropResponse)
    }

    /// The next update of a key that contains `needle` is not made.
    pub fn drop_next_put_update_request(inner: MemoryBackend, needle: &str) -> (r: Self)
        requires
            inner.wf(),
        ensures
            r.armed_once(inner, FailMethod::PutUpdate, needle@, FailAction::DropRequest),
    {
        Self::armed(inner, FailMethod::PutUpdate, needle, FailAction::DropRequest)
    }

    /// The next read of a key that contains `needle` is not made.
    pub fn drop_next_get_request(inner: MemoryBackend, needle: &str) -> (r: Self)
        requires
            inner.wf(),
        ensures
            r.armed_once(inner, FailMethod::Get, needle@, FailAction::DropRequest),
    {
        Self::armed(inner, FailMethod::Get, needle, FailAction::DropRequest)
    }

    /// The next read of a key that contains `needle` ends in an I/O error.
    pub fn io_on_next_get(inner: MemoryBackend, needle: &str) -> (r: Self)
        requires
            inner.wf(),
        ensures
            r.armed_once(inner, FailMethod::Get, needle@, FailAction::Io),
    {
        Self::armed(inner, FailMethod::Get, needle, FailAction::Io)
    }

    /// The next bounded read of a key that contains `needle` is not made.
    pub fn drop_next_get_limited_request(inner: MemoryBackend, needle: &str) -> (r: Self)
        requires
            inner.wf(),
        ensures
            r.armed_once(inner, FailMethod::Get, needle@, FailAction::DropRequest),
    {
        Self::armed(inner, FailMethod::Get, needle, FailAction::DropRequest)
    }

    /// The next bounded read of a key that contains `needle` ends in an I/O
    /// error.
    pub fn io_on_next_get_limited(inner: MemoryBackend, needle: &str) -> (r: Self)
        requires
            inner.wf(),
        ensures
            r.armed_once(inner, FailMethod::Get, needle@, FailAction::Io),
    {
        Self::armed(inner, FailMethod::Get, needle, FailAction::Io)
    }

    fn injected_io(&mut self, what: &str) -> (r: CoreError)
        ensures
            r matches CoreError::Io(m) && m@ == "injected io: "@ + what@,
            *final(self) == (FailpointBackend {
                injected: old(self).injected.wrapping_add(1),
                ..*old(self)
            }),
    {
        self.injected = self.injected.wrapping_add(1);
        CoreError::Io(join2("injected io: ", what))
    }

    fn injected_err(&mut self, what: &str) -> (r: CoreError)
        ensures
            r matches CoreError::BackendUnavailable(m) && m@ == "injected: "@ + what@,
            *final(self) == (FailpointBackend {
                injected: old(self).injected.wrapping_add(1),
                ..*old(self)
            }),
    {
        self.injected = self.injected.wrapping_add(1);
        CoreError::BackendUnavailable(join2("injected: ", what))
    }

    /// What a call is met with.
    fn decide(&mut self, method: FailMethod, key: &str) -> (r: Option<FailAction>)
        ensures
            r == decision(old(self).live_rules(), method, key@),
            final(self).live_rules() == decided(old(self).live_rules(), method, key@),
            final(self).inner == old(self).inner,
            final(self).injected == old(self).injected,
    {
        let ghost all = self.live_rules();
        let mut i: usize = 0;
        proof {
            lemma_failing_rule(all, method, key@, 0);
        }
        while i < self.rules.len()
            invariant
                i <= self.rules@.len(),
                *self == *old(self),
                all == rules_view(self.rules@),
                failing_rule(all, method, key@, 0) == failing_rule(all, method, key@, i as int),
            decreases self.rules@.len() - i,
        {
            assert(all[i as int] == self.rules@[i as int]@);
            let action: FailAction = self.rules[i].spec.action;
            let speaks: bool = self.rules[i].spec.method == method && contains_text(
                key,
                &self.rules[i].spec.key_contains,
            ) && self.rules[i].fired < self.rules[i].spec.fires;
            if speaks && self.rules[i].seen_successes >= self.rules[i].spec.successes_before_fire {
                match action {
                    FailAction::DropRequest | FailAction::Io => {
                        let fired: u64 = self.rules[i].fired;
                        self.rules[i].fired = fired + 1;
                        assert(self.live_rules() =~= all.update(
                            i as int,
                            all[i as int].after_failing(),
                        ));
                    },
                    FailAction::DropResponse => {
                        assert(all.update(i as int, all[i as int].after_failing()) =~= all);
                    },
                }
                return Some(action);
            }
            i = i + 1;
        }
        None
    }

    /// The inner backend succeeded.
    fn note_success(&mut self, method: FailMethod, key: &str, armed: bool)
        ensures
            final(self).live_rules() == noted(old(self).live_rules(), method, key@, armed),
            final(self).inner == old(self).inner,
            final(self).injected == old(self).injected,
    {
        let ghost all = self.live_rules();
        let mut i: usize = 0;
        while i < self.rules.len()
            invariant
                i <= self.rules@.len(),
                self.inner == old(self).inner,
                self.injected == old(self).injected,
                self.rules@.len() == all.len(),
                forall|j: int|
                    0 <= j < i ==> (#[trigger] self.rules@[j])@ == all[j].after_success(
                        method,
                        key@,
                        armed,
                    ),
                forall|j: int| i <= j < all.len() ==> (#[trigger] self.rules@[j])@ == all[j],
            decreases self.rules@.len() - i,
        {
            assert(self.rules@[i as int]@ == all[i as int]);
            let speaks: bool = self.rules[i].spec.method == method && contains_text(
                key,
                &self.rules[i].spec.key_contains,
            ) && self.rules[i].fired < self.rules[i].spec.fires;
            if speaks {
                let seen: u64 = self.rules[i].seen_successes;
                if armed && self.rules[i].spec.action == FailAction::DropResponse && seen
                    >= self.rules[i].spec.successes_before_fire {
                    let fired: u64 = self.rules[i].fired;
                    self.rules[i].fired = fired + 1;
                } else if seen < u64::MAX {
                    self.rules[i].seen_successes = seen + 1;
                }
            }
            i = i + 1;
        }
        assert(self.live_rules() =~= noted(all, method, key@, armed));
    }

    /// Whether a write came to what the rules say, where `inner` tells what
    /// the inner backend makes of it.
    pub open spec fn write_met(
        before: FailpointBackend,
        after: FailpointBackend,
        method: FailMethod,
        key: Seq<char>,
        name: Seq<char>,
        inner: spec_fn(Map<Seq<char>, ObjectView>, Result<Version>) -> bool,
        r: Result<Version>,
    ) -> bool {
        let rules = decided(before.live_rules(), method, key);
        match decision(before.live_rules(), method, key) {
            Some(FailAction::DropRequest) => {
                &&& is_injected(r, name + " request lost before backend"@)
                &&& after.objects() == before.objects()
                &&& after.live_rules() == rules
                &&& after.injections() == before.injections().wrapping_add(1)
            },
            Some(FailAction::Io) => {
                &&& is_injected_io(r, name)
                &&& after.objects() == before.objects()
                &&& after.live_rules() == rules
                &&& after.injections() == before.injections().wrapping_add(1)
            },
            Some(FailAction::DropResponse) => {
                ||| {
                    &&& r is Err
                    &&& inner(after.objects(), r)
                    &&& after.live_rules() == rules
                    &&& after.injections() == before.injections()
                }
                ||| {
                    &&& is_injected(r, name + " committed but response lost"@)
                    &&& exists|v: Version| inner(after.objects(), Ok::<Version, CoreError>(v))
                    &&& after.live_rules() == noted(rules, method, key, true)
                    &&& after.injections() == before.injections().wrapping_add(1)
                }
            },
            None => {
                &&& inner(after.objects(), r)
                &&& after.live_rules() == if r is Ok {
                    noted(rules, method, key, false)
                } else {
                    rules
                }
                &&& after.injections() == before.injections()
            },
        }
    }

    pub fn put_create(&mut self, key: &str, body: &[u8]) -> (r: Result<Version>)
        requires
            old(self).wf(),
        ensures
            final(self).wf(),
            Self::write_met(
                *old(self),
                *final(self),
                FailMethod::PutCreate,
                key@,
                "put_create"@,
                |after: Map<Seq<char>, ObjectView>, x: Result<Version>|
                    created(old(self).objects(), after, key@, body@, x),
                r,
            ),
    {
        let ghost before = self.objects();
        let ghost inner = |after: Map<Seq<char>, ObjectView>, x: Result<Version>|
            created(before, after, key@, body@, x);
        proof {
            reveal_strlit("put_create");
            reveal_strlit(" request lost before backend");
            reveal_strlit("put_create request lost before backend");
            reveal_strlit(" committed but response lost");
            reveal_strlit("put_create committed but response lost");
            assert("put_create"@ + " request lost before backend"@
                =~= "put_create request lost before backend"@);
            assert("put_create"@ + " committed but response lost"@
                =~= "put_create committed but response lost"@);
        }
        match self.decide(FailMethod::PutCreate, key) {
            Some(FailAction::DropRequest) => Err(
                self.injected_err("put_create request lost before backend"),
            ),
            Some(FailAction::Io) => Err(self.injected_io("put_create")),
            Some(FailAction::DropResponse) => match self.inner.put_create(key, body) {
                Err(e) => Err(e),
                Ok(v) => {
                    assert(inner(self.objects(), Ok::<Version, CoreError>(v)));
                    self.note_success(FailMethod::PutCreate, key, true);
                    Err(self.injected_err("put_create committed but response lost"))
                },
            },
            None => match self.inner.put_create(key, body) {
                Err(e) => Err(e),
                Ok(v) => {
                    self.note_success(FailMethod::PutCreate, key, false);
                    Ok(v)
                },
            },
        }
    }

    pub fn put_update(&mut self, key: &str, expected: Option<&Version>, body: &[u8]) -> (r: Result<
        Version,
    >)
        requires
            old(self).wf(),
            old(self).objects().contains_key(key@) ==> old(self).objects()[key@].version < u64::MAX,
        ensures
            final(self).wf(),
            Self::write_met(
                *old(self),
                *final(self),
                FailMethod::PutUpdate,
                key@,
                "put_update"@,
                |after: Map<Seq<char>, ObjectView>, x: Result<Version>|
                    updated(old(self).objects(), after, key@, version_view(expected), body@, x),
                r,
            ),
    {
        let ghost before = self.objects();
        let ghost inner = |after: Map<Seq<char>, ObjectView>, x: Result<Version>|
            updated(before, after, key@, version_view(expected), body@, x);
        proof {
            reveal_strlit("put_update");
            reveal_strlit(" request lost before backend");
            reveal_strlit("put_update request lost before backend");
            reveal_strlit(" committed but response lost");
            reveal_strlit("put_update committed but response lost");
            assert("put_update"@ + " request lost before backend"@
                =~= "put_update request lost before backend"@);
            assert("put_update"@ + " committed but response lost"@
                =~= "put_update committed but response lost"@);
        }
        match self.decide(FailMethod::PutUpdate, key) {
            Some(FailAction::DropRequest) => Err(
                self.injected_err("put_update request lost before backend"),
            ),
            Some(FailAction::Io) => Err(self.injected_io("put_update")),
            Some(FailAction::DropResponse) => match self.inner.put_update(key, expected, body) {
                Err(e) => Err(e),
                Ok(v) => {
                    assert(inner(self.objects(), Ok::<Version, CoreError>(v)));
                    self.note_success(FailMethod::PutUpdate, key, true);
                    Err(self.injected_err("put_update committed but response lost"))
                },
            },
            None => match self.inner.put_update(key, expected, body) {
                Err(e) => Err(e),
                Ok(v) => {
                    self.note_success(FailMethod::PutUpdate, key, false);
                    Ok(v)
                },
            },
        }
    }

    /// Whether a read came to what the rules say, where `inner` tells what
    /// the inner backend makes of it.
    pub open spec fn read_met(
        before: FailpointBackend,
        after: FailpointBackend,
        key: Seq<char>,
        name: Seq<char>,
        inner: spec_fn(Result<(Vec<u8>, Version)>) -> bool,
        r: Result<(Vec<u8>, Version)>,
    ) -> bool {
        let rules = decided(before.live_rules(), FailMethod::Get, key);
        &&& after.objects() == before.objects()
        &&& match decision(before.live_rules(), FailMethod::Get, key) {
            Some(FailAction::Io) => {
                &&& is_injected_io(r, name)
                &&& after.live_rules() == rules
                &&& after.injections() == before.injections().wrapping_add(1)
            },
            Some(_) => {
                &&& is_injected(r, name + " request lost"@)
                &&& after.live_rules() == rules
                &&& after.injections() == before.injections().wrapping_add(1)
            },
            None => {
                &&& inner(r)
                &&& after.live_rules() == if r is Ok {
                    noted(rules, FailMethod::Get, key, false)
                } else {
                    rules
                }
                &&& after.injections() == before.injections()
            },
        }
    }

    pub fn get(&mut self, key: &str) -> (r: Result<(Vec<u8>, Version)>)
        requires
            old(self).wf(),
        ensures
            final(self).wf(),
            Self::read_met(
                *old(self),
                *final(self),
                key@,
                "get"@,
                |x: Result<(Vec<u8>, Version)>| got(old(self).objects(), key@, x),
                r,
            ),
    {
        proof {
            reveal_strlit("get");
            reveal_strlit(" request lost");
            reveal_strlit("get request lost");
            assert("get"@ + " request lost"@ =~= "get request lost"@);
        }
        match self.decide(FailMethod::Get, key) {
            Some(FailAction::DropRequest) | Some(FailAction::DropResponse) => Err(
                self.injected_err("get request lost"),
            ),
            Some(FailAction::Io) => Err(self.injected_io("get")),
            None => match self.inner.get(key) {
                Err(e) => Err(e),
                Ok(p) => {
                    self.note_success(FailMethod::Get, key, false);
                    Ok(p)
                },
            },
        }
    }

    pub fn get_limited(&mut self, key: &str, max_encoded_bytes: u64) -> (r: Result<
        (Vec<u8>, Version),
    >)
        requires
            old(self).wf(),
        ensures
            final(self).wf(),
            Self::read_met(
                *old(self),
                *final(self),
                key@,
                "get_limited"@,
                |x: Result<(Vec<u8>, Version)>|
                    got_limited(old(self).objects(), key@, max_encoded_bytes, x),
                r,
            ),
    {
        proof {
            reveal_strlit("get_limited");
            reveal_strlit(" request lost");
            reveal_strlit("get_limited request lost");
            assert("get_limited"@ + " request lost"@ =~= "get_limited request lost"@);
        }
        match self.decide(FailMethod::Get, key) {
            Some(FailAction::DropRequest) | Some(FailAction::DropResponse) => Err(
                self.injected_err("get_limited request lost"),
            ),
            Some(FailAction::Io) => Err(self.injected_io("get_limited")),
            None => match self.inner.get_limited(key, max_encoded_bytes) {
                Err(e) => Err(e),
                Ok(p) => {
                    self.note_success(FailMethod::Get, key, false);
                    Ok(p)
                },
            },
        }
    }

    pub fn contains(&self, key: &str) -> (r: bool)
        requires
            self.wf(),
        ensures
            r == self.objects().contains_key(key@),
    {
        self.inner.contains(key)
    }

    pub fn delete(&mut self, key: &str)
        requires
            old(self).wf(),
        ensures
            final(self).wf(),
            final(self).objects() == old(self).objects().remove(key@),
            final(self).live_rules() == old(self).live_rules(),
            final(self).injections() == old(self).injections(),
    {
        self.inner.delete(key);
    }

    pub fn list(&self, prefix: &str) -> (r: Vec<ObjectInfo>)
        requires
            self.wf(),
        ensures
            lists(self.objects(), prefix@, r@),
    {
        self.inner.list(prefix)
    }
}

/// A read that a failure was injected into is never taken for a missing
/// object.
pub proof fn law_injected_read_is_not_missing(
    before: FailpointBackend,
    after: FailpointBackend,
    key: Seq<char>,
    name: Seq<char>,
    inner: spec_fn(Result<(Vec<u8>, Version)>) -> bool,
    r: Result<(Vec<u8>, Version)>,
)
    requires
        FailpointBackend::read_met(before, after, key, name, inner, r),
        decision(before.live_rules(), FailMethod::Get, key) is Some,
    ensures
        r is Err,
        !(r->Err_0 is NotFound),
{
}

/// A rule that fires once fires once: the call after the one that it failed
/// reaches the inner backend.
pub proof fn law_single_rule_fires_once(key: Seq<char>, other: Seq<char>, method: FailMethod, r: RuleView)
    requires
        r.fired == 0,
        r.fires == 1,
        r.action != FailAction::DropResponse,
        decision(seq![r], method, key) is Some,
    ensures
        decision(decided(seq![r], method, key), method, other) is None,
{
    reveal_with_fuel(failing_rule, 3);
    lemma_failing_rule(seq![r], method, key, 0);
    let after = decided(seq![r], method, key);
    assert(after =~= seq![r.after_failing()]);
}

/// A rule lets as many matching successes through as it should, and then
/// fails the next matching call, whatever its action.
pub proof fn law_rule_waits_for_its_successes(key: Seq<char>, method: FailMethod, r: RuleView)
    requires
        r.speaks_of(method, key),
        r.seen_successes < r.successes_before_fire,
    ensures
        decision(seq![r], method, key) is None,
        noted(seq![r], method, key, false) == seq![
            RuleView { seen_successes: (r.seen_successes + 1) as u64, ..r },
        ],
        r.seen_successes + 1 == r.successes_before_fire ==> decision(
            noted(seq![r], method, key, false),
            method,
            key,
        ) == Some(r.action),
{
    reveal_with_fuel(failing_rule, 3);
    assert(noted(seq![r], method, key, false) =~= seq![
        RuleView { seen_successes: (r.seen_successes + 1) as u64, ..r },
    ]);
}

/// A backend in memory that counts its calls.
#[derive(Debug)]
pub struct CountingBackend {
    inner: MemoryBackend,
    pub gets: u64,
    pub put_updates: u64,
    pub put_creates: u64,
}

impl CountingBackend {
    pub closed spec fn objects(self) -> Map<Seq<char>, ObjectView> {
        self.inner@
    }

    pub closed spec fn wf(self) -> bool {
        self.inner.wf()
    }

    /// How many reads, updates and creations there were.
    pub closed spec fn counts(self) -> (u64, u64, u64) {
        (self.gets, self.put_updates, self.put_creates)
    }

    pub fn new(inner: MemoryBackend) -> (r: Self)
        requires
            inner.wf(),
        ensures
            r.wf(),
            r.objects() == inner@,
            r.counts() == (0u64, 0u64, 0u64),
    {
        CountingBackend { inner, gets: 0, put_updates: 0, put_creates: 0 }
    }

    pub fn get_count(&self) -> (r: u64)
        ensures
            r == self.counts().0,
    {
        self.gets
    }

    pub fn put_create(&mut self, key: &str, body: &[u8]) -> (r: Result<Version>)
        requires
            old(self).wf(),
        ensures
            final(self).wf(),
            created(old(self).objects(), final(self).objects(), key@, body@, r),
            final(self).counts() == (
                old(self).counts().0,
                old(self).counts().1,
                old(self).counts().2.wrapping_add(1),
            ),
    {
        self.put_creates = self.put_creates.wrapping_add(1);
        self.inner.put_create(key, body)
    }

    pub fn put_update(&mut self, key: &str, expected: Option<&Version>, body: &[u8]) -> (r: Result<
        Version,
    >)
        requires
            old(self).wf(),
            old(self).objects().contains_key(key@) ==> old(self).objects()[key@].version < u64::MAX,
        ensures
            final(self).wf(),
            updated(
                old(self).objects(),
                final(self).objects(),
                key@,
                version_view(expected),
                body@,
                r,
            ),
            final(self).counts() == (
                old(self).counts().0,
                old(self).counts().1.wrapping_add(1),
                old(self).counts().2,
            ),
    {
        self.put_updates = self.put_updates.wrapping_add(1);
        self.inner.put_update(key, expected, body)
    }

    pub fn get(&mut self, key: &str) -> (r: Result<(Vec<u8>, Version)>)
        requires
            old(self).wf(),
        ensures
            final(self).wf(),
            final(self).objects() == old(self).objects(),
            got(old(self).objects(), key@, r),
            final(self).counts() == (
                old(self).counts().0.wrapping_add(1),
                old(self).counts().1,
                old(self).counts().2,
            ),
    {
        self.gets = self.gets.wrapping_add(1);
        self.inner.get(key)
    }

    pub fn get_limited(&mut self, key: &str, max_encoded_bytes: u64) -> (r: Result<
        (Vec<u8>, Version),
    >)
        requires
            old(self).wf(),
        ensures
            final(self).wf(),
            final(self).objects() == old(self).objects(),
            got_limited(old(self).objects(), key@, max_encoded_bytes, r),
            final(self).counts() == (
                old(self).counts().0.wrapping_add(1),
                old(self).counts().1,
                old(self).counts().2,
            ),
    {
        self.gets = self.gets.wrapping_add(1);
        self.inner.get_limited(key, max_encoded_bytes)
    }

    pub fn contains(&self, key: &str) -> (r: bool)
        requires
            self.wf(),
        ensures
            r == self.objects().contains_key(key@),
    {
        self.inner.contains(key)
    }

    pub fn delete(&mut self, key: &str)
        requires
            old(self).wf(),
        ensures
            final(self).wf(),
            final(self).objects() == old(self).objects().remove(key@),
            final(self).counts() == old(self).counts(),
    {
        self.inner.delete(key);
    }

    pub fn list(&self, prefix: &str) -> (r: Vec<ObjectInfo>)
        requires
            self.wf(),
        ensures
            lists(self.objects(), prefix@, r@),
    {
        self.inner.list(prefix)
    }
}

/// The first rule that is of the call's method, whose text is in the key, that
/// has a failure left and has seen its successes decides; where there is
/// none, the call goes through and no rule changes.
pub proof fn law_first_ready_rule_decides(
    rules: Seq<RuleView>,
    method: FailMethod,
    key: Seq<char>,
    i: int,
)
    requires
        0 <= i <= rules.len(),
        forall|j: int|
            0 <= j < i ==> !((#[trigger] rules[j]).method == method && has_part(
                key,
                rules[j].key_contains,
            ) && rules[j].fired < rules[j].fires && rules[j].seen_successes
                >= rules[j].successes_before_fire),
        i < rules.len() ==> rules[i].method == method && has_part(key, rules[i].key_contains)
            && rules[i].fired < rules[i].fires && rules[i].seen_successes
            >= rules[i].successes_before_fire,
    ensures
        i == rules.len() ==> decision(rules, method, key) is None && decided(rules, method, key)
            == rules,
        i < rules.len() ==> decision(rules, method, key) == Some(rules[i].action),
        decided(rules, method, key).len() == rules.len(),
        forall|j: int|
            0 <= j < rules.len() && j != i ==> #[trigger] decided(rules, method, key)[j]
                == rules[j],
        i < rules.len() && rules[i].action == FailAction::DropResponse ==> decided(
            rules,
            method,
            key,
        )[i] == rules[i],
        i < rules.len() && rules[i].action != FailAction::DropResponse ==> decided(
            rules,
            method,
            key,
        )[i].fired == rules[i].fired + 1 && decided(rules, method, key)[i].seen_successes
            == rules[i].seen_successes,
{
    lemma_first_ready(rules, method, key, i, 0);
}

proof fn lemma_first_ready(
    rules: Seq<RuleView>,
    method: FailMethod,
    key: Seq<char>,
    i: int,
    from: int,
)
    requires
        0 <= from <= i <= rules.len(),
        forall|j: int| from <= j < i ==> !(#[trigger] rules[j]).fails(method, key),
        i < rules.len() ==> rules[i].fails(method, key),
    ensures
        failing_rule(rules, method, key, from) == if i < rules.len() {
            Some(i)
        } else {
            None::<int>
        },
    decreases i - from,
{
    if from < i {
        lemma_first_ready(rules, method, key, i, from + 1);
    }
}

/// After a success each rule for such a call counts one success more, up to
/// the largest count; where a response is to be lost, a rule that has seen its
/// successes counts the failure instead. No other rule changes.
pub proof fn law_success_is_counted(
    rules: Seq<RuleView>,
    method: FailMethod,
    key: Seq<char>,
    armed: bool,
    j: int,
)
    requires
        0 <= j < rules.len(),
    ensures
        noted(rules, method, key, armed).len() == rules.len(),
        ({
            let old = rules[j];
            let new = noted(rules, method, key, armed)[j];
            let meant = old.method == method && has_part(key, old.key_contains) && old.fired
                < old.fires;
            let loses = armed && old.action == FailAction::DropResponse && old.seen_successes
                >= old.successes_before_fire;
            &&& new.method == old.method && new.key_contains == old.key_contains
            &&& new.successes_before_fire == old.successes_before_fire && new.fires == old.fires
            &&& new.action == old.action
            &&& new.fired == old.fired + if meant && loses {
                1int
            } else {
                0
            }
            &&& new.seen_successes == old.seen_successes + if meant && !loses
                && old.seen_successes < u64::MAX {
                1int
            } else {
                0
            }
        }),
{
}

/// A write whose request is lost never reaches the backend; one whose response
/// is lost does, and is still reported as failed; any other write is that of
/// the backend. Each lost one is counted.
pub proof fn law_lost_writes(
    before: FailpointBackend,
    after: FailpointBackend,
    method: FailMethod,
    key: Seq<char>,
    name: Seq<char>,
    inner: spec_fn(Map<Seq<char>, ObjectView>, Result<Version>) -> bool,
    r: Result<Version>,
)
    requires
        FailpointBackend::write_met(before, after, method, key, name, inner, r),
        before.injections() < u64::MAX,
    ensures
        match decision(before.live_rules(), method, key) {
            Some(FailAction::DropRequest) => (r matches Err(e) && e is BackendUnavailable)
                && after.objects() == before.objects() && after.injections() == before.injections()
                + 1,
            Some(FailAction::Io) => (r matches Err(e) && e is Io) && after.objects()
                == before.objects() && after.injections() == before.injections() + 1,
            Some(FailAction::DropResponse) => r is Err && (inner(after.objects(), r) || ((r matches Err(
                e,
            ) && e is BackendUnavailable) && after.injections() == before.injections() + 1
                && exists|v: Version| inner(after.objects(), Ok::<Version, CoreError>(v)))),
            None => inner(after.objects(), r) && after.injections() == before.injections(),
        },
{
}

/// A failed read is reported as an outage or an I/O error; a read that no rule
/// fails is that of the backend. No read changes what is stored.
pub proof fn law_lost_reads(
    before: FailpointBackend,
    after: FailpointBackend,
    key: Seq<char>,
    name: Seq<char>,
    inner: spec_fn(Result<(Vec<u8>, Version)>) -> bool,
    r: Result<(Vec<u8>, Version)>,
)
    requires
        FailpointBackend::read_met(before, after, key, name, inner, r),
        before.injections() < u64::MAX,
    ensures
        after.objects() == before.objects(),
        match decision(before.live_rules(), FailMethod::Get, key) {
            Some(FailAction::Io) => (r matches Err(e) && e is Io) && after.injections()
                == before.injections() + 1,
            Some(_) => (r matches Err(e) && e is BackendUnavailable) && after.injections()
                == before.injections() + 1,
            None => inner(r) && after.injections() == before.injections(),
        },
{
}

} // verus!
