//! What a bridge decides: its policy, which logs are open, what a request
//! asks of a feed and how the answer reads.
use vstd::prelude::*;
use vstd::utf8::encode_utf8;

use crate::bridge::errors::{
    answers_read, append_error, append_reply, error, read_error,
};
use crate::bridge::limits::{shows, Limits};
use crate::bridge::protocol::{
    is_error, is_unsupported, seq_string, Capabilities, ErrorCode, OkBody, Request, Response,
    WireEvent, PROTOCOL_VERSION,
};
use crate::feed::{
    limits_ok, CompleteFeedHead, Cursor, FollowWait, LogEvent, MAX_FOLLOW_WAIT_NANOS,
    MAX_PAGE_EVENTS, MAX_PAGE_RAW_BYTES, ReadError, ReadLimits, ReadPage,
};
use crate::foreign::{hex_decode, hex_encode, random_bytes};
use crate::log::StableAppendReceipt;
use crate::operation::{is_stable_key, StableKey};
use crate::session::{LeasePolicy, StableAppendError, WriterLabel};
use crate::text::{
    decimal, hex_bytes, hex_text, in_order, is_hex, join2, join3, join_texts, joined, same_text,
    sort_texts, text_views,
};
use crate::time::Span;

verus! {

/// How many logs a bridge keeps open. A session is not given up and taken
/// again unseen, so the registry is bounded instead.
pub const MAX_OPEN_LOGS: usize = 256;

/// How long a shutdown may take, in milliseconds.
pub const SHUTDOWN_BUDGET: u64 = 4_000;

/// How long the releases of a shutdown may take, in milliseconds.
pub const RELEASE_BUDGET: u64 = 3_000;

/// A fresh name for a writer.
pub fn mint_writer() -> (r: String)
    ensures
        exists|b: Seq<u8>| b.len() == 16 && r@ == "comb-bridge-"@ + #[trigger] hex_text(b),
{
    let bytes: Vec<u8> = random_bytes(16);
    let hex: String = hex_encode(&bytes);
    join2("comb-bridge-", &hex)
}

/// The writer that a bridge appends as: the given one, or a fresh one. The
/// name must not be empty, nor the lease without a term.
pub fn bridge_writer(writer: Option<String>, lease: i64) -> (r: core::result::Result<String, String>)
    ensures
        match r {
            Err(e) => if writer is Some && writer->0@.len() == 0 {
                e@ == "--writer must not be empty"@
            } else {
                lease <= 0 && e@ == "--lease must be positive"@
            },
            Ok(w) => lease > 0 && match writer {
                Some(given) => given@.len() > 0 && w == given,
                None => exists|b: Seq<u8>|
                    b.len() == 16 && w@ == "comb-bridge-"@ + #[trigger] hex_text(b),
            },
        },
{
    let named: String = match writer {
        Some(w) => {
            if w.as_str().unicode_len() == 0 {
                return Err("--writer must not be empty".to_owned());
            }
            w
        },
        None => mint_writer(),
    };
    if lease <= 0 {
        return Err("--lease must be positive".to_owned());
    }
    Ok(named)
}

// ------------------------------------------------------------------ slots
/// A log that requests use. `identity` tells a slot from a later one of the
/// same log; `opened` says that the feed was opened.
#[derive(Debug)]
pub struct Slot {
    pub log: String,
    pub identity: u64,
    pub users: u64,
    pub opened: bool,
}

#[verifier::ext_equal]
pub struct SlotView {
    pub log: Seq<char>,
    pub identity: u64,
    pub users: u64,
    pub opened: bool,
}

impl View for Slot {
    type V = SlotView;

    open spec fn view(&self) -> SlotView {
        SlotView {
            log: self.log@,
            identity: self.identity,
            users: self.users,
            opened: self.opened,
        }
    }
}

pub open spec fn slots_view(s: Seq<Slot>) -> Seq<SlotView> {
    s.map_values(|x: Slot| x@)
}

/// Where the slot of a log stands.
pub open spec fn slot_of(s: Seq<SlotView>, log: Seq<char>) -> Option<int>
    decreases s.len(),
{
    if s.len() == 0 {
        None
    } else if s.last().log == log {
        Some(s.len() - 1)
    } else {
        slot_of(s.drop_last(), log)
    }
}

proof fn lemma_slot_of(s: Seq<SlotView>, log: Seq<char>)
    ensures
        match slot_of(s, log) {
            Some(i) => 0 <= i < s.len() && s[i].log == log,
            None => forall|i: int| 0 <= i < s.len() ==> (#[trigger] s[i]).log != log,
        },
    decreases s.len(),
{
    if s.len() > 0 && s.last().log != log {
        lemma_slot_of(s.drop_last(), log);
        assert forall|i: int| slot_of(s, log) is None && 0 <= i < s.len() implies (#[trigger] s[i]).log
            != log by {
            if i < s.len() - 1 {
                assert(s.drop_last()[i] == s[i]);
            }
        }
    }
}

/// A bridge: the label and the lease policy of its writers, and its logs.
#[derive(Debug)]
pub struct Bridge {
    label: WriterLabel,
    policy: LeasePolicy,
    slots: Vec<Slot>,
    next_identity: u64,
    closed: bool,
    pub limits: Limits,
}

/// Why a bridge cannot be made.
#[derive(Clone, Copy, Debug, PartialEq, Eq, Structural)]
pub enum BridgeFault {
    Writer,
    Lease,
}

impl BridgeFault {
    pub open spec fn text(self) -> Seq<char> {
        match self {
            BridgeFault::Writer => "--writer must contain 1..64 bytes (diagnostic label)"@,
            BridgeFault::Lease => "--lease must be between 3 and 600 seconds"@,
        }
    }

    pub fn message(self) -> (r: &'static str)
        ensures
            r@ == self.text(),
    {
        match self {
            BridgeFault::Writer => "--writer must contain 1..64 bytes (diagnostic label)",
            BridgeFault::Lease => "--lease must be between 3 and 600 seconds",
        }
    }
}

/// A log that a closing bridge has to let go. `retained` says that requests
/// still use it.
#[derive(Debug)]
pub struct ClosingLog {
    pub log: String,
    pub retained: bool,
    pub opened: bool,
}

/// Whether `to` is what has to be let go of `from`.
pub open spec fn closes(from: Seq<SlotView>, to: Seq<ClosingLog>) -> bool {
    to.len() == from.len() && forall|i: int|
        0 <= i < to.len() ==> (#[trigger] to[i]).log@ == from[i].log && to[i].retained == (
        from[i].users > 0) && to[i].opened == from[i].opened
}

impl Bridge {
    pub closed spec fn label_text(self) -> Seq<char> {
        self.label@
    }

    pub closed spec fn lease_policy(self) -> LeasePolicy {
        self.policy
    }

    pub closed spec fn bounds(self) -> Limits {
        self.limits
    }

    /// The logs that are in use, in the order in which they came.
    pub closed spec fn logs(self) -> Seq<SlotView> {
        slots_view(self.slots@)
    }

    pub closed spec fn is_closed(self) -> bool {
        self.closed
    }

    /// The identity that the next slot gets.
    pub closed spec fn fresh(self) -> u64 {
        self.next_identity
    }

    /// No log has two slots, a slot that nobody uses is open, and no
    /// identity is used again.
    pub open spec fn wf(self) -> bool {
        &&& self.logs().len() <= MAX_OPEN_LOGS
        &&& forall|i: int, j: int|
            0 <= i < j < self.logs().len() ==> (#[trigger] self.logs()[i]).log != (
            #[trigger] self.logs()[j]).log
        &&& forall|i: int|
            0 <= i < self.logs().len() ==> (#[trigger] self.logs()[i]).identity < self.fresh()
        &&& forall|i: int|
            0 <= i < self.logs().len() ==> (#[trigger] self.logs()[i]).users > 0
                || self.logs()[i].opened
    }

    /// Whether nothing but the logs changed.
    pub open spec fn same_settings(self, other: Bridge) -> bool {
        self.label_text() == other.label_text() && self.lease_policy() == other.lease_policy()
            && self.bounds() == other.bounds()
    }

    /// A bridge for writers of the given label, with leases of the given
    /// seconds: renewed after a third, with a sixth of slack, and waited for
    /// half as long again.
    pub fn new(writer: &str, lease_secs: i64, limits: Limits) -> (r: core::result::Result<
        Self,
        BridgeFault,
    >)
        ensures
            r == Err::<Self, BridgeFault>(BridgeFault::Writer) <==> !(0 < encode_utf8(writer@).len()
                <= 64),
            r == Err::<Self, BridgeFault>(BridgeFault::Lease) <==> 0 < encode_utf8(writer@).len()
                <= 64 && !(3 <= lease_secs <= 600),
            r matches Ok(b) ==> {
                &&& b.wf()
                &&& b.logs().len() == 0
                &&& !b.is_closed()
                &&& b.fresh() == 0
                &&& b.label_text() == writer@
                &&& b.bounds() == limits
                &&& b.lease_policy().ttl.nanos == lease_secs * 1_000_000_000
                &&& b.lease_policy().renew_every.nanos == lease_secs * 1_000_000_000 / 3
                &&& b.lease_policy().clock_slack.nanos == lease_secs * 1_000_000_000 / 6
                &&& b.lease_policy().initial_acquire_budget.nanos == lease_secs * 1_000_000_000
                    + lease_secs * 1_000_000_000 / 2
                &&& b.lease_policy().ok()
            },
    {
        let label: WriterLabel = match WriterLabel::try_from(writer) {
            Ok(l) => l,
            Err(_) => {
                return Err(BridgeFault::Writer);
            },
        };
        if lease_secs < 3 || lease_secs > 600 {
            return Err(BridgeFault::Lease);
        }
        let ttl: Span = Span::from_secs(lease_secs as u64);
        let policy: LeasePolicy = LeasePolicy {
            ttl,
            renew_every: Span { nanos: ttl.nanos / 3 },
            clock_slack: Span { nanos: ttl.nanos / 6 },
            initial_acquire_budget: Span { nanos: ttl.nanos + ttl.nanos / 2 },
        };
        Ok(
            Bridge {
                label,
                policy,
                slots: Vec::new(),
                next_identity: 0,
                closed: false,
                limits,
            },
        )
    }

    pub fn label(&self) -> (r: &str)
        ensures
            r@ == self.label_text(),
    {
        self.label.as_str()
    }

    pub fn policy(&self) -> (r: LeasePolicy)
        ensures
            r == self.lease_policy(),
    {
        self.policy
    }

    /// How long a request may take: as long as a lease may be waited for,
    /// and fifteen seconds.
    pub fn request_budget(&self) -> (r: Option<Span>)
        ensures
            r is Some <==> self.lease_policy().initial_acquire_budget.nanos + 15_000_000_000
                <= crate::time::MAX_SPAN_NANOS,
            r matches Some(s) ==> s.nanos == self.lease_policy().initial_acquire_budget.nanos
                + 15_000_000_000,
    {
        self.policy.initial_acquire_budget.checked_add(&Span::from_secs(15))
    }

    fn find(&self, log: &str) -> (r: Option<usize>)
        ensures
            match slot_of(self.logs(), log@) {
                Some(i) => r matches Some(n) && n == i && n < self.slots@.len(),
                None => r is None,
            },
    {
        let ghost all = self.logs();
        let mut n: usize = self.slots.len();
        assert(all.take(n as int) =~= all);
        while n > 0
            invariant
                n <= self.slots@.len(),
                all == slots_view(self.slots@),
                slot_of(all, log@) == slot_of(all.take(n as int), log@),
            decreases n,
        {
            assert(all.take(n as int).drop_last() =~= all.take(n - 1));
            assert(all.take(n as int).last() == self.slots@[n - 1]@);
            if same_text(&self.slots[n - 1].log, log) {
                return Some(n - 1);
            }
            n = n - 1;
        }
        None
    }

    /// A request comes to use a log. It gets the slot that the log has; a
    /// log without one gets a new slot while there is room.
    pub fn enter(&mut self, id: &str, log: &str) -> (r: core::result::Result<u64, Response>)
        requires
            old(self).wf(),
            old(self).fresh() < u64::MAX,
            forall|i: int|
                0 <= i < old(self).logs().len() ==> (#[trigger] old(self).logs()[i]).users
                    < u64::MAX,
        ensures
            final(self).wf(),
            final(self).same_settings(*old(self)),
            final(self).is_closed() == old(self).is_closed(),
            r is Ok <==> !old(self).is_closed() && (old(self).logs().len() < 256 || exists|i: int|
                0 <= i < old(self).logs().len() && (#[trigger] old(self).logs()[i]).log == log@),
            if old(self).is_closed() {
                &&& r matches Err(e) && is_error(e, id@, ErrorCode::Cancelled, "bridge is closing"@)
                &&& final(self).logs() == old(self).logs()
                &&& final(self).fresh() == old(self).fresh()
            } else {
                match slot_of(old(self).logs(), log@) {
                    Some(i) => {
                        let s = old(self).logs()[i];
                        &&& r matches Ok(n) && n == s.identity
                        &&& final(self).logs() == old(self).logs().update(
                            i,
                            (SlotView { users: (s.users + 1) as u64, ..s }),
                        )
                        &&& final(self).fresh() == old(self).fresh()
                    },
                    None => if old(self).logs().len() >= MAX_OPEN_LOGS {
                        &&& r matches Err(e) && is_error(
                            e,
                            id@,
                            ErrorCode::Busy,
                            "process has reached its 256-log limit"@,
                        )
                        &&& final(self).logs() == old(self).logs()
                        &&& final(self).fresh() == old(self).fresh()
                    } else {
                        &&& r matches Ok(n) && n == old(self).fresh()
                        &&& final(self).logs() == old(self).logs().push(
                            (SlotView {
                                log: log@,
                                identity: old(self).fresh(),
                                users: 1,
                                opened: false,
                            }),
                        )
                        &&& final(self).fresh() == old(self).fresh() + 1
                    },
                }
            },
    {
        let ghost before = self.logs();
        if self.closed {
            return Err(error(id, ErrorCode::Cancelled, "bridge is closing"));
        }
        proof {
            lemma_slot_of(before, log@);
            law_slot_is_of_its_log(before, log@);
        }
        match self.find(log) {
            Some(n) => {
                let identity: u64 = self.slots[n].identity;
                let users: u64 = self.slots[n].users;
                assert(before[n as int] == self.slots@[n as int]@);
                let opened: bool = self.slots[n].opened;
                self.slots[n] = Slot { log: log.to_owned(), identity, users: users + 1, opened };
                assert(self.logs() =~= before.update(
                    n as int,
                    (SlotView { users: (users + 1) as u64, ..before[n as int] }),
                ));
                Ok(identity)
            },
            None => {
                if self.slots.len() >= MAX_OPEN_LOGS {
                    return Err(
                        error(id, ErrorCode::Busy, "process has reached its 256-log limit"),
                    );
                }
                let identity: u64 = self.next_identity;
                self.slots.push(Slot { log: log.to_owned(), identity, users: 1, opened: false });
                self.next_identity = identity + 1;
                assert(self.logs() =~= before.push(
                    (SlotView { log: log@, identity, users: 1, opened: false }),
                ));
                Ok(identity)
            },
        }
    }

    /// The feed of a slot was opened.
    pub fn opened(&mut self, log: &str, identity: u64)
        requires
            old(self).wf(),
        ensures
            final(self).wf(),
            final(self).same_settings(*old(self)),
            final(self).is_closed() == old(self).is_closed(),
            final(self).fresh() == old(self).fresh(),
            final(self).logs() == match slot_of(old(self).logs(), log@) {
                Some(i) => if old(self).logs()[i].identity == identity {
                    old(self).logs().update(
                        i,
                        (SlotView { opened: true, ..old(self).logs()[i] }),
                    )
                } else {
                    old(self).logs()
                },
                None => old(self).logs(),
            },
    {
        let ghost before = self.logs();
        proof {
            lemma_slot_of(before, log@);
        }
        if let Some(n) = self.find(log) {
            assert(before[n as int] == self.slots@[n as int]@);
            if self.slots[n].identity == identity {
                let users: u64 = self.slots[n].users;
                self.slots[n] = Slot { log: log.to_owned(), identity, users, opened: true };
                assert(self.logs() =~= before.update(
                    n as int,
                    (SlotView { opened: true, ..before[n as int] }),
                ));
            }
        }
    }

    /// What is left of the logs when a request lets go of a slot: the last
    /// user of a slot that was not opened takes it away.
    pub open spec fn left(s: Seq<SlotView>, log: Seq<char>, identity: u64) -> Seq<SlotView> {
        match slot_of(s, log) {
            None => s,
            Some(i) => if s[i].identity != identity || s[i].users == 0 {
                s
            } else if s[i].users == 1 && !s[i].opened {
                s.remove(i)
            } else {
                s.update(i, (SlotView { users: (s[i].users - 1) as u64, ..s[i] }))
            },
        }
    }

    /// A request lets go of the slot that it used.
    pub fn leave(&mut self, log: &str, identity: u64)
        requires
            old(self).wf(),
        ensures
            final(self).wf(),
            final(self).same_settings(*old(self)),
            final(self).is_closed() == old(self).is_closed(),
            final(self).fresh() == old(self).fresh(),
            final(self).logs() == Self::left(old(self).logs(), log@, identity),
    {
        let ghost before = self.logs();
        proof {
            lemma_slot_of(before, log@);
        }
        if let Some(n) = self.find(log) {
            assert(before[n as int] == self.slots@[n as int]@);
            let users: u64 = self.slots[n].users;
            let opened: bool = self.slots[n].opened;
            if self.slots[n].identity == identity && users > 0 {
                if users == 1 && !opened {
                    let _gone: Slot = self.slots.remove(n);
                    assert(self.logs() =~= before.remove(n as int));
                } else {
                    self.slots[n] = Slot { log: log.to_owned(), identity, users: users - 1, opened };
                    assert(self.logs() =~= before.update(
                        n as int,
                        (SlotView { users: (users - 1) as u64, ..before[n as int] }),
                    ));
                }
            }
        }
    }

    /// No request is accepted any more.
    pub fn cancel_requests(&mut self)
        ensures
            final(self).same_settings(*old(self)),
            final(self).is_closed(),
            final(self).fresh() == old(self).fresh(),
            final(self).logs() == old(self).logs(),
    {
        self.closed = true;
    }

    /// Ends at once: every log is dropped.
    pub fn abort(&mut self)
        ensures
            final(self).same_settings(*old(self)),
            final(self).is_closed(),
            final(self).fresh() == old(self).fresh(),
            final(self).logs().len() == 0,
    {
        self.closed = true;
        self.slots = Vec::new();
    }

    /// Begins to close: every log is handed out, to be let go.
    pub fn begin_close(&mut self) -> (r: Vec<ClosingLog>)
        ensures
            final(self).same_settings(*old(self)),
            final(self).is_closed(),
            final(self).fresh() == old(self).fresh(),
            final(self).logs().len() == 0,
            closes(old(self).logs(), r@),
    {
        let ghost before = self.logs();
        let mut out: Vec<ClosingLog> = Vec::new();
        let mut i: usize = 0;
        while i < self.slots.len()
            invariant
                i <= self.slots@.len(),
                before == slots_view(self.slots@),
                *self == *old(self),
                out@.len() == i,
                forall|j: int|
                    0 <= j < i ==> (#[trigger] out@[j]).log@ == before[j].log && out@[j].retained
                        == (before[j].users > 0) && out@[j].opened == before[j].opened,
            decreases self.slots@.len() - i,
        {
            assert(before[i as int] == self.slots@[i as int]@);
            out.push(
                ClosingLog {
                    log: self.slots[i].log.clone(),
                    retained: self.slots[i].users > 0,
                    opened: self.slots[i].opened,
                },
            );
            i = i + 1;
        }
        self.closed = true;
        self.slots = Vec::new();
        out
    }
}

proof fn lemma_slot_unique(s: Seq<SlotView>, log: Seq<char>, i: int)
    requires
        0 <= i < s.len(),
        s[i].log == log,
        forall|a: int, b: int|
            0 <= a < b < s.len() ==> (#[trigger] s[a]).log != (#[trigger] s[b]).log,
    ensures
        slot_of(s, log) == Some(i),
{
    lemma_slot_of(s, log);
    let j = slot_of(s, log)->0;
    if i < j {
        assert(s[i].log != s[j].log);
    } else if j < i {
        assert(s[j].log != s[i].log);
    }
}

/// While a slot has other users, letting go of it leaves it in its place, so
/// that all users of a log share one slot; the last user of a slot that was
/// not opened takes it away. Other logs are not touched.
pub proof fn law_users_share_one_slot(b: Bridge, log: Seq<char>, other: Seq<char>)
    requires
        b.wf(),
        slot_of(b.logs(), log) matches Some(i) && b.logs()[i].users > 0,
        other != log,
    ensures
        ({
            let before = b.logs();
            let i = slot_of(before, log)->0;
            let after = Bridge::left(before, log, before[i].identity);
            &&& before[i].users > 1 ==> (slot_of(after, log) matches Some(k) && after[k].identity
                == before[i].identity && after[k].users == before[i].users - 1)
            &&& before[i].users == 1 && !before[i].opened ==> slot_of(after, log) is None
            &&& match slot_of(before, other) {
                None => slot_of(after, other) is None,
                Some(j) => slot_of(after, other) matches Some(k) && after[k] == before[j],
            }
        }),
{
    let before = b.logs();
    lemma_slot_of(before, log);
    lemma_slot_of(before, other);
    let i = slot_of(before, log)->0;
    let after = Bridge::left(before, log, before[i].identity);
    if before[i].users == 1 && !before[i].opened {
        assert(after =~= before.remove(i));
        assert forall|a: int, c: int| 0 <= a < c < after.len() implies (#[trigger] after[a]).log != (
        #[trigger] after[c]).log by {
            let a2 = if a < i {
                a
            } else {
                a + 1
            };
            let c2 = if c < i {
                c
            } else {
                c + 1
            };
            assert(before[a2].log != before[c2].log);
        }
        lemma_slot_of(after, log);
        if slot_of(after, log) is Some {
            let k = slot_of(after, log)->0;
            let k2 = if k < i {
                k
            } else {
                k + 1
            };
            assert(before[k2].log == log);
            if k2 < i {
                assert(before[k2].log != before[i].log);
            } else {
                assert(before[i].log != before[k2].log);
            }
        }
        lemma_slot_of(after, other);
        match slot_of(before, other) {
            None => {
                if slot_of(after, other) is Some {
                    let k = slot_of(after, other)->0;
                    let k2 = if k < i {
                        k
                    } else {
                        k + 1
                    };
                    assert(before[k2].log == other);
                }
            },
            Some(j) => {
                let j2 = if j < i {
                    j
                } else {
                    j - 1
                };
                assert(after[j2] == before[j]);
                lemma_slot_unique(after, other, j2);
            },
        }
    } else {
        assert forall|a: int, c: int| 0 <= a < c < after.len() implies (#[trigger] after[a]).log != (
        #[trigger] after[c]).log by {
            assert(before[a].log != before[c].log);
        }
        lemma_slot_unique(after, log, i);
        lemma_slot_of(after, other);
        match slot_of(before, other) {
            None => {
                if slot_of(after, other) is Some {
                    let k = slot_of(after, other)->0;
                    assert(before[k].log == other);
                }
            },
            Some(j) => {
                assert(after[j] == before[j]);
                lemma_slot_unique(after, other, j);
            },
        }
    }
}

// ---------------------------------------------------------------- answers
/// Whether a name is that of a capability that bridges have.
pub open spec fn is_capability(name: Seq<char>) -> bool {
    name == "durable_idempotency"@ || name == "bounded_memory_read"@ || name == "payload_hex"@
}

/// The first of the names that is no capability.
pub open spec fn missing_capability(names: Seq<Seq<char>>) -> Option<Seq<char>>
    decreases names.len(),
{
    if names.len() == 0 {
        None
    } else if !is_capability(names[0]) {
        Some(names[0])
    } else {
        missing_capability(names.drop_first())
    }
}

/// Whether capabilities are those that a bridge offers.
pub open spec fn is_offered(c: Capabilities) -> bool {
    c.ops@.map_values(|s: &'static str| s@) == seq![
        "hello"@,
        "append"@,
        "head"@,
        "read"@,
        "follow"@,
    ] && c.durable_idempotency && c.bounded_memory_read && c.payload_hex
}

/// Whether a response answers a greeting.
pub open spec fn answers_hello(r: Response, limits: Limits, id: Seq<char>, require: Seq<Seq<char>>) -> bool {
    match missing_capability(require) {
        Some(name) => is_unsupported(r, id, name, "capability "@ + name + " is not available"@),
        None => r matches Response::Success { v, id: i, ok, op, body } && v == PROTOCOL_VERSION
            && i@ == id && ok && op@ == "hello"@ && (body matches OkBody::Hello {
            protocol,
            capabilities,
            limits: l,
        } && protocol == PROTOCOL_VERSION && is_offered(capabilities) && shows(l, limits)),
    }
}

/// Answers the greeting of a client that wants the given capabilities.
pub fn hello(limits: &Limits, id: &str, require: &Vec<String>) -> (r: Response)
    ensures
        answers_hello(r, *limits, id@, text_views(require@)),
{
    let caps: Capabilities = Capabilities::offered();
    let ghost all = text_views(require@);
    let mut i: usize = 0;
    assert(all.skip(0) =~= all);
    while i < require.len()
        invariant
            i <= require@.len(),
            all == text_views(require@),
            is_offered(caps),
            missing_capability(all) == missing_capability(all.skip(i as int)),
        decreases require@.len() - i,
    {
        let name: &str = &require[i];
        let there: bool = match caps.supports(name) {
            Some(b) => b,
            None => false,
        };
        assert(all.skip(i as int)[0] == name@);
        if !there {
            let message: String = join3("capability ", name, " is not available");
            return Response::unsupported(id, name, &message);
        }
        assert(all.skip(i as int).drop_first() =~= all.skip(i + 1));
        i = i + 1;
    }
    Response::ok(
        id,
        "hello",
        OkBody::Hello { protocol: PROTOCOL_VERSION, capabilities: caps, limits: limits.view() },
    )
}

/// Why a request ends before its answer is there. A bridge that is closing
/// comes first.
pub fn interrupted(id: &str, closing: bool, cancelled: bool, past_deadline: bool) -> (r: Option<
    Response,
>)
    ensures
        r is Some <==> closing || cancelled || past_deadline,
        r matches Some(x) ==> if closing {
            is_error(x, id@, ErrorCode::Cancelled, "bridge is closing"@)
        } else if cancelled {
            is_error(x, id@, ErrorCode::Cancelled, "request cancelled"@)
        } else {
            is_error(x, id@, ErrorCode::DeadlineExceeded, "request deadline exceeded"@)
        },
{
    if closing {
        Some(error(id, ErrorCode::Cancelled, "bridge is closing"))
    } else if cancelled {
        Some(error(id, ErrorCode::Cancelled, "request cancelled"))
    } else if past_deadline {
        Some(error(id, ErrorCode::DeadlineExceeded, "request deadline exceeded"))
    } else {
        None
    }
}

/// Answers a request for the head of a log.
pub fn head_response(
    id: &str,
    log: &str,
    result: core::result::Result<CompleteFeedHead, ReadError>,
) -> (r: Response)
    ensures
        match result {
            Ok(h) => r matches Response::Success { v, id: i, ok, op, body } && v == PROTOCOL_VERSION
                && i@ == id@ && ok && op@ == "head"@ && (body matches OkBody::Head {
                log: l,
                head,
                cursor,
                trim_before,
            } && l@ == log@ && head@ == decimal(h.head_seq as nat) && cursor@ == decimal(
                h.next.next_seq as nat,
            ) && trim_before@ == decimal(h.trim_before_seq as nat)),
            Err(e) => answers_read(r, id@, e),
        },
{
    match result {
        Ok(h) => Response::ok(
            id,
            "head",
            OkBody::Head {
                log: log.to_owned(),
                head: seq_string(h.head_seq),
                cursor: seq_string(h.next.next_seq),
                trim_before: seq_string(h.trim_before_seq),
            },
        ),
        Err(e) => read_error(id, e),
    }
}

/// Answers an append.
pub fn append_response(
    id: &str,
    log: &str,
    result: core::result::Result<StableAppendReceipt, StableAppendError>,
) -> (r: Response)
    ensures
        match result {
            Ok(x) => if x.range.last == u64::MAX {
                is_error(r, id@, ErrorCode::Integrity, "append receipt has no next cursor"@)
            } else {
                r matches Response::Success { v, id: i, ok, op, body } && v == PROTOCOL_VERSION
                    && i@ == id@ && ok && op@ == "append"@ && (body matches OkBody::Append {
                    log: l,
                    first,
                    last,
                    cursor,
                } && l@ == log@ && first@ == decimal(x.range.first as nat) && last@ == decimal(
                    x.range.last as nat,
                ) && cursor@ == decimal((x.range.last + 1) as nat))
            },
            Err(e) => is_error(r, id@, append_reply(e).0, append_reply(e).1),
        },
{
    match result {
        Ok(x) => {
            if x.range.last == u64::MAX {
                return error(id, ErrorCode::Integrity, "append receipt has no next cursor");
            }
            Response::ok(
                id,
                "append",
                OkBody::Append {
                    log: log.to_owned(),
                    first: seq_string(x.range.first),
                    last: seq_string(x.range.last),
                    cursor: seq_string(x.range.last + 1),
                },
            )
        },
        Err(e) => append_error(id, e),
    }
}

/// Whether wire events are the given events.
pub open spec fn wires(w: Seq<WireEvent>, events: Seq<LogEvent>) -> bool {
    w.len() == events.len() && forall|i: int|
        0 <= i < w.len() ==> (#[trigger] w[i]).seq@ == decimal(events[i].position.seq as nat)
            && w[i].at@ == events[i].committed_at.text() && w[i].payload_hex@ == hex_text(
            events[i].payload@,
        )
}

/// Answers with a page. A page that was followed says whether the wait ran
/// out.
pub fn page_response(id: &str, log: &str, page: &ReadPage, timed_out: Option<bool>) -> (r: Response)
    ensures
        r matches Response::Success { v, id: i, ok, op, body } && v == PROTOCOL_VERSION && i@ == id@
            && ok && op@ == (if timed_out is Some {
            "follow"@
        } else {
            "read"@
        }) && (body matches OkBody::Page { log: l, events, next_cursor, at_head, timed_out: t }
            && l@ == log@ && wires(events@, page.events@) && next_cursor@ == decimal(
            page.next.next_seq as nat,
        ) && at_head == page.at_head && t == timed_out),
{
    let mut events: Vec<WireEvent> = Vec::new();
    let mut i: usize = 0;
    while i < page.events.len()
        invariant
            i <= page.events@.len(),
            events@.len() == i,
            forall|j: int|
                0 <= j < i ==> (#[trigger] events@[j]).seq@ == decimal(
                    page.events@[j].position.seq as nat,
                ) && events@[j].at@ == page.events@[j].committed_at.text()
                    && events@[j].payload_hex@ == hex_text(page.events@[j].payload@),
        decreases page.events@.len() - i,
    {
        let e: &LogEvent = &page.events[i];
        events.push(
            WireEvent {
                seq: seq_string(e.position.seq),
                at: e.committed_at.to_rfc3339(),
                payload_hex: hex_encode(&e.payload),
            },
        );
        i = i + 1;
    }
    let op: &str = if timed_out.is_some() {
        "follow"
    } else {
        "read"
    };
    Response::ok(
        id,
        op,
        OkBody::Page {
            log: log.to_owned(),
            events,
            next_cursor: seq_string(page.next.next_seq),
            at_head: page.at_head,
            timed_out,
        },
    )
}

/// Whether a page that was read without waiting counts as a wait that ran
/// out; nothing for a plain read.
pub fn read_timed_out(page: &ReadPage, follow: bool) -> (r: Option<bool>)
    ensures
        r == if follow {
            Some(page.events@.len() == 0 && page.at_head)
        } else {
            None::<bool>
        },
{
    if follow {
        Some(page.events.len() == 0 && page.at_head)
    } else {
        None
    }
}

/// What a request asks of the feed of its log.
#[derive(Debug)]
pub enum FeedCall {
    Reply(Response),
    Head,
    Append { key: StableKey, payload: Vec<u8> },
    Read { cursor: Cursor, limits: ReadLimits, follow: bool },
    Follow { cursor: Cursor, limits: ReadLimits, wait: FollowWait },
}

/// How many events a page may hold: what was asked for or else the limit, but
/// no more than fits into a page.
pub open spec fn page_events(limits: Limits, asked: Option<u64>) -> u32 {
    let n = match asked {
        Some(n) => n,
        None => limits.max_read_events as u64,
    };
    if n > MAX_PAGE_EVENTS {
        MAX_PAGE_EVENTS
    } else {
        n as u32
    }
}

/// How many bytes a page may hold: what was asked for or else the limit, but
/// no more than fits into a page.
pub open spec fn page_bytes(limits: Limits, asked: Option<u64>) -> u64 {
    let n = match asked {
        Some(n) => n,
        None => limits.max_read_bytes as u64,
    };
    if n > MAX_PAGE_RAW_BYTES {
        MAX_PAGE_RAW_BYTES
    } else {
        n
    }
}

/// The limits that are advertised can be read with, and so can any that are
/// asked for, unless they leave room for nothing.
pub proof fn law_advertised_limits_are_usable(
    limits: Limits,
    max_events: Option<u64>,
    max_bytes: Option<u64>,
)
    requires
        max_events matches Some(n) ==> n > 0,
        max_events is None ==> limits.max_read_events > 0,
        max_bytes matches Some(n) ==> n > 0,
        max_bytes is None ==> limits.max_read_bytes > 0,
    ensures
        limits_ok(page_events(limits, max_events), page_bytes(limits, max_bytes)),
{
}

/// Whether a call reads the page that is asked for. A wait of nothing is a
/// plain reading.
pub open spec fn calls_page(
    r: FeedCall,
    limits: Limits,
    id: Seq<char>,
    cursor: u64,
    max_events: Option<u64>,
    max_bytes: Option<u64>,
    follow_ms: Option<u64>,
) -> bool {
    let e = page_events(limits, max_events);
    let b = page_bytes(limits, max_bytes);
    if !limits_ok(e, b) {
        r matches FeedCall::Reply(x) && is_error(
            x,
            id,
            ErrorCode::InvalidRequest,
            "invalid page limits"@,
        )
    } else {
        match follow_ms {
            Some(ms) => if ms == 0 {
                r matches FeedCall::Read { cursor: c, limits: l, follow } && c.partition == 0
                    && c.next_seq == cursor && l.events() == e && l.raw_bytes() == b && follow
            } else if ms * 1_000_000 > MAX_FOLLOW_WAIT_NANOS {
                r matches FeedCall::Reply(x) && is_error(
                    x,
                    id,
                    ErrorCode::InvalidRequest,
                    "invalid follow wait"@,
                )
            } else {
                r matches FeedCall::Follow { cursor: c, limits: l, wait } && c.partition == 0
                    && c.next_seq == cursor && l.events() == e && l.raw_bytes() == b && wait.nanos()
                    == ms * 1_000_000
            },
            None => r matches FeedCall::Read { cursor: c, limits: l, follow } && c.partition == 0
                && c.next_seq == cursor && l.events() == e && l.raw_bytes() == b && !follow,
        }
    }
}

fn page_call(
    limits: &Limits,
    id: &str,
    cursor: u64,
    max_events: Option<u64>,
    max_bytes: Option<u64>,
    follow_ms: Option<u64>,
) -> (r: FeedCall)
    ensures
        calls_page(r, *limits, id@, cursor, max_events, max_bytes, follow_ms),
{
    let asked: u64 = match max_events {
        Some(n) => n,
        None => limits.max_read_events as u64,
    };
    let events: u32 = if asked > MAX_PAGE_EVENTS as u64 {
        MAX_PAGE_EVENTS
    } else {
        asked as u32
    };
    let room: u64 = match max_bytes {
        Some(n) => n,
        None => limits.max_read_bytes as u64,
    };
    let bytes: u64 = if room > MAX_PAGE_RAW_BYTES {
        MAX_PAGE_RAW_BYTES
    } else {
        room
    };
    let page: ReadLimits = match ReadLimits::try_new(events, bytes) {
        Ok(l) => l,
        Err(_) => {
            return FeedCall::Reply(Response::invalid(id, "invalid page limits"));
        },
    };
    let from: Cursor = Cursor { partition: 0, next_seq: cursor };
    match follow_ms {
        None => FeedCall::Read { cursor: from, limits: page, follow: false },
        Some(ms) => {
            if ms == 0 {
                return FeedCall::Read { cursor: from, limits: page, follow: true };
            }
            match FollowWait::try_new(Span::from_millis(ms)) {
                Ok(wait) => FeedCall::Follow { cursor: from, limits: page, wait },
                Err(_) => FeedCall::Reply(Response::invalid(id, "invalid follow wait")),
            }
        },
    }
}

/// Whether a call is what a request asks for.
pub open spec fn calls(r: FeedCall, limits: Limits, q: Request) -> bool {
    match q {
        Request::Hello { id, require } => r matches FeedCall::Reply(x) && answers_hello(
            x,
            limits,
            id@,
            text_views(require@),
        ),
        Request::Head { .. } => r is Head,
        Request::Append { id, idempotency_key, payload, .. } => {
            let key = encode_utf8(idempotency_key@);
            if is_hex(key) && is_stable_key(hex_bytes(key)) {
                r matches FeedCall::Append { key: k, payload: p } && k@ == hex_bytes(key) && p@
                    == payload@
            } else {
                r matches FeedCall::Reply(x) && is_error(
                    x,
                    id@,
                    ErrorCode::InvalidRequest,
                    "invalid stable key"@,
                )
            }
        },
        Request::Read { id, cursor, max_events, max_bytes, .. } => calls_page(
            r,
            limits,
            id@,
            cursor,
            max_events,
            max_bytes,
            None,
        ),
        Request::Follow { id, cursor, timeout_ms, max_events, max_bytes, .. } => calls_page(
            r,
            limits,
            id@,
            cursor,
            max_events,
            max_bytes,
            Some(
                match timeout_ms {
                    Some(ms) => ms,
                    None => 0,
                },
            ),
        ),
    }
}

/// What a request asks of the feed of its log, once that is open. A greeting
/// asks nothing: it is answered.
pub fn feed_call(limits: &Limits, request: &Request) -> (r: FeedCall)
    ensures
        calls(r, *limits, *request),
{
    match request {
        Request::Hello { id, require } => FeedCall::Reply(hello(limits, id, require)),
        Request::Head { .. } => FeedCall::Head,
        Request::Append { id, idempotency_key, payload, .. } => {
            let bytes: Vec<u8> = match hex_decode(idempotency_key) {
                Ok(b) => b,
                Err(_) => {
                    return FeedCall::Reply(Response::invalid(id, "invalid stable key"));
                },
            };
            match StableKey::try_from_canonical(bytes) {
                Ok(key) => FeedCall::Append { key, payload: crate::bytes::copy_bytes(payload) },
                Err(_) => FeedCall::Reply(Response::invalid(id, "invalid stable key")),
            }
        },
        Request::Read { id, cursor, max_events, max_bytes, .. } => page_call(
            limits,
            id,
            *cursor,
            *max_events,
            *max_bytes,
            None,
        ),
        Request::Follow { id, cursor, timeout_ms, max_events, max_bytes, .. } => {
            let ms: u64 = match timeout_ms {
                Some(ms) => *ms,
                None => 0,
            };
            page_call(limits, id, *cursor, *max_events, *max_bytes, Some(ms))
        },
    }
}

// ---------------------------------------------------------------- closing
/// What became of the lease of a log.
#[derive(Debug)]
pub enum Release {
    /// Requests still used the log.
    Retained,
    Released,
    /// The release failed, for the reason given.
    Failed(String),
    TaskFailed,
    TimedOut,
}

/// How the release of a log is reported.
pub open spec fn release_text(log: Seq<char>, r: Release) -> Seq<char> {
    match r {
        Release::Retained => log + ": requests remain; release uncertain"@,
        Release::Released => log + ": released"@,
        Release::Failed(why) => log + ": release uncertain: "@ + why@,
        Release::TaskFailed => log + ": release task failed; release uncertain"@,
        Release::TimedOut => log
            + ": publisher release deadline exceeded; release uncertain"@,
    }
}

pub open spec fn release_texts(s: Seq<(String, Release)>) -> Seq<Seq<char>> {
    s.map_values(|x: (String, Release)| release_text(x.0@, x.1))
}

/// Whether every lease was let go.
pub open spec fn all_released(s: Seq<(String, Release)>) -> bool {
    forall|i: int| 0 <= i < s.len() ==> (#[trigger] s[i]).1 is Released
}

/// How a bridge closed. Where a release is uncertain, the report names what
/// became of every log, in order.
pub fn close_report(outcomes: &Vec<(String, Release)>) -> (r: core::result::Result<(), String>)
    ensures
        r is Ok <==> all_released(outcomes@),
        r matches Err(text) ==> exists|s: Seq<Seq<char>>|
            in_order(s) && s.to_multiset() == release_texts(outcomes@).to_multiset() && text@
                == "publisher cleanup: "@ + #[trigger] joined(s, "; "@),
{
    let ghost all = release_texts(outcomes@);
    let mut texts: Vec<String> = Vec::new();
    let mut failed: bool = false;
    let mut i: usize = 0;
    assert(text_views(texts@) =~= all.take(0));
    while i < outcomes.len()
        invariant
            i <= outcomes@.len(),
            all == release_texts(outcomes@),
            text_views(texts@) == all.take(i as int),
            !failed <==> (forall|j: int| 0 <= j < i ==> (#[trigger] outcomes@[j]).1 is Released),
        decreases outcomes@.len() - i,
    {
        let log: &str = &outcomes[i].0;
        let ghost before = texts@;
        let (text, released) = match &outcomes[i].1 {
            Release::Retained => (join2(log, ": requests remain; release uncertain"), false),
            Release::Released => (join2(log, ": released"), true),
            Release::Failed(why) => (join3(log, ": release uncertain: ", why), false),
            Release::TaskFailed => (join2(log, ": release task failed; release uncertain"), false),
            Release::TimedOut => (
                join2(log, ": publisher release deadline exceeded; release uncertain"),
                false,
            ),
        };
        if !released {
            failed = true;
        }
        assert(text@ == all[i as int]);
        texts.push(text);
        assert(text_views(texts@) =~= text_views(before).push(all[i as int]));
        assert(all.take(i + 1) =~= all.take(i as int).push(all[i as int]));
        i = i + 1;
    }
    assert(all.take(i as int) =~= all);
    if !failed {
        return Ok(());
    }
    let sorted: Vec<String> = sort_texts(&texts);
    let list: String = join_texts(&sorted, "; ");
    Err(join2("publisher cleanup: ", &list))
}

/// The slot of a log is one with its name, and there is none only where no
/// slot has it.
pub proof fn law_slot_is_of_its_log(s: Seq<SlotView>, log: Seq<char>)
    ensures
        slot_of(s, log) is Some <==> exists|i: int|
            0 <= i < s.len() && (#[trigger] s[i]).log == log,
        slot_of(s, log) matches Some(i) ==> 0 <= i < s.len() && s[i].log == log,
    decreases s.len(),
{
    if s.len() > 0 {
        let rest = s.drop_last();
        law_slot_is_of_its_log(rest, log);
        if s.last().log == log {
            assert(s[s.len() - 1].log == log);
        } else {
            match slot_of(rest, log) {
                Some(i) => {
                    assert(s[i] == rest[i]);
                },
                None => {
                    assert forall|i: int| 0 <= i < s.len() implies (#[trigger] s[i]).log != log by {
                        if i < s.len() - 1 {
                            assert(rest[i].log != log);
                        }
                    }
                },
            }
        }
    }
}

/// A user who leaves takes one user off the slot they entered, and off no
/// other. The last one takes the slot along, unless the log is open; a slot
/// under the name of an earlier one is left alone.
pub proof fn law_leaving_takes_one_user_off(s: Seq<SlotView>, log: Seq<char>, identity: u64, i: int)
    requires
        slot_of(s, log) == Some(i),
    ensures
        ({
            let after = Bridge::left(s, log, identity);
            &&& s[i].identity != identity || s[i].users == 0 ==> after == s
            &&& s[i].identity == identity && s[i].users > 1 || (s[i].identity == identity
                && s[i].users == 1 && s[i].opened) ==> after.len() == s.len() && after[i].users
                == s[i].users - 1 && after[i].log == log && after[i].identity == identity
                && after[i].opened == s[i].opened
            &&& s[i].identity == identity && s[i].users == 1 && !s[i].opened ==> after.len()
                == s.len() - 1
            &&& forall|j: int|
                0 <= j < i ==> #[trigger] after[j] == s[j]
            &&& forall|j: int|
                i < j < s.len() ==> after[#[trigger] (j + after.len() - s.len())] == s[j]
        }),
{
    law_slot_is_of_its_log(s, log);
}

/// A capability is missing where it is none of the three that are offered; the
/// first such one is named, and where all are offered none is.
pub proof fn law_first_missing_capability(names: Seq<Seq<char>>)
    ensures
        missing_capability(names) is None <==> forall|i: int|
            0 <= i < names.len() ==> #[trigger] names[i] == "durable_idempotency"@ || names[i]
                == "bounded_memory_read"@ || names[i] == "payload_hex"@,
        missing_capability(names) matches Some(name) ==> exists|i: int|
            0 <= i < names.len() && #[trigger] names[i] == name && name != "durable_idempotency"@
                && name != "bounded_memory_read"@ && name != "payload_hex"@ && forall|j: int|
                0 <= j < i ==> is_capability(#[trigger] names[j]),
    decreases names.len(),
{
    if names.len() > 0 {
        let rest = names.drop_first();
        law_first_missing_capability(rest);
        assert(forall|i: int| 0 <= i < rest.len() ==> #[trigger] rest[i] == names[i + 1]);
        if !is_capability(names[0]) {
            assert(names[0] != "durable_idempotency"@);
        } else {
            match missing_capability(rest) {
                Some(name) => {
                    let i = choose|i: int|
                        0 <= i < rest.len() && #[trigger] rest[i] == name && name
                            != "durable_idempotency"@ && name != "bounded_memory_read"@ && name
                            != "payload_hex"@ && forall|j: int|
                            0 <= j < i ==> is_capability(#[trigger] rest[j]);
                    assert(names[i + 1] == name);
                    assert forall|j: int| 0 <= j < i + 1 implies is_capability(
                        #[trigger] names[j],
                    ) by {
                        if j > 0 {
                            assert(is_capability(rest[j - 1]));
                        }
                    }
                },
                None => {
                    assert forall|i: int| 0 <= i < names.len() implies #[trigger] names[i]
                        == "durable_idempotency"@ || names[i] == "bounded_memory_read"@ || names[i]
                        == "payload_hex"@ by {
                        if i > 0 {
                            assert(rest[i - 1] == names[i]);
                        }
                    }
                },
            }
        }
    }
}

/// A page is of what is asked for, or of what the limits allow where nothing
/// is, and never of more than 1024 events and 512 KiB.
pub proof fn law_page_is_what_is_asked(limits: Limits, n: u64)
    ensures
        n <= 1024 ==> page_events(limits, Some(n)) == n,
        n > 1024 ==> page_events(limits, Some(n)) == 1024,
        n <= 524_288 ==> page_bytes(limits, Some(n)) == n,
        n > 524_288 ==> page_bytes(limits, Some(n)) == 524_288,
        page_events(limits, None) == page_events(limits, Some(limits.max_read_events as u64)),
        page_bytes(limits, None) == page_bytes(limits, Some(limits.max_read_bytes as u64)),
{
}

/// A reading is made at once from the cursor that is asked for; a following
/// waits as long as is asked, up to half a minute, and one that does not wait
/// is a reading.
pub proof fn law_calls_of_a_page(
    r: FeedCall,
    limits: Limits,
    id: Seq<char>,
    cursor: u64,
    max_events: Option<u64>,
    max_bytes: Option<u64>,
    follow_ms: Option<u64>,
)
    requires
        calls_page(r, limits, id, cursor, max_events, max_bytes, follow_ms),
        max_events matches Some(n) ==> n > 0,
        max_events is None ==> limits.max_read_events > 0,
        max_bytes matches Some(n) ==> n > 0,
        max_bytes is None ==> limits.max_read_bytes > 0,
    ensures
        follow_ms is None || follow_ms == Some(0u64) ==> (r matches FeedCall::Read {
            cursor: c,
            limits: l,
            follow,
        } && c.next_seq == cursor && c.partition == 0 && l.events() == page_events(
            limits,
            max_events,
        ) && l.raw_bytes() == page_bytes(limits, max_bytes) && follow == (follow_ms is Some)),
        follow_ms matches Some(ms) && 0 < ms <= 30_000 ==> (r matches FeedCall::Follow {
            cursor: c,
            limits: l,
            wait,
        } && c.next_seq == cursor && c.partition == 0 && l.events() == page_events(
            limits,
            max_events,
        ) && l.raw_bytes() == page_bytes(limits, max_bytes) && wait.nanos() == follow_ms->0
            * 1_000_000),
        follow_ms matches Some(ms) && ms > 30_000 ==> r is Reply,
{
    law_advertised_limits_are_usable(limits, max_events, max_bytes);
}

/// An append is handed on with the bytes of its key and its payload, as long
/// as the key is 1 to 512 bytes in hexadecimal.
pub proof fn law_append_is_handed_on(
    r: FeedCall,
    limits: Limits,
    id: String,
    log: String,
    idempotency_key: String,
    payload_hex: String,
    payload: Vec<u8>,
)
    requires
        calls(
            r,
            limits,
            Request::Append { id, log, idempotency_key, payload_hex, payload },
        ),
    ensures
        r is Append <==> is_hex(encode_utf8(idempotency_key@)) && 0 < encode_utf8(
            idempotency_key@,
        ).len() <= 1024,
        r matches FeedCall::Append { key, payload: p } ==> p@ == payload@ && key@ == hex_bytes(
            encode_utf8(idempotency_key@),
        ),
        r is Append || r is Reply,
{
}

/// Everything goes well with a close only where every log was released.
pub proof fn law_release_is_told(log: Seq<char>, r: Release)
    ensures
        r is Released <==> release_text(log, r) == log + ": released"@,
        log.is_prefix_of(release_text(log, r)),
{
    reveal_strlit(": released");
    reveal_strlit(": requests remain; release uncertain");
    reveal_strlit(": release uncertain: ");
    reveal_strlit(": release task failed; release uncertain");
    reveal_strlit(": publisher release deadline exceeded; release uncertain");
    let t = release_text(log, r);
    let n = log.len() as int;
    match r {
        Release::Retained => {
            assert(t[n + 4] == 'q');
        },
        Release::Failed(_) => {
            assert(t[n + 9] == ' ');
        },
        Release::TaskFailed => {
            assert(t[n + 9] == ' ');
        },
        Release::TimedOut => {
            assert(t[n + 2] == 'p');
        },
        Release::Released => {},
    }
    assert((log + ": released"@)[n + 9] == 'd');
    assert((log + ": released"@)[n + 2] == 'r');
    assert((log + ": released"@)[n + 4] == 'l');
    assert(t.take(n) =~= log);
}

/// Every event of a page is on the wire, in order, with its sequence, its time
/// and its bytes.
pub proof fn law_page_is_on_the_wire(w: Seq<WireEvent>, events: Seq<LogEvent>, i: int)
    requires
        wires(w, events),
    ensures
        w.len() == events.len(),
        0 <= i < events.len() ==> w[i].seq@ == decimal(events[i].position.seq as nat) && w[i].at@
            == events[i].committed_at.text() && w[i].payload_hex@ == hex_text(events[i].payload@),
{
}

/// A hello for what is offered is answered with the protocol, the operations
/// and the limits; one for anything else names what is missing.
pub proof fn law_hello_is_answered(
    r: Response,
    limits: Limits,
    id: Seq<char>,
    require: Seq<Seq<char>>,
)
    requires
        answers_hello(r, limits, id, require),
    ensures
        r is Success <==> missing_capability(require) is None,
        r matches Response::Success { v, id: i, ok, op, body } ==> v == 1 && i@ == id && ok && op@
            == "hello"@ && body is Hello && body->Hello_protocol == 1
            && body->Hello_capabilities.durable_idempotency
            && body->Hello_capabilities.bounded_memory_read
            && body->Hello_capabilities.payload_hex && body->Hello_capabilities.ops@.len() == 5
            && body->Hello_limits.max_frame_bytes == limits.max_frame_bytes
            && body->Hello_limits.max_concurrent_requests == limits.max_concurrent_requests
            && body->Hello_limits.max_queued_output == limits.max_queued_output
            && body->Hello_limits.max_append_events == limits.max_append_events
            && body->Hello_limits.max_append_bytes == limits.max_append_bytes
            && body->Hello_limits.max_read_events == limits.max_read_events
            && body->Hello_limits.max_read_bytes == limits.max_read_bytes
            && body->Hello_limits.max_follow_timeout_ms == limits.max_follow_timeout_ms
            && body->Hello_limits.max_log_name_len == limits.max_log_name_len
            && body->Hello_limits.max_id_len == limits.max_id_len
            && body->Hello_limits.max_idempotency_key_len == limits.max_idempotency_key_len,
        r matches Response::Failure { id: i, error, .. } ==> i@ == id && error.code
            == ErrorCode::Unsupported && error.capability is Some && error.capability->0@
            == missing_capability(require)->0,
{
    if r is Success {
        let c = (r->body)->Hello_capabilities;
        assert(c.ops@.map_values(|s: &'static str| s@).len() == c.ops@.len());
    }
}

} // verus!
