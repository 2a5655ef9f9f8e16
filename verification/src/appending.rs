//! The order in which an append under a stable key does its work: look the
//! key up, and publish only what is not there.
use vstd::prelude::*;

use crate::append::{stable_receipt, StableItem};
use crate::digest::Digest;
use crate::error::{CoreError, ErrorView, Result};
use crate::feed::MAX_CHUNK_RAW_BYTES;
use crate::group::{
    answer_stable, check_stable_append, entry_of, is_key_conflict, law_retry_outlives_later_appends,
    receipt_of, stable_again, stable_answer, stable_refusal, MAX_STABLE_ATTEMPTS, StableAnswer,
    StableCommit,
};
use crate::hamt::{
    index_grows, index_lookup, lemma_lookup_later, EntryView, IndexHead, IndexStep, LogScope,
    Lookup, LookupView, NodeView, StableIndexRoot,
};
use crate::log::{appendable, AppendRange, FeedMode, StableAppendReceipt};
use crate::refs::RefValue;
use crate::session::{
    check_session_payload, lookup_committed, names_holder, owns, LeaseError, SessionCommit,
    SessionLoss, StableAppendError, Terminal, WriterInstanceId, WriterSession, WriterState,
    MAX_SESSION_ATTEMPTS,
};
use crate::store::Failure;
use crate::table::FetchedView;
use crate::text::hex_text;
use crate::time::Timestamp;

verus! {

// ------------------------------------------------------------------- logs
/// What an append to a log needs next.
#[derive(Clone, Copy, Debug, PartialEq, Eq, Structural)]
pub enum LogAppendPhase {
    /// The head, and the key looked up in its index.
    Lookup,
    /// A publication against that head.
    Commit,
    Done,
}

/// An append of one event under a stable key to a log.
#[derive(Debug)]
pub struct LogAppend {
    pub payload_hash: Digest,
    pub phase: LogAppendPhase,
    pub attempts: u32,
}

impl LogAppend {
    pub open spec fn wf(self) -> bool {
        self.attempts < MAX_STABLE_ATTEMPTS
    }

    pub fn new(feed: FeedMode, payload: &Vec<u8>, payload_hash: Digest) -> (r: Result<Self>)
        ensures
            r is Ok <==> feed == FeedMode::Complete && payload@.len() > 0 && appendable(
                seq![payload@],
            ),
            match r {
                Ok(a) => a.wf() && a.payload_hash == payload_hash && a.phase
                    == LogAppendPhase::Lookup && a.attempts == 0,
                Err(e) => e@ == ErrorView::Rejected(stable_refusal(feed, payload@)),
            },
    {
        match check_stable_append(feed, payload) {
            Err(e) => Err(e),
            Ok(_) => Ok(LogAppend { payload_hash, phase: LogAppendPhase::Lookup, attempts: 0 }),
        }
    }

    /// The key was looked up at the head: the receipt of the event, if it is
    /// there already.
    pub fn on_lookup(&mut self, found: &Lookup) -> (r: Result<Option<StableAppendReceipt>>)
        requires
            old(self).wf(),
            old(self).phase == LogAppendPhase::Lookup,
        ensures
            final(self).wf(),
            final(self).payload_hash == old(self).payload_hash,
            final(self).attempts == old(self).attempts,
            match stable_answer(entry_of(*found), old(self).payload_hash) {
                StableAnswer::Receipt(x) => r matches Ok(Some(y)) && y == x && final(self).phase
                    == LogAppendPhase::Done,
                StableAnswer::Conflict { existing, supplied } => r matches Err(e)
                    && is_key_conflict(e, existing, supplied) && final(self).phase
                    == LogAppendPhase::Done,
                StableAnswer::Append => r matches Ok(None) && final(self).phase
                    == LogAppendPhase::Commit,
            },
    {
        let answer: Result<Option<StableAppendReceipt>> = answer_stable(found, &self.payload_hash);
        self.phase = match &answer {
            Ok(None) => LogAppendPhase::Commit,
            _ => LogAppendPhase::Done,
        };
        answer
    }

    /// The publication came to `outcome`: whether the append is done. A lost
    /// race and an unanswered backend start it over.
    pub fn on_commit(&mut self, outcome: StableCommit) -> (r: core::result::Result<bool, Failure>)
        requires
            old(self).wf(),
            old(self).phase == LogAppendPhase::Commit,
        ensures
            r is Ok ==> final(self).wf(),
            final(self).payload_hash == old(self).payload_hash,
            ({
                let over = old(self).attempts + 1 == MAX_STABLE_ATTEMPTS;
                let again = match outcome {
                    StableCommit::Committed => false,
                    StableCommit::Conflict => true,
                    StableCommit::Failed(f) => f matches Failure::Core(
                        CoreError::BackendUnavailable(_),
                    ),
                };
                if again && !over {
                    &&& r == Ok::<bool, Failure>(false)
                    &&& final(self).phase == LogAppendPhase::Lookup
                    &&& final(self).attempts == old(self).attempts + 1
                } else {
                    &&& final(self).phase == LogAppendPhase::Done
                    &&& final(self).attempts == old(self).attempts
                    &&& match outcome {
                        StableCommit::Committed => r == Ok::<bool, Failure>(true),
                        StableCommit::Conflict => r matches Err(Failure::AppendNotConverged),
                        StableCommit::Failed(f) => if again {
                            r matches Err(Failure::AppendNotConverged)
                        } else {
                            r == Err::<bool, Failure>(f)
                        },
                    }
                }
            }),
    {
        let answer: core::result::Result<bool, Failure> = stable_again(self.attempts + 1, outcome);
        match &answer {
            Ok(false) => {
                self.phase = LogAppendPhase::Lookup;
                self.attempts = self.attempts + 1;
            },
            _ => {
                self.phase = LogAppendPhase::Done;
            },
        }
        answer
    }
}

// ------------------------------------------------------------------ lease
/// What the acquisition of a lease needs next.
#[derive(Clone, Copy, Debug, PartialEq, Eq, Structural)]
pub enum LeasePhase {
    /// A claim of the lease.
    Claim,
    /// The head, to confirm the claim.
    Confirm { epoch: u64 },
    /// A pause, for somebody else holds the lease.
    Wait { owner: WriterInstanceId, until: Timestamp },
    Done,
}

/// The acquisition of the lease of a feed by a session.
#[derive(Debug)]
pub struct Acquisition {
    pub phase: LeasePhase,
}

impl Acquisition {
    /// Begins, unless the session has the lease: then its epoch.
    pub fn begin(session: &mut WriterSession, now: Timestamp) -> (r: core::result::Result<
        core::result::Result<u64, Acquisition>,
        LeaseError,
    >)
        requires
            old(session).policy.ok(),
            crate::time::is_moment(now@ + old(session).policy.clock_slack.nanos),
        ensures
            match old(session).state {
                WriterState::Active { epoch, lease_until } => if crate::session::lapsed(
                    lease_until,
                    now,
                    old(session).policy,
                ) {
                    &&& r matches Err(LeaseError::ReacquireRequired { cause }) && cause
                        == SessionLoss::LeaseExpired
                    &&& *final(session) == old(session).after_loss(SessionLoss::LeaseExpired)
                } else {
                    &&& r matches Ok(Ok(e)) && e == epoch
                    &&& *final(session) == *old(session)
                },
                WriterState::Lost { cause, .. } => {
                    &&& r matches Err(LeaseError::ReacquireRequired { cause: c }) && c == cause
                    &&& *final(session) == *old(session)
                },
                WriterState::Closed => {
                    &&& r matches Err(LeaseError::ReacquireRequired { cause }) && cause
                        == SessionLoss::OwnerChanged
                    &&& *final(session) == *old(session)
                },
                _ => {
                    &&& r matches Ok(Err(a)) && a.phase == LeasePhase::Claim
                    &&& *final(session) == (WriterSession {
                        state: WriterState::Acquiring { held_until: None },
                        ..*old(session)
                    })
                },
            },
    {
        match session.active_epoch(now) {
            Err(e) => Err(e),
            Ok(Some(epoch)) => Ok(Ok(epoch)),
            Ok(None) => {
                session.begin_acquire();
                Ok(Err(Acquisition { phase: LeasePhase::Claim }))
            },
        }
    }

    /// The claim came to `claimed`.
    pub fn on_claim(&mut self, claimed: core::result::Result<u64, Failure>) -> (r:
        core::result::Result<(), LeaseError>)
        requires
            old(self).phase == LeasePhase::Claim,
        ensures
            match claimed {
                Ok(epoch) => r is Ok && final(self).phase == (LeasePhase::Confirm { epoch }),
                Err(Failure::Core(CoreError::LeaseHeld { holder, until })) => r is Ok && (
                final(self).phase matches LeasePhase::Wait { owner, until: end } && names_holder(
                    owner,
                    end,
                    holder@,
                    until@,
                )),
                Err(Failure::Core(CoreError::Fenced { caller, live })) => final(self).phase
                    == LeasePhase::Done && r == Err::<(), LeaseError>(
                    LeaseError::Fenced { session_epoch: caller, live_epoch: live },
                ),
                Err(Failure::Core(CoreError::LeaseExpired)) => final(self).phase == LeasePhase::Done
                    && r == Err::<(), LeaseError>(
                    LeaseError::ReacquireRequired { cause: SessionLoss::LeaseExpired },
                ),
                Err(_) => final(self).phase == LeasePhase::Done && r matches Err(
                    LeaseError::Unavailable,
                ),
            },
    {
        match WriterSession::claim_step(claimed) {
            crate::session::ClaimStep::Taken { epoch } => {
                self.phase = LeasePhase::Confirm { epoch };
                Ok(())
            },
            crate::session::ClaimStep::Held { owner, until } => {
                self.phase = LeasePhase::Wait { owner, until };
                Ok(())
            },
            crate::session::ClaimStep::Failed(e) => {
                self.phase = LeasePhase::Done;
                Err(e)
            },
        }
    }

    /// The pause is over, or the time for it is: then the holder is named.
    pub fn on_wait(&mut self, too_late: bool) -> (r: core::result::Result<(), LeaseError>)
        requires
            old(self).phase is Wait,
        ensures
            ({
                let p = old(self).phase;
                if too_late {
                    &&& final(self).phase == LeasePhase::Done
                    &&& r == Err::<(), LeaseError>(
                        LeaseError::LeaseHeld { owner: p->owner, until: p->until },
                    )
                } else {
                    r is Ok && final(self).phase == LeasePhase::Claim
                }
            }),
    {
        if let LeasePhase::Wait { owner, until } = self.phase {
            if too_late {
                self.phase = LeasePhase::Done;
                return Err(LeaseError::LeaseHeld { owner, until });
            }
        }
        self.phase = LeasePhase::Claim;
        Ok(())
    }

    /// The head after the claim. The session is active only if the head
    /// says so.
    pub fn on_head(&mut self, session: &mut WriterSession, head: Option<&RefValue>) -> (r:
        core::result::Result<u64, LeaseError>)
        requires
            old(self).phase is Confirm,
            old(session).state is Acquiring,
        ensures
            final(self).phase == LeasePhase::Done,
            ({
                let epoch = old(self).phase->epoch;
                match head {
                    Some(v) => match v.lease {
                        None => r matches Err(LeaseError::Unavailable) && *final(session) == *old(
                            session,
                        ),
                        Some(l) => if l.writer@ == hex_text(old(session).instance@) && v.epoch
                            == epoch {
                            &&& r == Ok::<u64, LeaseError>(epoch)
                            &&& *final(session) == (WriterSession {
                                state: WriterState::Active { epoch, lease_until: l.lease_until },
                                ..*old(session)
                            })
                        } else {
                            &&& r == Err::<u64, LeaseError>(
                                LeaseError::ReacquireRequired { cause: SessionLoss::OwnerChanged },
                            )
                            &&& *final(session) == old(session).after_loss(
                                SessionLoss::OwnerChanged,
                            )
                        },
                    },
                    None => r matches Err(LeaseError::Unavailable) && *final(session) == *old(
                        session,
                    ),
                }
            }),
    {
        let epoch: u64 = match self.phase {
            LeasePhase::Confirm { epoch } => epoch,
            _ => 0,
        };
        self.phase = LeasePhase::Done;
        session.on_claimed(epoch, head)
    }
}

// ---------------------------------------------------------------- sessions
/// What an append through a session needs next.
#[derive(Clone, Copy, Debug, PartialEq, Eq, Structural)]
pub enum SessionAppendPhase {
    /// The head, and the key looked up in its index.
    Lookup,
    /// The lease of the feed.
    Acquire,
    /// The head, to see that the lease is still held.
    Head { epoch: u64 },
    /// The key looked up in the index of that head.
    LookupAgain { epoch: u64 },
    /// A publication against that head.
    Commit { epoch: u64 },
    Done,
}

/// An append of one event under a stable key through a session.
#[derive(Debug)]
pub struct SessionAppend {
    pub payload_hash: Digest,
    pub phase: SessionAppendPhase,
    pub attempts: u32,
}

/// How an append ends that its caller gave up on.
pub fn append_terminal(t: Terminal) -> (r: StableAppendError)
    ensures
        r == match t {
            Terminal::Cancelled => StableAppendError::Cancelled,
            Terminal::DeadlineExceeded => StableAppendError::DeadlineExceeded,
        },
{
    match t {
        Terminal::Cancelled => StableAppendError::Cancelled,
        Terminal::DeadlineExceeded => StableAppendError::DeadlineExceeded,
    }
}

/// Whether an append may go from one phase to the next.
pub open spec fn append_moves(from: SessionAppendPhase, to: SessionAppendPhase) -> bool {
    match (from, to) {
        (_, SessionAppendPhase::Done) => true,
        (SessionAppendPhase::Lookup, SessionAppendPhase::Acquire) => true,
        (SessionAppendPhase::Acquire, SessionAppendPhase::Head { .. }) => true,
        (
            SessionAppendPhase::Head { epoch: a },
            SessionAppendPhase::LookupAgain { epoch: b },
        ) => a == b,
        (
            SessionAppendPhase::LookupAgain { epoch: a },
            SessionAppendPhase::Commit { epoch: b },
        ) => a == b,
        (SessionAppendPhase::Commit { .. }, SessionAppendPhase::Lookup) => true,
        _ => false,
    }
}

/// Where an append goes after a lookup: it is done unless the key is absent.
/// Then it needs the lease, or, if it has looked under the lease, publishes.
pub open spec fn phase_after(from: SessionAppendPhase, answer: StableAnswer) -> SessionAppendPhase {
    match (answer, from) {
        (
            StableAnswer::Append,
            SessionAppendPhase::LookupAgain { epoch },
        ) => SessionAppendPhase::Commit { epoch },
        (StableAnswer::Append, _) => SessionAppendPhase::Acquire,
        _ => SessionAppendPhase::Done,
    }
}

impl SessionAppend {
    pub open spec fn wf(self) -> bool {
        self.attempts < MAX_SESSION_ATTEMPTS
    }

    pub open spec fn moved(self, before: SessionAppend, phase: SessionAppendPhase) -> bool {
        &&& self == (SessionAppend { phase, ..before })
        &&& append_moves(before.phase, phase)
    }

    /// Whether a lookup that found `found` leads here from `before` with `r`.
    pub open spec fn looked_up(
        self,
        before: SessionAppend,
        found: Option<EntryView>,
        r: core::result::Result<Option<StableAppendReceipt>, StableAppendError>,
    ) -> bool {
        let answer = stable_answer(found, before.payload_hash);
        &&& self.moved(before, phase_after(before.phase, answer))
        &&& match answer {
            StableAnswer::Receipt(x) => r matches Ok(Some(y)) && y == x,
            StableAnswer::Conflict { existing, supplied } => r == Err::<
                Option<StableAppendReceipt>,
                StableAppendError,
            >(StableAppendError::StableKeyConflict { existing, supplied }),
            StableAnswer::Append => r matches Ok(None),
        }
    }

    pub fn new(payload: &Vec<u8>, payload_hash: Digest, ended: Option<Terminal>) -> (r:
        core::result::Result<Self, StableAppendError>)
        ensures
            if payload@.len() == 0 || payload@.len() > MAX_CHUNK_RAW_BYTES {
                r matches Err(StableAppendError::InvalidInput)
            } else {
                match ended {
                    Some(Terminal::Cancelled) => r matches Err(StableAppendError::Cancelled),
                    Some(Terminal::DeadlineExceeded) => r matches Err(
                        StableAppendError::DeadlineExceeded,
                    ),
                    None => r matches Ok(a) && a.wf() && a == (SessionAppend {
                        payload_hash,
                        phase: SessionAppendPhase::Lookup,
                        attempts: 0,
                    }),
                }
            },
    {
        match check_session_payload(payload) {
            Err(e) => {
                return Err(e);
            },
            Ok(_) => {},
        }
        match ended {
            Some(t) => Err(append_terminal(t)),
            None => Ok(
                SessionAppend { payload_hash, phase: SessionAppendPhase::Lookup, attempts: 0 },
            ),
        }
    }

    /// The key was looked up: the receipt of the event, if it is there
    /// already.
    pub fn on_lookup(&mut self, found: &Lookup) -> (r: core::result::Result<
        Option<StableAppendReceipt>,
        StableAppendError,
    >)
        requires
            old(self).wf(),
            old(self).phase is Lookup || old(self).phase is LookupAgain,
        ensures
            final(self).wf(),
            final(self).looked_up(*old(self), entry_of(*found), r),
    {
        match lookup_committed(found, &self.payload_hash) {
            Ok(None) => {
                self.phase = match self.phase {
                    SessionAppendPhase::LookupAgain { epoch } => SessionAppendPhase::Commit {
                        epoch,
                    },
                    _ => SessionAppendPhase::Acquire,
                };
                Ok(None)
            },
            Ok(Some(x)) => {
                self.phase = SessionAppendPhase::Done;
                Ok(Some(x))
            },
            Err(e) => {
                self.phase = SessionAppendPhase::Done;
                Err(e)
            },
        }
    }

    /// The acquisition of the lease came to `acquired`.
    pub fn on_acquired(&mut self, acquired: core::result::Result<u64, LeaseError>) -> (r:
        core::result::Result<(), StableAppendError>)
        requires
            old(self).wf(),
            old(self).phase is Acquire,
        ensures
            final(self).wf(),
            match acquired {
                Ok(epoch) => r is Ok && final(self).moved(
                    *old(self),
                    SessionAppendPhase::Head { epoch },
                ),
                Err(e) => r == Err::<(), StableAppendError>(StableAppendError::Lease(e))
                    && final(self).moved(*old(self), SessionAppendPhase::Done),
            },
    {
        match acquired {
            Ok(epoch) => {
                self.phase = SessionAppendPhase::Head { epoch };
                Ok(())
            },
            Err(e) => {
                self.phase = SessionAppendPhase::Done;
                Err(StableAppendError::Lease(e))
            },
        }
    }

    /// The head after the lease was acquired. A session that does not hold
    /// the lease any more is lost.
    pub fn on_head(
        &mut self,
        session: &mut WriterSession,
        head: Option<&RefValue>,
        now: Timestamp,
    ) -> (r: core::result::Result<(), StableAppendError>)
        requires
            old(self).wf(),
            old(self).phase is Head,
        ensures
            final(self).wf(),
            match head {
                None => {
                    &&& r matches Err(StableAppendError::Unavailable)
                    &&& *final(session) == *old(session)
                    &&& final(self).moved(*old(self), SessionAppendPhase::Done)
                },
                Some(v) => {
                    let epoch = old(self).phase->Head_epoch;
                    if owns(*v, hex_text(old(session).instance@), epoch, now) {
                        &&& r is Ok
                        &&& *final(session) == *old(session)
                        &&& final(self).moved(
                            *old(self),
                            SessionAppendPhase::LookupAgain { epoch },
                        )
                    } else {
                        &&& r == Err::<(), StableAppendError>(
                            StableAppendError::Lease(
                                LeaseError::ReacquireRequired { cause: SessionLoss::OwnerChanged },
                            ),
                        )
                        &&& *final(session) == old(session).after_loss(SessionLoss::OwnerChanged)
                        &&& final(self).moved(*old(self), SessionAppendPhase::Done)
                    }
                },
            },
    {
        let epoch: u64 = match self.phase {
            SessionAppendPhase::Head { epoch } => epoch,
            _ => 0,
        };
        match session.check_owned(head, epoch, now) {
            Ok(_) => {
                self.phase = SessionAppendPhase::LookupAgain { epoch };
                Ok(())
            },
            Err(e) => {
                self.phase = SessionAppendPhase::Done;
                Err(e)
            },
        }
    }

    /// The publication came to `outcome`: whether the append is done. A lost
    /// race starts it over, as long as its caller waits.
    pub fn on_commit(
        &mut self,
        session: &mut WriterSession,
        outcome: SessionCommit,
        ended: Option<Terminal>,
    ) -> (r: core::result::Result<bool, StableAppendError>)
        requires
            old(self).wf(),
            old(self).phase is Commit,
        ensures
            final(self).wf(),
            match outcome {
                SessionCommit::Committed => {
                    &&& r == Ok::<bool, StableAppendError>(true)
                    &&& *final(session) == *old(session)
                    &&& final(self).moved(*old(self), SessionAppendPhase::Done)
                },
                SessionCommit::Conflict => {
                    &&& *final(session) == *old(session)
                    &&& if old(self).attempts + 1 == MAX_SESSION_ATTEMPTS {
                        &&& r matches Err(StableAppendError::Unavailable)
                        &&& final(self).moved(*old(self), SessionAppendPhase::Done)
                    } else {
                        match ended {
                            Some(Terminal::Cancelled) => r matches Err(
                                StableAppendError::Cancelled,
                            ) && final(self).moved(*old(self), SessionAppendPhase::Done),
                            Some(Terminal::DeadlineExceeded) => r matches Err(
                                StableAppendError::DeadlineExceeded,
                            ) && final(self).moved(*old(self), SessionAppendPhase::Done),
                            None => r == Ok::<bool, StableAppendError>(false) && *final(self) == (
                            SessionAppend {
                                phase: SessionAppendPhase::Lookup,
                                attempts: (old(self).attempts + 1) as u32,
                                ..*old(self)
                            }),
                        }
                    }
                },
                SessionCommit::Failed(StableAppendError::Lease(LeaseError::LeaseHeld { .. })) => {
                    &&& r == Err::<bool, StableAppendError>(
                        StableAppendError::Lease(
                            LeaseError::ReacquireRequired { cause: SessionLoss::OwnerChanged },
                        ),
                    )
                    &&& *final(session) == old(session).after_loss(SessionLoss::OwnerChanged)
                    &&& final(self).moved(*old(self), SessionAppendPhase::Done)
                },
                SessionCommit::Failed(e) => {
                    &&& r == Err::<bool, StableAppendError>(e)
                    &&& *final(session) == match e {
                        StableAppendError::Lease(LeaseError::Fenced { live_epoch, .. }) => old(
                            session,
                        ).after_loss(SessionLoss::Fenced { live_epoch }),
                        StableAppendError::Lease(LeaseError::ReacquireRequired { cause }) => old(
                            session,
                        ).after_loss(cause),
                        _ => *old(session),
                    }
                    &&& final(self).moved(*old(self), SessionAppendPhase::Done)
                },
            },
    {
        match session.on_commit(outcome) {
            Err(e) => {
                self.phase = SessionAppendPhase::Done;
                Err(e)
            },
            Ok(true) => {
                self.phase = SessionAppendPhase::Done;
                Ok(true)
            },
            Ok(false) => {
                if self.attempts + 1 == MAX_SESSION_ATTEMPTS {
                    self.phase = SessionAppendPhase::Done;
                    return Err(StableAppendError::Unavailable);
                }
                if let Some(t) = ended {
                    self.phase = SessionAppendPhase::Done;
                    return Err(append_terminal(t));
                }
                self.phase = SessionAppendPhase::Lookup;
                self.attempts = self.attempts + 1;
                Ok(false)
            },
        }
    }
}

/// An event that was appended is not appended again. A later append under its
/// key, however many others came between, is done at its first lookup: with
/// the receipt of the first for the same bytes, and with a conflict for
/// others. It neither takes the lease nor publishes, so that the head stays
/// where it is.
pub proof fn law_second_append_ends_at_the_lookup(
    m: Map<Digest, FetchedView<NodeView>>,
    scope: LogScope,
    root: StableIndexRoot,
    steps: Seq<IndexStep>,
    j: int,
    head: IndexHead,
    again: SessionAppend,
)
    requires
        index_grows(m, scope, root, steps),
        0 <= j < steps.len(),
        steps.last().at.generation <= head.generation,
        steps.last().at.head_seq <= head.head_seq,
    ensures
        index_lookup(m, scope, head, steps.last().root, steps[j].entry.key) matches
            LookupView::Found(e) && ({
            let answer = stable_answer(Some(e), again.payload_hash);
            &&& phase_after(again.phase, answer) is Done
            &&& answer == if again.payload_hash == steps[j].entry.payload_hash {
                StableAnswer::Receipt(receipt_of(steps[j].entry))
            } else {
                StableAnswer::Conflict {
                    existing: steps[j].entry.payload_hash,
                    supplied: again.payload_hash,
                }
            }
        }),
{
    law_retry_outlives_later_appends(m, scope, root, steps, j, again.payload_hash);
    lemma_lookup_later(
        m,
        scope,
        steps.last().at,
        head,
        steps.last().root,
        steps[j].entry.key,
    );
}

/// Appending one event twice appends it once, through this session or any
/// other of the feed. The first append put the receipt of its event into the
/// index, and others may have followed. Then the first lookup of a second
/// append under the key ends it: with the receipt that the first one was
/// given, if the bytes are the same, and else with a conflict that names both
/// hashes. Nothing is published, so that the head stays where it is.
pub proof fn law_appending_twice_appends_once(
    m: Map<Digest, FetchedView<NodeView>>,
    scope: LogScope,
    root: StableIndexRoot,
    steps: Seq<IndexStep>,
    j: int,
    item: StableItem,
    head_seq: u64,
    head: IndexHead,
    before: SessionAppend,
    found: Lookup,
    r: core::result::Result<Option<StableAppendReceipt>, StableAppendError>,
    after: SessionAppend,
)
    requires
        index_grows(m, scope, root, steps),
        0 <= j < steps.len(),
        head_seq < u64::MAX,
        steps[j].entry == stable_receipt(item, head_seq, steps[j].at.generation),
        steps.last().at.generation <= head.generation,
        steps.last().at.head_seq <= head.head_seq,
        before.phase is Lookup,
        match index_lookup(m, scope, head, steps.last().root, item.key@) {
            LookupView::Found(e) => entry_of(found) == Some(e),
            LookupView::Absent => found is Absent,
            _ => false,
        },
        after.looked_up(before, entry_of(found), r),
    ensures
        after.phase is Done,
        if before.payload_hash == item.payload_hash {
            r == Ok::<Option<StableAppendReceipt>, StableAppendError>(
                Some(
                    StableAppendReceipt {
                        payload_hash: item.payload_hash,
                        range: AppendRange {
                            first: (head_seq + 1) as u64,
                            last: (head_seq + 1) as u64,
                        },
                        generation: steps[j].at.generation,
                    },
                ),
            )
        } else {
            r == Err::<Option<StableAppendReceipt>, StableAppendError>(
                StableAppendError::StableKeyConflict {
                    existing: item.payload_hash,
                    supplied: before.payload_hash,
                },
            )
        },
{
    law_second_append_ends_at_the_lookup(m, scope, root, steps, j, head, before);
}

/// An event is published only under an epoch that was acquired, that the
/// head confirmed after that, and at a head at which its key was then looked
/// up and not found.
pub proof fn law_publishes_only_after_lookup(phases: Seq<SessionAppendPhase>, i: int, epoch: u64)
    requires
        phases.len() > 0,
        phases[0] == SessionAppendPhase::Lookup,
        forall|k: int|
            0 <= k < phases.len() - 1 ==> append_moves(#[trigger] phases[k], phases[k + 1]),
        0 <= i < phases.len(),
        phases[i] == (SessionAppendPhase::Commit { epoch }),
    ensures
        i >= 4,
        phases[i - 1] == (SessionAppendPhase::LookupAgain { epoch }),
        phases[i - 2] == (SessionAppendPhase::Head { epoch }),
        phases[i - 3] == SessionAppendPhase::Acquire,
        phases[i - 4] == SessionAppendPhase::Lookup,
{
    assert(i > 0);
    assert(append_moves(phases[i - 1], phases[i - 1 + 1]));
    assert(i > 1);
    assert(append_moves(phases[i - 2], phases[i - 2 + 1]));
    assert(i > 2);
    assert(append_moves(phases[i - 3], phases[i - 3 + 1]));
    assert(i > 3);
    assert(append_moves(phases[i - 4], phases[i - 4 + 1]));
}

/// A lookup that finds the key ends the append, and one that does not leads
/// on: to the lease at first, and to the commit under the epoch that was
/// confirmed after that. Nothing else of the append changes.
pub proof fn law_lookup_leads_on(
    before: SessionAppend,
    after: SessionAppend,
    found: Option<EntryView>,
    r: core::result::Result<Option<StableAppendReceipt>, StableAppendError>,
)
    requires
        before.phase is Lookup || before.phase is LookupAgain,
        after.looked_up(before, found, r),
    ensures
        found is Some <==> after.phase is Done,
        found is None && before.phase is Lookup ==> after.phase is Acquire,
        found is None ==> (before.phase matches SessionAppendPhase::LookupAgain { epoch }
            ==> after.phase == (SessionAppendPhase::Commit { epoch })),
        found is None ==> r == Ok::<Option<StableAppendReceipt>, StableAppendError>(None),
        found matches Some(e) ==> {
            &&& e.payload_hash == before.payload_hash ==> r == Ok::<
                Option<StableAppendReceipt>,
                StableAppendError,
            >(
                Some(
                    StableAppendReceipt {
                        payload_hash: e.payload_hash,
                        range: AppendRange { first: e.first, last: e.last },
                        generation: e.generation,
                    },
                ),
            )
            &&& e.payload_hash != before.payload_hash ==> r == Err::<
                Option<StableAppendReceipt>,
                StableAppendError,
            >(
                StableAppendError::StableKeyConflict {
                    existing: e.payload_hash,
                    supplied: before.payload_hash,
                },
            )
        },
        after.payload_hash == before.payload_hash,
        after.attempts == before.attempts,
{
}

} // verus!
