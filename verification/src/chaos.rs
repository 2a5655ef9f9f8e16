//! The judgement of a chaos run: a store is driven through a faulty backend,
//! and after every operation the ref is read without faults and held against
//! what was seen before.
use vstd::prelude::*;

use crate::error::CoreError;
use crate::refs::RefValue;
use crate::session::{failure_message, failure_text};
use crate::store::Failure;
use crate::text::{contains_text, decimal, decimal_text, has_part, join2, join3, text_views};

verus! {

/// What a chaos run came to. It passes only without violations.
#[derive(Debug)]
pub struct ChaosReport {
    pub iterations: u64,
    pub acked: u64,
    pub clean_failures: u64,
    pub injected_faults: u64,
    pub ambiguous_acks: u64,
    pub violations: Vec<String>,
}

/// An operation of a chaos run.
#[derive(Clone, Copy, Debug, PartialEq, Eq, Structural)]
pub enum ChaosOp {
    SetTarget { fence: Option<u64> },
    Claim,
    Steal,
    Release { epoch: u64 },
    /// A write behind an earlier fence: it must be refused.
    StaleFence { fence: u64, live: u64 },
    Idle,
}

/// The last state that was seen to be committed.
#[derive(Clone, Copy, Debug, PartialEq, Eq, Structural)]
pub struct Committed {
    pub generation: u64,
    pub epoch: u64,
}

/// The operation for a draw from 0 to 5, given the live epoch and whether
/// the ref is leased.
pub fn pick_op(draw: u8, live_epoch: u64, leased: bool) -> (r: ChaosOp)
    ensures
        r == if draw <= 1 {
            ChaosOp::SetTarget {
                fence: if leased {
                    Some(live_epoch)
                } else {
                    None
                },
            }
        } else if draw == 2 {
            ChaosOp::Claim
        } else if draw == 3 {
            ChaosOp::Steal
        } else if draw == 4 {
            if leased {
                ChaosOp::Release { epoch: live_epoch }
            } else {
                ChaosOp::Idle
            }
        } else if live_epoch > 0 {
            ChaosOp::StaleFence { fence: (live_epoch - 1) as u64, live: live_epoch }
        } else {
            ChaosOp::Idle
        },
{
    if draw <= 1 {
        let fence: Option<u64> = if leased {
            Some(live_epoch)
        } else {
            None
        };
        ChaosOp::SetTarget { fence }
    } else if draw == 2 {
        ChaosOp::Claim
    } else if draw == 3 {
        ChaosOp::Steal
    } else if draw == 4 {
        if leased {
            ChaosOp::Release { epoch: live_epoch }
        } else {
            ChaosOp::Idle
        }
    } else if live_epoch > 0 {
        ChaosOp::StaleFence { fence: live_epoch - 1, live: live_epoch }
    } else {
        ChaosOp::Idle
    }
}

pub open spec fn fenced(f: Failure) -> bool {
    f matches Failure::Core(e) && e is Fenced
}

/// Whether a failure is that of a writer behind the fence.
pub fn is_fenced(f: &Failure) -> (r: bool)
    ensures
        r == fenced(*f),
{
    match f {
        Failure::Core(CoreError::Fenced { .. }) => true,
        _ => false,
    }
}

/// `iter <i>: `.
pub open spec fn iteration_text(i: u64) -> Seq<char> {
    "iter "@ + decimal(i as nat) + ": "@
}

fn iteration_prefix(i: u64) -> (r: String)
    ensures
        r@ == iteration_text(i),
{
    let n: String = decimal_text(i);
    join3("iter ", &n, ": ")
}

/// Whether an operation counts as done.
pub open spec fn counts_as_done(op: ChaosOp, result: core::result::Result<(), Failure>) -> bool {
    match result {
        Ok(_) => true,
        Err(f) => op is StaleFence && fenced(f),
    }
}

/// Whether a failure was injected.
pub open spec fn was_injected(op: ChaosOp, result: core::result::Result<(), Failure>) -> bool {
    !counts_as_done(op, result) && has_part(failure_message(result->Err_0), "injected"@)
}

/// The violation in the outcome of an operation.
pub open spec fn outcome_violation(
    i: u64,
    op: ChaosOp,
    result: core::result::Result<(), Failure>,
) -> Seq<Seq<char>> {
    match (op, result) {
        (ChaosOp::StaleFence { fence, live }, Ok(_)) => seq![
            iteration_text(i) + "stale fence "@ + decimal(fence as nat) + (" accepted at live epoch "@
                + decimal(live as nat)),
        ],
        _ => Seq::empty(),
    }
}

/// What two numbers in a row of which the second is smaller are reported as.
pub open spec fn backwards_text(i: u64, what: Seq<char>, before: u64, now: u64) -> Seq<char> {
    iteration_text(i) + what + decimal(before as nat) + (" -> "@ + decimal(now as nat))
}

/// The violations in a state that was read after an operation.
pub open spec fn state_violations(
    i: u64,
    committed: Committed,
    read: core::result::Result<Option<RefValue>, Failure>,
) -> Seq<Seq<char>> {
    match read {
        Ok(Some(v)) => (if v.generation < committed.generation {
            seq![
                backwards_text(
                    i,
                    "generation went backwards "@,
                    committed.generation,
                    v.generation,
                ),
            ]
        } else {
            Seq::empty()
        }) + (if v.epoch < committed.epoch {
            seq![backwards_text(i, "epoch went backwards "@, committed.epoch, v.epoch)]
        } else {
            Seq::empty()
        }),
        Ok(None) => if committed.generation > 0 {
            seq![iteration_text(i) + "committed ref disappeared"@]
        } else {
            Seq::empty()
        },
        Err(f) => seq![iteration_text(i) + "committed ref unreadable: "@ + failure_message(f)],
    }
}

/// The violations in a journal whose generations do not fall strictly from
/// `last` on.
pub open spec fn journal_violations(generations: Seq<u64>, last: u64) -> Seq<Seq<char>>
    decreases generations.len(),
{
    if generations.len() == 0 {
        Seq::empty()
    } else {
        let g = generations[0];
        (if g >= last {
            seq![
                "commit chain: generations not strictly decreasing from head ("@ + decimal(
                    last as nat,
                ) + " then "@ + (decimal(g as nat) + ")"@),
            ]
        } else {
            Seq::empty()
        }) + journal_violations(generations.drop_first(), g)
    }
}

impl ChaosReport {
    pub open spec fn found(self) -> Seq<Seq<char>> {
        text_views(self.violations@)
    }

    pub fn new(iterations: u64) -> (r: Self)
        ensures
            r.iterations == iterations,
            r.acked == 0,
            r.clean_failures == 0,
            r.injected_faults == 0,
            r.ambiguous_acks == 0,
            r.found() == Seq::<Seq<char>>::empty(),
    {
        let r: ChaosReport = ChaosReport {
            iterations,
            acked: 0,
            clean_failures: 0,
            injected_faults: 0,
            ambiguous_acks: 0,
            violations: Vec::new(),
        };
        assert(r.found() =~= Seq::empty());
        r
    }

    fn add(&mut self, text: String)
        ensures
            final(self).found() == old(self).found().push(text@),
            *final(self) == (ChaosReport { violations: final(self).violations, ..*old(self) }),
    {
        let ghost before = self.found();
        self.violations.push(text);
        assert(self.found() =~= before.push(text@));
    }

    /// Counts the outcome of an operation, and says whether its failure was
    /// injected.
    pub fn note_outcome(
        &mut self,
        i: u64,
        op: ChaosOp,
        result: &core::result::Result<(), Failure>,
    ) -> (r: bool)
        requires
            old(self).acked < u64::MAX,
            old(self).clean_failures < u64::MAX,
        ensures
            r == was_injected(op, *result),
            final(self).found() == old(self).found() + outcome_violation(i, op, *result),
            final(self).acked == old(self).acked + if counts_as_done(op, *result) {
                1int
            } else {
                0
            },
            final(self).clean_failures == old(self).clean_failures + if counts_as_done(op, *result)
                || was_injected(op, *result) {
                0int
            } else {
                1
            },
            final(self).iterations == old(self).iterations,
            final(self).injected_faults == old(self).injected_faults,
            final(self).ambiguous_acks == old(self).ambiguous_acks,
    {
        let done: bool = match (op, result) {
            (ChaosOp::StaleFence { fence, live }, Ok(_)) => {
                let head: String = iteration_prefix(i);
                let f: String = decimal_text(fence);
                let l: String = decimal_text(live);
                let tail: String = join2(" accepted at live epoch ", &l);
                let mut text: String = join3(&head, "stale fence ", &f);
                text.append(&tail);
                self.add(text);
                true
            },
            (_, Ok(_)) => true,
            (ChaosOp::StaleFence { .. }, Err(f)) => is_fenced(f),
            (_, Err(_)) => false,
        };
        assert(self.found() =~= old(self).found() + outcome_violation(i, op, *result));
        if done {
            self.acked = self.acked + 1;
            return false;
        }
        match result {
            Ok(_) => false,
            Err(f) => {
                let text: String = failure_text(f);
                if contains_text(&text, "injected") {
                    true
                } else {
                    self.clean_failures = self.clean_failures + 1;
                    false
                }
            },
        }
    }

    /// Holds the state after an operation against the last one that was seen.
    /// A state that advanced although its operation failed by injection was
    /// acknowledged to nobody.
    pub fn note_state(
        &mut self,
        i: u64,
        committed: Committed,
        read: &core::result::Result<Option<RefValue>, Failure>,
        injected: bool,
    ) -> (r: Committed)
        requires
            old(self).ambiguous_acks < u64::MAX,
        ensures
            final(self).found() == old(self).found() + state_violations(i, committed, *read),
            r == match read {
                Ok(Some(v)) => Committed { generation: v.generation, epoch: v.epoch },
                _ => committed,
            },
            final(self).ambiguous_acks == old(self).ambiguous_acks + if injected && (read matches Ok(
                Some(v),
            ) && v.generation > committed.generation) {
                1int
            } else {
                0
            },
            final(self).acked == old(self).acked,
            final(self).clean_failures == old(self).clean_failures,
            final(self).iterations == old(self).iterations,
            final(self).injected_faults == old(self).injected_faults,
    {
        let head: String = iteration_prefix(i);
        match read {
            Ok(Some(v)) => {
                if v.generation < committed.generation {
                    let a: String = decimal_text(committed.generation);
                    let b: String = decimal_text(v.generation);
                    let tail: String = join2(" -> ", &b);
                    let mut text: String = join3(&head, "generation went backwards ", &a);
                    text.append(&tail);
                    self.add(text);
                }
                if v.epoch < committed.epoch {
                    let a: String = decimal_text(committed.epoch);
                    let b: String = decimal_text(v.epoch);
                    let tail: String = join2(" -> ", &b);
                    let mut text: String = join3(&head, "epoch went backwards ", &a);
                    text.append(&tail);
                    self.add(text);
                }
                assert(self.found() =~= old(self).found() + state_violations(i, committed, *read));
                if v.generation > committed.generation && injected {
                    self.ambiguous_acks = self.ambiguous_acks + 1;
                }
                Committed { generation: v.generation, epoch: v.epoch }
            },
            Ok(None) => {
                if committed.generation > 0 {
                    self.add(join2(&head, "committed ref disappeared"));
                }
                assert(self.found() =~= old(self).found() + state_violations(i, committed, *read));
                committed
            },
            Err(f) => {
                let why: String = failure_text(f);
                self.add(join3(&head, "committed ref unreadable: ", &why));
                assert(self.found() =~= old(self).found() + state_violations(i, committed, *read));
                committed
            },
        }
    }

    /// Audits the journal: its generations fall strictly from the head on.
    pub fn audit(&mut self, journal: &core::result::Result<Vec<u64>, Failure>)
        ensures
            final(self).found() == old(self).found() + match journal {
                Ok(g) => journal_violations(g@, u64::MAX),
                Err(f) => seq!["journal walk failed: "@ + failure_message(*f)],
            },
            *final(self) == (ChaosReport { violations: final(self).violations, ..*old(self) }),
    {
        match journal {
            Err(f) => {
                let why: String = failure_text(f);
                self.add(join2("journal walk failed: ", &why));
                assert(self.found() =~= old(self).found() + seq![
                    "journal walk failed: "@ + failure_message(*f),
                ]);
            },
            Ok(g) => {
                let mut last: u64 = u64::MAX;
                let mut k: usize = 0;
                assert(g@.skip(0) =~= g@);
                while k < g.len()
                    invariant
                        k <= g@.len(),
                        self.found() + journal_violations(g@.skip(k as int), last) == old(
                            self,
                        ).found() + journal_violations(g@, u64::MAX),
                        *self == (ChaosReport { violations: self.violations, ..*old(self) }),
                    decreases g@.len() - k,
                {
                    let ghost before = self.found();
                    let ghost rest = g@.skip(k as int);
                    let ghost above = last;
                    assert(rest.drop_first() =~= g@.skip(k + 1));
                    assert(rest[0] == g@[k as int]);
                    if g[k] >= last {
                        let a: String = decimal_text(last);
                        let b: String = decimal_text(g[k]);
                        let tail: String = join2(&b, ")");
                        let mut text: String = join3(
                            "commit chain: generations not strictly decreasing from head (",
                            &a,
                            " then ",
                        );
                        text.append(&tail);
                        self.add(text);
                    }
                    last = g[k];
                    assert(self.found() + journal_violations(g@.skip(k + 1), last) =~= before
                        + journal_violations(rest, above));
                    k = k + 1;
                }
                assert(g@.skip(k as int) =~= Seq::empty());
                assert(self.found() =~= old(self).found() + journal_violations(g@, u64::MAX));
            },
        }
    }
}

/// A journal without violations falls strictly from its head on.
pub proof fn law_clean_journal_falls(generations: Seq<u64>, last: u64, i: int, j: int)
    requires
        journal_violations(generations, last).len() == 0,
        0 <= i < j < generations.len(),
    ensures
        generations[i] > generations[j],
        generations[0] < last,
    decreases generations.len(),
{
    let rest = generations.drop_first();
    if i > 0 {
        law_clean_journal_falls(rest, generations[0], i - 1, j - 1);
    } else {
        lemma_clean_journal_below(rest, generations[0], j - 1);
    }
}

proof fn lemma_clean_journal_below(generations: Seq<u64>, last: u64, j: int)
    requires
        journal_violations(generations, last).len() == 0,
        0 <= j < generations.len(),
    ensures
        generations[j] < last,
    decreases generations.len(),
{
    if j > 0 {
        lemma_clean_journal_below(generations.drop_first(), generations[0], j - 1);
    }
}

/// A committed state after which no violation was found neither lost its ref
/// nor went backwards.
pub proof fn law_clean_state_advances(
    i: u64,
    committed: Committed,
    read: core::result::Result<Option<RefValue>, Failure>,
)
    requires
        state_violations(i, committed, read).len() == 0,
    ensures
        match read {
            Ok(Some(v)) => v.generation >= committed.generation && v.epoch >= committed.epoch,
            Ok(None) => committed.generation == 0,
            Err(_) => false,
        },
{
}

/// A journal that falls from head to root gives no violation.
pub proof fn law_falling_journal_is_clean(generations: Seq<u64>, last: u64)
    requires
        generations.len() > 0 ==> generations[0] < last,
        forall|i: int|
            0 < i < generations.len() ==> #[trigger] generations[i] < generations[i - 1],
    ensures
        journal_violations(generations, last).len() == 0,
    decreases generations.len(),
{
    if generations.len() > 0 {
        let rest = generations.drop_first();
        assert forall|i: int| 0 < i < rest.len() implies #[trigger] rest[i] < rest[i - 1] by {
            assert(generations[i + 1] < generations[i]);
        }
        if rest.len() > 0 {
            assert(generations[1] < generations[0]);
        }
        law_falling_journal_is_clean(rest, generations[0]);
    }
}

/// One violation is found for each thing that went wrong: a ref that cannot be
/// read, one that disappeared, a generation and an epoch that went backwards.
/// A state that went on gives none.
pub proof fn law_violations_are_counted(
    i: u64,
    committed: Committed,
    read: core::result::Result<Option<RefValue>, Failure>,
)
    ensures
        state_violations(i, committed, read).len() == match read {
            Ok(Some(v)) => (if v.generation < committed.generation {
                1int
            } else {
                0
            }) + if v.epoch < committed.epoch {
                1int
            } else {
                0
            },
            Ok(None) => if committed.generation > 0 {
                1int
            } else {
                0
            },
            Err(_) => 1,
        },
{
}

/// A stale fence that is accepted is a violation, and nothing else that an
/// operation gives is one. It counts as done where it is refused as fenced.
pub proof fn law_stale_fence_is_to_be_refused(
    i: u64,
    op: ChaosOp,
    result: core::result::Result<(), Failure>,
)
    ensures
        outcome_violation(i, op, result).len() == if op is StaleFence && result is Ok {
            1int
        } else {
            0
        },
        result is Ok ==> counts_as_done(op, result),
        result matches Err(Failure::Core(CoreError::Fenced { .. })) && op is StaleFence
            ==> counts_as_done(op, result),
        result is Err && !(op is StaleFence) ==> !counts_as_done(op, result),
        result matches Err(Failure::Core(e)) && !(e is Fenced) ==> !counts_as_done(op, result),
        was_injected(op, result) ==> result is Err && !counts_as_done(op, result),
{
}

} // verus!
