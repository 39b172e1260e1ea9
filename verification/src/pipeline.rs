//! The concurrent resolution pipeline's decision core.
//!
//! Resolver tasks run outside this library (they perform network calls); each
//! completed task yields a [`ResolveOutcome`]. The [`Orchestrator`] consumes
//! those outcomes one at a time, aggregates successful downloads, counts
//! ordinary failures, and escalates on a rate-limit classified failure.
//! [`fold_outcomes`] drives the orchestrator over a whole completion sequence.

use vstd::prelude::*;

verus! {

/// A resolved artifact: the mod's display name, the resolved file name, the
/// source locator, and the output path (empty until reconciliation assigns it).
pub struct DownloadRecord {
    pub name: String,
    pub filename: String,
    pub url: String,
    pub output: String,
}

/// What one resolver task reported on completion.
pub enum ResolveOutcome {
    /// Resolution succeeded with a downloadable artifact.
    Resolved(DownloadRecord),
    /// Resolution failed; `rate_limited` classifies the failure.
    Failed { rate_limited: bool, message: String },
}

/// The overall result of the concurrent phase: either an escalated rate-limit
/// error (no partial outcome), or the aggregated records plus an error flag.
pub enum PipelineResult {
    Escalated { message: String, ticks: usize },
    Outcome { records: Vec<DownloadRecord>, any_failed: bool, ticks: usize },
}

pub open spec fn is_resolved(o: ResolveOutcome) -> bool {
    o is Resolved
}

pub open spec fn is_rate_limited(o: ResolveOutcome) -> bool {
    match o {
        ResolveOutcome::Resolved(_) => false,
        ResolveOutcome::Failed { rate_limited, .. } => rate_limited,
    }
}

pub open spec fn is_ordinary_failure(o: ResolveOutcome) -> bool {
    match o {
        ResolveOutcome::Resolved(_) => false,
        ResolveOutcome::Failed { rate_limited, .. } => !rate_limited,
    }
}

pub open spec fn message_of(o: ResolveOutcome) -> Seq<char> {
    match o {
        ResolveOutcome::Resolved(_) => Seq::empty(),
        ResolveOutcome::Failed { message, .. } => message@,
    }
}

/// The records of the successful outcomes, in completion order.
pub open spec fn successes(s: Seq<ResolveOutcome>) -> Seq<DownloadRecord>
    decreases s.len(),
{
    if s.len() == 0 {
        Seq::empty()
    } else {
        match s.last() {
            ResolveOutcome::Resolved(r) => successes(s.drop_last()).push(r),
            ResolveOutcome::Failed { .. } => successes(s.drop_last()),
        }
    }
}

/// How many outcomes failed for an ordinary (non-escalating) reason.
pub open spec fn ordinary_failure_count(s: Seq<ResolveOutcome>) -> nat
    decreases s.len(),
{
    if s.len() == 0 {
        0
    } else {
        ordinary_failure_count(s.drop_last()) + if is_ordinary_failure(s.last()) {
            1nat
        } else {
            0nat
        }
    }
}

/// No outcome in the sequence is a rate-limit classified failure.
pub open spec fn escalation_free(s: Seq<ResolveOutcome>) -> bool {
    forall|i: int| 0 <= i < s.len() ==> !is_rate_limited(#[trigger] s[i])
}

/// The result aggregator and escalation policy of the concurrent phase.
///
/// One `on_event` call per completed resolver task; each call is one
/// progress tick, so `processed` is also the number of ticks emitted.
pub struct Orchestrator {
    pub total: usize,
    pub processed: usize,
    pub records: Vec<DownloadRecord>,
    pub failures: usize,
    pub escalation: Option<String>,
}

impl Orchestrator {
    pub open spec fn wf(self) -> bool {
        &&& self.processed <= self.total
        &&& self.failures <= self.processed
        &&& self.records@.len() <= self.processed
    }

    /// A fresh aggregator for `total` submitted mod descriptors.
    pub fn new(total: usize) -> (r: Orchestrator)
        ensures
            r.wf(),
            r.total == total,
            r.processed == 0,
            r.records@ == Seq::<DownloadRecord>::empty(),
            r.failures == 0,
            r.escalation is None,
    {
        Orchestrator { total, processed: 0, records: Vec::new(), failures: 0, escalation: None }
    }

    /// Fold one completed task's outcome into the aggregate. Returns `true`
    /// when the pipeline must halt (rate-limit escalation); every call emits
    /// exactly one tick, counted by `processed`.
    pub fn on_event(&mut self, outcome: ResolveOutcome) -> (halt: bool)
        requires
            old(self).wf(),
            old(self).escalation is None,
            old(self).processed < old(self).total,
        ensures
            final(self).wf(),
            final(self).total == old(self).total,
            final(self).processed == old(self).processed + 1,
            match outcome {
                ResolveOutcome::Resolved(r) => {
                    &&& final(self).records@ == old(self).records@.push(r)
                    &&& final(self).failures == old(self).failures
                    &&& final(self).escalation is None
                    &&& !halt
                },
                ResolveOutcome::Failed { rate_limited, message } => {
                    &&& final(self).records@ == old(self).records@
                    &&& if rate_limited {
                        &&& final(self).escalation == Some(message)
                        &&& final(self).failures == old(self).failures
                        &&& halt
                    } else {
                        &&& final(self).escalation is None
                        &&& final(self).failures == old(self).failures + 1
                        &&& !halt
                    }
                },
            },
    {
        self.processed = self.processed + 1;
        match outcome {
            ResolveOutcome::Resolved(r) => {
                self.records.push(r);
                false
            },
            ResolveOutcome::Failed { rate_limited, message } => {
                if rate_limited {
                    self.escalation = Some(message);
                    true
                } else {
                    self.failures = self.failures + 1;
                    false
                }
            },
        }
    }

    /// Drain the aggregate into the pipeline's two-case result. An escalation
    /// yields `Escalated` and discards the partial records; otherwise every
    /// submitted task must have completed, and the records and the error flag
    /// form the outcome.
    pub fn into_result(self) -> (r: PipelineResult)
        requires
            self.wf(),
            self.escalation is Some || self.processed == self.total,
        ensures
            match r {
                PipelineResult::Escalated { message, ticks } => {
                    &&& self.escalation == Some(message)
                    &&& ticks == self.processed
                },
                PipelineResult::Outcome { records, any_failed, ticks } => {
                    &&& self.escalation is None
                    &&& records == self.records
                    &&& any_failed == (self.failures > 0)
                    &&& ticks == self.processed
                },
            },
            r is Escalated <==> self.escalation is Some,
    {
        match self.escalation {
            Option::Some(message) => PipelineResult::Escalated {
                message,
                ticks: self.processed,
            },
            Option::None => PipelineResult::Outcome {
                records: self.records,
                any_failed: self.failures > 0,
                ticks: self.processed,
            },
        }
    }
}

proof fn lemma_successes_take_step(s: Seq<ResolveOutcome>, i: int)
    requires
        0 <= i < s.len(),
    ensures
        successes(s.take(i + 1)) == if is_resolved(s[i]) {
            successes(s.take(i)).push(record_of(s[i]))
        } else {
            successes(s.take(i))
        },
        ordinary_failure_count(s.take(i + 1)) == ordinary_failure_count(s.take(i))
            + if is_ordinary_failure(s[i]) { 1nat } else { 0nat },
{
    assert(s.take(i + 1).drop_last() =~= s.take(i));
    assert(s.take(i + 1).last() == s[i]);
}

pub open spec fn record_of(o: ResolveOutcome) -> DownloadRecord
    recommends
        is_resolved(o),
{
    match o {
        ResolveOutcome::Resolved(r) => r,
        ResolveOutcome::Failed { .. } => vstd::pervasive::arbitrary(),
    }
}

/// Run the whole concurrent phase's aggregation over the outcomes in
/// completion order. A rate-limit failure escalates at once: the result is
/// `Escalated` (never an outcome), later completions contribute nothing, and
/// the ticks stop at that point. Without escalation, every outcome is folded
/// in: the records are exactly the successes in order, the error flag is set
/// if and only if some resolution failed, and one tick was emitted per
/// submitted outcome.
#[verifier::loop_isolation(false)]
pub fn fold_outcomes(outcomes: Vec<ResolveOutcome>) -> (r: PipelineResult)
    ensures
        escalation_free(outcomes@) ==> match r {
            PipelineResult::Outcome { records, any_failed, ticks } => {
                &&& records@ == successes(outcomes@)
                &&& any_failed == (ordinary_failure_count(outcomes@) > 0)
                &&& ticks == outcomes@.len()
            },
            PipelineResult::Escalated { .. } => false,
        },
        !escalation_free(outcomes@) ==> match r {
            PipelineResult::Escalated { message, ticks } => exists|i: int|
                {
                    &&& 0 <= i < outcomes@.len()
                    &&& is_rate_limited(#[trigger] outcomes@[i])
                    &&& escalation_free(outcomes@.take(i))
                    &&& message@ == message_of(outcomes@[i])
                    &&& ticks == i + 1
                },
            PipelineResult::Outcome { .. } => false,
        },
{
    let ghost all = outcomes@;
    let mut outcomes = outcomes;
    let total: usize = outcomes.len();
    let mut orch = Orchestrator::new(total);
    let mut i: usize = 0;
    while i < total
        invariant
            orch.wf(),
            all.len() == total,
            outcomes@ == all.skip(i as int),
            0 <= i <= total,
            orch.total == total,
            orch.processed == i,
            orch.escalation is None,
            orch.records@ == successes(all.take(i as int)),
            orch.failures == ordinary_failure_count(all.take(i as int)),
            escalation_free(all.take(i as int)),
        decreases total - i,
    {
        let outcome = outcomes.remove(0);
        assert(outcome == all[i as int]);
        assert(outcomes@ =~= all.skip(i + 1));
        let halt = orch.on_event(outcome);
        proof {
            lemma_successes_take_step(all, i as int);
        }
        if halt {
            proof {
                let gi = i as int;
                assert(is_rate_limited(all[gi]));
                assert(!escalation_free(all));
            }
            let r = orch.into_result();
            proof {
                let gi = i as int;
                match &r {
                    PipelineResult::Escalated { message, ticks } => {
                        assert({
                            &&& 0 <= gi < all.len()
                            &&& is_rate_limited(all[gi])
                            &&& escalation_free(all.take(gi))
                            &&& message@ == message_of(all[gi])
                            &&& *ticks == gi + 1
                        });
                    },
                    PipelineResult::Outcome { .. } => {
                        assert(false);
                    },
                }
            }
            return r;
        }
        proof {
            assert forall|j: int| 0 <= j < i + 1 implies !is_rate_limited(
                #[trigger] all.take(i + 1)[j],
            ) by {
                if j < i {
                    assert(all.take(i as int)[j] == all.take(i + 1)[j]);
                }
            }
        }
        i = i + 1;
    }
    proof {
        assert(all.take(total as int) =~= all);
    }
    orch.into_result()
}

} // verus!
