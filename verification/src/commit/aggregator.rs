use crate::commit::batch_commit::{conclude, failures_view, with_blinding, AggregateCommitment};
use crate::commit::single_commit::scalar_view;
use crate::errors::{FailureView, JcError, LeafFailure};
use crate::group::{ec_sum, encodings, GroupElement};
use crate::scalar::Scalar;
use vstd::prelude::*;

verus! {

/// What became of the commitment to one leaf.
#[derive(Debug, PartialEq, Eq)]
pub enum LeafOutcome {
    Committed(GroupElement),
    Failed(LeafFailure),
}

/// What the runner of an aggregation is to do next.
#[derive(Debug, Clone, Copy, PartialEq, Eq, Structural)]
pub enum Step {
    /// Start to commit to the leaf of this index.
    Launch(usize),
    /// Wait for an outcome, or for the deadline.
    Wait,
    /// Start and await no more: end the aggregation.
    Finish,
}

/// The state of an aggregation whose leaves are committed to by tasks
/// that run side by side: how many were started, and what came back.
#[derive(Debug)]
pub struct Aggregator {
    expected: usize,
    limit: usize,
    fail_fast: bool,
    launched: usize,
    terms: Vec<GroupElement>,
    failures: Vec<LeafFailure>,
    expired: bool,
}

/// What an `Aggregator` stands for.
pub struct AggregatorView {
    /// The number of leaves.
    pub expected: nat,
    /// The most tasks that may run at one time.
    pub limit: nat,
    /// Whether the first failure ends the aggregation.
    pub fail_fast: bool,
    /// The number of leaves whose task was started.
    pub launched: nat,
    /// The commitments that came back, in the order of their coming.
    pub terms: Seq<Seq<u8>>,
    /// The failures that came back, in the order of their coming.
    pub failures: Seq<FailureView>,
    /// Whether the deadline has passed.
    pub expired: bool,
}

impl AggregatorView {
    /// The number of outcomes that came back.
    pub open spec fn received(self) -> nat {
        self.terms.len() + self.failures.len()
    }

    /// The number of tasks that run.
    pub open spec fn in_flight(self) -> int {
        self.launched - self.received()
    }

    /// Whether nothing more is to be started or awaited.
    pub open spec fn stopped(self) -> bool {
        self.expired || (self.fail_fast && self.failures.len() > 0)
    }

    /// What the runner is to do in this state.
    pub open spec fn next_step(self) -> Step {
        if self.stopped() {
            Step::Finish
        } else if self.launched < self.expected && self.in_flight() < self.limit {
            Step::Launch(self.launched as usize)
        } else if self.in_flight() > 0 {
            Step::Wait
        } else {
            Step::Finish
        }
    }

    /// Whether the counts agree: no more came back than was started, no
    /// more was started than there are leaves, and no more runs than may.
    pub open spec fn consistent(self) -> bool {
        &&& self.received() <= self.launched <= self.expected
        &&& self.in_flight() <= self.limit
        &&& self.limit >= 1
    }
}

impl View for Aggregator {
    type V = AggregatorView;

    closed spec fn view(&self) -> AggregatorView {
        AggregatorView {
            expected: self.expected as nat,
            limit: self.limit as nat,
            fail_fast: self.fail_fast,
            launched: self.launched as nat,
            terms: encodings(self.terms@),
            failures: failures_view(self.failures@),
            expired: self.expired,
        }
    }
}

impl Aggregator {
    #[verifier::type_invariant]
    spec fn well_formed(self) -> bool {
        self@.consistent()
    }

    /// The state before any task was started. A `limit` of `0` counts
    /// as `1`.
    pub fn new(expected: usize, limit: usize, fail_fast: bool) -> (r: Aggregator)
        ensures
            r@ == (AggregatorView {
                expected: expected as nat,
                limit: if limit == 0 {
                    1
                } else {
                    limit as nat
                },
                fail_fast,
                launched: 0,
                terms: Seq::empty(),
                failures: Seq::empty(),
                expired: false,
            }),
            r@.consistent(),
    {
        let r = Aggregator {
            expected,
            limit: if limit == 0 {
                1
            } else {
                limit
            },
            fail_fast,
            launched: 0,
            terms: Vec::new(),
            failures: Vec::new(),
            expired: false,
        };
        assert(r@.terms =~= Seq::empty());
        assert(r@.failures =~= Seq::empty());
        r
    }

    /// Says what to do next, and gives the state after it. Where that is
    /// to start a task, the task counts as started.
    pub fn next(self) -> (r: (Aggregator, Step))
        ensures
            r.1 == self@.next_step(),
            r.0@ == (AggregatorView {
                launched: if r.1 is Launch {
                    self@.launched + 1
                } else {
                    self@.launched
                },
                ..self@
            }),
            self@.consistent(),
            r.0@.consistent(),
    {
        proof {
            use_type_invariant(&self);
        }
        let received = self.terms.len() + self.failures.len();
        if self.expired || (self.fail_fast && self.failures.len() > 0) {
            (self, Step::Finish)
        } else if self.launched < self.expected && self.launched - received < self.limit {
            let index = self.launched;
            let state = Aggregator {
                expected: self.expected,
                limit: self.limit,
                fail_fast: self.fail_fast,
                launched: index + 1,
                terms: self.terms,
                failures: self.failures,
                expired: self.expired,
            };
            (state, Step::Launch(index))
        } else if self.launched > received {
            (self, Step::Wait)
        } else {
            (self, Step::Finish)
        }
    }

    /// Takes in the outcome of a task, and gives the state after it. The
    /// outcome is kept if a task runs and the deadline has not passed;
    /// else it is dropped, and `false` comes back.
    pub fn absorb(self, outcome: LeafOutcome) -> (r: (Aggregator, bool))
        ensures
            r.1 == (self@.in_flight() > 0 && !self@.expired),
            !r.1 ==> r.0@ == self@,
            r.1 ==> match outcome {
                LeafOutcome::Committed(term) => r.0@ == (AggregatorView {
                    terms: self@.terms.push(term@),
                    ..self@
                }),
                LeafOutcome::Failed(failure) => r.0@ == (AggregatorView {
                    failures: self@.failures.push(failure@),
                    ..self@
                }),
            },
            self@.consistent(),
            r.0@.consistent(),
    {
        proof {
            use_type_invariant(&self);
        }
        let received = self.terms.len() + self.failures.len();
        if self.expired || self.launched <= received {
            return (self, false);
        }
        let mut terms = self.terms;
        let mut failures = self.failures;
        match outcome {
            LeafOutcome::Committed(term) => {
                assert(encodings(terms@.push(term)) =~= encodings(terms@).push(term@));
                terms.push(term);
            },
            LeafOutcome::Failed(failure) => {
                assert(failures_view(failures@.push(failure)) =~= failures_view(failures@).push(
                    failure@,
                ));
                failures.push(failure);
            },
        }
        let state = Aggregator {
            expected: self.expected,
            limit: self.limit,
            fail_fast: self.fail_fast,
            launched: self.launched,
            terms,
            failures,
            expired: self.expired,
        };
        (state, true)
    }

    /// The state after the deadline has passed.
    pub fn expire(self) -> (r: Aggregator)
        ensures
            r@ == (AggregatorView { expired: true, ..self@ }),
            r@.consistent(),
    {
        proof {
            use_type_invariant(&self);
        }
        Aggregator {
            expected: self.expected,
            limit: self.limit,
            fail_fast: self.fail_fast,
            launched: self.launched,
            terms: self.terms,
            failures: self.failures,
            expired: true,
        }
    }

    /// Ends the aggregation. Failures that came back are reported
    /// first; else a deadline that passed; else leaves without an
    /// outcome. Only where every leaf has its commitment is there a
    /// commitment to the document.
    pub fn finish(self, blinding: Option<&Scalar>) -> (r: Result<AggregateCommitment, JcError>)
        ensures
            self@.failures.len() > 0 ==> (r matches Err(JcError::Commit(e)) && e@
                == self@.failures),
            self@.failures.len() == 0 && self@.expired ==> r matches Err(JcError::Timeout),
            self@.failures.len() == 0 && !self@.expired && self@.terms.len() < self@.expected ==> (
            r matches Err(JcError::Other(_))),
            self@.failures.len() == 0 && !self@.expired && self@.terms.len() == self@.expected ==> (
            r matches Ok(c) && c@ == ec_sum(
                with_blinding(self@.terms.to_multiset(), scalar_view(blinding)),
            )),
    {
        proof {
            use_type_invariant(&self);
        }
        if self.failures.len() > 0 {
            return conclude(self.terms, self.failures, blinding);
        }
        if self.expired {
            return Err(JcError::Timeout);
        }
        if self.terms.len() < self.expected {
            return Err(JcError::Other("leaves without an outcome".to_owned()));
        }
        conclude(self.terms, self.failures, blinding)
    }
}

} // verus!
