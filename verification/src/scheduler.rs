//! The scheduler: the explicit driver-facing object that owns the
//! delta collection and the epoch frontier, re-evaluates the
//! connected-components fixpoint when an epoch closes, and serves the
//! aggregated component-size distribution once it is stable.

use crate::aggregate::{component_sizes, distribution_of, size_distribution, sizes_of};
use crate::components::{
    connected_components, incremental_seeds, lemma_min_labels_unique, lemma_stable_is_min,
    min_labels,
};
use crate::delta::{
    lemma_insert_delete_present, lemma_present_unaffected, present_edges, DeltaCollection,
    EdgeUpdate,
};
use crate::epoch::EpochFrontier;
use crate::fixpoint::{lemma_seeds_distinct, propagate_from};
use crate::labels::{count_label_deltas, distinct_keys, label_deltas};
use vstd::prelude::*;

verus! {

/// A usage error: output was requested for an epoch that is not yet
/// stable, or whose re-evaluation has not yet been run.
#[derive(Clone, Copy, PartialEq, Eq, Structural, Debug)]
pub enum ReadError {
    StabilityViolation,
}

/// The scheduler's state: the update history, the epoch frontier,
/// whether a closed epoch still awaits re-evaluation, and the
/// converged outputs of the last evaluated epoch.
pub struct Scheduler {
    pub log: DeltaCollection,
    pub frontier: EpochFrontier,
    pub pending: bool,
    pub have_output: bool,
    pub computed_for: u64,
    pub labels: Vec<(u64, u64)>,
    pub per_label: Vec<(u64, u64)>,
    pub dist: Vec<(u64, u64)>,
    pub last_deltas: u128,
}

impl Scheduler {
    /// The well-formedness invariant: once the pending evaluation has
    /// run, the stored labelling is the converged least-label
    /// assignment for the edge set of the last closed epoch, and the
    /// stored aggregates are its groupings.
    pub open spec fn wf(self) -> bool {
        &&& distinct_keys(self.labels@)
        &&& (self.frontier.frontier == 0 ==> !self.pending)
        &&& (!self.have_output ==> self.labels@.len() == 0 && self.per_label@.len() == 0
            && self.dist@.len() == 0)
        &&& (self.have_output ==> self.frontier.frontier > 0 && self.computed_for
            < self.frontier.frontier && min_labels(
            present_edges(self.log.records@, self.computed_for),
            self.labels@,
        ))
        &&& (!self.pending && self.frontier.frontier > 0 ==> {
            &&& self.have_output
            &&& self.computed_for == self.frontier.frontier - 1
            &&& self.per_label@ == sizes_of(self.labels@)
            &&& self.dist@ == distribution_of(self.labels@)
        })
    }

    /// A fresh computation: epoch 0 is open, nothing is stable.
    pub fn new() -> (s: Self)
        ensures
            s.wf(),
            s.frontier.frontier == 0,
            !s.pending,
            s.log.records@.len() == 0,
    {
        Scheduler {
            log: DeltaCollection::new(),
            frontier: EpochFrontier::new(),
            pending: false,
            have_output: false,
            computed_for: 0,
            labels: Vec::new(),
            per_label: Vec::new(),
            dist: Vec::new(),
            last_deltas: 0,
        }
    }

    /// Enqueue an edge insertion (`delta == 1`) or removal
    /// (`delta == -1`) at the currently open epoch.
    pub fn submit_update(&mut self, a: u64, b: u64, delta: i8)
        requires
            old(self).wf(),
            delta == 1 || delta == -1,
        ensures
            final(self).wf(),
            final(self).log.records@ == old(self).log.records@.push(
                EdgeUpdate { a, b, delta, epoch: old(self).frontier.frontier },
            ),
            final(self).frontier.frontier == old(self).frontier.frontier,
            final(self).pending == old(self).pending,
            final(self).labels@ == old(self).labels@,
            final(self).per_label@ == old(self).per_label@,
            final(self).dist@ == old(self).dist@,
            final(self).last_deltas == old(self).last_deltas,
    {
        let ep = self.frontier.frontier;
        self.log.insert(a, b, delta, ep);
        proof {
            if self.have_output {
                lemma_present_unaffected(
                    old(self).log.records@,
                    EdgeUpdate { a, b, delta, epoch: ep },
                    self.computed_for,
                );
            }
        }
    }

    /// Close the current batch: all updates submitted so far belong to
    /// epochs now below the frontier, and the closed epoch awaits
    /// re-evaluation.
    pub fn advance_epoch(&mut self)
        requires
            old(self).wf(),
            old(self).frontier.frontier < u64::MAX,
        ensures
            final(self).wf(),
            final(self).frontier.frontier == old(self).frontier.frontier + 1,
            final(self).pending,
            final(self).log.records@ == old(self).log.records@,
            final(self).labels@ == old(self).labels@,
            final(self).last_deltas == old(self).last_deltas,
    {
        let next = self.frontier.frontier + 1;
        self.frontier.advance_to(next);
        self.pending = true;
    }

    /// Run one computation step. If an epoch was closed and not yet
    /// evaluated, re-run the fixpoint over the edge set as of that
    /// epoch, regroup its output, and record how many NodeLabel deltas
    /// the re-evaluation produced. Idle steps change nothing.
    pub fn step(&mut self) -> (done: bool)
        requires
            old(self).wf(),
        ensures
            done,
            final(self).wf(),
            !final(self).pending,
            final(self).log.records@ == old(self).log.records@,
            final(self).frontier.frontier == old(self).frontier.frontier,
            !old(self).pending ==> final(self).labels@ == old(self).labels@
                && final(self).per_label@ == old(self).per_label@
                && final(self).dist@ == old(self).dist@
                && final(self).last_deltas == old(self).last_deltas,
            old(self).pending ==> {
                &&& min_labels(
                    present_edges(
                        old(self).log.records@,
                        (old(self).frontier.frontier - 1) as u64,
                    ),
                    final(self).labels@,
                )
                &&& final(self).last_deltas == label_deltas(old(self).labels@, final(self).labels@)
                &&& final(self).per_label@ == sizes_of(final(self).labels@)
                &&& final(self).dist@ == distribution_of(final(self).labels@)
            },
    {
        if self.pending {
            let ep = self.frontier.frontier - 1;
            let es = self.log.current_edges(ep);
            let new_labels = if self.have_output {
                // re-entrant evaluation: seed from the previous epoch's
                // converged labelling and start from the worklist of
                // nodes the change actually perturbed
                let es_old = self.log.current_edges(self.computed_for);
                let (seeds, wl) = incremental_seeds(&es_old, &es, &self.labels);
                let out = propagate_from(&es, &seeds, wl);
                proof {
                    lemma_stable_is_min(es@, out@);
                }
                out
            } else {
                connected_components(&es)
            };
            proof {
                lemma_seeds_distinct(es@, new_labels@);
            }
            let d = count_label_deltas(&self.labels, &new_labels);
            self.labels = new_labels;
            self.per_label = component_sizes(&self.labels);
            self.dist = size_distribution(&self.per_label);
            self.last_deltas = d;
            self.computed_for = ep;
            self.have_output = true;
            self.pending = false;
        }
        true
    }

    /// Drive computation steps until the most recently closed epoch is
    /// fully evaluated. With this synchronous substrate a single step
    /// always suffices.
    pub fn poll_until_stable(&mut self)
        requires
            old(self).wf(),
        ensures
            final(self).wf(),
            !final(self).pending,
            final(self).log.records@ == old(self).log.records@,
            final(self).frontier.frontier == old(self).frontier.frontier,
            !old(self).pending ==> final(self).labels@ == old(self).labels@
                && final(self).per_label@ == old(self).per_label@
                && final(self).dist@ == old(self).dist@
                && final(self).last_deltas == old(self).last_deltas,
            old(self).pending ==> {
                &&& min_labels(
                    present_edges(
                        old(self).log.records@,
                        (old(self).frontier.frontier - 1) as u64,
                    ),
                    final(self).labels@,
                )
                &&& final(self).last_deltas == label_deltas(old(self).labels@, final(self).labels@)
                &&& final(self).per_label@ == sizes_of(final(self).labels@)
                &&& final(self).dist@ == distribution_of(final(self).labels@)
            },
    {
        let _ = self.step();
    }

    /// Is epoch `e` stable, so that its output may be finalized?
    pub fn is_stable(&self, e: u64) -> (r: bool)
        ensures
            r <==> e < self.frontier.frontier,
    {
        self.frontier.is_stable(e)
    }

    /// Read the component-size distribution of the last closed epoch:
    /// one `(size, count)` pair per distinct component size. Rejected
    /// with a stability violation if no epoch has been closed yet or
    /// the closed epoch's re-evaluation has not been run.
    pub fn read_component_size_distribution(&self) -> (r: Result<Vec<(u64, u64)>, ReadError>)
        requires
            self.wf(),
        ensures
            r is Ok <==> (self.frontier.frontier > 0 && !self.pending),
            match r {
                Ok(d) => {
                    &&& d@ == self.dist@
                    &&& d@ == distribution_of(self.labels@)
                    &&& min_labels(
                        present_edges(self.log.records@, (self.frontier.frontier - 1) as u64),
                        self.labels@,
                    )
                },
                Err(e) => e == ReadError::StabilityViolation,
            },
    {
        if self.frontier.frontier == 0 || self.pending {
            Err(ReadError::StabilityViolation)
        } else {
            Ok(copy_pairs(&self.dist))
        }
    }

    /// Read the converged NodeLabel set of the last closed epoch: one
    /// `(node, label)` record per node incident to some present edge,
    /// each label the least node identifier of its component. Rejected
    /// with a stability violation under the same conditions as the
    /// distribution.
    pub fn read_node_labels(&self) -> (r: Result<Vec<(u64, u64)>, ReadError>)
        requires
            self.wf(),
        ensures
            r is Ok <==> (self.frontier.frontier > 0 && !self.pending),
            match r {
                Ok(ls) => {
                    &&& ls@ == self.labels@
                    &&& min_labels(
                        present_edges(self.log.records@, (self.frontier.frontier - 1) as u64),
                        ls@,
                    )
                },
                Err(e) => e == ReadError::StabilityViolation,
            },
    {
        if self.frontier.frontier == 0 || self.pending {
            Err(ReadError::StabilityViolation)
        } else {
            Ok(copy_pairs(&self.labels))
        }
    }
}

/// Copy a vector of pairs.
fn copy_pairs(v: &Vec<(u64, u64)>) -> (c: Vec<(u64, u64)>)
    ensures
        c@ == v@,
{
    let mut c: Vec<(u64, u64)> = Vec::new();
    let mut i: usize = 0;
    while i < v.len()
        invariant
            i <= v@.len(),
            c@ == v@.subrange(0, i as int),
        decreases v@.len() - i,
    {
        let p = v[i];
        c.push(p);
        proof {
            assert(c@ =~= v@.subrange(0, i as int + 1));
        }
        i = i + 1;
    }
    proof {
        assert(v@.subrange(0, v@.len() as int) =~= v@);
    }
    c
}

/// Edge deletion/insertion inverse: submitting an insertion of an edge
/// and then a deletion of the same edge, both taking effect at or
/// below the epoch that is read, leaves the converged labelling — and
/// with it the component-size distribution — exactly as it was without
/// either update.
pub proof fn lemma_rewire_inverse(
    log: Seq<EdgeUpdate>,
    ep: u64,
    a: u64,
    b: u64,
    t1: u64,
    t2: u64,
    before: Seq<(u64, u64)>,
    after: Seq<(u64, u64)>,
)
    requires
        t1 <= ep,
        t2 <= ep,
        min_labels(present_edges(log, ep), before),
        min_labels(
            present_edges(
                log.push(EdgeUpdate { a, b, delta: 1i8, epoch: t1 }).push(
                    EdgeUpdate { a, b, delta: (-1) as i8, epoch: t2 },
                ),
                ep,
            ),
            after,
        ),
    ensures
        after == before,
        distribution_of(after) == distribution_of(before),
{
    lemma_insert_delete_present(log, a, b, t1, t2, ep);
    lemma_min_labels_unique(present_edges(log, ep), before, after);
}

} // verus!
