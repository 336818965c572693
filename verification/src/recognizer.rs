//! The recognizer's vocabulary: dispatch tags, the asymptotic cost lattice, the
//! saturation budget and the recognition result.

use vstd::prelude::*;

verus! {

/// Dispatch tags: the class of collapser a piece of work is routed to.
#[derive(Clone, Copy, Debug, PartialEq, Eq, Structural)]
pub enum DispatchTag {
    Holonomic,
    LinearStateTransition,
    Convolution,
    Gf2Affine,
    PlanarCsp,
    BoundedTreewidth,
    AffineTripCount,
    Unrecognized,
}

/// Asymptotic cost lattice: `Const ≪ Log ≪ Sublinear ≪ Linear ≪ Superlinear(deg)`.
#[derive(Clone, Copy, Debug, PartialEq, Eq, Structural)]
pub enum AsymptoticCost {
    Const,
    Log,
    Sublinear,
    Linear,
    Superlinear(u32),
}

/// The place of a cost in the lattice: a larger rank grows faster, and among
/// superlinear costs a larger degree grows faster.
pub open spec fn cost_rank(c: AsymptoticCost) -> int {
    match c {
        AsymptoticCost::Const => 0,
        AsymptoticCost::Log => 1,
        AsymptoticCost::Sublinear => 2,
        AsymptoticCost::Linear => 3,
        AsymptoticCost::Superlinear(d) => 4 + d,
    }
}

/// A saturation/recognition budget: at most `max_nodes` e-nodes, at most
/// `max_millis` milliseconds.
#[derive(Clone, Copy, Debug)]
pub struct SaturationBudget {
    pub max_nodes: usize,
    pub max_millis: u64,
}

impl Default for SaturationBudget {
    /// The default budget: 100 000 nodes, one second.
    fn default() -> (b: SaturationBudget)
        ensures
            b.max_nodes == 100_000,
            b.max_millis == 1_000,
    {
        SaturationBudget { max_nodes: 100_000, max_millis: 1_000 }
    }
}

/// A recognition result: the dispatch tag, the cost of the original work and the
/// cost of the candidate collapsed form.
#[derive(Clone, Copy, Debug)]
pub struct Recognized {
    pub tag: DispatchTag,
    pub original_cost: AsymptoticCost,
    pub candidate_cost: AsymptoticCost,
}

impl Recognized {
    /// The result for work that is not recognised: no dispatch, and the
    /// candidate costs what the (linear) original costs.
    pub fn unrecognized() -> (r: Recognized)
        ensures
            r.tag == DispatchTag::Unrecognized,
            r.original_cost == AsymptoticCost::Linear,
            r.candidate_cost == AsymptoticCost::Linear,
    {
        Recognized {
            tag: DispatchTag::Unrecognized,
            original_cost: AsymptoticCost::Linear,
            candidate_cost: AsymptoticCost::Linear,
        }
    }
}

/// A measured coverage report over a corpus: counts only.
#[derive(Clone, Debug, PartialEq, Eq, Structural)]
pub struct CoverageReport {
    pub structured_total: usize,
    pub structured_collapsed: usize,
    pub exact: usize,
    pub probabilistic: usize,
    pub unstructured_total: usize,
    pub unstructured_deferred: usize,
}

impl Default for CoverageReport {
    /// The empty report: every count zero.
    fn default() -> (c: CoverageReport)
        ensures
            c.structured_total == 0,
            c.structured_collapsed == 0,
            c.exact == 0,
            c.probabilistic == 0,
            c.unstructured_total == 0,
            c.unstructured_deferred == 0,
    {
        CoverageReport {
            structured_total: 0,
            structured_collapsed: 0,
            exact: 0,
            probabilistic: 0,
            unstructured_total: 0,
            unstructured_deferred: 0,
        }
    }
}

} // verus!
