//! The analysis engine: read-only dataflow passes over each function of a
//! `ProjectMIR`, composed into per-function result bundles. Each pass is a
//! pure function from a function to a named result; results are computed once
//! per project snapshot, since the MIR never mutates after construction.

pub mod liveness;

pub use liveness::LivenessResult;
pub use liveness::run_liveness_analysis;

use vstd::prelude::*;
use crate::mir::{Function, ProjectMIR, cfg_well_formed};
use liveness::{fn_slots_below, liveness_result_ok};

verus! {

/// All analysis results of one function.
pub struct PerFunctionResults {
    pub liveness: LivenessResult,
}

/// Project-level results: one bundle per function, in the order the
/// functions stand in the project.
pub struct ProjectAnalysisResults {
    pub results: Vec<PerFunctionResults>,
}

impl ProjectAnalysisResults {
    /// The bundle of the function with this name, if the project holds one.
    pub fn result_for<'a>(&'a self, project_mir: &ProjectMIR, name: &str) -> (r: Option<
        &'a PerFunctionResults,
    >)
        requires
            self.results@.len() == project_mir.functions@.len(),
        ensures
            match r {
                Some(b) => exists|i: int|
                    0 <= i < self.results@.len() && project_mir.functions@[i].name@ == name@ && b
                        == &self.results@[i],
                None => !crate::mir::has_function(*project_mir, name@),
            },
    {
        match project_mir.find_function(name) {
            Some(idx) => {
                let b = &self.results[idx];
                proof {
                    assert(project_mir.functions@[idx as int].name@ == name@);
                }
                Some(b)
            },
            None => None,
        }
    }
}

/// Every function of the project can be analyzed: well-formed CFG and
/// machine-representable slot ids.
pub open spec fn project_analyzable(p: ProjectMIR) -> bool {
    forall|i: int|
        0 <= i < p.functions@.len() ==> cfg_well_formed(#[trigger] p.functions@[i])
            && fn_slots_below(p.functions@[i], usize::MAX as int)
}

/// Schedules the analysis passes over a project.
pub struct AnalysisManager<'a> {
    pub project_mir: &'a ProjectMIR,
}

impl<'a> AnalysisManager<'a> {
    /// A manager over one immutable project snapshot.
    pub fn new(project_mir: &'a ProjectMIR) -> (r: AnalysisManager<'a>)
        ensures
            r.project_mir == project_mir,
    {
        AnalysisManager { project_mir }
    }

    /// Runs every pass on every function: one result bundle per function,
    /// each holding the liveness least fixed point of that function.
    pub fn run_all_passes(&self) -> (r: ProjectAnalysisResults)
        requires
            project_analyzable(*self.project_mir),
        ensures
            r.results@.len() == self.project_mir.functions@.len(),
            forall|i: int|
                0 <= i < r.results@.len() ==> liveness_result_ok(
                    self.project_mir.functions@[i],
                    (#[trigger] r.results@[i]).liveness,
                ),
    {
        let n = self.project_mir.functions.len();
        let mut results: Vec<PerFunctionResults> = Vec::new();
        let mut i: usize = 0;
        while i < n
            invariant
                i <= n,
                n == self.project_mir.functions@.len(),
                project_analyzable(*self.project_mir),
                results@.len() == i,
                forall|j: int|
                    0 <= j < i ==> liveness_result_ok(
                        self.project_mir.functions@[j],
                        (#[trigger] results@[j]).liveness,
                    ),
            decreases n - i,
        {
            let liveness = run_liveness_analysis(&self.project_mir.functions[i]);
            results.push(PerFunctionResults { liveness });
            i += 1;
        }
        ProjectAnalysisResults { results }
    }
}

} // verus!
