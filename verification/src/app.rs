//! Effort settings, the solving stage of a run, and the run summary.
use vstd::prelude::*;

use crate::cli::{path_with_extension, Cli, SearchPreset};
use crate::solver::portfolio::{
    explored_may_overflow, portfolio_answer, unit_of, unit_overflows, PortfolioBackend,
};
use crate::solver::{OptimalityStatus, SolveRequest, SolverBackend, SolverError, SolverMetrics, SolverOutcome};
use crate::solver::exact::{ids_volume, repair_cap, repair_residual, RepairConfig};
use crate::solver::portfolio::checked_metric_add;
use crate::objective::{objective_of, objective_order, ObjectiveValue};
use crate::validate::{
    solution_valid, summary_spec, validate_solution, PackingInstance, SolutionSummary, SolutionValidationErrors,
};

verus! {

/// Nanoseconds in one second.
pub const NANOS_PER_SECOND: u128 = 1_000_000_000;

/// Default deadline (nanoseconds) and construction work units of each preset.
pub open spec fn preset_settings(preset: SearchPreset) -> (u128, usize) {
    match preset {
        SearchPreset::Fast => (1_000_000_000, 1),
        SearchPreset::Balanced => (10_000_000_000, 8),
        SearchPreset::Thorough => (30_000_000_000, 14),
    }
}

/// Fixed effort associated with one CLI preset.
#[derive(Clone, Copy, Debug, Eq, PartialEq, Structural)]
pub struct SearchSettings {
    time_limit: u128,
    work_units: usize,
}

impl View for SearchSettings {
    type V = (u128, usize);

    closed spec fn view(&self) -> (u128, usize) {
        (self.time_limit, self.work_units)
    }
}

impl SearchSettings {
    /// Return the default budget for a preset.
    pub fn for_preset(preset: SearchPreset) -> (r: SearchSettings)
        ensures
            r@ == preset_settings(preset),
    {
        match preset {
            SearchPreset::Fast => Self::new(NANOS_PER_SECOND, 1),
            SearchPreset::Balanced => Self::new(10 * NANOS_PER_SECOND, 8),
            SearchPreset::Thorough => Self::new(30 * NANOS_PER_SECOND, 14),
        }
    }

    fn new(time_limit: u128, work_units: usize) -> (r: SearchSettings)
        requires
            work_units > 0,
        ensures
            r@ == (time_limit, work_units),
    {
        SearchSettings { time_limit, work_units }
    }

    /// The deadline, in nanoseconds.
    pub fn time_limit(self) -> (r: u128)
        ensures
            r == self@.0,
    {
        self.time_limit
    }

    pub fn work_units(self) -> (r: usize)
        ensures
            r == self@.1,
    {
        self.work_units
    }
}

/// Presets differ only in effort: each step up has a longer deadline and
/// more construction work, and every preset does some work.
pub proof fn lemma_presets_increase()
    ensures
        preset_settings(SearchPreset::Fast).0 < preset_settings(SearchPreset::Balanced).0,
        preset_settings(SearchPreset::Balanced).0 < preset_settings(SearchPreset::Thorough).0,
        preset_settings(SearchPreset::Fast).1 < preset_settings(SearchPreset::Balanced).1,
        preset_settings(SearchPreset::Balanced).1 < preset_settings(SearchPreset::Thorough).1,
        preset_settings(SearchPreset::Fast).1 > 0,
{
}

/// Successful end-to-end run details for presentation.
#[derive(Clone, Debug, Eq, PartialEq)]
pub struct RunSummary {
    solution: SolutionSummary,
    metrics: SolverMetrics,
    optimality: OptimalityStatus,
    json_output_path: String,
    html_output_path: String,
}

impl RunSummary {
    pub closed spec fn solution_spec(self) -> SolutionSummary {
        self.solution
    }

    pub closed spec fn json_output_path_spec(self) -> Seq<char> {
        self.json_output_path@
    }

    pub closed spec fn html_output_path_spec(self) -> Seq<char> {
        self.html_output_path@
    }

    pub fn new(
        solution: SolutionSummary,
        metrics: SolverMetrics,
        optimality: OptimalityStatus,
        json_output_path: String,
        html_output_path: String,
    ) -> (r: RunSummary)
        ensures
            r.solution_spec() == solution,
            r.metrics_spec() == metrics,
            r.optimality_spec() == optimality,
            r.json_output_path_spec() == json_output_path@,
            r.html_output_path_spec() == html_output_path@,
    {
        RunSummary { solution, metrics, optimality, json_output_path, html_output_path }
    }

    pub fn solution(&self) -> (r: &SolutionSummary)
        ensures
            *r == self.solution_spec(),
    {
        &self.solution
    }

    pub fn metrics(&self) -> (r: SolverMetrics)
        ensures
            r == self.metrics_spec(),
    {
        self.metrics
    }

    pub fn optimality(&self) -> (r: OptimalityStatus)
        ensures
            r == self.optimality_spec(),
    {
        self.optimality
    }

    pub closed spec fn metrics_spec(&self) -> SolverMetrics {
        self.metrics
    }

    pub closed spec fn optimality_spec(&self) -> OptimalityStatus {
        self.optimality
    }

    pub fn json_output_path(&self) -> (r: &str)
        ensures
            r@ == self.json_output_path_spec(),
    {
        self.json_output_path.as_str()
    }

    pub fn html_output_path(&self) -> (r: &str)
        ensures
            r@ == self.html_output_path_spec(),
    {
        self.html_output_path.as_str()
    }
}

/// The HTML report path beside the JSON output, or `None` when it would be
/// the JSON output itself.
pub fn report_path(cli: &Cli) -> (r: Option<String>)
    ensures
        r matches Some(path) ==> path@ == path_with_extension(cli.output@, "html"@) && path@ != cli.output@,
        r is None ==> path_with_extension(cli.output@, "html"@) == cli.output@,
{
    let html = cli.html_output_path();
    if html == cli.output {
        None
    } else {
        Some(html)
    }
}

/// Failure of the solving stage of a run.
#[derive(Debug)]
pub enum SolveStageError {
    Solve(SolverError),
    ValidateSolution(SolutionValidationErrors),
}

/// The bounded residual repair applies to a solution with between one and
/// six unplaced items (the default repair bounds).
pub open spec fn repair_applies(sol: (Seq<crate::solution::PlacementView>, Seq<usize>)) -> bool {
    0 < sol.1.len() <= 6
}

/// `after` is `before` once the bounded residual repair has run on it: where
/// it applies, a valid solution no worse than `before`'s that keeps its
/// placements first and leaves unplaced only items it left unplaced, one
/// more validated candidate, at least as many explored candidates, and one
/// more improvement exactly when the repair improved the objective; where it
/// does not apply, `before` unchanged.
pub open spec fn repaired_from(instance: PackingInstance, before: SolverOutcome, after: SolverOutcome) -> bool {
    let b = before.solution_spec()@;
    let a = after.solution_spec()@;
    let ob = objective_of(summary_spec(instance, b));
    let oa = objective_of(summary_spec(instance, a));
    if !repair_applies(b) {
        after == before
    } else {
        &&& solution_valid(instance, a)
        &&& objective_order(oa, ob) >= 0
        &&& b.0.len() <= a.0.len() && a.0.take(b.0.len() as int) == b.0
        &&& forall|x: usize| #[trigger] a.1.contains(x) ==> b.1.contains(x)
        &&& after.metrics_spec()@.1 == before.metrics_spec()@.1 + 1
        &&& after.metrics_spec()@.0 >= before.metrics_spec()@.0
        &&& after.metrics_spec()@.2 == before.metrics_spec()@.2 + if objective_order(oa, ob) > 0 {
            1int
        } else {
            0int
        }
        &&& after.metrics_spec()@.3 == before.metrics_spec()@.3
        &&& after.optimality_spec() == before.optimality_spec()
    }
}

/// Run the bounded residual repair (at most six residual items, 512 nodes)
/// on a valid incumbent with the same request, count it as one more
/// validated candidate, then validate the chosen solution independently.
pub fn repair_stage(instance: &PackingInstance, outcome: SolverOutcome, request: &SolveRequest) -> (r: Result<
    (SolverOutcome, SolutionSummary),
    SolveStageError,
>)
    requires
        solution_valid(*instance, outcome.solution_spec()@),
    ensures
        r matches Ok((after, summary)) ==> {
            &&& solution_valid(*instance, after.solution_spec()@)
            &&& summary@ == summary_spec(*instance, after.solution_spec()@)
            &&& repaired_from(*instance, outcome, after)
        },
        r matches Err(e) ==> e matches SolveStageError::Solve(se) && repair_applies(outcome.solution_spec()@) && ((se@
            == "repair candidate metric overflowed"@ && 512 * repair_cap(*instance) > u64::MAX) || ids_volume(
            instance.item_views(),
            outcome.solution_spec()@.1,
        ) > u128::MAX || outcome.metrics_spec()@.1 + 1 > u64::MAX || outcome.metrics_spec()@.2 + 1 > u64::MAX || (se@
            == "explored-candidate"@ + " metric overflowed"@ && outcome.metrics_spec()@.0 + 512 * repair_cap(*instance)
            > u64::MAX)),
{
    let before_summary = match validate_solution(instance, outcome.solution()) {
        Ok(summary) => summary,
        Err(e) => {
            return Err(SolveStageError::ValidateSolution(e));
        },
    };
    let config = RepairConfig::default();
    let repaired = match repair_residual(instance, outcome.solution(), request, config) {
        Ok(Some(repaired)) => repaired,
        Ok(None) => {
            return Ok((outcome, before_summary));
        },
        Err(e) => {
            return Err(SolveStageError::Solve(e));
        },
    };
    let metrics = outcome.metrics();
    let explored = match checked_metric_add(metrics.explored_candidates(), repaired.explored_candidates(), "explored-candidate") {
        Ok(v) => v,
        Err(e) => {
            return Err(SolveStageError::Solve(e));
        },
    };
    let validated = match checked_metric_add(metrics.validated_candidates(), 1, "validated-candidate") {
        Ok(v) => v,
        Err(e) => {
            return Err(SolveStageError::Solve(e));
        },
    };
    let solution = repaired.into_solution();
    let summary = match validate_solution(instance, &solution) {
        Ok(summary) => summary,
        Err(e) => {
            return Err(SolveStageError::ValidateSolution(e));
        },
    };
    let improved = ObjectiveValue::from_summary(&summary).is_better_than(&ObjectiveValue::from_summary(&before_summary));
    let improvements = if improved {
        match checked_metric_add(metrics.improvements(), 1, "improvement") {
            Ok(v) => v,
            Err(e) => {
                return Err(SolveStageError::Solve(e));
            },
        }
    } else {
        metrics.improvements()
    };
    let after = SolverOutcome::new(
        solution,
        SolverMetrics::new(explored, validated, improvements, metrics.elapsed()),
        outcome.optimality(),
    );
    Ok((after, summary))
}

/// Solve a validated instance with the preset's work units and the preset's
/// deadline (or the given time limit), the seed and the thread bound, run
/// the bounded residual repair on the portfolio's answer, then validate the
/// result independently.
pub fn solve_instance(instance: &PackingInstance, cli: &Cli) -> (r: Result<(SolverOutcome, SolutionSummary), SolveStageError>)
    requires
        cli.threads > 0,
    ensures
        r matches Ok((outcome, summary)) ==> {
            &&& solution_valid(*instance, outcome.solution_spec()@)
            &&& summary@ == summary_spec(*instance, outcome.solution_spec()@)
            &&& outcome.optimality_spec() == OptimalityStatus::Heuristic
            &&& exists|answer: SolverOutcome|
                portfolio_answer(*instance, preset_settings(cli.preset).1 as nat, cli.seed, answer)
                    && #[trigger] repaired_from(*instance, answer, outcome)
        },
        r matches Err(e) ==> e is Solve,
        r is Err ==> (exists|i: nat|
            i < preset_settings(cli.preset).1 && #[trigger] unit_overflows(*instance, unit_of(cli.seed, i)))
            || explored_may_overflow(*instance, preset_settings(cli.preset).1 as nat, cli.seed) || exists|
            answer: SolverOutcome,
        |
            #![trigger portfolio_answer(*instance, preset_settings(cli.preset).1 as nat, cli.seed, answer)]
            portfolio_answer(*instance, preset_settings(cli.preset).1 as nat, cli.seed, answer) && repair_applies(
                answer.solution_spec()@,
            ) && (ids_volume(instance.item_views(), answer.solution_spec()@.1) > u128::MAX
                || answer.metrics_spec()@.1 + 1 > u64::MAX || answer.metrics_spec()@.2 + 1 > u64::MAX || (r matches Err(
                SolveStageError::Solve(se),
            ) && ((se@ == "repair candidate metric overflowed"@ && 512 * repair_cap(*instance) > u64::MAX) || (se@
                == "explored-candidate"@ + " metric overflowed"@ && answer.metrics_spec()@.0 + 512 * repair_cap(*instance)
                > u64::MAX)))),
{
    let settings = SearchSettings::for_preset(cli.preset);
    let time_limit = match cli.time_limit {
        Some(limit) => limit,
        None => settings.time_limit(),
    };
    let request = SolveRequest::new(time_limit, cli.seed, cli.threads);
    let backend = PortfolioBackend::new(settings.work_units());
    let outcome = match backend.solve(instance, &request) {
        Ok(outcome) => outcome,
        Err(e) => {
            return Err(SolveStageError::Solve(e));
        },
    };
    let ghost answer = outcome;
    let r = repair_stage(instance, outcome, &request);
    proof {
        if r is Ok {
            assert(repaired_from(*instance, answer, r.unwrap().0));
        }
    }
    r
}

} // verus!
