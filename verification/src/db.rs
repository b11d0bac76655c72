//! The query store: per-function lowering inputs, the configuration axes,
//! and the incremental per-function result cache.
//!
//! A query for a function's body at a stage first consults the cache,
//! keyed by function identity, stage and the recipe resolved from the
//! current configuration — the recipe's value equality is the fingerprint,
//! so a configuration change routes later queries to different keys and a
//! stale entry can never be returned. On a miss the query runs the phase
//! sequencer over the externally-lowered body and stores the result;
//! failures are stored too, so a repeated query at the same fingerprint
//! does not recompute the same failure.

use vstd::prelude::*;

use crate::config::{
    Optimizations, Recipe, RecipeView, resolve_recipe, spec_resolve_recipe,
};
use crate::diag::{
    ConfigurationConflict, Diagnostic, Diagnostics, LoweringFailure, OptimizationError,
};
use crate::ir::{BodyView, FunctionId, LoweredBody};
use crate::lowering::{LoweringResult, LoweringResultView, group_table_views, table_views};
use crate::pipeline::{LoweringStage, recipe_phases, run_standard_pipeline, spec_run_phases};

verus! {

/// What a query computes, purely as a function of the lowering inputs, the
/// module's semantic diagnostics, the function identity, the stage and the
/// resolved recipe: the outcome and the diagnostics the computation emits.
/// A lowering failure is surfaced as a diagnostic listing the module's
/// semantic diagnostics followed by the lowering-failure entry for the
/// function.
pub open spec fn spec_compute(
    table: Seq<LoweringResultView>,
    semantic: Seq<Diagnostic>,
    function: FunctionId,
    stage: LoweringStage,
    recipe: RecipeView,
) -> (Result<BodyView, OptimizationError>, Seq<Diagnostic>) {
    if function >= table.len() || !(table[function as int] is Body) {
        (
            Err(OptimizationError::Lowering(LoweringFailure {  })),
            semantic.push(
                Diagnostic {
                    severity: crate::diag::Severity::Error,
                    function,
                    kind: crate::diag::DiagnosticKind::LoweringFailed,
                },
            ),
        )
    } else {
        let pre = crate::inline::lowered_body_of(table[function as int]);
        match stage {
            LoweringStage::PreOptimizations => (Ok(pre), Seq::empty()),
            LoweringStage::Final => {
                let run = spec_run_phases(recipe, table, function, pre, recipe_phases(recipe));
                match run.0 {
                    Ok(v) => (Ok(v), run.1),
                    Err(pf) => (Err(OptimizationError::Phase(pf)), run.1),
                }
            },
        }
    }
}

/// What a query returns given the raw configuration: recipe resolution
/// happens first, and a conflict surfaces before any pass runs.
pub open spec fn spec_query(
    table: Seq<LoweringResultView>,
    semantic: Seq<Diagnostic>,
    opts: Option<RecipeView>,
    flag: Option<bool>,
    function: FunctionId,
    stage: LoweringStage,
) -> (Result<BodyView, OptimizationError>, Seq<Diagnostic>) {
    match spec_resolve_recipe(opts, flag) {
        Err(c) => (Err(OptimizationError::Configuration(c)), Seq::empty()),
        Ok(recipe) => spec_compute(table, semantic, function, stage, recipe),
    }
}

/// Whether a diagnostics list carries an error-severity entry — an
/// unresolved failure.
pub open spec fn has_error_diag(ds: Seq<Diagnostic>) -> bool {
    exists|i: int| 0 <= i < ds.len() && (#[trigger] ds[i]).severity is Error
}

/// What code generation may consume: the computed final body, unless its
/// computation carried an unresolved failure, which is refused.
pub open spec fn spec_final_outcome(
    q: (Result<BodyView, OptimizationError>, Seq<Diagnostic>),
) -> Result<BodyView, OptimizationError> {
    match q.0 {
        Ok(v) => if has_error_diag(q.1) {
            Err(OptimizationError::Lowering(LoweringFailure {  }))
        } else {
            Ok(v)
        },
        Err(e) => Err(e),
    }
}

/// One memoized result.
pub struct CacheEntry {
    /// The function the entry belongs to.
    pub function: FunctionId,
    /// The stage the entry belongs to.
    pub stage: LoweringStage,
    /// The recipe fingerprint the entry was computed under.
    pub recipe: Recipe,
    /// The stored outcome; failures are stored like successes.
    pub outcome: Result<LoweredBody, OptimizationError>,
    /// The diagnostics the computation emitted.
    pub diags: Vec<Diagnostic>,
}

/// The model of a stored outcome.
pub open spec fn outcome_view(o: Result<LoweredBody, OptimizationError>) -> Result<
    BodyView,
    OptimizationError,
> {
    match o {
        Ok(b) => Ok(b@),
        Err(e) => Err(e),
    }
}

/// The query store.
pub struct Db {
    /// What the external lowering produced, per function; fixed at
    /// construction.
    pub lowering: Vec<LoweringResult>,
    /// The module's semantic diagnostics, an external input queried when a
    /// lowering failure is reported; fixed at construction.
    pub semantic_diagnostics: Vec<Diagnostic>,
    /// The stored optimization settings, if any were configured.
    pub optimizations: Option<Optimizations>,
    /// The process-wide flag overriding the local-into-box axis, if set.
    pub flag_local_into_box: Option<bool>,
    /// Bumped by every configuration write.
    pub version: u64,
    /// The memoized results.
    pub cache: Vec<CacheEntry>,
}

impl Db {
    /// The models of the lowering inputs.
    pub open spec fn table_view(&self) -> Seq<LoweringResultView> {
        table_views(self.lowering@)
    }

    /// The model of the stored settings.
    pub open spec fn opts_view(&self) -> Option<RecipeView> {
        match self.optimizations {
            Some(o) => Some(o@),
            None => None,
        }
    }

    /// Every cache entry holds exactly what a fresh computation under its
    /// own key would produce. This is what makes a hit as good as a miss:
    /// a stale result cannot sit under a current key, because the key
    /// carries the recipe fingerprint and the lowering inputs are fixed.
    pub open spec fn inv(&self) -> bool {
        forall|i: int|
            0 <= i < self.cache@.len() ==> {
                let e = #[trigger] self.cache@[i];
                outcome_view(e.outcome) == spec_compute(
                    self.table_view(),
                    self.semantic_diagnostics@,
                    e.function,
                    e.stage,
                    e.recipe@,
                ).0 && e.diags@ == spec_compute(
                    self.table_view(),
                    self.semantic_diagnostics@,
                    e.function,
                    e.stage,
                    e.recipe@,
                ).1
            }
    }

    /// A store over the given lowering results, with nothing configured
    /// and an empty cache.
    pub fn new(lowering: Vec<LoweringResult>) -> (r: Db)
        ensures
            r.inv(),
            r.lowering@ == lowering@,
            r.semantic_diagnostics@ == Seq::<Diagnostic>::empty(),
            r.optimizations is None,
            r.flag_local_into_box is None,
            r.version == 0,
            r.cache@.len() == 0,
    {
        let r = Db {
            lowering,
            semantic_diagnostics: Vec::new(),
            optimizations: None,
            flag_local_into_box: None,
            version: 0,
            cache: Vec::new(),
        };
        assert(r.semantic_diagnostics@ =~= Seq::<Diagnostic>::empty());
        r
    }

    /// A store that also carries the module's semantic diagnostics, so a
    /// lowering failure can list them.
    pub fn new_with_semantic_diagnostics(
        lowering: Vec<LoweringResult>,
        semantic: Vec<Diagnostic>,
    ) -> (r: Db)
        ensures
            r.inv(),
            r.lowering@ == lowering@,
            r.semantic_diagnostics@ == semantic@,
            r.optimizations is None,
            r.flag_local_into_box is None,
            r.version == 0,
            r.cache@.len() == 0,
    {
        Db {
            lowering,
            semantic_diagnostics: semantic,
            optimizations: None,
            flag_local_into_box: None,
            version: 0,
            cache: Vec::new(),
        }
    }

    /// Sets the process-wide local-into-box flag and bumps the version:
    /// later queries resolve a different fingerprint, so entries cached
    /// under the old one are never returned for the new configuration.
    pub fn set_local_into_box_flag(&mut self, value: Option<bool>)
        requires
            old(self).inv(),
        ensures
            final(self).inv(),
            final(self).flag_local_into_box == value,
            final(self).optimizations == old(self).optimizations,
            final(self).lowering@ == old(self).lowering@,
            final(self).semantic_diagnostics@ == old(self).semantic_diagnostics@,
            final(self).cache@ == old(self).cache@,
            final(self).version == (if old(self).version < u64::MAX {
                (old(self).version + 1) as u64
            } else {
                0u64
            }),
    {
        self.flag_local_into_box = value;
        self.version = if self.version < u64::MAX {
            self.version + 1
        } else {
            0
        };
    }

    /// The query: the function's body at a stage under the current
    /// configuration, with the diagnostics the computation emitted. The
    /// answer is always what a fresh computation under the current inputs
    /// would produce, whatever was cached before.
    pub fn lowered_body_with_diagnostics(
        &mut self,
        function: FunctionId,
        stage: LoweringStage,
    ) -> (r: (Result<LoweredBody, OptimizationError>, Vec<Diagnostic>))
        requires
            old(self).inv(),
        ensures
            final(self).inv(),
            final(self).lowering@ == old(self).lowering@,
            final(self).optimizations == old(self).optimizations,
            final(self).flag_local_into_box == old(self).flag_local_into_box,
            final(self).version == old(self).version,
            final(self).semantic_diagnostics@ == old(self).semantic_diagnostics@,
            outcome_view(r.0) == spec_query(
                old(self).table_view(),
                old(self).semantic_diagnostics@,
                old(self).opts_view(),
                old(self).flag_local_into_box,
                function,
                stage,
            ).0,
            r.1@ == spec_query(
                old(self).table_view(),
                old(self).semantic_diagnostics@,
                old(self).opts_view(),
                old(self).flag_local_into_box,
                function,
                stage,
            ).1,
    {
        broadcast use group_table_views;

        let recipe = match resolve_recipe(&self.optimizations, self.flag_local_into_box) {
            Err(c) => {
                return (Err(OptimizationError::Configuration(c)), Vec::new());
            },
            Ok(recipe) => recipe,
        };
        let mut i: usize = 0;
        while i < self.cache.len()
            invariant
                i <= self.cache.len(),
                self.inv(),
                spec_resolve_recipe(self.opts_view(), self.flag_local_into_box) == Ok::<
                    RecipeView,
                    ConfigurationConflict,
                >(recipe@),
            decreases self.cache.len() - i,
        {
            let e = &self.cache[i];
            if e.function == function && e.stage == stage && e.recipe.recipe_eq(&recipe) {
                let out = match &e.outcome {
                    Ok(b) => Ok(b.clone()),
                    Err(err) => Err(*err),
                };
                let ds = clone_diags(&e.diags);
                assert(outcome_view(out) == spec_compute(
                    self.table_view(),
                    self.semantic_diagnostics@,
                    function,
                    stage,
                    recipe@,
                ).0);
                return (out, ds);
            }
            i += 1;
        }
        let (outcome, ds) = self.compute_entry(function, stage, &recipe);
        let stored_outcome = match &outcome {
            Ok(b) => Ok(b.clone()),
            Err(err) => Err(*err),
        };
        let stored_ds = clone_diags(&ds);
        let entry = CacheEntry {
            function,
            stage,
            recipe,
            outcome: stored_outcome,
            diags: stored_ds,
        };
        let ghost pre_cache = self.cache@;
        self.cache.push(entry);
        proof {
            assert forall|k: int| 0 <= k < self.cache@.len() implies {
                let e = #[trigger] self.cache@[k];
                outcome_view(e.outcome) == spec_compute(
                    self.table_view(),
                    self.semantic_diagnostics@,
                    e.function,
                    e.stage,
                    e.recipe@,
                ).0 && e.diags@ == spec_compute(
                    self.table_view(),
                    self.semantic_diagnostics@,
                    e.function,
                    e.stage,
                    e.recipe@,
                ).1
            } by {
                if k < pre_cache.len() {
                    assert(self.cache@[k] == pre_cache[k]);
                }
            }
        }
        (outcome, ds)
    }

    /// Computes one entry afresh: the externally-lowered body, run through
    /// the phase sequencer when the final stage is asked for.
    fn compute_entry(&self, function: FunctionId, stage: LoweringStage, recipe: &Recipe) -> (r: (
        Result<LoweredBody, OptimizationError>,
        Vec<Diagnostic>,
    ))
        ensures
            outcome_view(r.0) == spec_compute(
                self.table_view(),
                self.semantic_diagnostics@,
                function,
                stage,
                recipe@,
            ).0,
            r.1@ == spec_compute(
                self.table_view(),
                self.semantic_diagnostics@,
                function,
                stage,
                recipe@,
            ).1,
    {
        broadcast use group_table_views;

        if function >= self.lowering.len() {
            return (
                Err(OptimizationError::Lowering(LoweringFailure {  })),
                self.failure_diagnostics(function),
            );
        }
        let pre = match &self.lowering[function] {
            LoweringResult::Failure(f) => {
                return (
                    Err(OptimizationError::Lowering(LoweringFailure {  })),
                    self.failure_diagnostics(function),
                );
            },
            LoweringResult::Body(b) => b.clone(),
        };
        assert(pre@ == crate::inline::lowered_body_of(self.table_view()[function as int]));
        match stage {
            LoweringStage::PreOptimizations => (Ok(pre), Vec::new()),
            LoweringStage::Final => {
                let mut body = pre;
                let mut diags = Diagnostics::new();
                let outcome = match run_standard_pipeline(
                    recipe,
                    &self.lowering,
                    function,
                    &mut body,
                    &mut diags,
                ) {
                    Ok(()) => Ok(body),
                    Err(pf) => Err(OptimizationError::Phase(pf)),
                };
                (outcome, diags.entries)
            },
        }
    }

    /// The diagnostics a lowering failure surfaces: the module's semantic
    /// diagnostics followed by the lowering-failure entry for the function.
    fn failure_diagnostics(&self, function: FunctionId) -> (r: Vec<Diagnostic>)
        ensures
            r@ == self.semantic_diagnostics@.push(
                Diagnostic {
                    severity: crate::diag::Severity::Error,
                    function,
                    kind: crate::diag::DiagnosticKind::LoweringFailed,
                },
            ),
    {
        let mut r = clone_diags(&self.semantic_diagnostics);
        r.push(
            Diagnostic {
                severity: crate::diag::Severity::Error,
                function,
                kind: crate::diag::DiagnosticKind::LoweringFailed,
            },
        );
        r
    }

    /// The query, dropping the diagnostics.
    pub fn lowered_body(&mut self, function: FunctionId, stage: LoweringStage) -> (r: Result<
        LoweredBody,
        OptimizationError,
    >)
        requires
            old(self).inv(),
        ensures
            final(self).inv(),
            final(self).lowering@ == old(self).lowering@,
            final(self).optimizations == old(self).optimizations,
            final(self).flag_local_into_box == old(self).flag_local_into_box,
            final(self).semantic_diagnostics@ == old(self).semantic_diagnostics@,
            outcome_view(r) == spec_query(
                old(self).table_view(),
                old(self).semantic_diagnostics@,
                old(self).opts_view(),
                old(self).flag_local_into_box,
                function,
                stage,
            ).0,
    {
        let (outcome, ds) = self.lowered_body_with_diagnostics(function, stage);
        outcome
    }

    /// The final-stage body, the only stage code generation may consume. A
    /// function whose pipeline failed yields the stored error, never a
    /// partially-optimized body, and a body whose computation emitted an
    /// error-severity diagnostic — an unresolved failure such as a callee
    /// that never lowered — is refused rather than handed to code
    /// generation.
    pub fn get_final_body(&mut self, function: FunctionId) -> (r: Result<
        LoweredBody,
        OptimizationError,
    >)
        requires
            old(self).inv(),
        ensures
            final(self).inv(),
            final(self).lowering@ == old(self).lowering@,
            final(self).optimizations == old(self).optimizations,
            final(self).flag_local_into_box == old(self).flag_local_into_box,
            final(self).semantic_diagnostics@ == old(self).semantic_diagnostics@,
            outcome_view(r) == spec_final_outcome(
                spec_query(
                    old(self).table_view(),
                    old(self).semantic_diagnostics@,
                    old(self).opts_view(),
                    old(self).flag_local_into_box,
                    function,
                    LoweringStage::Final,
                ),
            ),
    {
        let (outcome, ds) = self.lowered_body_with_diagnostics(function, LoweringStage::Final);
        match outcome {
            Ok(body) => {
                if any_error_diag(&ds) {
                    Err(OptimizationError::Lowering(LoweringFailure {  }))
                } else {
                    Ok(body)
                }
            },
            Err(e) => Err(e),
        }
    }

    /// The body as the external lowering produced it.
    pub fn get_pre_optimization_body(&mut self, function: FunctionId) -> (r: Result<
        LoweredBody,
        OptimizationError,
    >)
        requires
            old(self).inv(),
        ensures
            final(self).inv(),
            final(self).lowering@ == old(self).lowering@,
            final(self).optimizations == old(self).optimizations,
            final(self).flag_local_into_box == old(self).flag_local_into_box,
            final(self).semantic_diagnostics@ == old(self).semantic_diagnostics@,
            outcome_view(r) == spec_query(
                old(self).table_view(),
                old(self).semantic_diagnostics@,
                old(self).opts_view(),
                old(self).flag_local_into_box,
                function,
                LoweringStage::PreOptimizations,
            ).0,
    {
        self.lowered_body(function, LoweringStage::PreOptimizations)
    }
}

/// Whether a diagnostics list carries an error-severity entry.
fn any_error_diag(ds: &Vec<Diagnostic>) -> (r: bool)
    ensures
        r == has_error_diag(ds@),
{
    let mut i: usize = 0;
    while i < ds.len()
        invariant
            i <= ds.len(),
            forall|j: int| 0 <= j < i ==> !((#[trigger] ds@[j]).severity is Error),
        decreases ds.len() - i,
    {
        if matches!(ds[i].severity, crate::diag::Severity::Error) {
            assert(has_error_diag(ds@));
            return true;
        }
        i += 1;
    }
    false
}

/// Copies a diagnostics list.
fn clone_diags(ds: &Vec<Diagnostic>) -> (r: Vec<Diagnostic>)
    ensures
        r@ == ds@,
{
    let mut r: Vec<Diagnostic> = Vec::new();
    let mut i: usize = 0;
    while i < ds.len()
        invariant
            i <= ds.len(),
            r@ == ds@.take(i as int),
        decreases ds.len() - i,
    {
        r.push(ds[i]);
        i += 1;
        assert(r@ =~= ds@.take(i as int));
    }
    assert(ds@.take(ds@.len() as int) =~= ds@);
    r
}

/// Stores the optimization settings the standard test configuration uses —
/// constant folding on, the given local-into-box axis — and bumps the
/// version, so the change is visible to every later query's fingerprint.
pub fn configure_local_into_box(db: &mut Db, enable: bool)
    requires
        old(db).inv(),
    ensures
        final(db).inv(),
        final(db).optimizations is Some,
        final(db).opts_view() == Some(
            RecipeView {
                inlining: crate::config::InliningStrategyView::Default,
                const_folding: true,
                local_into_box: enable,
                movable_functions: Seq::<FunctionId>::empty(),
            },
        ),
        final(db).lowering@ == old(db).lowering@,
        final(db).semantic_diagnostics@ == old(db).semantic_diagnostics@,
        final(db).flag_local_into_box == old(db).flag_local_into_box,
        final(db).cache@ == old(db).cache@,
        final(db).version == (if old(db).version < u64::MAX {
            (old(db).version + 1) as u64
        } else {
            0u64
        }),
{
    let optimizations = Optimizations::enabled_with_default_movable_functions(
        crate::config::InliningStrategy::Default,
    ).with_local_into_box(enable);
    db.optimizations = Some(optimizations);
    db.version = if db.version < u64::MAX {
        db.version + 1
    } else {
        0
    };
}

/// Law: cache coherence. What a query returns is a pure function of the
/// current lowering inputs and the current configuration: two stores with
/// equal inputs and equal configuration answer every query equally,
/// whatever either one computed, cached or answered before. In particular,
/// after querying under one local-into-box setting and switching to the
/// other, the next query's answer is the one the new setting prescribes —
/// the old result may differ, and is never returned.
pub proof fn lemma_cache_coherence(d1: Db, d2: Db, function: FunctionId, stage: LoweringStage)
    requires
        d1.table_view() == d2.table_view(),
        d1.semantic_diagnostics@ == d2.semantic_diagnostics@,
        d1.opts_view() == d2.opts_view(),
        d1.flag_local_into_box == d2.flag_local_into_box,
    ensures
        spec_query(
            d1.table_view(),
            d1.semantic_diagnostics@,
            d1.opts_view(),
            d1.flag_local_into_box,
            function,
            stage,
        ) == spec_query(
            d2.table_view(),
            d2.semantic_diagnostics@,
            d2.opts_view(),
            d2.flag_local_into_box,
            function,
            stage,
        ),
{
}

} // verus!
