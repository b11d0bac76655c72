//! The optimization phase sequencer.
//!
//! A standard pipeline run applies, in this fixed order: the local-into-box
//! rewrite (when the recipe enables it), inlining, block reorganization,
//! cancel-ops, block reorganization again, constant folding (when the
//! recipe enables it), and a final block reorganization. No reordering is
//! permitted: later phases depend on invariants earlier ones establish —
//! constant folding leaves literal-defined discriminants for block
//! reorganization's branch pruning. Each phase first checks the structural
//! graph precondition and fails with the phase name and function identity
//! attached when the graph is malformed; on failure the sequencer aborts
//! for this function only and leaves the body at its last
//! successfully-produced state.

use vstd::prelude::*;

use crate::boxing::{apply_local_into_box, spec_local_into_box};
use crate::cancel::{cancel_ops, spec_cancel_ops};
use crate::config::{Recipe, RecipeView};
use crate::const_fold::{const_fold, spec_const_fold};
use crate::diag::{Diagnostic, Diagnostics, PhaseFailure, PhaseName};
use crate::inline::{apply_inlining, spec_inline_pass};
use crate::ir::{BodyView, FunctionId, LoweredBody, body_wf};
use crate::lowering::{LoweringResult, LoweringResultView, table_views};
use crate::reorganize::{reorganize, spec_reorganize};

verus! {

/// A named checkpoint at which a body may be cached and queried.
#[derive(Clone, Copy, PartialEq, Eq, Structural, Debug)]
pub enum LoweringStage {
    /// The body as the external lowering produced it.
    PreOptimizations,
    /// The body after the full standard pipeline; the only stage code
    /// generation may consume.
    Final,
}

/// One phase of the pipeline.
#[derive(Clone, Copy, PartialEq, Eq, Structural, Debug)]
pub enum OptimizationPhase {
    /// The local-into-box representation rewrite.
    ApplyLocalIntoBox,
    /// The inlining pass; the flag folds constants opportunistically right
    /// after splicing, a performance knob rather than a semantic one.
    ApplyInlining { enable_const_folding: bool },
    /// The block-reorganization pass.
    ReorganizeBlocks,
    /// The cancel-ops pass.
    CancelOps,
    /// The constant-folding pass.
    ConstFolding,
}

/// The name a phase failure carries.
pub open spec fn phase_name(p: OptimizationPhase) -> PhaseName {
    match p {
        OptimizationPhase::ApplyLocalIntoBox => PhaseName::LocalIntoBox,
        OptimizationPhase::ApplyInlining { enable_const_folding } => PhaseName::ApplyInlining,
        OptimizationPhase::ReorganizeBlocks => PhaseName::ReorganizeBlocks,
        OptimizationPhase::CancelOps => PhaseName::CancelOps,
        OptimizationPhase::ConstFolding => PhaseName::ConstFolding,
    }
}

/// What one successful phase turns a body into.
pub open spec fn spec_phase_body(
    p: OptimizationPhase,
    recipe: RecipeView,
    table: Seq<LoweringResultView>,
    function: FunctionId,
    v: BodyView,
) -> BodyView {
    match p {
        OptimizationPhase::ApplyLocalIntoBox => spec_local_into_box(v),
        OptimizationPhase::ApplyInlining { enable_const_folding } => {
            let inlined = spec_inline_pass(recipe, table, function, v).0;
            if enable_const_folding {
                spec_const_fold(inlined)
            } else {
                inlined
            }
        },
        OptimizationPhase::ReorganizeBlocks => spec_reorganize(v),
        OptimizationPhase::CancelOps => spec_cancel_ops(v),
        OptimizationPhase::ConstFolding => spec_const_fold(v),
    }
}

/// The diagnostics one successful phase emits.
pub open spec fn spec_phase_diags(
    p: OptimizationPhase,
    recipe: RecipeView,
    table: Seq<LoweringResultView>,
    function: FunctionId,
    v: BodyView,
) -> Seq<Diagnostic> {
    match p {
        OptimizationPhase::ApplyInlining { enable_const_folding } => spec_inline_pass(
            recipe,
            table,
            function,
            v,
        ).1,
        _ => Seq::empty(),
    }
}

impl OptimizationPhase {
    /// Applies one phase to a body in place. A body that does not satisfy
    /// the structural graph precondition makes the phase fail — with this
    /// phase's name and the function identity attached — and is left
    /// untouched; that is the only failure.
    pub fn apply(
        &self,
        recipe: &Recipe,
        table: &Vec<LoweringResult>,
        function: FunctionId,
        body: &mut LoweredBody,
        diags: &mut Diagnostics,
    ) -> (r: Result<(), PhaseFailure>)
        ensures
            match r {
                Ok(()) => body_wf(old(body)@) && final(body)@ == spec_phase_body(
                    *self,
                    recipe@,
                    table_views(table@),
                    function,
                    old(body)@,
                ) && final(diags)@ == old(diags)@ + spec_phase_diags(
                    *self,
                    recipe@,
                    table_views(table@),
                    function,
                    old(body)@,
                ),
                Err(e) => !body_wf(old(body)@) && e == (PhaseFailure {
                    phase: phase_name(*self),
                    function,
                }) && final(body)@ == old(body)@ && final(diags)@ == old(diags)@,
            },
    {
        if !body.check_wf() {
            return Err(PhaseFailure { phase: self.name(), function });
        }
        match self {
            OptimizationPhase::ApplyLocalIntoBox => {
                apply_local_into_box(body);
            },
            OptimizationPhase::ApplyInlining { enable_const_folding } => {
                apply_inlining(recipe, table, function, body, diags);
                if *enable_const_folding {
                    const_fold(body);
                }
            },
            OptimizationPhase::ReorganizeBlocks => {
                reorganize(body);
            },
            OptimizationPhase::CancelOps => {
                cancel_ops(body);
            },
            OptimizationPhase::ConstFolding => {
                const_fold(body);
            },
        }
        proof {
            assert(final(diags)@ =~= old(diags)@ + spec_phase_diags(
                *self,
                recipe@,
                table_views(table@),
                function,
                old(body)@,
            ));
        }
        Ok(())
    }

    /// The name a failure of this phase carries.
    pub fn name(&self) -> (r: PhaseName)
        ensures
            r == phase_name(*self),
    {
        match self {
            OptimizationPhase::ApplyLocalIntoBox => PhaseName::LocalIntoBox,
            OptimizationPhase::ApplyInlining { enable_const_folding } => PhaseName::ApplyInlining,
            OptimizationPhase::ReorganizeBlocks => PhaseName::ReorganizeBlocks,
            OptimizationPhase::CancelOps => PhaseName::CancelOps,
            OptimizationPhase::ConstFolding => PhaseName::ConstFolding,
        }
    }
}

/// The fixed phase order a recipe prescribes.
pub open spec fn recipe_phases(recipe: RecipeView) -> Seq<OptimizationPhase> {
    let head: Seq<OptimizationPhase> = if recipe.local_into_box {
        seq![OptimizationPhase::ApplyLocalIntoBox]
    } else {
        Seq::empty()
    };
    let mid = seq![
        OptimizationPhase::ApplyInlining { enable_const_folding: false },
        OptimizationPhase::ReorganizeBlocks,
        OptimizationPhase::CancelOps,
        OptimizationPhase::ReorganizeBlocks,
    ];
    let fold: Seq<OptimizationPhase> = if recipe.const_folding {
        seq![OptimizationPhase::ConstFolding]
    } else {
        Seq::empty()
    };
    head + mid + fold + seq![OptimizationPhase::ReorganizeBlocks]
}

/// Running a phase list over a body: each phase either succeeds or fails;
/// on the first failure the run stops, leaving the body at its last
/// successfully-produced state and reporting that phase's failure.
pub open spec fn spec_run_phases(
    recipe: RecipeView,
    table: Seq<LoweringResultView>,
    function: FunctionId,
    v: BodyView,
    phases: Seq<OptimizationPhase>,
) -> (Result<BodyView, PhaseFailure>, Seq<Diagnostic>)
    decreases phases.len(),
{
    if phases.len() == 0 {
        (Ok(v), Seq::empty())
    } else if !body_wf(v) {
        (Err(PhaseFailure { phase: phase_name(phases[0]), function }), Seq::empty())
    } else {
        let v2 = spec_phase_body(phases[0], recipe, table, function, v);
        let ds = spec_phase_diags(phases[0], recipe, table, function, v);
        let rest = spec_run_phases(recipe, table, function, v2, phases.drop_first());
        (rest.0, ds + rest.1)
    }
}

/// Runs the standard pipeline for a recipe over a body in place: the fixed
/// order of [`recipe_phases`]. On failure the body is left at the state the
/// last successful phase produced.
pub fn run_standard_pipeline(
    recipe: &Recipe,
    table: &Vec<LoweringResult>,
    function: FunctionId,
    body: &mut LoweredBody,
    diags: &mut Diagnostics,
) -> (r: Result<(), PhaseFailure>)
    ensures
        ({
            let spec_r = spec_run_phases(
                recipe@,
                table_views(table@),
                function,
                old(body)@,
                recipe_phases(recipe@),
            );
            &&& match r {
                Ok(()) => spec_r.0 == Ok::<BodyView, PhaseFailure>(final(body)@),
                Err(e) => spec_r.0 == Err::<BodyView, PhaseFailure>(e),
            }
            &&& final(diags)@ == old(diags)@ + spec_r.1
        }),
{
    let mut phases: Vec<OptimizationPhase> = Vec::new();
    if recipe.local_into_box {
        phases.push(OptimizationPhase::ApplyLocalIntoBox);
    }
    phases.push(OptimizationPhase::ApplyInlining { enable_const_folding: false });
    phases.push(OptimizationPhase::ReorganizeBlocks);
    phases.push(OptimizationPhase::CancelOps);
    phases.push(OptimizationPhase::ReorganizeBlocks);
    if recipe.const_folding {
        phases.push(OptimizationPhase::ConstFolding);
    }
    phases.push(OptimizationPhase::ReorganizeBlocks);
    proof {
        assert(phases@ =~= recipe_phases(recipe@));
    }
    let ghost spec_r = spec_run_phases(
        recipe@,
        table_views(table@),
        function,
        old(body)@,
        recipe_phases(recipe@),
    );
    let mut i: usize = 0;
    proof {
        assert(phases@.skip(0) =~= phases@);
        assert(diags@.take(old(diags)@.len() as int) =~= old(diags)@);
        assert(diags@.skip(old(diags)@.len() as int) =~= Seq::<Diagnostic>::empty());
        assert(Seq::<Diagnostic>::empty() + spec_run_phases(
            recipe@,
            table_views(table@),
            function,
            body@,
            phases@,
        ).1 =~= spec_run_phases(recipe@, table_views(table@), function, body@, phases@).1);
    }
    while i < phases.len()
        invariant
            i <= phases.len(),
            phases@ == recipe_phases(recipe@),
            spec_r == spec_run_phases(
                recipe@,
                table_views(table@),
                function,
                old(body)@,
                recipe_phases(recipe@),
            ),
            spec_r.0 == spec_run_phases(
                recipe@,
                table_views(table@),
                function,
                body@,
                phases@.skip(i as int),
            ).0,
            diags@.len() >= old(diags)@.len(),
            diags@.take(old(diags)@.len() as int) == old(diags)@,
            spec_r.1 == diags@.skip(old(diags)@.len() as int) + spec_run_phases(
                recipe@,
                table_views(table@),
                function,
                body@,
                phases@.skip(i as int),
            ).1,
        decreases phases.len() - i,
    {
        let phase = phases[i];
        let ghost pre_diags = diags@;
        let ghost pre_body = body@;
        match phase.apply(recipe, table, function, body, diags) {
            Ok(()) => {},
            Err(e) => {
                proof {
                    assert(phases@.skip(i as int)[0] == phases@[i as int]);
                    assert(diags@ =~= diags@.take(old(diags)@.len() as int) + diags@.skip(
                        old(diags)@.len() as int,
                    ));
                    assert(spec_run_phases(
                        recipe@,
                        table_views(table@),
                        function,
                        body@,
                        phases@.skip(i as int),
                    ).1 =~= Seq::<Diagnostic>::empty());
                    assert(diags@.skip(old(diags)@.len() as int) + Seq::<Diagnostic>::empty()
                        =~= diags@.skip(old(diags)@.len() as int));
                    assert(final(diags)@ =~= old(diags)@ + spec_r.1);
                }
                return Err(e);
            },
        }
        i += 1;
        proof {
            let tv = table_views(table@);
            let ds = spec_phase_diags(phases@[i - 1], recipe@, tv, function, pre_body);
            assert(phases@.skip(i - 1)[0] == phases@[i - 1]);
            assert(phases@.skip(i - 1).drop_first() =~= phases@.skip(i as int));
            assert(diags@.take(old(diags)@.len() as int) =~= old(diags)@);
            assert(diags@.skip(old(diags)@.len() as int) =~= pre_diags.skip(
                old(diags)@.len() as int,
            ) + ds);
            let rest = spec_run_phases(recipe@, tv, function, body@, phases@.skip(i as int));
            assert((pre_diags.skip(old(diags)@.len() as int) + ds) + rest.1 =~= pre_diags.skip(
                old(diags)@.len() as int,
            ) + (ds + rest.1));
        }
    }
    proof {
        assert(phases@.skip(phases@.len() as int) =~= Seq::<OptimizationPhase>::empty());
        assert(diags@ =~= diags@.take(old(diags)@.len() as int) + diags@.skip(
            old(diags)@.len() as int,
        ));
        assert(final(diags)@ =~= old(diags)@ + spec_r.1);
    }
    Ok(())
}

} // verus!
