//! Diagnostics and the error taxonomy of the optimization engine.
//!
//! Diagnostics are non-fatal issues discovered while optimizing, collected
//! in an append-only, ordered list. Errors abort the pipeline for one
//! function only: an upstream lowering failure is propagated, a phase
//! failure carries the phase name and the function identity, and a
//! configuration conflict is detected before any pass runs.

use vstd::prelude::*;

use crate::ir::FunctionId;

verus! {

/// How severe a diagnostic is.
#[derive(Clone, Copy, PartialEq, Eq, Structural, Debug)]
pub enum Severity {
    /// The function cannot be compiled as written.
    Error,
    /// The function compiles, but something deserves attention.
    Warning,
}

/// What a diagnostic reports.
#[derive(Clone, Copy, PartialEq, Eq, Structural, Debug)]
pub enum DiagnosticKind {
    /// A callee selected for inlining had no lowered body; the call was
    /// kept and the failure attached to the caller.
    CalleeLoweringFailed {
        /// The callee whose lowering failed.
        callee: FunctionId,
    },
    /// The external lowering produced no body for this function.
    LoweringFailed,
}

/// One entry of the diagnostics list.
#[derive(Clone, Copy, PartialEq, Eq, Structural, Debug)]
pub struct Diagnostic {
    /// How severe the issue is.
    pub severity: Severity,
    /// The function the issue belongs to.
    pub function: FunctionId,
    /// What happened.
    pub kind: DiagnosticKind,
}

/// The human-readable text of a diagnostic kind.
pub open spec fn spec_message(k: DiagnosticKind) -> Seq<char> {
    match k {
        DiagnosticKind::CalleeLoweringFailed { callee } => "cannot inline a callee whose lowering failed"@,
        DiagnosticKind::LoweringFailed => "lowering produced no body for this function"@,
    }
}

impl Diagnostic {
    /// The human-readable message of this diagnostic.
    pub fn message(&self) -> (r: &'static str)
        ensures
            r@ == spec_message(self.kind),
    {
        match self.kind {
            DiagnosticKind::CalleeLoweringFailed { callee } => {
                "cannot inline a callee whose lowering failed"
            },
            DiagnosticKind::LoweringFailed => "lowering produced no body for this function",
        }
    }
}

/// An ordered, append-only collection of diagnostics.
#[derive(Debug)]
pub struct Diagnostics {
    /// The collected entries, oldest first.
    pub entries: Vec<Diagnostic>,
}

impl View for Diagnostics {
    type V = Seq<Diagnostic>;

    open spec fn view(&self) -> Seq<Diagnostic> {
        self.entries@
    }
}

impl Diagnostics {
    /// An empty collection.
    pub fn new() -> (r: Self)
        ensures
            r@ == Seq::<Diagnostic>::empty(),
    {
        let r = Diagnostics { entries: Vec::new() };
        assert(r@ =~= Seq::<Diagnostic>::empty());
        r
    }

    /// Appends one diagnostic; existing entries are never mutated.
    pub fn push(&mut self, d: Diagnostic)
        ensures
            final(self)@ == old(self)@.push(d),
    {
        self.entries.push(d);
    }

    /// Appends every entry of another collection, in order.
    pub fn append_all(&mut self, ds: &Vec<Diagnostic>)
        ensures
            final(self)@ == old(self)@ + ds@,
    {
        let mut i: usize = 0;
        while i < ds.len()
            invariant
                i <= ds.len(),
                self@ == old(self)@ + ds@.take(i as int),
            decreases ds.len() - i,
        {
            assert(old(self)@ + ds@.take(0) =~= old(self)@);
            self.entries.push(ds[i]);
            i += 1;
            assert(old(self)@ + ds@.take(i as int) =~= (old(self)@ + ds@.take(i - 1)).push(
                ds@[i - 1],
            ));
        }
        assert(old(self)@ + ds@.take(ds@.len() as int) =~= old(self)@ + ds@);
    }

    /// How many diagnostics were collected.
    pub fn len(&self) -> (r: usize)
        ensures
            r == self@.len(),
    {
        self.entries.len()
    }

    /// Reads one diagnostic.
    pub fn get(&self, i: usize) -> (r: Diagnostic)
        requires
            i < self@.len(),
        ensures
            r == self@[i as int],
    {
        self.entries[i]
    }
}

/// The upstream lowering could not produce a body for a function.
#[derive(Clone, Copy, PartialEq, Eq, Structural, Debug)]
pub struct LoweringFailure {}

/// The names of the optimization phases, attached to phase failures.
#[derive(Clone, Copy, PartialEq, Eq, Structural, Debug)]
pub enum PhaseName {
    /// The local-into-box representation rewrite.
    LocalIntoBox,
    /// The inlining pass.
    ApplyInlining,
    /// The block-reorganization pass.
    ReorganizeBlocks,
    /// The cancel-ops pass.
    CancelOps,
    /// The constant-folding pass.
    ConstFolding,
}

/// A pass could not complete; aborts the pipeline for this function only.
#[derive(Clone, Copy, PartialEq, Eq, Structural, Debug)]
pub struct PhaseFailure {
    /// Which pass failed.
    pub phase: PhaseName,
    /// Which function was being optimized.
    pub function: FunctionId,
}

/// Two recipe fields are mutually inconsistent; detected at
/// recipe-resolution time, before any pass runs.
#[derive(Clone, Copy, PartialEq, Eq, Structural, Debug)]
pub struct ConfigurationConflict {
    /// A function the allow-list names although it is not movable.
    pub function: FunctionId,
}

/// Everything that can stop a query for an optimized body.
#[derive(Clone, Copy, PartialEq, Eq, Structural, Debug)]
pub enum OptimizationError {
    /// The upstream lowering failed; propagated, never retried.
    Lowering(LoweringFailure),
    /// A pass failed on this function.
    Phase(PhaseFailure),
    /// The resolved configuration is inconsistent.
    Configuration(ConfigurationConflict),
}

} // verus!
