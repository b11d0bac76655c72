//! Mid-level optimization engine for a compiler targeting a virtual machine
//! with prime-field scalar arithmetic.
//!
//! The crate models a function's lowered intermediate representation (a
//! control-flow graph of basic blocks over a typed variable pool), a fixed
//! sequence of optimization passes (inlining, block reorganization,
//! cancellation of inverse operation pairs, constant folding), the resolution
//! of compiler flags into an optimization recipe, and an incremental
//! per-function result cache keyed by function, stage and recipe.

pub mod field;
pub mod ir;
pub mod const_fold;
pub mod reorganize;
pub mod cancel;
pub mod config;
pub mod diag;
pub mod lowering;
pub mod inline;
pub mod boxing;
pub mod pipeline;
pub mod db;
pub mod interp;
