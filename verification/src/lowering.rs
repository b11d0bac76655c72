//! The interface to the external lowering step: per function, either the
//! body it produced at the pre-optimization stage, or the marker that it
//! failed. The optimizer only ever reads this table.

use vstd::prelude::*;

use crate::diag::LoweringFailure;
use crate::ir::{BodyView, LoweredBody};

verus! {

/// What the external lowering produced for one function.
#[derive(Debug)]
pub enum LoweringResult {
    /// A lowered body at the pre-optimization stage.
    Body(LoweredBody),
    /// Lowering failed; queries for this function propagate the failure.
    Failure(LoweringFailure),
}

/// Mathematical model of a lowering result.
#[verifier::ext_equal]
pub enum LoweringResultView {
    /// See [`LoweringResult::Body`].
    Body(BodyView),
    /// See [`LoweringResult::Failure`].
    Failure(LoweringFailure),
}

impl View for LoweringResult {
    type V = LoweringResultView;

    open spec fn view(&self) -> LoweringResultView {
        match self {
            LoweringResult::Body(b) => LoweringResultView::Body(b@),
            LoweringResult::Failure(f) => LoweringResultView::Failure(*f),
        }
    }
}

impl Clone for LoweringResult {
    /// Clones preserve the result's model exactly.
    fn clone(&self) -> (r: Self)
        ensures
            r@ == self@,
    {
        match self {
            LoweringResult::Body(b) => LoweringResult::Body(b.clone()),
            LoweringResult::Failure(f) => LoweringResult::Failure(*f),
        }
    }
}

/// The models of a lowering table, element by element.
pub open spec fn table_views(ts: Seq<LoweringResult>) -> Seq<LoweringResultView>
    decreases ts.len(),
{
    if ts.len() == 0 {
        Seq::empty()
    } else {
        table_views(ts.drop_last()).push(ts.last()@)
    }
}

/// `table_views` keeps the length.
pub broadcast proof fn lemma_table_views_len(ts: Seq<LoweringResult>)
    ensures
        #[trigger] table_views(ts).len() == ts.len(),
    decreases ts.len(),
{
    if ts.len() > 0 {
        lemma_table_views_len(ts.drop_last());
    }
}

/// `table_views` models each element in place.
pub broadcast proof fn lemma_table_views_index(ts: Seq<LoweringResult>, j: int)
    requires
        0 <= j < ts.len(),
    ensures
        table_views(ts).len() == ts.len(),
        #[trigger] table_views(ts)[j] == ts[j]@,
    decreases ts.len(),
{
    lemma_table_views_len(ts);
    if j < ts.len() - 1 {
        lemma_table_views_index(ts.drop_last(), j);
    }
}

/// The facts connecting a lowering table to its sequence of models.
pub broadcast group group_table_views {
    lemma_table_views_len,
    lemma_table_views_index,
}

} // verus!
