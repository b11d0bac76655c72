//! The local-into-box representation rewrite.
//!
//! When the `local_into_box_optimization` axis of the recipe is on, every
//! local the external lowering marked as a candidate is represented as a
//! heap-allocated box instead of inline storage. Only the representation
//! markers in the variable pool change; the graph itself — entry, blocks,
//! statements, terminators — is untouched, so the computed values are the
//! same with and without the rewrite.

use vstd::prelude::*;

use crate::ir::{BodyView, LoweredBody, Variable, group_ir_views};

verus! {

/// The rewrite on body models: markers follow the candidate flag, nothing
/// else moves.
pub open spec fn spec_local_into_box(v: BodyView) -> BodyView {
    BodyView {
        entry: v.entry,
        blocks: v.blocks,
        variables: Seq::new(
            v.variables.len(),
            |i: int|
                Variable {
                    ty: v.variables[i].ty,
                    box_candidate: v.variables[i].box_candidate,
                    is_boxed: v.variables[i].box_candidate,
                },
        ),
    }
}

/// Law: the rewrite changes representation markers only. The graph — what
/// any interpretation of the body reads — and the size of the variable
/// pool stay exactly as they were.
pub proof fn lemma_local_into_box_markers_only(v: BodyView)
    ensures
        spec_local_into_box(v).entry == v.entry,
        spec_local_into_box(v).blocks == v.blocks,
        spec_local_into_box(v).variables.len() == v.variables.len(),
        forall|i: int|
            0 <= i < v.variables.len() ==> #[trigger] spec_local_into_box(v).variables[i].ty
                == v.variables[i].ty && spec_local_into_box(v).variables[i].box_candidate
                == v.variables[i].box_candidate,
{
}

/// Applies the rewrite in place.
pub fn apply_local_into_box(body: &mut LoweredBody)
    ensures
        final(body)@ == spec_local_into_box(old(body)@),
{
    broadcast use group_ir_views;

    let mut new_vars: Vec<Variable> = Vec::new();
    let mut i: usize = 0;
    while i < body.variables.len()
        invariant
            i <= body.variables.len(),
            body@.variables.len() == body.variables.len(),
            body@ == old(body)@,
            new_vars@.len() == i,
            forall|j: int|
                0 <= j < i ==> new_vars@[j] == (Variable {
                    ty: body@.variables[j].ty,
                    box_candidate: body@.variables[j].box_candidate,
                    is_boxed: body@.variables[j].box_candidate,
                }),
        decreases body.variables.len() - i,
    {
        let v = body.variables[i];
        new_vars.push(
            Variable { ty: v.ty, box_candidate: v.box_candidate, is_boxed: v.box_candidate },
        );
        i += 1;
    }
    body.variables = new_vars;
    proof {
        assert(body@ =~= spec_local_into_box(old(body)@));
    }
}

} // verus!
