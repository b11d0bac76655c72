//! The inlining pass.
//!
//! A call to a movable callee is replaced by a spliced-in copy of the
//! callee's lowered body: the callee's parameters are substituted by the
//! caller's argument variables, its other variables are renamed into fresh
//! slots of the caller's pool, and its terminal return value takes the
//! place of the call's destination. The size heuristic splices only callees
//! whose body is a single block ending in a return, so control flow stays
//! linear. A function is never inlined into itself, and calls inside
//! spliced code are not inlined again, so the pass terminates on any call
//! graph and a call cycle always leaves at least one call unresolved. A
//! callee whose own lowering failed is reported as a diagnostic attached to
//! the caller, not a hard failure of the pass. The spliced copy is the
//! callee's own lowered body at the pre-optimization stage — a partially
//! optimized body in the sense that its own pipeline has not run yet; the
//! caller's remaining phases then optimize the spliced code together with
//! the rest of the caller.

use vstd::prelude::*;

use crate::cancel::sub_state;
use crate::config::{Recipe, RecipeView, InliningStrategyView, InliningStrategy, id_list_contains, id_list_contains_exec};
use crate::const_fold::{
    FoldState, resolve_stmt, resolve_stmt_exec, resolve_term, resolve_term_exec,
};
use crate::diag::{Diagnostic, DiagnosticKind, Diagnostics, Severity};
use crate::ir::{
    Block, BlockView, BodyView, FunctionId, LoweredBody, Statement, StmtView, TermView,
    Terminator, VarId, Variable, block_views, clone_ids, group_ir_views, lemma_block_views_push,
    lemma_stmt_views_push, stmt_views,
};
use crate::lowering::{LoweringResult, LoweringResultView, group_table_views, table_views};

verus! {

/// Whether a statement is a call to the given function.
pub open spec fn is_call_to(s: StmtView, c: FunctionId) -> bool {
    match s {
        StmtView::Call { callee, args, dest } => callee == c,
        _ => false,
    }
}

/// Whether a statement sequence contains a call to the given function.
pub open spec fn stmts_contain_call(ss: Seq<StmtView>, c: FunctionId) -> bool {
    exists|i: int| 0 <= i < ss.len() && is_call_to(#[trigger] ss[i], c)
}

/// Whether a body contains a call to the given function.
pub open spec fn body_contains_call(v: BodyView, c: FunctionId) -> bool {
    exists|i: int|
        0 <= i < v.blocks.len() && stmts_contain_call(#[trigger] v.blocks[i].statements, c)
}

/// Whether the strategy lets this caller inline this callee: the callee
/// must be movable, must not be the caller itself, and must pass the
/// strategy's own filter.
pub open spec fn strategy_allows(recipe: RecipeView, caller: FunctionId, callee: FunctionId) -> bool {
    &&& callee != caller
    &&& id_list_contains(recipe.movable_functions, callee)
    &&& match recipe.inlining {
        InliningStrategyView::Default => true,
        InliningStrategyView::Never => false,
        InliningStrategyView::Avoid(list) => id_list_contains(list, callee),
    }
}

/// The size heuristic: only a body that is one block ending in a return is
/// spliced, so inlining never has to split the caller's blocks.
pub open spec fn single_return_block(bv: BodyView) -> bool {
    &&& bv.blocks.len() == 1
    &&& bv.entry == 0
    &&& bv.blocks[0].terminator is Return
}

/// What the pass does with one call.
pub enum InlineActionView {
    /// The call stays as it is.
    Keep,
    /// The call stays, and the callee's lowering failure is reported as a
    /// diagnostic attached to the caller.
    Diag,
    /// The callee's body is spliced in place of the call.
    Splice(BodyView),
}

/// The decision for one call, given the current size of the caller's
/// variable pool.
pub open spec fn inline_action(
    recipe: RecipeView,
    table: Seq<LoweringResultView>,
    caller: FunctionId,
    callee: FunctionId,
    cur_nvars: nat,
) -> InlineActionView {
    if !strategy_allows(recipe, caller, callee) {
        InlineActionView::Keep
    } else if callee >= table.len() {
        InlineActionView::Diag
    } else {
        match table[callee as int] {
            LoweringResultView::Failure(f) => InlineActionView::Diag,
            LoweringResultView::Body(bv) => if single_return_block(bv) && cur_nvars
                + bv.variables.len() <= usize::MAX {
                InlineActionView::Splice(bv)
            } else {
                InlineActionView::Keep
            },
        }
    }
}

/// The body inside a lowering result, when there is one.
pub open spec fn lowered_body_of(r: LoweringResultView) -> BodyView {
    match r {
        LoweringResultView::Body(b) => b,
        LoweringResultView::Failure(f) => BodyView {
            entry: 0,
            blocks: Seq::empty(),
            variables: Seq::empty(),
        },
    }
}

/// The position of a variable in a parameter list, if it is a parameter.
pub open spec fn param_index(ps: Seq<VarId>, u: VarId) -> Option<int>
    decreases ps.len(),
{
    if ps.len() == 0 {
        None
    } else if ps[0] == u {
        Some(0)
    } else {
        match param_index(ps.drop_first(), u) {
            Some(i) => Some(i + 1),
            None => None,
        }
    }
}

/// Renames one callee variable into the caller's pool: a parameter becomes
/// the corresponding argument, the returned variable becomes the call's
/// destination, and every other variable is shifted past the caller's pool.
pub open spec fn remap_var(
    ps: Seq<VarId>,
    args: Seq<VarId>,
    rv: VarId,
    dest: VarId,
    base: nat,
    u: VarId,
) -> VarId {
    match param_index(ps, u) {
        Some(i) => if 0 <= i < args.len() {
            args[i]
        } else {
            u
        },
        None => if u == rv {
            dest
        } else if base + u <= usize::MAX {
            (base + u) as VarId
        } else {
            u
        },
    }
}

/// Renames every variable of a callee statement into the caller's pool.
pub open spec fn remap_stmt(
    ps: Seq<VarId>,
    args: Seq<VarId>,
    rv: VarId,
    dest: VarId,
    base: nat,
    s: StmtView,
) -> StmtView {
    match s {
        StmtView::Literal { dest: d, value } => StmtView::Literal {
            dest: remap_var(ps, args, rv, dest, base, d),
            value,
        },
        StmtView::BinaryOp { op, lhs, rhs, dest: d } => StmtView::BinaryOp {
            op,
            lhs: remap_var(ps, args, rv, dest, base, lhs),
            rhs: remap_var(ps, args, rv, dest, base, rhs),
            dest: remap_var(ps, args, rv, dest, base, d),
        },
        StmtView::Call { callee, args: cargs, dest: d } => StmtView::Call {
            callee,
            args: cargs.map_values(|u: VarId| remap_var(ps, args, rv, dest, base, u)),
            dest: remap_var(ps, args, rv, dest, base, d),
        },
        StmtView::BoxValue { input, dest: d } => StmtView::BoxValue {
            input: remap_var(ps, args, rv, dest, base, input),
            dest: remap_var(ps, args, rv, dest, base, d),
        },
        StmtView::UnboxValue { input, dest: d } => StmtView::UnboxValue {
            input: remap_var(ps, args, rv, dest, base, input),
            dest: remap_var(ps, args, rv, dest, base, d),
        },
    }
}

/// The threaded state of the inlining walk.
#[verifier::ext_equal]
pub struct InlStateView {
    /// The caller's variable pool, growing with each splice.
    pub vars: Seq<Variable>,
    /// Aliases for call destinations whose callee returned a parameter.
    pub sub: Seq<Option<VarId>>,
    /// The statements produced for the current block so far.
    pub out: Seq<StmtView>,
    /// The diagnostics emitted so far.
    pub diags: Seq<Diagnostic>,
}

/// One step of the inlining walk over a statement.
pub open spec fn inline_step(
    recipe: RecipeView,
    table: Seq<LoweringResultView>,
    caller: FunctionId,
    st: InlStateView,
    s: StmtView,
) -> InlStateView {
    let r = resolve_stmt(sub_state(st.sub), s);
    match r {
        StmtView::Call { callee, args, dest } => match inline_action(
            recipe,
            table,
            caller,
            callee,
            st.vars.len(),
        ) {
            InlineActionView::Keep => InlStateView { out: st.out.push(r), ..st },
            InlineActionView::Diag => InlStateView {
                out: st.out.push(r),
                diags: st.diags.push(
                    Diagnostic {
                        severity: Severity::Error,
                        function: caller,
                        kind: DiagnosticKind::CalleeLoweringFailed { callee },
                    },
                ),
                ..st
            },
            InlineActionView::Splice(bv) => {
                let ps = bv.blocks[0].params;
                let rv = match bv.blocks[0].terminator {
                    TermView::Return { var } => var,
                    _ => 0,
                };
                if args.len() != ps.len() {
                    InlStateView { out: st.out.push(r), ..st }
                } else {
                    let base = st.vars.len();
                    let spliced = bv.blocks[0].statements.map_values(
                        |cs: StmtView| remap_stmt(ps, args, rv, dest, base, cs),
                    );
                    let sub2 = match param_index(ps, rv) {
                        Some(i) => if 0 <= i < args.len() && dest < st.sub.len() {
                            st.sub.update(dest as int, Some(args[i]))
                        } else {
                            st.sub
                        },
                        None => st.sub,
                    };
                    InlStateView {
                        vars: st.vars + bv.variables,
                        sub: sub2,
                        out: st.out + spliced,
                        diags: st.diags,
                    }
                }
            },
        },
        _ => InlStateView { out: st.out.push(r), ..st },
    }
}

/// The inlining walk over a statement sequence.
pub open spec fn inline_stmts(
    recipe: RecipeView,
    table: Seq<LoweringResultView>,
    caller: FunctionId,
    st: InlStateView,
    ss: Seq<StmtView>,
) -> InlStateView
    decreases ss.len(),
{
    if ss.len() == 0 {
        st
    } else {
        inline_stmts(recipe, table, caller, inline_step(recipe, table, caller, st, ss[0]), ss.drop_first())
    }
}

/// The inlining walk over one block.
pub open spec fn inline_block(
    recipe: RecipeView,
    table: Seq<LoweringResultView>,
    caller: FunctionId,
    st: InlStateView,
    b: BlockView,
) -> (BlockView, InlStateView) {
    let st1 = inline_stmts(
        recipe,
        table,
        caller,
        InlStateView { out: Seq::empty(), ..st },
        b.statements,
    );
    (
        BlockView {
            params: b.params,
            statements: st1.out,
            terminator: resolve_term(sub_state(st1.sub), b.terminator),
        },
        st1,
    )
}

/// The inlining walk over the blocks in order.
pub open spec fn inline_blocks(
    recipe: RecipeView,
    table: Seq<LoweringResultView>,
    caller: FunctionId,
    st: InlStateView,
    bs: Seq<BlockView>,
) -> (Seq<BlockView>, InlStateView)
    decreases bs.len(),
{
    if bs.len() == 0 {
        (Seq::empty(), st)
    } else {
        let fb = inline_block(recipe, table, caller, st, bs[0]);
        let rest = inline_blocks(recipe, table, caller, fb.1, bs.drop_first());
        (seq![fb.0] + rest.0, rest.1)
    }
}

/// The initial inlining state for a body.
pub open spec fn init_inl_state(v: BodyView) -> InlStateView {
    InlStateView {
        vars: v.variables,
        sub: Seq::new(v.variables.len(), |i: int| None),
        out: Seq::empty(),
        diags: Seq::empty(),
    }
}

/// The whole pass on body models: the rewritten body and the diagnostics it
/// emitted.
pub open spec fn spec_inline_pass(
    recipe: RecipeView,
    table: Seq<LoweringResultView>,
    caller: FunctionId,
    v: BodyView,
) -> (BodyView, Seq<Diagnostic>) {
    let r = inline_blocks(recipe, table, caller, init_inl_state(v), v.blocks);
    (BodyView { entry: v.entry, blocks: r.0, variables: r.1.vars }, r.1.diags)
}

/// The position of a variable in a parameter list, if it is a parameter.
fn param_index_exec(ps: &Vec<VarId>, u: VarId) -> (r: Option<usize>)
    ensures
        match r {
            Some(i) => param_index(ps@, u) == Some(i as int) && i < ps@.len(),
            None => param_index(ps@, u) is None,
        },
{
    let mut i: usize = 0;
    while i < ps.len()
        invariant
            i <= ps.len(),
            forall|j: int| 0 <= j < i ==> ps@[j] != u,
        decreases ps.len() - i,
    {
        if ps[i] == u {
            proof {
                lemma_param_index_first(ps@, u, i as int);
            }
            return Some(i);
        }
        i += 1;
    }
    proof {
        lemma_param_index_none(ps@, u);
    }
    None
}

/// A parameter list without `u` anywhere before position `i`, and `u` at
/// `i`, puts `u`'s index at `i`.
proof fn lemma_param_index_first(ps: Seq<VarId>, u: VarId, i: int)
    requires
        0 <= i < ps.len(),
        ps[i] == u,
        forall|j: int| 0 <= j < i ==> ps[j] != u,
    ensures
        param_index(ps, u) == Some(i),
    decreases i,
{
    if i == 0 {
    } else {
        assert(ps.drop_first()[i - 1] == ps[i]);
        assert forall|j: int| 0 <= j < i - 1 implies ps.drop_first()[j] != u by {
            assert(ps.drop_first()[j] == ps[j + 1]);
        }
        lemma_param_index_first(ps.drop_first(), u, i - 1);
    }
}

/// A parameter list without `u` gives it no index.
proof fn lemma_param_index_none(ps: Seq<VarId>, u: VarId)
    requires
        forall|j: int| 0 <= j < ps.len() ==> ps[j] != u,
    ensures
        param_index(ps, u) is None,
    decreases ps.len(),
{
    if ps.len() > 0 {
        assert forall|j: int| 0 <= j < ps.len() - 1 implies ps.drop_first()[j] != u by {
            assert(ps.drop_first()[j] == ps[j + 1]);
        }
        lemma_param_index_none(ps.drop_first(), u);
    }
}

/// Renames one callee variable into the caller's pool.
fn remap_var_exec(
    ps: &Vec<VarId>,
    args: &Vec<VarId>,
    rv: VarId,
    dest: VarId,
    base: usize,
    u: VarId,
) -> (r: VarId)
    ensures
        r == remap_var(ps@, args@, rv, dest, base as nat, u),
{
    match param_index_exec(ps, u) {
        Some(i) => if i < args.len() {
            args[i]
        } else {
            u
        },
        None => if u == rv {
            dest
        } else if u <= usize::MAX - base {
            base + u
        } else {
            u
        },
    }
}

/// Renames every variable of a callee statement into the caller's pool.
fn remap_stmt_exec(
    ps: &Vec<VarId>,
    args: &Vec<VarId>,
    rv: VarId,
    dest: VarId,
    base: usize,
    s: &Statement,
) -> (r: Statement)
    ensures
        r@ == remap_stmt(ps@, args@, rv, dest, base as nat, s@),
{
    match s {
        Statement::Literal { dest: d, value } => Statement::Literal {
            dest: remap_var_exec(ps, args, rv, dest, base, *d),
            value: *value,
        },
        Statement::BinaryOp { op, lhs, rhs, dest: d } => Statement::BinaryOp {
            op: *op,
            lhs: remap_var_exec(ps, args, rv, dest, base, *lhs),
            rhs: remap_var_exec(ps, args, rv, dest, base, *rhs),
            dest: remap_var_exec(ps, args, rv, dest, base, *d),
        },
        Statement::Call { callee, args: cargs, dest: d } => {
            let mut mapped: Vec<VarId> = Vec::new();
            let mut i: usize = 0;
            while i < cargs.len()
                invariant
                    i <= cargs.len(),
                    mapped@.len() == i,
                    forall|j: int|
                        0 <= j < i ==> mapped@[j] == remap_var(
                            ps@,
                            args@,
                            rv,
                            dest,
                            base as nat,
                            #[trigger] cargs@[j],
                        ),
                decreases cargs.len() - i,
            {
                mapped.push(remap_var_exec(ps, args, rv, dest, base, cargs[i]));
                i += 1;
            }
            proof {
                assert(mapped@ =~= cargs@.map_values(
                    |u: VarId| remap_var(ps@, args@, rv, dest, base as nat, u),
                ));
            }
            Statement::Call { callee: *callee, args: mapped, dest: remap_var_exec(ps, args, rv, dest, base, *d) }
        },
        Statement::BoxValue { input, dest: d } => Statement::BoxValue {
            input: remap_var_exec(ps, args, rv, dest, base, *input),
            dest: remap_var_exec(ps, args, rv, dest, base, *d),
        },
        Statement::UnboxValue { input, dest: d } => Statement::UnboxValue {
            input: remap_var_exec(ps, args, rv, dest, base, *input),
            dest: remap_var_exec(ps, args, rv, dest, base, *d),
        },
    }
}

/// Whether the strategy lets this caller inline this callee.
fn strategy_allows_exec(recipe: &Recipe, caller: FunctionId, callee: FunctionId) -> (r: bool)
    ensures
        r == strategy_allows(recipe@, caller, callee),
{
    if callee == caller {
        return false;
    }
    if !id_list_contains_exec(&recipe.movable_functions, callee) {
        return false;
    }
    match &recipe.inlining {
        InliningStrategy::Default => true,
        InliningStrategy::Never => false,
        InliningStrategy::Avoid(list) => id_list_contains_exec(list, callee),
    }
}

/// Runs the inlining pass over a body in place, appending the diagnostics
/// it emits; the callee bodies are read from the lowering table and never
/// written.
pub fn apply_inlining(
    recipe: &Recipe,
    table: &Vec<LoweringResult>,
    caller: FunctionId,
    body: &mut LoweredBody,
    diags: &mut Diagnostics,
)
    ensures
        final(body)@ == spec_inline_pass(recipe@, table_views(table@), caller, old(body)@).0,
        final(diags)@ == old(diags)@ + spec_inline_pass(
            recipe@,
            table_views(table@),
            caller,
            old(body)@,
        ).1,
{
    broadcast use group_ir_views;
    broadcast use group_table_views;

    let ghost tv = table_views(table@);
    let nvars = body.variables.len();
    let mut sub: Vec<Option<VarId>> = Vec::new();
    let mut i: usize = 0;
    while i < nvars
        invariant
            i <= nvars,
            sub@.len() == i,
            forall|j: int| 0 <= j < i ==> sub@[j] is None,
        decreases nvars - i,
    {
        sub.push(None);
        i += 1;
    }
    assert(sub@ =~= Seq::new(body@.variables.len(), |j: int| None::<VarId>));
    let mut new_diags: Vec<Diagnostic> = Vec::new();
    let ghost st0 = init_inl_state(body@);
    let ghost spec_res = inline_blocks(recipe@, tv, caller, st0, body@.blocks);
    let mut new_blocks: Vec<Block> = Vec::new();
    let mut vars = clone_variables(&body.variables);
    let mut b: usize = 0;
    proof {
        assert(body@.blocks.skip(0) =~= body@.blocks);
        assert(block_views(new_blocks@) =~= Seq::<BlockView>::empty());
        assert(st0 =~= (InlStateView {
            vars: vars@,
            sub: sub@,
            out: Seq::empty(),
            diags: new_diags@,
        }));
        assert(Seq::<BlockView>::empty() + spec_res.0 =~= spec_res.0);
    }
    while b < body.blocks.len()
        invariant
            b <= body.blocks.len(),
            body@.blocks.len() == body.blocks.len(),
            tv == table_views(table@),
            spec_res == inline_blocks(recipe@, tv, caller, st0, body@.blocks),
            spec_res.0 == block_views(new_blocks@) + inline_blocks(
                recipe@,
                tv,
                caller,
                (InlStateView { vars: vars@, sub: sub@, out: Seq::empty(), diags: new_diags@ }),
                body@.blocks.skip(b as int),
            ).0,
            spec_res.1.vars == inline_blocks(
                recipe@,
                tv,
                caller,
                (InlStateView { vars: vars@, sub: sub@, out: Seq::empty(), diags: new_diags@ }),
                body@.blocks.skip(b as int),
            ).1.vars,
            spec_res.1.sub == inline_blocks(
                recipe@,
                tv,
                caller,
                (InlStateView { vars: vars@, sub: sub@, out: Seq::empty(), diags: new_diags@ }),
                body@.blocks.skip(b as int),
            ).1.sub,
            spec_res.1.diags == inline_blocks(
                recipe@,
                tv,
                caller,
                (InlStateView { vars: vars@, sub: sub@, out: Seq::empty(), diags: new_diags@ }),
                body@.blocks.skip(b as int),
            ).1.diags,
        decreases body.blocks.len() - b,
    {
        broadcast use group_ir_views;
        broadcast use group_table_views;

        let blk = body.get_block(b);
        let ghost st_entry = InlStateView {
            vars: vars@,
            sub: sub@,
            out: Seq::empty(),
            diags: new_diags@,
        };
        let ghost blocks_skip = body@.blocks.skip(b as int);
        let mut out_stmts: Vec<Statement> = Vec::new();
        let mut j: usize = 0;
        proof {
            assert(blk@.statements.skip(0) =~= blk@.statements);
            assert(stmt_views(out_stmts@) =~= Seq::<StmtView>::empty());
        }
        while j < blk.statements.len()
            invariant
                j <= blk.statements.len(),
                blk@.statements.len() == blk.statements.len(),
                blk@ == body@.blocks[b as int],
                0 <= b < body@.blocks.len(),
                tv == table_views(table@),
                inline_stmts(recipe@, tv, caller, st_entry, blk@.statements) == inline_stmts(
                    recipe@,
                    tv,
                    caller,
                    (InlStateView {
                        vars: vars@,
                        sub: sub@,
                        out: stmt_views(out_stmts@),
                        diags: new_diags@,
                    }),
                    blk@.statements.skip(j as int),
                ),
            decreases blk.statements.len() - j,
        {
            broadcast use group_ir_views;
            broadcast use group_table_views;

            assert(blk@.statements[j as int] == blk.statements@[j as int]@);
            let ghost pre_state = InlStateView {
                vars: vars@,
                sub: sub@,
                out: stmt_views(out_stmts@),
                diags: new_diags@,
            };
            let stw = FoldState { consts: Vec::new(), subst: sub };
            let r = resolve_stmt_exec(&stw, &blk.statements[j]);
            sub = stw.subst;
            assert(r@ == resolve_stmt(sub_state(pre_state.sub), blk@.statements[j as int]));
            let mut handled: bool = false;
            match &r {
                Statement::Call { callee, args, dest } => {
                    if strategy_allows_exec(recipe, caller, *callee) {
                        if *callee >= table.len() {
                            new_diags.push(
                                Diagnostic {
                                    severity: Severity::Error,
                                    function: caller,
                                    kind: DiagnosticKind::CalleeLoweringFailed {
                                        callee: *callee,
                                    },
                                },
                            );
                        } else {
                            match &table[*callee] {
                                LoweringResult::Failure(f) => {
                                    new_diags.push(
                                        Diagnostic {
                                            severity: Severity::Error,
                                            function: caller,
                                            kind: DiagnosticKind::CalleeLoweringFailed {
                                                callee: *callee,
                                            },
                                        },
                                    );
                                },
                                LoweringResult::Body(cb) => {
                                    let single: bool = cb.blocks.len() == 1 && cb.entry == 0
                                        && matches!(cb.blocks[0].terminator, Terminator::Return { .. });
                                    let fits: bool = cb.variables.len() <= usize::MAX - vars.len();
                                    if single && fits {
                                        assert(inline_action(recipe@, tv, caller, *callee, vars@.len())
                                            == InlineActionView::Splice(cb@));
                                        let entry_block = &cb.blocks[0];
                                        if args.len() != entry_block.params.len() {
                                        } else {
                                            let rv: VarId = match &entry_block.terminator {
                                                Terminator::Return { var } => *var,
                                                _ => 0,
                                            };
                                            let base = vars.len();
                                            let ghost pre_out = stmt_views(out_stmts@);
                                            let mut k: usize = 0;
                                            while k < entry_block.statements.len()
                                                invariant
                                                    k <= entry_block.statements.len(),
                                                    entry_block@ == cb@.blocks[0],
                                                    cb@.blocks.len() == 1,
                                                    entry_block@.statements.len() == entry_block.statements.len(),
                                                    stmt_views(out_stmts@) == pre_out + entry_block@.statements.take(
                                                        k as int,
                                                    ).map_values(
                                                        |cs: StmtView| remap_stmt(
                                                            entry_block@.params,
                                                            args@,
                                                            rv,
                                                            *dest,
                                                            base as nat,
                                                            cs,
                                                        ),
                                                    ),
                                                decreases entry_block.statements.len() - k,
                                            {
                                                broadcast use group_ir_views;

                                                assert(entry_block@.statements[k as int]
                                                    == entry_block.statements@[k as int]@);
                                                let ghost prev = out_stmts@;
                                                let rs = remap_stmt_exec(
                                                    &entry_block.params,
                                                    args,
                                                    rv,
                                                    *dest,
                                                    base,
                                                    &entry_block.statements[k],
                                                );
                                                proof {
                                                    lemma_stmt_views_push(prev, rs);
                                                }
                                                out_stmts.push(rs);
                                                k += 1;
                                                proof {
                                                    assert(stmt_views(out_stmts@) =~= pre_out
                                                        + entry_block@.statements.take(k as int).map_values(
                                                        |cs: StmtView| remap_stmt(
                                                            entry_block@.params,
                                                            args@,
                                                            rv,
                                                            *dest,
                                                            base as nat,
                                                            cs,
                                                        ),
                                                    ));
                                                }
                                            }
                                            proof {
                                                assert(entry_block@.statements.take(
                                                    entry_block@.statements.len() as int,
                                                ) =~= entry_block@.statements);
                                            }
                                            let mut vi: usize = 0;
                                            while vi < cb.variables.len()
                                                invariant
                                                    vi <= cb.variables.len(),
                                                    vars@ == pre_state.vars + cb.variables@.take(vi as int),
                                                    cb.variables@.len() + pre_state.vars.len() <= usize::MAX,
                                                decreases cb.variables.len() - vi,
                                            {
                                                proof {
                                                    assert(pre_state.vars + cb.variables@.take(0)
                                                        =~= pre_state.vars);
                                                }
                                                vars.push(cb.variables[vi]);
                                                vi += 1;
                                                proof {
                                                    assert(pre_state.vars + cb.variables@.take(vi as int)
                                                        =~= (pre_state.vars + cb.variables@.take(vi - 1)).push(
                                                        cb.variables@[vi - 1],
                                                    ));
                                                }
                                            }
                                            proof {
                                                assert(pre_state.vars + cb.variables@.take(
                                                    cb.variables@.len() as int,
                                                ) =~= pre_state.vars + cb.variables@);
                                            }
                                            match param_index_exec(&entry_block.params, rv) {
                                                Some(pi) => {
                                                    if pi < args.len() && *dest < sub.len() {
                                                        sub.set(*dest, Some(args[pi]));
                                                    }
                                                },
                                                None => {},
                                            }
                                            handled = true;
                                        }
                                    }
                                },
                            }
                        }
                    }
                },
                _ => {},
            }
            if !handled {
                let ghost prev = out_stmts@;
                proof {
                    lemma_stmt_views_push(prev, r);
                }
                out_stmts.push(r);
            }
            proof {
                assert((InlStateView {
                    vars: vars@,
                    sub: sub@,
                    out: stmt_views(out_stmts@),
                    diags: new_diags@,
                }) =~= inline_step(recipe@, tv, caller, pre_state, blk@.statements[j as int]));
            }
            j += 1;
            proof {
                assert(blk@.statements.skip(j - 1)[0] == blk@.statements[j - 1]);
                assert(blk@.statements.skip(j - 1).drop_first() =~= blk@.statements.skip(
                    j as int,
                ));
            }
        }
        proof {
            assert(blk@.statements.skip(blk@.statements.len() as int) =~= Seq::<
                StmtView,
            >::empty());
        }
        let st2 = FoldState { consts: Vec::new(), subst: sub };
        let new_term = resolve_term_exec(&st2, &blk.terminator);
        sub = st2.subst;
        let new_block = Block {
            params: clone_ids(&blk.params),
            statements: out_stmts,
            terminator: new_term,
        };
        let ghost fb = inline_block(recipe@, tv, caller, st_entry, blk@);
        assert(new_block@ == fb.0);
        let ghost prev_blocks = new_blocks@;
        proof {
            lemma_block_views_push(prev_blocks, new_block);
        }
        new_blocks.push(new_block);
        b += 1;
        proof {
            assert(blocks_skip[0] == body@.blocks[b - 1]);
            assert(blocks_skip.drop_first() =~= body@.blocks.skip(b as int));
            assert(fb.1 =~= (InlStateView {
                vars: vars@,
                sub: sub@,
                out: fb.1.out,
                diags: new_diags@,
            }));
            let after = InlStateView { vars: vars@, sub: sub@, out: Seq::empty(), diags: new_diags@ };
            lemma_inline_blocks_out_irrelevant(
                recipe@,
                tv,
                caller,
                fb.1,
                after,
                body@.blocks.skip(b as int),
            );
            let rest = inline_blocks(recipe@, tv, caller, fb.1, body@.blocks.skip(b as int));
            assert(inline_blocks(recipe@, tv, caller, st_entry, blocks_skip).0 =~= seq![fb.0]
                + rest.0);
            assert(spec_res.0 =~= block_views(new_blocks@) + rest.0);
        }
    }
    proof {
        assert(body@.blocks.skip(body@.blocks.len() as int) =~= Seq::<BlockView>::empty());
    }
    body.blocks = new_blocks;
    body.variables = vars;
    diags.append_all(&new_diags);
    proof {
        assert(body@ =~= spec_inline_pass(recipe@, tv, caller, old(body)@).0);
        assert(final(diags)@ =~= old(diags)@ + spec_inline_pass(
            recipe@,
            tv,
            caller,
            old(body)@,
        ).1);
    }
}

/// Copies a variable pool.
fn clone_variables(v: &Vec<Variable>) -> (r: Vec<Variable>)
    ensures
        r@ == v@,
{
    let mut r: Vec<Variable> = Vec::new();
    let mut i: usize = 0;
    while i < v.len()
        invariant
            i <= v.len(),
            r@ == v@.take(i as int),
        decreases v.len() - i,
    {
        r.push(v[i]);
        i += 1;
        assert(r@ =~= v@.take(i as int));
    }
    assert(v@.take(v.len() as int) =~= v@);
    r
}

/// The statement walk ignores the `out` field of its starting state except
/// to append to it; two starting states differing only there produce the
/// same blocks from a block list, since each block starts its own output.
proof fn lemma_inline_blocks_out_irrelevant(
    recipe: RecipeView,
    table: Seq<LoweringResultView>,
    caller: FunctionId,
    st1: InlStateView,
    st2: InlStateView,
    bs: Seq<BlockView>,
)
    requires
        st1.vars == st2.vars,
        st1.sub == st2.sub,
        st1.diags == st2.diags,
    ensures
        inline_blocks(recipe, table, caller, st1, bs).0 == inline_blocks(
            recipe,
            table,
            caller,
            st2,
            bs,
        ).0,
        inline_blocks(recipe, table, caller, st1, bs).1.vars == inline_blocks(
            recipe,
            table,
            caller,
            st2,
            bs,
        ).1.vars,
        inline_blocks(recipe, table, caller, st1, bs).1.sub == inline_blocks(
            recipe,
            table,
            caller,
            st2,
            bs,
        ).1.sub,
        inline_blocks(recipe, table, caller, st1, bs).1.diags == inline_blocks(
            recipe,
            table,
            caller,
            st2,
            bs,
        ).1.diags,
    decreases bs.len(),
{
    if bs.len() > 0 {
        assert((InlStateView { out: Seq::empty(), ..st1 }) =~= (InlStateView {
            out: Seq::empty(),
            ..st2
        }));
        let fb1 = inline_block(recipe, table, caller, st1, bs[0]);
        let fb2 = inline_block(recipe, table, caller, st2, bs[0]);
        assert(fb1 == fb2);
        lemma_inline_blocks_out_irrelevant(recipe, table, caller, fb1.1, fb2.1, bs.drop_first());
    }
}


/// Operand rewriting never changes which function a call targets.
proof fn lemma_resolve_keeps_callee(sub: Seq<Option<VarId>>, s: StmtView, c: FunctionId)
    requires
        is_call_to(s, c),
    ensures
        is_call_to(resolve_stmt(sub_state(sub), s), c),
{
}

/// Statements already produced are never removed by a later step.
proof fn lemma_step_monotone(
    recipe: RecipeView,
    table: Seq<LoweringResultView>,
    caller: FunctionId,
    st: InlStateView,
    s: StmtView,
    c: FunctionId,
)
    requires
        stmts_contain_call(st.out, c),
    ensures
        stmts_contain_call(inline_step(recipe, table, caller, st, s).out, c),
{
    let i = choose|i: int| 0 <= i < st.out.len() && is_call_to(#[trigger] st.out[i], c);
    let out2 = inline_step(recipe, table, caller, st, s).out;
    assert(out2[i] == st.out[i]);
}

/// Statements already produced survive the rest of the walk.
proof fn lemma_stmts_monotone(
    recipe: RecipeView,
    table: Seq<LoweringResultView>,
    caller: FunctionId,
    st: InlStateView,
    ss: Seq<StmtView>,
    c: FunctionId,
)
    requires
        stmts_contain_call(st.out, c),
    ensures
        stmts_contain_call(inline_stmts(recipe, table, caller, st, ss).out, c),
    decreases ss.len(),
{
    if ss.len() > 0 {
        lemma_step_monotone(recipe, table, caller, st, ss[0], c);
        lemma_stmts_monotone(
            recipe,
            table,
            caller,
            inline_step(recipe, table, caller, st, ss[0]),
            ss.drop_first(),
            c,
        );
    }
}

/// Processing a call to the function being optimized itself always keeps
/// the call: a function is never inlined into itself.
proof fn lemma_step_self_call(
    recipe: RecipeView,
    table: Seq<LoweringResultView>,
    caller: FunctionId,
    st: InlStateView,
    s: StmtView,
)
    requires
        is_call_to(s, caller),
    ensures
        stmts_contain_call(inline_step(recipe, table, caller, st, s).out, caller),
{
    lemma_resolve_keeps_callee(st.sub, s, caller);
    let r = resolve_stmt(sub_state(st.sub), s);
    assert(!strategy_allows(recipe, caller, caller));
    let out2 = inline_step(recipe, table, caller, st, s).out;
    assert(out2.last() == r);
}

/// Processing a call on a call cycle leaves some call unresolved: either
/// the call itself is kept, or the spliced callee body's own call appears
/// verbatim in the output.
proof fn lemma_step_cycle(
    recipe: RecipeView,
    table: Seq<LoweringResultView>,
    caller: FunctionId,
    st: InlStateView,
    s: StmtView,
    g: FunctionId,
    h: FunctionId,
)
    requires
        is_call_to(s, g),
        (g < table.len() && table[g as int] is Body) ==> stmts_contain_call(
            lowered_body_of(table[g as int]).blocks[0].statements,
            h,
        ),
    ensures
        stmts_contain_call(inline_step(recipe, table, caller, st, s).out, g)
            || stmts_contain_call(inline_step(recipe, table, caller, st, s).out, h),
{
    lemma_resolve_keeps_callee(st.sub, s, g);
    let r = resolve_stmt(sub_state(st.sub), s);
    let out2 = inline_step(recipe, table, caller, st, s).out;
    match inline_action(recipe, table, caller, g, st.vars.len()) {
        InlineActionView::Splice(bv) => {
            match r {
                StmtView::Call { callee, args, dest } => {
                    if args.len() != bv.blocks[0].params.len() {
                        assert(out2.last() == r);
                    } else {
                        assert(bv == lowered_body_of(table[g as int]));
                        let cs = bv.blocks[0].statements;
                        let k = choose|k: int| 0 <= k < cs.len() && is_call_to(#[trigger] cs[k], h);
                        let ps = bv.blocks[0].params;
                        let rv = match bv.blocks[0].terminator {
                            TermView::Return { var } => var,
                            _ => 0,
                        };
                        let base = st.vars.len();
                        let spliced = cs.map_values(
                            |c2: StmtView| remap_stmt(ps, args, rv, dest, base, c2),
                        );
                        assert(spliced[k] == remap_stmt(ps, args, rv, dest, base, cs[k]));
                        assert(is_call_to(spliced[k], h));
                        assert(out2[st.out.len() + k] == spliced[k]);
                        assert(stmts_contain_call(out2, h));
                    }
                },
                _ => {},
            }
        },
        _ => {
            assert(out2.last() == r);
        },
    }
}

/// Lifts a per-statement fact to the whole statement walk.
proof fn lemma_stmts_cycle(
    recipe: RecipeView,
    table: Seq<LoweringResultView>,
    caller: FunctionId,
    st: InlStateView,
    ss: Seq<StmtView>,
    j: int,
    g: FunctionId,
    h: FunctionId,
)
    requires
        0 <= j < ss.len(),
        is_call_to(ss[j], g),
        (g < table.len() && table[g as int] is Body) ==> stmts_contain_call(
            lowered_body_of(table[g as int]).blocks[0].statements,
            h,
        ),
    ensures
        stmts_contain_call(inline_stmts(recipe, table, caller, st, ss).out, g)
            || stmts_contain_call(inline_stmts(recipe, table, caller, st, ss).out, h),
    decreases ss.len(),
{
    let st1 = inline_step(recipe, table, caller, st, ss[0]);
    if j == 0 {
        lemma_step_cycle(recipe, table, caller, st, ss[0], g, h);
        if stmts_contain_call(st1.out, g) {
            lemma_stmts_monotone(recipe, table, caller, st1, ss.drop_first(), g);
        } else {
            lemma_stmts_monotone(recipe, table, caller, st1, ss.drop_first(), h);
        }
    } else {
        assert(ss.drop_first()[j - 1] == ss[j]);
        lemma_stmts_cycle(recipe, table, caller, st1, ss.drop_first(), j - 1, g, h);
    }
}

/// Lifts the fact to the whole block walk.
proof fn lemma_blocks_cycle(
    recipe: RecipeView,
    table: Seq<LoweringResultView>,
    caller: FunctionId,
    st: InlStateView,
    bs: Seq<BlockView>,
    i: int,
    j: int,
    g: FunctionId,
    h: FunctionId,
)
    requires
        0 <= i < bs.len(),
        0 <= j < bs[i].statements.len(),
        is_call_to(bs[i].statements[j], g),
        (g < table.len() && table[g as int] is Body) ==> stmts_contain_call(
            lowered_body_of(table[g as int]).blocks[0].statements,
            h,
        ),
    ensures
        exists|k: int|
            0 <= k < inline_blocks(recipe, table, caller, st, bs).0.len() && (stmts_contain_call(
                #[trigger] inline_blocks(recipe, table, caller, st, bs).0[k].statements,
                g,
            ) || stmts_contain_call(
                inline_blocks(recipe, table, caller, st, bs).0[k].statements,
                h,
            )),
    decreases bs.len(),
{
    let fb = inline_block(recipe, table, caller, st, bs[0]);
    let rest = inline_blocks(recipe, table, caller, fb.1, bs.drop_first());
    let whole = inline_blocks(recipe, table, caller, st, bs).0;
    if i == 0 {
        lemma_stmts_cycle(
            recipe,
            table,
            caller,
            InlStateView { out: Seq::empty(), ..st },
            bs[0].statements,
            j,
            g,
            h,
        );
        assert(whole[0] == fb.0);
        assert(0 < whole.len());
        assert(stmts_contain_call(whole[0].statements, g) || stmts_contain_call(
            whole[0].statements,
            h,
        ));
    } else {
        assert(bs.drop_first()[i - 1] == bs[i]);
        lemma_blocks_cycle(recipe, table, caller, fb.1, bs.drop_first(), i - 1, j, g, h);
        let k = choose|k: int|
            0 <= k < rest.0.len() && (stmts_contain_call(#[trigger] rest.0[k].statements, g)
                || stmts_contain_call(rest.0[k].statements, h));
        assert(whole[k + 1] == rest.0[k]);
        assert(0 <= k + 1 < whole.len());
        assert(stmts_contain_call(whole[k + 1].statements, g) || stmts_contain_call(
            whole[k + 1].statements,
            h,
        ));
    }
}

/// Lifts the self-call fact through the statement walk.
proof fn lemma_stmts_self(
    recipe: RecipeView,
    table: Seq<LoweringResultView>,
    caller: FunctionId,
    st: InlStateView,
    ss: Seq<StmtView>,
    j: int,
)
    requires
        0 <= j < ss.len(),
        is_call_to(ss[j], caller),
    ensures
        stmts_contain_call(inline_stmts(recipe, table, caller, st, ss).out, caller),
    decreases ss.len(),
{
    let st1 = inline_step(recipe, table, caller, st, ss[0]);
    if j == 0 {
        lemma_step_self_call(recipe, table, caller, st, ss[0]);
        lemma_stmts_monotone(recipe, table, caller, st1, ss.drop_first(), caller);
    } else {
        assert(ss.drop_first()[j - 1] == ss[j]);
        lemma_stmts_self(recipe, table, caller, st1, ss.drop_first(), j - 1);
    }
}

/// Lifts the self-call fact through the block walk.
proof fn lemma_blocks_self(
    recipe: RecipeView,
    table: Seq<LoweringResultView>,
    caller: FunctionId,
    st: InlStateView,
    bs: Seq<BlockView>,
    i: int,
    j: int,
)
    requires
        0 <= i < bs.len(),
        0 <= j < bs[i].statements.len(),
        is_call_to(bs[i].statements[j], caller),
    ensures
        exists|k: int|
            0 <= k < inline_blocks(recipe, table, caller, st, bs).0.len() && stmts_contain_call(
                #[trigger] inline_blocks(recipe, table, caller, st, bs).0[k].statements,
                caller,
            ),
    decreases bs.len(),
{
    let fb = inline_block(recipe, table, caller, st, bs[0]);
    let rest = inline_blocks(recipe, table, caller, fb.1, bs.drop_first());
    let whole = inline_blocks(recipe, table, caller, st, bs).0;
    if i == 0 {
        lemma_stmts_self(
            recipe,
            table,
            caller,
            InlStateView { out: Seq::empty(), ..st },
            bs[0].statements,
            j,
        );
        assert(whole[0] == fb.0);
        assert(0 < whole.len());
        assert(stmts_contain_call(whole[0].statements, caller));
    } else {
        assert(bs.drop_first()[i - 1] == bs[i]);
        lemma_blocks_self(recipe, table, caller, fb.1, bs.drop_first(), i - 1, j);
        let k = choose|k: int|
            0 <= k < rest.0.len() && stmts_contain_call(#[trigger] rest.0[k].statements, caller);
        assert(whole[k + 1] == rest.0[k]);
        assert(stmts_contain_call(whole[k + 1].statements, caller));
    }
}

/// Law: a function is never inlined into itself. A body containing a
/// direct recursive call still contains that call after the pass.
pub proof fn lemma_inlining_keeps_self_call(
    recipe: RecipeView,
    table: Seq<LoweringResultView>,
    caller: FunctionId,
    v: BodyView,
)
    requires
        body_contains_call(v, caller),
    ensures
        body_contains_call(spec_inline_pass(recipe, table, caller, v).0, caller),
{
    let i = choose|i: int|
        0 <= i < v.blocks.len() && stmts_contain_call(#[trigger] v.blocks[i].statements, caller);
    let j = choose|j: int|
        0 <= j < v.blocks[i].statements.len() && is_call_to(
            #[trigger] v.blocks[i].statements[j],
            caller,
        );
    lemma_blocks_self(recipe, table, caller, init_inl_state(v), v.blocks, i, j);
}

/// Law: on a call cycle the inlining pass terminates and leaves at least
/// one call unresolved. Termination is inherent: the pass is a total
/// function of its input. For the unresolved call: if the body being
/// optimized calls `g`, and `g`'s own lowered body (when it has one) calls
/// `h` — as every function on a cycle calls the next one — then the output
/// still contains a call to `g` (when the call was kept) or a call to `h`
/// (inside the spliced copy, which the pass never inlines again).
pub proof fn lemma_inlining_cycle_unresolved(
    recipe: RecipeView,
    table: Seq<LoweringResultView>,
    caller: FunctionId,
    v: BodyView,
    g: FunctionId,
    h: FunctionId,
)
    requires
        body_contains_call(v, g),
        (g < table.len() && table[g as int] is Body) ==> stmts_contain_call(
            lowered_body_of(table[g as int]).blocks[0].statements,
            h,
        ),
    ensures
        body_contains_call(spec_inline_pass(recipe, table, caller, v).0, g)
            || body_contains_call(spec_inline_pass(recipe, table, caller, v).0, h),
{
    let i = choose|i: int|
        0 <= i < v.blocks.len() && stmts_contain_call(#[trigger] v.blocks[i].statements, g);
    let j = choose|j: int|
        0 <= j < v.blocks[i].statements.len() && is_call_to(#[trigger] v.blocks[i].statements[j], g);
    lemma_blocks_cycle(recipe, table, caller, init_inl_state(v), v.blocks, i, j, g, h);
}

} // verus!
