//! The cancel-ops pass.
//!
//! It removes pairs of adjacent, provably inverse, side-effect-free
//! operations: a value boxed and immediately unboxed again, where the boxed
//! intermediate has no other consumer, is eliminated and every later use of
//! the unboxed result aliased back to the original input. Use counts are
//! taken over the whole body before rewriting, so an intermediate consumed
//! anywhere else is never touched; operations with observable effects
//! (calls) are never candidates — a proved law below. Requiring the pair to
//! be adjacent is a sound, conservative instance of the general condition
//! that no observable use stands between the two halves.

use vstd::prelude::*;

use crate::const_fold::{
    FoldState, FoldStateView, resolve_stmt, resolve_stmt_exec, resolve_term, resolve_term_exec,
    set_subst,
};
use crate::ir::{
    Block, BlockView, BodyView, LoweredBody, Statement, StmtView, TermView, Terminator, VarId,
    block_views, clone_ids, group_ir_views, lemma_block_views_push, lemma_stmt_views_push,
    stmt_views,
};

verus! {

/// An alias map packaged as a fold state with no constant knowledge, so the
/// operand-rewriting helpers of constant folding apply unchanged.
pub open spec fn sub_state(sub: Seq<Option<VarId>>) -> FoldStateView {
    FoldStateView { consts: Seq::empty(), subst: sub }
}

/// The variables a statement reads.
pub open spec fn stmt_inputs(s: StmtView) -> Seq<VarId> {
    match s {
        StmtView::Literal { dest, value } => Seq::empty(),
        StmtView::BinaryOp { op, lhs, rhs, dest } => seq![lhs, rhs],
        StmtView::Call { callee, args, dest } => args,
        StmtView::BoxValue { input, dest } => seq![input],
        StmtView::UnboxValue { input, dest } => seq![input],
    }
}

/// The variables a terminator reads.
pub open spec fn term_inputs(t: TermView) -> Seq<VarId> {
    match t {
        TermView::Goto { target, args } => args,
        TermView::MatchEnum { discriminant, arms } => seq![discriminant],
        TermView::Return { var } => seq![var],
        TermView::Unreachable => Seq::empty(),
    }
}

/// Counts one more use of a variable, saturating at two: the pass only ever
/// asks whether a variable has exactly one consumer.
pub open spec fn bump(acc: Seq<u64>, v: VarId) -> Seq<u64> {
    if v < acc.len() && acc[v as int] < 2 {
        acc.update(v as int, (acc[v as int] + 1) as u64)
    } else {
        acc
    }
}

/// Counts uses of a whole operand list.
pub open spec fn bump_all(acc: Seq<u64>, vs: Seq<VarId>) -> Seq<u64>
    decreases vs.len(),
{
    if vs.len() == 0 {
        acc
    } else {
        bump_all(bump(acc, vs[0]), vs.drop_first())
    }
}

/// Counts the uses made by a statement sequence.
pub open spec fn count_stmts(acc: Seq<u64>, ss: Seq<StmtView>) -> Seq<u64>
    decreases ss.len(),
{
    if ss.len() == 0 {
        acc
    } else {
        count_stmts(bump_all(acc, stmt_inputs(ss[0])), ss.drop_first())
    }
}

/// Counts the uses made by a block sequence, terminators included.
pub open spec fn count_blocks(acc: Seq<u64>, bs: Seq<BlockView>) -> Seq<u64>
    decreases bs.len(),
{
    if bs.len() == 0 {
        acc
    } else {
        count_blocks(
            bump_all(count_stmts(acc, bs[0].statements), term_inputs(bs[0].terminator)),
            bs.drop_first(),
        )
    }
}

/// How often each variable is read anywhere in the body, saturated at two.
pub open spec fn use_counts(v: BodyView) -> Seq<u64> {
    count_blocks(Seq::new(v.variables.len(), |i: int| 0u64), v.blocks)
}

/// One step of the cancellation walk: an unbox whose operand is the output
/// of the immediately preceding box, with no other consumer, removes the
/// pair and aliases its result to the boxed input; everything else is kept
/// with operands rewritten.
pub open spec fn cancel_step(
    counts: Seq<u64>,
    sub: Seq<Option<VarId>>,
    acc: Seq<StmtView>,
    s: StmtView,
) -> (Seq<StmtView>, Seq<Option<VarId>>) {
    let r = resolve_stmt(sub_state(sub), s);
    match r {
        StmtView::UnboxValue { input, dest } => {
            if acc.len() > 0 {
                match acc.last() {
                    StmtView::BoxValue { input: x, dest: d } => {
                        if d == input && input < counts.len() && counts[input as int] == 1 {
                            (acc.drop_last(), set_subst(sub_state(sub), dest, x).subst)
                        } else {
                            (acc.push(r), sub)
                        }
                    },
                    _ => (acc.push(r), sub),
                }
            } else {
                (acc.push(r), sub)
            }
        },
        _ => (acc.push(r), sub),
    }
}

/// The cancellation walk over a statement sequence.
pub open spec fn cancel_stmts(
    counts: Seq<u64>,
    sub: Seq<Option<VarId>>,
    acc: Seq<StmtView>,
    ss: Seq<StmtView>,
) -> (Seq<StmtView>, Seq<Option<VarId>>)
    decreases ss.len(),
{
    if ss.len() == 0 {
        (acc, sub)
    } else {
        let st = cancel_step(counts, sub, acc, ss[0]);
        cancel_stmts(counts, st.1, st.0, ss.drop_first())
    }
}

/// The cancellation walk over one block.
pub open spec fn cancel_block(counts: Seq<u64>, sub: Seq<Option<VarId>>, b: BlockView) -> (
    BlockView,
    Seq<Option<VarId>>,
) {
    let r = cancel_stmts(counts, sub, Seq::empty(), b.statements);
    (
        BlockView {
            params: b.params,
            statements: r.0,
            terminator: resolve_term(sub_state(r.1), b.terminator),
        },
        r.1,
    )
}

/// The cancellation walk over the blocks in order; aliases carry forward,
/// so later uses of a cancelled pair's output are rewritten too.
pub open spec fn cancel_blocks(counts: Seq<u64>, sub: Seq<Option<VarId>>, bs: Seq<BlockView>) -> (
    Seq<BlockView>,
    Seq<Option<VarId>>,
)
    decreases bs.len(),
{
    if bs.len() == 0 {
        (Seq::empty(), sub)
    } else {
        let fb = cancel_block(counts, sub, bs[0]);
        let rest = cancel_blocks(counts, fb.1, bs.drop_first());
        (seq![fb.0] + rest.0, rest.1)
    }
}

/// The whole pass on body models.
pub open spec fn spec_cancel_ops(v: BodyView) -> BodyView {
    BodyView {
        entry: v.entry,
        blocks: cancel_blocks(
            use_counts(v),
            Seq::new(v.variables.len(), |i: int| None),
            v.blocks,
        ).0,
        variables: v.variables,
    }
}

/// The variables a statement reads.
fn stmt_inputs_exec(s: &Statement) -> (r: Vec<VarId>)
    ensures
        r@ == stmt_inputs(s@),
{
    match s {
        Statement::Literal { dest, value } => {
            let r: Vec<VarId> = Vec::new();
            assert(r@ =~= stmt_inputs(s@));
            r
        },
        Statement::BinaryOp { op, lhs, rhs, dest } => {
            let mut r: Vec<VarId> = Vec::new();
            r.push(*lhs);
            r.push(*rhs);
            assert(r@ =~= stmt_inputs(s@));
            r
        },
        Statement::Call { callee, args, dest } => clone_ids(args),
        Statement::BoxValue { input, dest } => {
            let mut r: Vec<VarId> = Vec::new();
            r.push(*input);
            assert(r@ =~= stmt_inputs(s@));
            r
        },
        Statement::UnboxValue { input, dest } => {
            let mut r: Vec<VarId> = Vec::new();
            r.push(*input);
            assert(r@ =~= stmt_inputs(s@));
            r
        },
    }
}

/// The variables a terminator reads.
fn term_inputs_exec(t: &Terminator) -> (r: Vec<VarId>)
    ensures
        r@ == term_inputs(t@),
{
    match t {
        Terminator::Goto { target, args } => clone_ids(args),
        Terminator::MatchEnum { discriminant, arms } => {
            let mut r: Vec<VarId> = Vec::new();
            r.push(*discriminant);
            assert(r@ =~= term_inputs(t@));
            r
        },
        Terminator::Return { var } => {
            let mut r: Vec<VarId> = Vec::new();
            r.push(*var);
            assert(r@ =~= term_inputs(t@));
            r
        },
        Terminator::Unreachable => {
            let r: Vec<VarId> = Vec::new();
            assert(r@ =~= term_inputs(t@));
            r
        },
    }
}

/// Counts uses of a whole operand list.
fn bump_all_exec(acc: &mut Vec<u64>, vs: &Vec<VarId>)
    ensures
        final(acc)@ == bump_all(old(acc)@, vs@),
{
    let mut i: usize = 0;
    assert(vs@.skip(0) =~= vs@);
    while i < vs.len()
        invariant
            i <= vs.len(),
            bump_all(old(acc)@, vs@) == bump_all(acc@, vs@.skip(i as int)),
        decreases vs.len() - i,
    {
        let ghost pre = acc@;
        let v = vs[i];
        if v < acc.len() {
            let cur = acc[v];
            if cur < 2 {
                acc.set(v, cur + 1);
            }
        }
        assert(acc@ == bump(pre, v));
        i += 1;
        proof {
            assert(vs@.skip(i - 1)[0] == vs@[i - 1]);
            assert(vs@.skip(i - 1).drop_first() =~= vs@.skip(i as int));
        }
    }
    proof {
        assert(vs@.skip(vs@.len() as int) =~= Seq::<VarId>::empty());
    }
}

/// Computes how often each variable is read anywhere in the body.
fn use_counts_exec(body: &LoweredBody) -> (r: Vec<u64>)
    ensures
        r@ == use_counts(body@),
{
    broadcast use group_ir_views;

    let nvars = body.variables.len();
    let mut acc: Vec<u64> = Vec::new();
    let mut i: usize = 0;
    while i < nvars
        invariant
            i <= nvars,
            acc@.len() == i,
            forall|j: int| 0 <= j < i ==> acc@[j] == 0u64,
        decreases nvars - i,
    {
        acc.push(0);
        i += 1;
    }
    assert(acc@ =~= Seq::new(body@.variables.len(), |j: int| 0u64));
    let ghost init = acc@;
    let mut b: usize = 0;
    assert(body@.blocks.skip(0) =~= body@.blocks);
    while b < body.blocks.len()
        invariant
            b <= body.blocks.len(),
            body@.blocks.len() == body.blocks.len(),
            count_blocks(init, body@.blocks) == count_blocks(acc@, body@.blocks.skip(b as int)),
        decreases body.blocks.len() - b,
    {
        broadcast use group_ir_views;

        let ghost at_entry = acc@;
        let blk = body.get_block(b);
        let ghost blocks_skip = body@.blocks.skip(b as int);
        let mut j: usize = 0;
        assert(blk@.statements.skip(0) =~= blk@.statements);
        while j < blk.statements.len()
            invariant
                j <= blk.statements.len(),
                blk@.statements.len() == blk.statements.len(),
                blk@ == body@.blocks[b as int],
                0 <= b < body@.blocks.len(),
                count_stmts(at_entry, blk@.statements) == count_stmts(
                    acc@,
                    blk@.statements.skip(j as int),
                ),
            decreases blk.statements.len() - j,
        {
            broadcast use group_ir_views;

            assert(blk@.statements[j as int] == blk.statements@[j as int]@);
            let ins = stmt_inputs_exec(&blk.statements[j]);
            bump_all_exec(&mut acc, &ins);
            j += 1;
            proof {
                assert(blk@.statements.skip(j - 1)[0] == blk@.statements[j - 1]);
                assert(blk@.statements.skip(j - 1).drop_first() =~= blk@.statements.skip(
                    j as int,
                ));
            }
        }
        proof {
            assert(blk@.statements.skip(blk@.statements.len() as int) =~= Seq::<
                StmtView,
            >::empty());
        }
        let tins = term_inputs_exec(&blk.terminator);
        bump_all_exec(&mut acc, &tins);
        b += 1;
        proof {
            assert(blocks_skip[0] == body@.blocks[b - 1]);
            assert(blocks_skip.drop_first() =~= body@.blocks.skip(b as int));
        }
    }
    proof {
        assert(body@.blocks.skip(body@.blocks.len() as int) =~= Seq::<BlockView>::empty());
    }
    acc
}

/// Runs cancel-ops over a body in place.
pub fn cancel_ops(body: &mut LoweredBody)
    ensures
        final(body)@ == spec_cancel_ops(old(body)@),
{
    broadcast use group_ir_views;

    let counts = use_counts_exec(body);
    let nvars = body.variables.len();
    let mut sub: Vec<Option<VarId>> = Vec::new();
    let mut i: usize = 0;
    while i < nvars
        invariant
            i <= nvars,
            sub@.len() == i,
            forall|j: int| 0 <= j < i ==> sub@[j] is None,
        decreases nvars - i,
    {
        sub.push(None);
        i += 1;
    }
    assert(sub@ =~= Seq::new(body@.variables.len(), |j: int| None::<VarId>));
    let ghost sub0 = sub@;
    let ghost spec_out = cancel_blocks(counts@, sub0, body@.blocks);
    let mut new_blocks: Vec<Block> = Vec::new();
    let mut b: usize = 0;
    proof {
        assert(body@.blocks.skip(0) =~= body@.blocks);
        assert(block_views(new_blocks@) =~= Seq::<BlockView>::empty());
        assert(block_views(new_blocks@) + spec_out.0 =~= spec_out.0);
        assert(Seq::<BlockView>::empty() + cancel_blocks(counts@, sub0, body@.blocks).0
            =~= cancel_blocks(counts@, sub0, body@.blocks).0);
    }
    while b < body.blocks.len()
        invariant
            b <= body.blocks.len(),
            body@.blocks.len() == body.blocks.len(),
            counts@ == use_counts(body@),
            spec_out == cancel_blocks(counts@, sub0, body@.blocks),
            spec_out.0 == block_views(new_blocks@) + cancel_blocks(
                counts@,
                sub@,
                body@.blocks.skip(b as int),
            ).0,
            spec_out.1 == cancel_blocks(counts@, sub@, body@.blocks.skip(b as int)).1,
        decreases body.blocks.len() - b,
    {
        broadcast use group_ir_views;

        let blk = body.get_block(b);
        let ghost sub_entry = sub@;
        let ghost blocks_skip = body@.blocks.skip(b as int);
        let mut out_stmts: Vec<Statement> = Vec::new();
        let mut j: usize = 0;
        proof {
            assert(blk@.statements.skip(0) =~= blk@.statements);
            assert(stmt_views(out_stmts@) =~= Seq::<StmtView>::empty());
        }
        while j < blk.statements.len()
            invariant
                j <= blk.statements.len(),
                blk@.statements.len() == blk.statements.len(),
                blk@ == body@.blocks[b as int],
                0 <= b < body@.blocks.len(),
                counts@.len() == counts.len(),
                cancel_stmts(counts@, sub_entry, Seq::empty(), blk@.statements) == cancel_stmts(
                    counts@,
                    sub@,
                    stmt_views(out_stmts@),
                    blk@.statements.skip(j as int),
                ),
            decreases blk.statements.len() - j,
        {
            broadcast use group_ir_views;

            assert(blk@.statements[j as int] == blk.statements@[j as int]@);
            let ghost pre_sub = sub@;
            let ghost pre_out = stmt_views(out_stmts@);
            let st = FoldState { consts: Vec::new(), subst: sub };
            let r = resolve_stmt_exec(&st, &blk.statements[j]);
            sub = st.subst;
            assert(r@ == resolve_stmt(sub_state(pre_sub), blk@.statements[j as int]));
            let mut cancelled: bool = false;
            match &r {
                Statement::UnboxValue { input, dest } => {
                    if out_stmts.len() > 0 {
                        let last_is_pair: bool = match &out_stmts[out_stmts.len() - 1] {
                            Statement::BoxValue { input: x, dest: d } => *d == *input,
                            _ => false,
                        };
                        if last_is_pair && *input < counts.len() && counts[*input] == 1 {
                            let popped = out_stmts.pop().unwrap();
                            match &popped {
                                Statement::BoxValue { input: x, dest: d } => {
                                    if *dest < sub.len() {
                                        sub.set(*dest, Some(*x));
                                    }
                                },
                                _ => {},
                            }
                            cancelled = true;
                            proof {
                                assert(stmt_views(out_stmts@) =~= pre_out.drop_last());
                            }
                        }
                    }
                },
                _ => {},
            }
            if !cancelled {
                let ghost prev = out_stmts@;
                proof {
                    lemma_stmt_views_push(prev, r);
                }
                out_stmts.push(r);
            }
            proof {
                assert((stmt_views(out_stmts@), sub@) == cancel_step(
                    counts@,
                    pre_sub,
                    pre_out,
                    blk@.statements[j as int],
                ));
            }
            j += 1;
            proof {
                assert(blk@.statements.skip(j - 1)[0] == blk@.statements[j - 1]);
                assert(blk@.statements.skip(j - 1).drop_first() =~= blk@.statements.skip(
                    j as int,
                ));
            }
        }
        proof {
            assert(blk@.statements.skip(blk@.statements.len() as int) =~= Seq::<
                StmtView,
            >::empty());
        }
        let st2 = FoldState { consts: Vec::new(), subst: sub };
        let new_term = resolve_term_exec(&st2, &blk.terminator);
        sub = st2.subst;
        let new_block = Block {
            params: clone_ids(&blk.params),
            statements: out_stmts,
            terminator: new_term,
        };
        assert(new_block@ == cancel_block(counts@, sub_entry, blk@).0);
        assert(sub@ == cancel_block(counts@, sub_entry, blk@).1);
        let ghost prev_blocks = new_blocks@;
        proof {
            lemma_block_views_push(prev_blocks, new_block);
        }
        new_blocks.push(new_block);
        b += 1;
        proof {
            assert(blocks_skip[0] == body@.blocks[b - 1]);
            assert(blocks_skip.drop_first() =~= body@.blocks.skip(b as int));
            let fb = cancel_block(counts@, sub_entry, body@.blocks[b - 1]);
            let rest = cancel_blocks(counts@, sub@, body@.blocks.skip(b as int));
            assert(cancel_blocks(counts@, sub_entry, blocks_skip).0 =~= seq![fb.0] + rest.0);
            assert(block_views(new_blocks@) + rest.0 =~= (block_views(prev_blocks) + seq![
                fb.0,
            ]) + rest.0);
            assert(spec_out.0 =~= block_views(new_blocks@) + rest.0);
        }
    }
    proof {
        assert(body@.blocks.skip(body@.blocks.len() as int) =~= Seq::<BlockView>::empty());
    }
    body.blocks = new_blocks;
    proof {
        assert(body@ =~= spec_cancel_ops(old(body)@));
    }
}


/// Whether a statement sequence contains a call to the given function.
pub open spec fn stmts_have_call(ss: Seq<StmtView>, c: crate::ir::FunctionId) -> bool {
    exists|i: int|
        0 <= i < ss.len() && ((#[trigger] ss[i]) matches StmtView::Call { callee, .. } && callee
            == c)
}

/// One cancellation step never loses a call: the only statement a step can
/// take back is a box operation.
proof fn lemma_cancel_step_keeps_calls(
    counts: Seq<u64>,
    sub: Seq<Option<VarId>>,
    acc: Seq<StmtView>,
    s: StmtView,
    c: crate::ir::FunctionId,
)
    requires
        stmts_have_call(acc, c),
    ensures
        stmts_have_call(cancel_step(counts, sub, acc, s).0, c),
{
    let i = choose|i: int|
        0 <= i < acc.len() && ((#[trigger] acc[i]) matches StmtView::Call { callee, .. } && callee
            == c);
    let out = cancel_step(counts, sub, acc, s).0;
    if out.len() < acc.len() {
        assert(out == acc.drop_last());
        assert(acc.last() is BoxValue);
        assert(i < acc.len() - 1);
        assert(out[i] == acc[i]);
    } else {
        assert(out[i] == acc[i]);
    }
}

/// A call that the walk has resolved into the output survives to its end.
proof fn lemma_cancel_stmts_keep_calls(
    counts: Seq<u64>,
    sub: Seq<Option<VarId>>,
    acc: Seq<StmtView>,
    ss: Seq<StmtView>,
    c: crate::ir::FunctionId,
)
    requires
        stmts_have_call(acc, c),
    ensures
        stmts_have_call(cancel_stmts(counts, sub, acc, ss).0, c),
    decreases ss.len(),
{
    if ss.len() > 0 {
        lemma_cancel_step_keeps_calls(counts, sub, acc, ss[0], c);
        let st = cancel_step(counts, sub, acc, ss[0]);
        lemma_cancel_stmts_keep_calls(counts, st.1, st.0, ss.drop_first(), c);
    }
}

/// A call statement in the input reaches the output of the walk.
proof fn lemma_cancel_stmts_call_at(
    counts: Seq<u64>,
    sub: Seq<Option<VarId>>,
    acc: Seq<StmtView>,
    ss: Seq<StmtView>,
    j: int,
    c: crate::ir::FunctionId,
)
    requires
        0 <= j < ss.len(),
        ss[j] matches StmtView::Call { callee, .. } && callee == c,
    ensures
        stmts_have_call(cancel_stmts(counts, sub, acc, ss).0, c),
    decreases ss.len(),
{
    let st = cancel_step(counts, sub, acc, ss[0]);
    if j == 0 {
        let r = resolve_stmt(sub_state(sub), ss[0]);
        assert(r matches StmtView::Call { callee, .. } && callee == c);
        assert(st.0.last() == r);
        assert(stmts_have_call(st.0, c));
        lemma_cancel_stmts_keep_calls(counts, st.1, st.0, ss.drop_first(), c);
    } else {
        assert(ss.drop_first()[j - 1] == ss[j]);
        lemma_cancel_stmts_call_at(counts, st.1, st.0, ss.drop_first(), j - 1, c);
    }
}

/// Law: cancel-ops never eliminates an operation with an externally
/// observable effect. A call found anywhere in the body is still present,
/// in the same block, after the pass; only pure, provably-cancelling
/// box/unbox pairs are removed.
pub proof fn lemma_cancel_ops_keeps_calls(v: BodyView, i: int, j: int, c: crate::ir::FunctionId)
    requires
        0 <= i < v.blocks.len(),
        0 <= j < v.blocks[i].statements.len(),
        v.blocks[i].statements[j] matches StmtView::Call { callee, .. } && callee == c,
    ensures
        0 <= i < spec_cancel_ops(v).blocks.len() && stmts_have_call(
            spec_cancel_ops(v).blocks[i].statements,
            c,
        ),
{
    let counts = use_counts(v);
    let sub0 = Seq::new(v.variables.len(), |k: int| None::<VarId>);
    lemma_cancel_blocks_call(counts, sub0, v.blocks, i, j, c);
}

/// Lifts the per-block fact through the block walk.
proof fn lemma_cancel_blocks_call(
    counts: Seq<u64>,
    sub: Seq<Option<VarId>>,
    bs: Seq<BlockView>,
    i: int,
    j: int,
    c: crate::ir::FunctionId,
)
    requires
        0 <= i < bs.len(),
        0 <= j < bs[i].statements.len(),
        bs[i].statements[j] matches StmtView::Call { callee, .. } && callee == c,
    ensures
        cancel_blocks(counts, sub, bs).0.len() == bs.len(),
        stmts_have_call(cancel_blocks(counts, sub, bs).0[i].statements, c),
    decreases bs.len(),
{
    let fb = cancel_block(counts, sub, bs[0]);
    let rest = cancel_blocks(counts, fb.1, bs.drop_first());
    let whole = cancel_blocks(counts, sub, bs).0;
    lemma_cancel_blocks_len(counts, fb.1, bs.drop_first());
    if i == 0 {
        lemma_cancel_stmts_call_at(counts, sub, Seq::empty(), bs[0].statements, j, c);
        assert(whole[0] == fb.0);
    } else {
        assert(bs.drop_first()[i - 1] == bs[i]);
        lemma_cancel_blocks_call(counts, fb.1, bs.drop_first(), i - 1, j, c);
        assert(whole[i] == rest.0[i - 1]);
    }
}

/// The walk keeps one output block per input block.
proof fn lemma_cancel_blocks_len(counts: Seq<u64>, sub: Seq<Option<VarId>>, bs: Seq<BlockView>)
    ensures
        cancel_blocks(counts, sub, bs).0.len() == bs.len(),
    decreases bs.len(),
{
    if bs.len() > 0 {
        let fb = cancel_block(counts, sub, bs[0]);
        lemma_cancel_blocks_len(counts, fb.1, bs.drop_first());
    }
}

} // verus!
