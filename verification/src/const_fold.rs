//! The constant-folding pass.
//!
//! A single forward pass over the blocks maintains, per variable, what is
//! known at compile time: a concrete field value (learnt from literal
//! statements), or an alias introduced by simplifying an algebraic identity.
//! The pass walks the blocks in id order and relies on the data model's
//! write-once discipline: a variable index is produced by exactly one
//! statement or block parameter, so knowledge learnt at a definition holds
//! at every use. The sequencer runs block reorganization before this pass,
//! and reorganization leaves only blocks reachable from the entry (a proved
//! law), so within the pipeline the walk never learns from an unreached
//! definition; after reorganization's canonical renumbering, id order is a
//! reachability order.
//! A statement whose operands are all known concrete values is replaced by a
//! single literal statement evaluated modulo the field's modulus; addition
//! with the additive identity and multiplication by the multiplicative
//! identity are removed, their destination aliased to the surviving operand;
//! multiplication by zero becomes the literal zero. Inputs that cannot be
//! folded are left untouched — the pass never fails.

use vstd::prelude::*;

use crate::field::{spec_felt_add, spec_felt_mul, spec_felt_sub, felt_add, felt_mul, felt_sub};
use crate::ir::{
    BinOp, Block, BlockView, BodyView, LoweredBody, Statement, StmtView, TermView, Terminator,
    VarId, group_ir_views, clone_ids,
};

verus! {

/// What the pass knows about the variables while walking the body: per
/// variable an optional concrete value, and an optional alias to the
/// variable that provably carries the same value.
#[verifier::ext_equal]
pub struct FoldStateView {
    /// `consts[v]` is the concrete value of `v`, when known.
    pub consts: Seq<Option<u64>>,
    /// `subst[v]` is the variable `v` was aliased to, when its defining
    /// statement was removed as an algebraic identity.
    pub subst: Seq<Option<VarId>>,
}

/// The executable fold state; its model is a [`FoldStateView`].
pub struct FoldState {
    /// See [`FoldStateView::consts`].
    pub consts: Vec<Option<u64>>,
    /// See [`FoldStateView::subst`].
    pub subst: Vec<Option<VarId>>,
}

impl View for FoldState {
    type V = FoldStateView;

    open spec fn view(&self) -> FoldStateView {
        FoldStateView { consts: self.consts@, subst: self.subst@ }
    }
}

/// The state the pass starts from: nothing known about any variable.
pub open spec fn init_fold_state(nvars: nat) -> FoldStateView {
    FoldStateView {
        consts: Seq::new(nvars, |i: int| None),
        subst: Seq::new(nvars, |i: int| None),
    }
}

/// A fold state with everything forgotten about aliases but the constant
/// knowledge kept.
pub open spec fn strip_subst(st: FoldStateView) -> FoldStateView {
    FoldStateView { consts: st.consts, subst: Seq::new(st.subst.len(), |i: int| None) }
}

/// Rewrites one operand through the alias map.
pub open spec fn resolve_var(st: FoldStateView, v: VarId) -> VarId {
    if v < st.subst.len() {
        match st.subst[v as int] {
            Some(w) => w,
            None => v,
        }
    } else {
        v
    }
}

/// Rewrites a whole operand list through the alias map.
pub open spec fn resolve_vars(st: FoldStateView, vs: Seq<VarId>) -> Seq<VarId> {
    vs.map_values(|v: VarId| resolve_var(st, v))
}

/// The concrete value of an operand, when known.
pub open spec fn const_of(st: FoldStateView, v: VarId) -> Option<u64> {
    if v < st.consts.len() {
        st.consts[v as int]
    } else {
        None
    }
}

/// Records a concrete value for a destination.
pub open spec fn set_const(st: FoldStateView, v: VarId, value: u64) -> FoldStateView {
    if v < st.consts.len() {
        FoldStateView { consts: st.consts.update(v as int, Some(value)), subst: st.subst }
    } else {
        st
    }
}

/// Records an alias for a destination whose defining statement was removed.
pub open spec fn set_subst(st: FoldStateView, v: VarId, w: VarId) -> FoldStateView {
    if v < st.subst.len() {
        FoldStateView { consts: st.consts, subst: st.subst.update(v as int, Some(w)) }
    } else {
        st
    }
}

/// Compile-time evaluation of a binary operation, modulo the field modulus.
pub open spec fn spec_eval(op: BinOp, a: u64, b: u64) -> u64 {
    match op {
        BinOp::Add => spec_felt_add(a, b),
        BinOp::Sub => spec_felt_sub(a, b),
        BinOp::Mul => spec_felt_mul(a, b),
    }
}

/// Rewrites the operands of a statement through the alias map; destinations
/// are left untouched.
pub open spec fn resolve_stmt(st: FoldStateView, s: StmtView) -> StmtView {
    match s {
        StmtView::Literal { dest, value } => s,
        StmtView::BinaryOp { op, lhs, rhs, dest } => StmtView::BinaryOp {
            op,
            lhs: resolve_var(st, lhs),
            rhs: resolve_var(st, rhs),
            dest,
        },
        StmtView::Call { callee, args, dest } => StmtView::Call {
            callee,
            args: resolve_vars(st, args),
            dest,
        },
        StmtView::BoxValue { input, dest } => StmtView::BoxValue {
            input: resolve_var(st, input),
            dest,
        },
        StmtView::UnboxValue { input, dest } => StmtView::UnboxValue {
            input: resolve_var(st, input),
            dest,
        },
    }
}

/// Rewrites the operands of a terminator through the alias map.
pub open spec fn resolve_term(st: FoldStateView, t: TermView) -> TermView {
    match t {
        TermView::Goto { target, args } => TermView::Goto {
            target,
            args: resolve_vars(st, args),
        },
        TermView::MatchEnum { discriminant, arms } => TermView::MatchEnum {
            discriminant: resolve_var(st, discriminant),
            arms,
        },
        TermView::Return { var } => TermView::Return { var: resolve_var(st, var) },
        TermView::Unreachable => TermView::Unreachable,
    }
}

/// Folds one statement after rewriting its operands: either some statements
/// (zero for a removed identity, otherwise one) together with the updated
/// knowledge.
pub open spec fn fold_stmt(st: FoldStateView, s: StmtView) -> (Seq<StmtView>, FoldStateView) {
    let r = resolve_stmt(st, s);
    match r {
        StmtView::Literal { dest, value } => (seq![r], set_const(st, dest, value)),
        StmtView::BinaryOp { op, lhs, rhs, dest } => {
            let cl = const_of(st, lhs);
            let cr = const_of(st, rhs);
            if cl is Some && cr is Some {
                let value = spec_eval(op, cl->0, cr->0);
                (seq![StmtView::Literal { dest, value }], set_const(st, dest, value))
            } else if cr == Some(1u64) && op is Mul {
                (Seq::empty(), set_subst(st, dest, lhs))
            } else if cl == Some(1u64) && op is Mul {
                (Seq::empty(), set_subst(st, dest, rhs))
            } else if (cr == Some(0u64) || cl == Some(0u64)) && op is Mul {
                (seq![StmtView::Literal { dest, value: 0u64 }], set_const(st, dest, 0u64))
            } else if cr == Some(0u64) && (op is Add || op is Sub) {
                (Seq::empty(), set_subst(st, dest, lhs))
            } else if cl == Some(0u64) && op is Add {
                (Seq::empty(), set_subst(st, dest, rhs))
            } else {
                (seq![r], st)
            }
        },
        _ => (seq![r], st),
    }
}

/// Folds a sequence of statements, threading the knowledge forward.
pub open spec fn fold_stmts(st: FoldStateView, ss: Seq<StmtView>) -> (Seq<StmtView>, FoldStateView)
    decreases ss.len(),
{
    if ss.len() == 0 {
        (Seq::empty(), st)
    } else {
        let first = fold_stmt(st, ss[0]);
        let rest = fold_stmts(first.1, ss.drop_first());
        (first.0 + rest.0, rest.1)
    }
}

/// Folds one block: statements are folded in order and the terminator's
/// operands rewritten through the aliases known at the block's end. When a
/// conditional terminator's discriminant has become a known literal, its
/// defining statement is now a literal statement, which is what block
/// reorganization later acts on; the branch itself is not removed here.
pub open spec fn fold_block(st: FoldStateView, b: BlockView) -> (BlockView, FoldStateView) {
    let folded = fold_stmts(st, b.statements);
    (
        BlockView {
            params: b.params,
            statements: folded.0,
            terminator: resolve_term(folded.1, b.terminator),
        },
        folded.1,
    )
}

/// Folds the blocks in order, threading the knowledge across blocks; a
/// variable has one defining position, so knowledge learnt in an earlier
/// block stays valid.
pub open spec fn fold_blocks(st: FoldStateView, bs: Seq<BlockView>) -> (Seq<BlockView>, FoldStateView)
    decreases bs.len(),
{
    if bs.len() == 0 {
        (Seq::empty(), st)
    } else {
        let first = fold_block(st, bs[0]);
        let rest = fold_blocks(first.1, bs.drop_first());
        (seq![first.0] + rest.0, rest.1)
    }
}

/// The whole pass as a function on body models: entry and variable pool are
/// untouched; the blocks are folded in order starting from no knowledge.
pub open spec fn spec_const_fold(v: BodyView) -> BodyView {
    BodyView {
        entry: v.entry,
        blocks: fold_blocks(init_fold_state(v.variables.len()), v.blocks).0,
        variables: v.variables,
    }
}

/// Rewrites one operand through the alias map.
fn resolve_var_exec(st: &FoldState, v: VarId) -> (r: VarId)
    ensures
        r == resolve_var(st@, v),
{
    if v < st.subst.len() {
        match st.subst[v] {
            Some(w) => w,
            None => v,
        }
    } else {
        v
    }
}

/// Rewrites a whole operand list through the alias map.
fn resolve_vars_exec(st: &FoldState, vs: &Vec<VarId>) -> (r: Vec<VarId>)
    ensures
        r@ == resolve_vars(st@, vs@),
{
    let mut r: Vec<VarId> = Vec::new();
    let mut i: usize = 0;
    while i < vs.len()
        invariant
            i <= vs.len(),
            r@.len() == i,
            forall|j: int| 0 <= j < i ==> r@[j] == resolve_var(st@, #[trigger] vs@[j]),
        decreases vs.len() - i,
    {
        r.push(resolve_var_exec(st, vs[i]));
        i += 1;
    }
    assert(r@ =~= resolve_vars(st@, vs@));
    r
}

/// Records a concrete value for a destination.
fn set_const_exec(st: &mut FoldState, v: VarId, value: u64)
    ensures
        final(st)@ == set_const(old(st)@, v, value),
{
    if v < st.consts.len() {
        st.consts.set(v, Some(value));
        assert(final(st)@ =~= set_const(old(st)@, v, value));
    } else {
        assert(final(st)@ =~= set_const(old(st)@, v, value));
    }
}

/// Records an alias for a destination.
fn set_subst_exec(st: &mut FoldState, v: VarId, w: VarId)
    ensures
        final(st)@ == set_subst(old(st)@, v, w),
{
    if v < st.subst.len() {
        st.subst.set(v, Some(w));
        assert(final(st)@ =~= set_subst(old(st)@, v, w));
    } else {
        assert(final(st)@ =~= set_subst(old(st)@, v, w));
    }
}

/// Compile-time evaluation of a binary operation.
pub(crate) fn eval_exec(op: BinOp, a: u64, b: u64) -> (r: u64)
    ensures
        r == spec_eval(op, a, b),
{
    match op {
        BinOp::Add => felt_add(a, b),
        BinOp::Sub => felt_sub(a, b),
        BinOp::Mul => felt_mul(a, b),
    }
}

/// Folds one statement; returns the replacement (none for a removed
/// identity) and updates the knowledge in place.
fn fold_stmt_exec(st: &mut FoldState, s: &Statement) -> (r: Option<Statement>)
    ensures
        fold_stmt(old(st)@, s@).0 == match r {
            Some(s2) => seq![s2@],
            None => Seq::<StmtView>::empty(),
        },
        final(st)@ == fold_stmt(old(st)@, s@).1,
{
    match s {
        Statement::Literal { dest, value } => {
            set_const_exec(st, *dest, *value);
            Some(Statement::Literal { dest: *dest, value: *value })
        },
        Statement::BinaryOp { op, lhs, rhs, dest } => {
            let l = resolve_var_exec(st, *lhs);
            let rr = resolve_var_exec(st, *rhs);
            let cl = if l < st.consts.len() {
                st.consts[l]
            } else {
                None
            };
            let cr = if rr < st.consts.len() {
                st.consts[rr]
            } else {
                None
            };
            assert(cl == const_of(st@, l) && cr == const_of(st@, rr));
            if let (Some(a), Some(bb)) = (cl, cr) {
                let value = eval_exec(*op, a, bb);
                set_const_exec(st, *dest, value);
                Some(Statement::Literal { dest: *dest, value })
            } else if matches!(op, BinOp::Mul) && cr == Some(1u64) {
                set_subst_exec(st, *dest, l);
                None
            } else if matches!(op, BinOp::Mul) && cl == Some(1u64) {
                set_subst_exec(st, *dest, rr);
                None
            } else if matches!(op, BinOp::Mul) && (cr == Some(0u64) || cl == Some(0u64)) {
                set_const_exec(st, *dest, 0u64);
                Some(Statement::Literal { dest: *dest, value: 0u64 })
            } else if matches!(op, BinOp::Add | BinOp::Sub) && cr == Some(0u64) {
                set_subst_exec(st, *dest, l);
                None
            } else if matches!(op, BinOp::Add) && cl == Some(0u64) {
                set_subst_exec(st, *dest, rr);
                None
            } else {
                Some(Statement::BinaryOp { op: *op, lhs: l, rhs: rr, dest: *dest })
            }
        },
        Statement::Call { callee, args, dest } => {
            let a = resolve_vars_exec(st, args);
            Some(Statement::Call { callee: *callee, args: a, dest: *dest })
        },
        Statement::BoxValue { input, dest } => {
            let i = resolve_var_exec(st, *input);
            Some(Statement::BoxValue { input: i, dest: *dest })
        },
        Statement::UnboxValue { input, dest } => {
            let i = resolve_var_exec(st, *input);
            Some(Statement::UnboxValue { input: i, dest: *dest })
        },
    }
}

/// Rewrites the operands of a statement through the alias map.
pub(crate) fn resolve_stmt_exec(st: &FoldState, s: &Statement) -> (r: Statement)
    ensures
        r@ == resolve_stmt(st@, s@),
{
    match s {
        Statement::Literal { dest, value } => Statement::Literal { dest: *dest, value: *value },
        Statement::BinaryOp { op, lhs, rhs, dest } => Statement::BinaryOp {
            op: *op,
            lhs: resolve_var_exec(st, *lhs),
            rhs: resolve_var_exec(st, *rhs),
            dest: *dest,
        },
        Statement::Call { callee, args, dest } => Statement::Call {
            callee: *callee,
            args: resolve_vars_exec(st, args),
            dest: *dest,
        },
        Statement::BoxValue { input, dest } => Statement::BoxValue {
            input: resolve_var_exec(st, *input),
            dest: *dest,
        },
        Statement::UnboxValue { input, dest } => Statement::UnboxValue {
            input: resolve_var_exec(st, *input),
            dest: *dest,
        },
    }
}

/// Rewrites the operands of a terminator through the alias map.
pub(crate) fn resolve_term_exec(st: &FoldState, t: &Terminator) -> (r: Terminator)
    ensures
        r@ == resolve_term(st@, t@),
{
    match t {
        Terminator::Goto { target, args } => Terminator::Goto {
            target: *target,
            args: resolve_vars_exec(st, args),
        },
        Terminator::MatchEnum { discriminant, arms } => Terminator::MatchEnum {
            discriminant: resolve_var_exec(st, *discriminant),
            arms: clone_ids(arms),
        },
        Terminator::Return { var } => Terminator::Return { var: resolve_var_exec(st, *var) },
        Terminator::Unreachable => Terminator::Unreachable,
    }
}

/// Runs constant folding over a body in place. The pass never fails; what
/// cannot be folded stays untouched.
pub fn const_fold(body: &mut LoweredBody)
    ensures
        final(body)@ == spec_const_fold(old(body)@),
{
    broadcast use group_ir_views;

    let nvars = body.variables.len();
    let mut st = FoldState { consts: Vec::new(), subst: Vec::new() };
    let mut i: usize = 0;
    while i < nvars
        invariant
            i <= nvars,
            st@.consts.len() == i,
            st@.subst.len() == i,
            forall|j: int| 0 <= j < i ==> st@.consts[j] is None,
            forall|j: int| 0 <= j < i ==> st@.subst[j] is None,
        decreases nvars - i,
    {
        st.consts.push(None);
        st.subst.push(None);
        i += 1;
    }
    assert(st@ =~= init_fold_state(nvars as nat));
    let ghost st0 = st@;
    let mut new_blocks: Vec<Block> = Vec::new();
    let mut b: usize = 0;
    while b < body.blocks.len()
        invariant
            b <= body.blocks.len(),
            body@.blocks.len() == body.blocks.len(),
            fold_blocks(st0, body@.blocks.take(b as int)).0 == crate::ir::block_views(
                new_blocks@,
            ),
            fold_blocks(st0, body@.blocks.take(b as int)).1 == st@,
        decreases body.blocks.len() - b,
    {
        let ghost pre_take = body@.blocks.take(b as int);
        let blk = body.get_block(b);
        proof {
            crate::ir::lemma_stmt_views_len(blk.statements@);
        }
        let mut out_stmts: Vec<Statement> = Vec::new();
        let ghost st_blk = st@;
        let mut j: usize = 0;
        while j < blk.statements.len()
            invariant
                j <= blk.statements.len(),
                blk@.statements.len() == blk.statements.len(),
                fold_stmts(st_blk, blk@.statements.take(j as int)).0 == crate::ir::stmt_views(
                    out_stmts@,
                ),
                fold_stmts(st_blk, blk@.statements.take(j as int)).1 == st@,
            decreases blk.statements.len() - j,
        {
            broadcast use group_ir_views;

            let ghost prior = st@;
            let ghost stmts_take = blk@.statements.take(j as int);
            assert(blk@.statements[j as int] == blk.statements@[j as int]@);
            let ghost prev_stmts = out_stmts@;
            let folded = fold_stmt_exec(&mut st, &blk.statements[j]);
            match folded {
                Some(s2) => {
                    proof {
                        crate::ir::lemma_stmt_views_push(prev_stmts, s2);
                    }
                    out_stmts.push(s2);
                },
                None => {},
            }
            j += 1;
            proof {
                assert(blk@.statements.take(j as int) =~= stmts_take.push(
                    blk@.statements[j - 1],
                ));
                lemma_fold_stmts_snoc(st_blk, stmts_take, blk@.statements[j - 1]);
                assert(crate::ir::stmt_views(out_stmts@) =~= fold_stmts(
                    st_blk,
                    blk@.statements.take(j as int),
                ).0);
            }
        }
        assert(blk@.statements.take(blk.statements.len() as int) =~= blk@.statements);
        let new_term = resolve_term_exec(&st, &blk.terminator);
        let new_block = Block {
            params: clone_ids(&blk.params),
            statements: out_stmts,
            terminator: new_term,
        };
        assert(new_block@ == fold_block(st_blk, blk@).0);
        let ghost prev_blocks = new_blocks@;
        proof {
            crate::ir::lemma_block_views_push(prev_blocks, new_block);
        }
        new_blocks.push(new_block);
        b += 1;
        proof {
            assert(body@.blocks.take(b as int) =~= pre_take.push(body@.blocks[b - 1]));
            lemma_fold_blocks_snoc(st0, pre_take, body@.blocks[b - 1]);
            assert(crate::ir::block_views(new_blocks@) =~= fold_blocks(
                st0,
                body@.blocks.take(b as int),
            ).0);
        }
    }
    assert(body@.blocks.take(body.blocks.len() as int) =~= body@.blocks);
    body.blocks = new_blocks;
    proof {
        assert(body@ =~= spec_const_fold(old(body)@));
    }
}

/// Folding a sequence extended by one statement folds the prefix and then
/// the new statement.
pub proof fn lemma_fold_stmts_snoc(st: FoldStateView, ss: Seq<StmtView>, s: StmtView)
    ensures
        fold_stmts(st, ss.push(s)).0 == fold_stmts(st, ss).0 + fold_stmt(
            fold_stmts(st, ss).1,
            s,
        ).0,
        fold_stmts(st, ss.push(s)).1 == fold_stmt(fold_stmts(st, ss).1, s).1,
    decreases ss.len(),
{
    let whole = ss.push(s);
    if ss.len() == 0 {
        assert(whole.drop_first() =~= Seq::<StmtView>::empty());
        assert(whole[0] == s);
        let first = fold_stmt(st, s);
        assert(fold_stmts(first.1, whole.drop_first()) == (Seq::<StmtView>::empty(), first.1));
        assert(first.0 + Seq::<StmtView>::empty() =~= first.0);
        assert(Seq::<StmtView>::empty() + first.0 =~= first.0);
    } else {
        assert(whole[0] == ss[0]);
        assert(whole.drop_first() =~= ss.drop_first().push(s));
        let first = fold_stmt(st, ss[0]);
        lemma_fold_stmts_snoc(first.1, ss.drop_first(), s);
        let pre_rest = fold_stmts(first.1, ss.drop_first());
        let last = fold_stmt(pre_rest.1, s);
        assert(first.0 + (pre_rest.0 + last.0) =~= (first.0 + pre_rest.0) + last.0);
    }
}

/// Folding a block sequence extended by one block folds the prefix and then
/// the new block.
pub proof fn lemma_fold_blocks_snoc(st: FoldStateView, bs: Seq<BlockView>, b: BlockView)
    ensures
        fold_blocks(st, bs.push(b)).0 == fold_blocks(st, bs).0.push(
            fold_block(fold_blocks(st, bs).1, b).0,
        ),
        fold_blocks(st, bs.push(b)).1 == fold_block(fold_blocks(st, bs).1, b).1,
    decreases bs.len(),
{
    let whole = bs.push(b);
    if bs.len() == 0 {
        assert(whole.drop_first() =~= Seq::<BlockView>::empty());
        assert(whole[0] == b);
        let first = fold_block(st, b);
        assert(fold_blocks(first.1, whole.drop_first()).0 =~= Seq::<BlockView>::empty());
        assert(fold_blocks(first.1, whole.drop_first()).1 == first.1);
        assert(fold_blocks(st, bs).0 =~= Seq::<BlockView>::empty());
        assert(fold_blocks(st, bs).1 == st);
        assert(seq![first.0] + Seq::<BlockView>::empty() =~= Seq::<BlockView>::empty().push(
            first.0,
        ));
    } else {
        assert(whole[0] == bs[0]);
        assert(whole.drop_first() =~= bs.drop_first().push(b));
        let first = fold_block(st, bs[0]);
        lemma_fold_blocks_snoc(first.1, bs.drop_first(), b);
        let pre_rest = fold_blocks(first.1, bs.drop_first());
        let last = fold_block(pre_rest.1, b);
        assert(seq![first.0] + pre_rest.0.push(last.0) =~= (seq![first.0] + pre_rest.0).push(
            last.0,
        ));
    }
}


/// Rewriting an operand through an alias map with nothing recorded changes
/// nothing.
pub proof fn lemma_resolve_stmt_strip(st: FoldStateView, s: StmtView)
    ensures
        resolve_stmt(strip_subst(st), s) == s,
{
    let e = strip_subst(st);
    match s {
        StmtView::Call { callee, args, dest } => {
            assert(resolve_vars(e, args) =~= args);
        },
        _ => {},
    }
}

/// Rewriting a terminator through an alias map with nothing recorded
/// changes nothing.
pub proof fn lemma_resolve_term_strip(st: FoldStateView, t: TermView)
    ensures
        resolve_term(strip_subst(st), t) == t,
{
    let e = strip_subst(st);
    match t {
        TermView::Goto { target, args } => {
            assert(resolve_vars(e, args) =~= args);
        },
        _ => {},
    }
}

/// Folding what one folding step produced, with the same constant knowledge
/// but no aliases, reproduces it exactly and re-learns the same constants.
pub proof fn lemma_fold_stmt_idem(st: FoldStateView, s: StmtView)
    ensures
        fold_stmts(strip_subst(st), fold_stmt(st, s).0).0 == fold_stmt(st, s).0,
        fold_stmts(strip_subst(st), fold_stmt(st, s).0).1 == strip_subst(fold_stmt(st, s).1),
{
    let e = strip_subst(st);
    let r = resolve_stmt(st, s);
    let out = fold_stmt(st, s).0;
    let st1 = fold_stmt(st, s).1;
    if out.len() == 0 {
        assert(strip_subst(st1) =~= e);
        assert(fold_stmts(e, out).0 =~= out);
    } else {
        let o = out[0];
        lemma_resolve_stmt_strip(st, o);
        assert(out.drop_first() =~= Seq::<StmtView>::empty());
        let first2 = fold_stmt(e, o);
        assert(fold_stmts(first2.1, out.drop_first()) == (Seq::<StmtView>::empty(), first2.1));
        match o {
            StmtView::Literal { dest, value } => {
                assert(first2.0 == seq![o]);
                assert(first2.1 == set_const(e, dest, value));
                assert(st1 == set_const(st, dest, value));
                assert(set_const(e, dest, value) =~= strip_subst(set_const(st, dest, value)));
            },
            StmtView::BinaryOp { op, lhs, rhs, dest } => {
                assert(const_of(e, lhs) == const_of(st, lhs));
                assert(const_of(e, rhs) == const_of(st, rhs));
                assert(first2.0 == seq![o]);
                assert(first2.1 == e);
                assert(st1 == st);
                assert(strip_subst(st1) =~= e);
            },
            _ => {
                assert(first2.0 == seq![o]);
                assert(first2.1 == e);
                assert(st1 == st);
                assert(strip_subst(st1) =~= e);
            },
        }
        assert(fold_stmts(e, out).0 =~= out);
    }
}

/// Folding a concatenation folds the first part and continues with the
/// knowledge it produced.
pub proof fn lemma_fold_stmts_append(st: FoldStateView, a: Seq<StmtView>, b: Seq<StmtView>)
    ensures
        fold_stmts(st, a + b).0 == fold_stmts(st, a).0 + fold_stmts(fold_stmts(st, a).1, b).0,
        fold_stmts(st, a + b).1 == fold_stmts(fold_stmts(st, a).1, b).1,
    decreases a.len(),
{
    if a.len() == 0 {
        assert(a + b =~= b);
        assert(fold_stmts(st, a).0 =~= Seq::<StmtView>::empty());
        assert(fold_stmts(st, a).1 == st);
        assert(Seq::<StmtView>::empty() + fold_stmts(st, b).0 =~= fold_stmts(st, b).0);
    } else {
        assert((a + b)[0] == a[0]);
        assert((a + b).drop_first() =~= a.drop_first() + b);
        let first = fold_stmt(st, a[0]);
        lemma_fold_stmts_append(first.1, a.drop_first(), b);
        let pa = fold_stmts(first.1, a.drop_first());
        let pb = fold_stmts(pa.1, b);
        assert(first.0 + (pa.0 + pb.0) =~= (first.0 + pa.0) + pb.0);
    }
}

/// Refolding the output of a statement-sequence fold, with the constants it
/// started from but no aliases, reproduces the output exactly.
pub proof fn lemma_fold_stmts_idem(st: FoldStateView, ss: Seq<StmtView>)
    ensures
        fold_stmts(strip_subst(st), fold_stmts(st, ss).0).0 == fold_stmts(st, ss).0,
        fold_stmts(strip_subst(st), fold_stmts(st, ss).0).1 == strip_subst(fold_stmts(st, ss).1),
    decreases ss.len(),
{
    if ss.len() == 0 {
        assert(fold_stmts(st, ss).0 =~= Seq::<StmtView>::empty());
        assert(fold_stmts(strip_subst(st), Seq::<StmtView>::empty()).1 == strip_subst(st));
    } else {
        let first = fold_stmt(st, ss[0]);
        let rest = fold_stmts(first.1, ss.drop_first());
        lemma_fold_stmts_append(strip_subst(st), first.0, rest.0);
        lemma_fold_stmt_idem(st, ss[0]);
        lemma_fold_stmts_idem(first.1, ss.drop_first());
    }
}

/// Refolding a folded block, with the constants it started from but no
/// aliases, reproduces it exactly.
pub proof fn lemma_fold_block_idem(st: FoldStateView, b: BlockView)
    ensures
        fold_block(strip_subst(st), fold_block(st, b).0).0 == fold_block(st, b).0,
        fold_block(strip_subst(st), fold_block(st, b).0).1 == strip_subst(fold_block(st, b).1),
{
    lemma_fold_stmts_idem(st, b.statements);
    let st1 = fold_stmts(st, b.statements).1;
    lemma_resolve_term_strip(st1, resolve_term(st1, b.terminator));
    assert(fold_block(strip_subst(st), fold_block(st, b).0).0 =~= fold_block(st, b).0);
}

/// Refolding a folded block sequence, with the constants it started from
/// but no aliases, reproduces it exactly.
pub proof fn lemma_fold_blocks_idem(st: FoldStateView, bs: Seq<BlockView>)
    ensures
        fold_blocks(strip_subst(st), fold_blocks(st, bs).0).0 == fold_blocks(st, bs).0,
        fold_blocks(strip_subst(st), fold_blocks(st, bs).0).1 == strip_subst(
            fold_blocks(st, bs).1,
        ),
    decreases bs.len(),
{
    if bs.len() == 0 {
        assert(fold_blocks(st, bs).0 =~= Seq::<BlockView>::empty());
        assert(fold_blocks(strip_subst(st), Seq::<BlockView>::empty()).1 == strip_subst(st));
    } else {
        let first = fold_block(st, bs[0]);
        let rest = fold_blocks(first.1, bs.drop_first());
        let out = fold_blocks(st, bs).0;
        assert(out == seq![first.0] + rest.0);
        assert(out[0] == first.0);
        assert(out.drop_first() =~= rest.0);
        lemma_fold_block_idem(st, bs[0]);
        lemma_fold_blocks_idem(first.1, bs.drop_first());
        assert(fold_blocks(strip_subst(st), out).0 =~= out);
    }
}

/// Law: constant folding is idempotent. Applying the pass to an
/// already-folded body produces the identical body — the pass is a no-op
/// fixpoint after one application.
pub proof fn lemma_const_fold_idempotent(v: BodyView)
    ensures
        spec_const_fold(spec_const_fold(v)) == spec_const_fold(v),
{
    let st0 = init_fold_state(v.variables.len());
    assert(strip_subst(st0) =~= st0);
    lemma_fold_blocks_idem(st0, v.blocks);
    assert(spec_const_fold(spec_const_fold(v)) =~= spec_const_fold(v));
}

} // verus!
