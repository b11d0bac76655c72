//! A reference interpreter for lowered bodies.
//!
//! It defines what a body computes, so that the pre-optimization body and
//! the final body can be compared on concrete inputs. Interpretation reads
//! the graph only — entry, blocks, statements, terminators — and the size
//! of the variable pool; the representation markers in the pool do not
//! influence the computed values, and boxing and unboxing are
//! value-preserving representation changes.

use vstd::prelude::*;

use crate::boxing::spec_local_into_box;
use crate::const_fold::spec_eval;
use crate::ir::{
    BlockId, BlockView, BodyView, LoweredBody, Statement, StmtView, TermView, Terminator, VarId,
    group_ir_views,
};

verus! {

/// What interpreting a body yields.
#[derive(Clone, Copy, PartialEq, Eq, Structural, Debug)]
pub enum InterpResult {
    /// The body returned this value.
    Returned(u64),
    /// The body reached the panic sentinel.
    Panicked,
    /// The step budget ran out before the body finished.
    OutOfFuel,
    /// The body is malformed for interpretation: an unbound variable, an
    /// out-of-range id, a call (interpretation is per body and does not
    /// evaluate calls), or a non-exhaustive dispatch.
    Stuck,
}

/// The value bound to a variable, if any.
pub open spec fn read_env(env: Seq<Option<u64>>, v: VarId) -> Option<u64> {
    if v < env.len() {
        env[v as int]
    } else {
        None
    }
}

/// Binds a value to a variable.
pub open spec fn write_env(env: Seq<Option<u64>>, v: VarId, value: u64) -> Seq<Option<u64>> {
    if v < env.len() {
        env.update(v as int, Some(value))
    } else {
        env
    }
}

/// The values of a whole operand list, when all are bound.
pub open spec fn read_all(env: Seq<Option<u64>>, vs: Seq<VarId>) -> Option<Seq<u64>>
    decreases vs.len(),
{
    if vs.len() == 0 {
        Some(Seq::empty())
    } else {
        match (read_env(env, vs[0]), read_all(env, vs.drop_first())) {
            (Some(x), Some(rest)) => Some(seq![x] + rest),
            _ => None,
        }
    }
}

/// Binds a list of values to a list of variables, in order.
pub open spec fn bind_params(env: Seq<Option<u64>>, ps: Seq<VarId>, vals: Seq<u64>) -> Seq<
    Option<u64>,
>
    decreases ps.len(),
{
    if ps.len() == 0 || vals.len() == 0 {
        env
    } else {
        bind_params(write_env(env, ps[0], vals[0]), ps.drop_first(), vals.drop_first())
    }
}

/// One statement's effect on the environment, when it has one.
pub open spec fn step_stmt(env: Seq<Option<u64>>, s: StmtView) -> Option<Seq<Option<u64>>> {
    match s {
        StmtView::Literal { dest, value } => Some(write_env(env, dest, value)),
        StmtView::BinaryOp { op, lhs, rhs, dest } => match (
            read_env(env, lhs),
            read_env(env, rhs),
        ) {
            (Some(a), Some(b)) => Some(write_env(env, dest, spec_eval(op, a, b))),
            _ => None,
        },
        StmtView::Call { callee, args, dest } => None,
        StmtView::BoxValue { input, dest } => match read_env(env, input) {
            Some(x) => Some(write_env(env, dest, x)),
            None => None,
        },
        StmtView::UnboxValue { input, dest } => match read_env(env, input) {
            Some(x) => Some(write_env(env, dest, x)),
            None => None,
        },
    }
}

/// A statement sequence's effect on the environment.
pub open spec fn step_stmts(env: Seq<Option<u64>>, ss: Seq<StmtView>) -> Option<Seq<Option<u64>>>
    decreases ss.len(),
{
    if ss.len() == 0 {
        Some(env)
    } else {
        match step_stmt(env, ss[0]) {
            Some(env2) => step_stmts(env2, ss.drop_first()),
            None => None,
        }
    }
}

/// Interpretation from a block onward, with a step budget.
pub open spec fn interp_from(
    blocks: Seq<BlockView>,
    env: Seq<Option<u64>>,
    b: BlockId,
    fuel: nat,
) -> InterpResult
    decreases fuel,
{
    if b >= blocks.len() {
        InterpResult::Stuck
    } else {
        match step_stmts(env, blocks[b as int].statements) {
            None => InterpResult::Stuck,
            Some(env2) => match blocks[b as int].terminator {
                TermView::Goto { target, args } => match read_all(env2, args) {
                    None => InterpResult::Stuck,
                    Some(vals) => if target >= blocks.len() || blocks[
                        target as int
                    ].params.len() != vals.len() {
                        InterpResult::Stuck
                    } else if fuel == 0 {
                        InterpResult::OutOfFuel
                    } else {
                        interp_from(
                            blocks,
                            bind_params(env2, blocks[target as int].params, vals),
                            target,
                            (fuel - 1) as nat,
                        )
                    },
                },
                TermView::MatchEnum { discriminant, arms } => match read_env(env2, discriminant) {
                    None => InterpResult::Stuck,
                    Some(d) => if (d as int) >= arms.len() {
                        InterpResult::Stuck
                    } else if fuel == 0 {
                        InterpResult::OutOfFuel
                    } else {
                        interp_from(blocks, env2, arms[d as int], (fuel - 1) as nat)
                    },
                },
                TermView::Return { var } => match read_env(env2, var) {
                    None => InterpResult::Stuck,
                    Some(x) => InterpResult::Returned(x),
                },
                TermView::Unreachable => InterpResult::Panicked,
            },
        }
    }
}

/// Interpretation of a whole body on argument values bound to the entry
/// block's parameters.
pub open spec fn spec_interp_body(v: BodyView, args: Seq<u64>, fuel: nat) -> InterpResult {
    if v.entry >= v.blocks.len() || v.blocks[v.entry as int].params.len() != args.len() {
        InterpResult::Stuck
    } else {
        let env0 = bind_params(
            Seq::new(v.variables.len(), |i: int| None),
            v.blocks[v.entry as int].params,
            args,
        );
        interp_from(v.blocks, env0, v.entry, fuel)
    }
}

/// Law: the local-into-box rewrite leaves the computed result untouched.
/// It changes only the representation markers in the variable pool, and
/// interpretation never reads them, so the rewritten body returns the same
/// value as the original on every input and any step budget.
pub proof fn lemma_local_into_box_preserves_interp(v: BodyView, args: Seq<u64>, fuel: nat)
    ensures
        spec_interp_body(spec_local_into_box(v), args, fuel) == spec_interp_body(v, args, fuel),
{
    let w = spec_local_into_box(v);
    assert(w.blocks == v.blocks && w.entry == v.entry && w.variables.len() == v.variables.len());
    if !(v.entry >= v.blocks.len() || v.blocks[v.entry as int].params.len() != args.len()) {
        assert(Seq::new(w.variables.len(), |i: int| None::<u64>) =~= Seq::new(
            v.variables.len(),
            |i: int| None::<u64>,
        ));
    }
}

/// The value bound to a variable, if any.
fn read_env_exec(env: &Vec<Option<u64>>, v: VarId) -> (r: Option<u64>)
    ensures
        r == read_env(env@, v),
{
    if v < env.len() {
        env[v]
    } else {
        None
    }
}

/// Binds a value to a variable.
fn write_env_exec(env: &mut Vec<Option<u64>>, v: VarId, value: u64)
    ensures
        final(env)@ == write_env(old(env)@, v, value),
{
    if v < env.len() {
        env.set(v, Some(value));
    }
}

/// The values of a whole operand list, when all are bound.
fn read_all_exec(env: &Vec<Option<u64>>, vs: &Vec<VarId>) -> (r: Option<Vec<u64>>)
    ensures
        match r {
            Some(vals) => read_all(env@, vs@) == Some(vals@),
            None => read_all(env@, vs@) is None,
        },
{
    let mut vals: Vec<u64> = Vec::new();
    let mut k: usize = 0;
    proof {
        assert(vs@.skip(0) =~= vs@);
        assert(read_all(env@, vs@) == (match read_all(env@, vs@.skip(0)) {
            Some(rest) => Some(vals@ + rest),
            None => None::<Seq<u64>>,
        })) by {
            match read_all(env@, vs@) {
                Some(rest) => {
                    assert(vals@ + rest =~= rest);
                },
                None => {},
            }
        }
    }
    while k < vs.len()
        invariant
            k <= vs.len(),
            vals@.len() == k,
            read_all(env@, vs@) == (match read_all(env@, vs@.skip(k as int)) {
                Some(rest) => Some(vals@ + rest),
                None => None::<Seq<u64>>,
            }),
        decreases vs.len() - k,
    {
        let ghost pre_vals = vals@;
        proof {
            assert(vs@.skip(k as int)[0] == vs@[k as int]);
            assert(vs@.skip(k as int).drop_first() =~= vs@.skip(k + 1));
        }
        match read_env_exec(env, vs[k]) {
            Some(x) => {
                vals.push(x);
                proof {
                    match read_all(env@, vs@.skip(k + 1)) {
                        Some(rest) => {
                            assert(pre_vals + (seq![x] + rest) =~= vals@ + rest);
                        },
                        None => {},
                    }
                }
            },
            None => {
                return None;
            },
        }
        k += 1;
    }
    proof {
        assert(vs@.skip(vs@.len() as int) =~= Seq::<VarId>::empty());
        match read_all(env@, vs@) {
            Some(rest) => {
                assert(vals@ + Seq::<u64>::empty() =~= vals@);
            },
            None => {},
        }
    }
    Some(vals)
}

/// Binds a list of values to a list of variables, in order.
fn bind_params_exec(env: &mut Vec<Option<u64>>, ps: &Vec<VarId>, vals: &Vec<u64>)
    ensures
        final(env)@ == bind_params(old(env)@, ps@, vals@),
{
    let mut k: usize = 0;
    proof {
        assert(ps@.skip(0) =~= ps@);
        assert(vals@.skip(0) =~= vals@);
    }
    while k < ps.len() && k < vals.len()
        invariant
            k <= ps.len(),
            k <= vals.len(),
            bind_params(old(env)@, ps@, vals@) == bind_params(
                env@,
                ps@.skip(k as int),
                vals@.skip(k as int),
            ),
        decreases ps.len() - k,
    {
        proof {
            assert(ps@.skip(k as int)[0] == ps@[k as int]);
            assert(vals@.skip(k as int)[0] == vals@[k as int]);
            assert(ps@.skip(k as int).drop_first() =~= ps@.skip(k + 1));
            assert(vals@.skip(k as int).drop_first() =~= vals@.skip(k + 1));
        }
        write_env_exec(env, ps[k], vals[k]);
        k += 1;
    }
    proof {
        if k >= ps.len() {
            assert(ps@.skip(k as int) =~= Seq::<VarId>::empty());
        } else {
            assert(vals@.skip(k as int) =~= Seq::<u64>::empty());
            assert(ps@.skip(k as int).len() == 0 || vals@.skip(k as int).len() == 0);
        }
    }
}

/// Runs the interpreter on a body with a step budget.
pub fn interpret(body: &LoweredBody, args: &Vec<u64>, fuel: u64) -> (r: InterpResult)
    ensures
        r == spec_interp_body(body@, args@, fuel as nat),
{
    broadcast use group_ir_views;

    if body.entry >= body.blocks.len() {
        return InterpResult::Stuck;
    }
    if body.get_block(body.entry).params.len() != args.len() {
        return InterpResult::Stuck;
    }
    let mut env: Vec<Option<u64>> = Vec::new();
    let mut i: usize = 0;
    while i < body.variables.len()
        invariant
            i <= body.variables.len(),
            env@.len() == i,
            forall|j: int| 0 <= j < i ==> env@[j] is None,
        decreases body.variables.len() - i,
    {
        env.push(None);
        i += 1;
    }
    assert(env@ =~= Seq::new(body@.variables.len(), |j: int| None::<u64>));
    bind_params_exec(&mut env, &body.get_block(body.entry).params, args);
    let mut b: usize = body.entry;
    let mut fuel_left: u64 = fuel;
    let ghost v = body@;
    let ghost target = spec_interp_body(body@, args@, fuel as nat);
    loop
        invariant
            b < v.blocks.len(),
            v == body@,
            target == spec_interp_body(body@, args@, fuel as nat),
            target == interp_from(v.blocks, env@, b, fuel_left as nat),
        decreases fuel_left,
    {
        proof {
            crate::ir::lemma_block_views_len(body.blocks@);
        }
        let blk = body.get_block(b);
        let ghost env_blk = env@;
        let mut j: usize = 0;
        proof {
            crate::ir::lemma_stmt_views_len(blk.statements@);
            assert(blk@.statements.skip(0) =~= blk@.statements);
        }
        while j < blk.statements.len()
            invariant
                j <= blk.statements.len(),
                b < v.blocks.len(),
                v == body@,
                blk@ == v.blocks[b as int],
                blk@.statements.len() == blk.statements.len(),
                target == spec_interp_body(body@, args@, fuel as nat),
                target == interp_from(v.blocks, env_blk, b, fuel_left as nat),
                step_stmts(env_blk, blk@.statements) == step_stmts(
                    env@,
                    blk@.statements.skip(j as int),
                ),
            decreases blk.statements.len() - j,
        {
            broadcast use group_ir_views;

            assert(blk@.statements[j as int] == blk.statements@[j as int]@);
            proof {
                assert(blk@.statements.skip(j as int)[0] == blk@.statements[j as int]);
                assert(blk@.statements.skip(j as int).drop_first() =~= blk@.statements.skip(
                    j + 1,
                ));
            }
            let stepped: bool = match &blk.statements[j] {
                Statement::Literal { dest, value } => {
                    write_env_exec(&mut env, *dest, *value);
                    true
                },
                Statement::BinaryOp { op, lhs, rhs, dest } => {
                    match (read_env_exec(&env, *lhs), read_env_exec(&env, *rhs)) {
                        (Some(a), Some(bb)) => {
                            let value = crate::const_fold::eval_exec(*op, a, bb);
                            write_env_exec(&mut env, *dest, value);
                            true
                        },
                        _ => false,
                    }
                },
                Statement::Call { callee, args: cargs, dest } => false,
                Statement::BoxValue { input, dest } => match read_env_exec(&env, *input) {
                    Some(x) => {
                        write_env_exec(&mut env, *dest, x);
                        true
                    },
                    None => false,
                },
                Statement::UnboxValue { input, dest } => match read_env_exec(&env, *input) {
                    Some(x) => {
                        write_env_exec(&mut env, *dest, x);
                        true
                    },
                    None => false,
                },
            };
            if !stepped {
                assert(step_stmts(env_blk, blk@.statements) is None);
                assert(target == InterpResult::Stuck);
                return InterpResult::Stuck;
            }
            j += 1;
        }
        proof {
            assert(blk@.statements.skip(blk@.statements.len() as int) =~= Seq::<
                StmtView,
            >::empty());
            assert(step_stmts(env_blk, blk@.statements) == Some(env@));
        }
        match &blk.terminator {
            Terminator::Goto { target: t, args: targs } => {
                match read_all_exec(&env, targs) {
                    None => {
                        return InterpResult::Stuck;
                    },
                    Some(vals) => {
                        if *t >= body.blocks.len() {
                            return InterpResult::Stuck;
                        }
                        if body.get_block(*t).params.len() != vals.len() {
                            return InterpResult::Stuck;
                        }
                        if fuel_left == 0 {
                            return InterpResult::OutOfFuel;
                        }
                        bind_params_exec(&mut env, &body.get_block(*t).params, &vals);
                        b = *t;
                        fuel_left = fuel_left - 1;
                    },
                }
            },
            Terminator::MatchEnum { discriminant, arms } => {
                match read_env_exec(&env, *discriminant) {
                    None => {
                        return InterpResult::Stuck;
                    },
                    Some(d) => {
                        if d >= arms.len() as u64 {
                            return InterpResult::Stuck;
                        }
                        if fuel_left == 0 {
                            return InterpResult::OutOfFuel;
                        }
                        let nb = arms[d as usize];
                        if nb >= body.blocks.len() {
                            assert(interp_from(
                                v.blocks,
                                env@,
                                nb,
                                (fuel_left - 1) as nat,
                            ) == InterpResult::Stuck);
                            return InterpResult::Stuck;
                        }
                        b = nb;
                        fuel_left = fuel_left - 1;
                    },
                }
            },
            Terminator::Return { var } => {
                match read_env_exec(&env, *var) {
                    None => {
                        return InterpResult::Stuck;
                    },
                    Some(x) => {
                        return InterpResult::Returned(x);
                    },
                }
            },
            Terminator::Unreachable => {
                return InterpResult::Panicked;
            },
        }
    }
}

} // verus!
