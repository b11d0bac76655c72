use lowering_opt::cancel::cancel_ops;
use lowering_opt::config::{InliningStrategy, Optimizations};
use lowering_opt::const_fold::const_fold;
use lowering_opt::diag::{DiagnosticKind, Diagnostics, LoweringFailure, PhaseName};
use lowering_opt::field::{felt_add, felt_mul, felt_sub, FIELD_MODULUS};
use lowering_opt::inline::apply_inlining;
use lowering_opt::interp::{interpret, InterpResult};
use lowering_opt::ir::{BinOp, Block, LoweredBody, Statement, Terminator, VarType, Variable};
use lowering_opt::lowering::LoweringResult;
use lowering_opt::pipeline::OptimizationPhase;
use lowering_opt::reorganize::reorganize;

fn felt_var() -> Variable {
    Variable { ty: VarType::Felt, box_candidate: false, is_boxed: false }
}

fn vars(n: usize) -> Vec<Variable> {
    let mut v = Vec::new();
    for _ in 0..n {
        v.push(felt_var());
    }
    v
}

/// The body of `f(x) = { let a = 2 + 3; let b = x * 1; a + b }`.
fn arith_body() -> LoweredBody {
    LoweredBody {
        entry: 0,
        blocks: vec![Block {
            params: vec![0],
            statements: vec![
                Statement::Literal { dest: 1, value: 2 },
                Statement::Literal { dest: 2, value: 3 },
                Statement::BinaryOp { op: BinOp::Add, lhs: 1, rhs: 2, dest: 3 },
                Statement::Literal { dest: 4, value: 1 },
                Statement::BinaryOp { op: BinOp::Mul, lhs: 0, rhs: 4, dest: 5 },
                Statement::BinaryOp { op: BinOp::Add, lhs: 3, rhs: 5, dest: 6 },
            ],
            terminator: Terminator::Return { var: 6 },
        }],
        variables: vars(7),
    }
}

#[test]
fn field_ops_exact_values() {
    assert_eq!(felt_add(3, 4), 7);
    assert_eq!(felt_add(FIELD_MODULUS - 1, 5), 4);
    assert_eq!(felt_mul(3, 4), 12);
    assert_eq!(felt_mul(FIELD_MODULUS - 1, 2), FIELD_MODULUS - 2);
    assert_eq!(felt_sub(2, 5), FIELD_MODULUS - 3);
    assert_eq!(felt_sub(5, 2), 3);
}

#[test]
fn fold_rewrites_constants_and_identities() {
    let mut body = arith_body();
    const_fold(&mut body);
    let stmts = &body.blocks[0].statements;
    assert_eq!(stmts.len(), 5);
    assert!(matches!(stmts[2], Statement::Literal { dest: 3, value: 5 }));
    // the multiplication by one is gone and its result aliases x (var 0)
    assert!(matches!(
        stmts[4],
        Statement::BinaryOp { op: BinOp::Add, lhs: 3, rhs: 0, dest: 6 }
    ));
    assert!(matches!(body.blocks[0].terminator, Terminator::Return { var: 6 }));
}

#[test]
fn fold_preserves_computed_value() {
    let before = arith_body();
    let mut after = arith_body();
    const_fold(&mut after);
    let args = vec![7u64];
    let r0 = interpret(&before, &args, 10);
    let r1 = interpret(&after, &args, 10);
    assert_eq!(r0, InterpResult::Returned(12));
    assert_eq!(r1, InterpResult::Returned(12));
}

#[test]
fn fold_is_idempotent_on_concrete_body() {
    let mut once = arith_body();
    const_fold(&mut once);
    let mut twice = arith_body();
    const_fold(&mut twice);
    const_fold(&mut twice);
    assert_eq!(format!("{:?}", once), format!("{:?}", twice));
}

#[test]
fn fold_mul_by_zero_materializes_zero() {
    let mut body = LoweredBody {
        entry: 0,
        blocks: vec![Block {
            params: vec![0],
            statements: vec![
                Statement::Literal { dest: 1, value: 0 },
                Statement::BinaryOp { op: BinOp::Mul, lhs: 0, rhs: 1, dest: 2 },
            ],
            terminator: Terminator::Return { var: 2 },
        }],
        variables: vars(3),
    };
    const_fold(&mut body);
    assert!(matches!(
        body.blocks[0].statements[1],
        Statement::Literal { dest: 2, value: 0 }
    ));
}

#[test]
fn fold_add_zero_aliases_operand() {
    let mut body = LoweredBody {
        entry: 0,
        blocks: vec![Block {
            params: vec![0],
            statements: vec![
                Statement::Literal { dest: 1, value: 0 },
                Statement::BinaryOp { op: BinOp::Add, lhs: 0, rhs: 1, dest: 2 },
            ],
            terminator: Terminator::Return { var: 2 },
        }],
        variables: vars(3),
    };
    const_fold(&mut body);
    assert_eq!(body.blocks[0].statements.len(), 1);
    assert!(matches!(body.blocks[0].terminator, Terminator::Return { var: 0 }));
}

/// A match over a literal `0` discriminant with two arms.
fn match_body() -> LoweredBody {
    LoweredBody {
        entry: 0,
        blocks: vec![
            Block {
                params: vec![],
                statements: vec![Statement::Literal { dest: 0, value: 0 }],
                terminator: Terminator::MatchEnum { discriminant: 0, arms: vec![1, 2] },
            },
            Block {
                params: vec![],
                statements: vec![Statement::Literal { dest: 1, value: 11 }],
                terminator: Terminator::Return { var: 1 },
            },
            Block {
                params: vec![],
                statements: vec![Statement::Literal { dest: 2, value: 99 }],
                terminator: Terminator::Return { var: 2 },
            },
        ],
        variables: vars(3),
    }
}

#[test]
fn reorganize_prunes_statically_resolved_match() {
    let mut body = match_body();
    const_fold(&mut body);
    reorganize(&mut body);
    // the dispatch became a jump, the taken arm was collapsed into the
    // entry block, and the untaken arm left the reachable set entirely
    assert_eq!(body.blocks.len(), 1);
    assert!(matches!(body.blocks[0].terminator, Terminator::Return { .. }));
    // the dropped arm's literal 99 is nowhere in the reachable set
    for b in &body.blocks {
        for s in &b.statements {
            if let Statement::Literal { value, .. } = s {
                assert_ne!(*value, 99);
            }
        }
    }
    assert_eq!(interpret(&body, &vec![], 10), InterpResult::Returned(11));
}

#[test]
fn reorganize_collapses_jump_chains() {
    // a chain of unconditional jumps through parameterless single-predecessor
    // blocks; each round of the pass collapses one level
    let mut body = LoweredBody {
        entry: 0,
        blocks: vec![
            Block {
                params: vec![],
                statements: vec![Statement::Literal { dest: 0, value: 1 }],
                terminator: Terminator::Goto { target: 1, args: vec![] },
            },
            Block {
                params: vec![],
                statements: vec![Statement::Literal { dest: 1, value: 2 }],
                terminator: Terminator::Goto { target: 2, args: vec![] },
            },
            Block {
                params: vec![],
                statements: vec![Statement::BinaryOp { op: BinOp::Add, lhs: 0, rhs: 1, dest: 2 }],
                terminator: Terminator::Return { var: 2 },
            },
        ],
        variables: vars(3),
    };
    reorganize(&mut body);
    assert_eq!(body.blocks.len(), 2);
    reorganize(&mut body);
    assert_eq!(body.blocks.len(), 1);
    assert!(matches!(body.blocks[0].terminator, Terminator::Return { .. }));
    assert_eq!(interpret(&body, &vec![], 10), InterpResult::Returned(3));
}

#[test]
fn reorganize_drops_unreachable_blocks_and_renumbers() {
    let mut body = LoweredBody {
        entry: 1,
        blocks: vec![
            Block {
                params: vec![],
                statements: vec![Statement::Literal { dest: 0, value: 42 }],
                terminator: Terminator::Return { var: 0 },
            },
            Block {
                params: vec![],
                statements: vec![Statement::Literal { dest: 1, value: 7 }],
                terminator: Terminator::Return { var: 1 },
            },
        ],
        variables: vars(2),
    };
    reorganize(&mut body);
    assert_eq!(body.blocks.len(), 1);
    assert_eq!(body.entry, 0);
    assert_eq!(interpret(&body, &vec![], 10), InterpResult::Returned(7));
}

#[test]
fn cancel_removes_box_unbox_pair() {
    let mut body = LoweredBody {
        entry: 0,
        blocks: vec![Block {
            params: vec![0],
            statements: vec![
                Statement::BoxValue { input: 0, dest: 1 },
                Statement::UnboxValue { input: 1, dest: 2 },
            ],
            terminator: Terminator::Return { var: 2 },
        }],
        variables: vars(3),
    };
    cancel_ops(&mut body);
    assert_eq!(body.blocks[0].statements.len(), 0);
    assert!(matches!(body.blocks[0].terminator, Terminator::Return { var: 0 }));
    assert_eq!(interpret(&body, &vec![9], 10), InterpResult::Returned(9));
}

#[test]
fn cancel_keeps_pair_with_second_consumer() {
    let mut body = LoweredBody {
        entry: 0,
        blocks: vec![Block {
            params: vec![0],
            statements: vec![
                Statement::BoxValue { input: 0, dest: 1 },
                Statement::UnboxValue { input: 1, dest: 2 },
                Statement::UnboxValue { input: 1, dest: 3 },
            ],
            terminator: Terminator::Return { var: 2 },
        }],
        variables: vars(4),
    };
    cancel_ops(&mut body);
    assert_eq!(body.blocks[0].statements.len(), 3);
}

fn inline_recipe() -> Optimizations {
    Optimizations::enabled_with_default_movable_functions(InliningStrategy::Default)
        .with_movable_functions(vec![1])
}

/// A movable callee `g(x) = x + 2` as a single-block body.
fn callee_body() -> LoweredBody {
    LoweredBody {
        entry: 0,
        blocks: vec![Block {
            params: vec![0],
            statements: vec![
                Statement::Literal { dest: 1, value: 2 },
                Statement::BinaryOp { op: BinOp::Add, lhs: 0, rhs: 1, dest: 2 },
            ],
            terminator: Terminator::Return { var: 2 },
        }],
        variables: vars(3),
    }
}

/// A caller `f(x) = g(x)`.
fn caller_body() -> LoweredBody {
    LoweredBody {
        entry: 0,
        blocks: vec![Block {
            params: vec![0],
            statements: vec![Statement::Call { callee: 1, args: vec![0], dest: 1 }],
            terminator: Terminator::Return { var: 1 },
        }],
        variables: vars(2),
    }
}

fn has_call(body: &LoweredBody) -> bool {
    body.blocks
        .iter()
        .any(|b| b.statements.iter().any(|s| matches!(s, Statement::Call { .. })))
}

#[test]
fn inline_splices_single_block_callee() {
    let recipe = inline_recipe();
    let table = vec![
        LoweringResult::Failure(LoweringFailure {}),
        LoweringResult::Body(callee_body()),
    ];
    let mut body = caller_body();
    let mut diags = Diagnostics::new();
    apply_inlining(&recipe, &table, 0, &mut body, &mut diags);
    assert!(!has_call(&body));
    assert_eq!(diags.len(), 0);
    assert_eq!(interpret(&body, &vec![5], 10), InterpResult::Returned(7));
}

#[test]
fn inline_on_cycle_leaves_a_call_unresolved() {
    // f calls g, and g's body calls f back
    let cyclic_callee = LoweredBody {
        entry: 0,
        blocks: vec![Block {
            params: vec![0],
            statements: vec![Statement::Call { callee: 0, args: vec![0], dest: 1 }],
            terminator: Terminator::Return { var: 1 },
        }],
        variables: vars(2),
    };
    let recipe = inline_recipe();
    let table = vec![
        LoweringResult::Failure(LoweringFailure {}),
        LoweringResult::Body(cyclic_callee),
    ];
    let mut body = caller_body();
    let mut diags = Diagnostics::new();
    apply_inlining(&recipe, &table, 0, &mut body, &mut diags);
    assert!(has_call(&body));
}

#[test]
fn inline_never_inlines_function_into_itself() {
    let recipe = Optimizations::enabled_with_default_movable_functions(InliningStrategy::Default)
        .with_movable_functions(vec![0]);
    let mut body = LoweredBody {
        entry: 0,
        blocks: vec![Block {
            params: vec![0],
            statements: vec![Statement::Call { callee: 0, args: vec![0], dest: 1 }],
            terminator: Terminator::Return { var: 1 },
        }],
        variables: vars(2),
    };
    let table = vec![LoweringResult::Body(caller_body())];
    let mut diags = Diagnostics::new();
    apply_inlining(&recipe, &table, 0, &mut body, &mut diags);
    assert!(has_call(&body));
}

#[test]
fn inline_reports_failed_callee_as_diagnostic() {
    let recipe = inline_recipe();
    let table = vec![
        LoweringResult::Failure(LoweringFailure {}),
        LoweringResult::Failure(LoweringFailure {}),
    ];
    let mut body = caller_body();
    let mut diags = Diagnostics::new();
    apply_inlining(&recipe, &table, 0, &mut body, &mut diags);
    assert!(has_call(&body));
    assert_eq!(diags.len(), 1);
    let d = diags.get(0);
    assert_eq!(d.function, 0);
    assert!(matches!(d.kind, DiagnosticKind::CalleeLoweringFailed { callee: 1 }));
}

#[test]
fn phase_fails_on_malformed_graph() {
    let recipe = inline_recipe();
    let table: Vec<LoweringResult> = vec![];
    let mut body = LoweredBody { entry: 5, blocks: vec![], variables: vec![] };
    let mut diags = Diagnostics::new();
    let r = OptimizationPhase::ReorganizeBlocks.apply(&recipe, &table, 3, &mut body, &mut diags);
    match r {
        Err(pf) => {
            assert_eq!(pf.phase, PhaseName::ReorganizeBlocks);
            assert_eq!(pf.function, 3);
        }
        Ok(()) => panic!("malformed graph must fail the phase"),
    }
}

#[test]
fn pipeline_phase_sequence_matches_standard_order() {
    // the fixed standard order: inlining, reorganization, cancel-ops,
    // reorganization, then folding on a copy
    let recipe = inline_recipe();
    let table = vec![
        LoweringResult::Body(caller_body()),
        LoweringResult::Body(callee_body()),
    ];
    let mut before = caller_body();
    let mut diags = Diagnostics::new();
    OptimizationPhase::ApplyInlining { enable_const_folding: false }
        .apply(&recipe, &table, 0, &mut before, &mut diags)
        .unwrap();
    OptimizationPhase::ReorganizeBlocks.apply(&recipe, &table, 0, &mut before, &mut diags).unwrap();
    OptimizationPhase::CancelOps.apply(&recipe, &table, 0, &mut before, &mut diags).unwrap();
    OptimizationPhase::ReorganizeBlocks.apply(&recipe, &table, 0, &mut before, &mut diags).unwrap();
    let mut after = before.clone();
    OptimizationPhase::ConstFolding.apply(&recipe, &table, 0, &mut after, &mut diags).unwrap();
    // the callee was spliced; folding then turns x + 2 into a resolved form
    assert!(!has_call(&after));
    assert_eq!(interpret(&before, &vec![40], 10), InterpResult::Returned(42));
    assert_eq!(interpret(&after, &vec![40], 10), InterpResult::Returned(42));
}

#[test]
fn interpreter_runs_a_counted_loop() {
    // block 0: n = x; jump loop(n, acc=0)
    // block 1 (params n, acc): match n { 0 => exit, _ => body }
    //   ... modelled as: if n literal-dispatches are not available for
    //   runtime values, drive the loop by a match over n itself: n is 0 or 1
    // block 2: return acc; block 3: acc2 = acc + 1; jump loop(0, acc2)
    let body = LoweredBody {
        entry: 0,
        blocks: vec![
            Block {
                params: vec![0],
                statements: vec![Statement::Literal { dest: 1, value: 0 }],
                terminator: Terminator::Goto { target: 1, args: vec![0, 1] },
            },
            Block {
                params: vec![2, 3],
                statements: vec![],
                terminator: Terminator::MatchEnum { discriminant: 2, arms: vec![2, 3] },
            },
            Block {
                params: vec![],
                statements: vec![],
                terminator: Terminator::Return { var: 3 },
            },
            Block {
                params: vec![],
                statements: vec![
                    Statement::Literal { dest: 4, value: 1 },
                    Statement::BinaryOp { op: BinOp::Add, lhs: 3, rhs: 4, dest: 5 },
                    Statement::Literal { dest: 6, value: 0 },
                ],
                terminator: Terminator::Goto { target: 1, args: vec![6, 5] },
            },
        ],
        variables: vars(7),
    };
    // one pass through the body arm, then the exit arm
    assert_eq!(interpret(&body, &vec![1], 10), InterpResult::Returned(1));
    assert_eq!(interpret(&body, &vec![0], 10), InterpResult::Returned(0));
    // an exhausted budget is reported, not looped on
    assert_eq!(interpret(&body, &vec![1], 0), InterpResult::OutOfFuel);
}

#[test]
fn variable_pool_and_block_accessors() {
    let mut body = arith_body();
    let id = body.allocate_variable(VarType::Boxed);
    assert_eq!(id, 7);
    assert_eq!(body.variables.len(), 8);
    assert!(matches!(body.variables[7].ty, VarType::Boxed));
    let b = body.get_block(0).clone();
    assert_eq!(b.statements.len(), 6);
    let replacement = Block {
        params: vec![0],
        statements: vec![],
        terminator: Terminator::Return { var: 0 },
    };
    body.replace_block(0, replacement);
    assert_eq!(body.get_block(0).statements.len(), 0);
    assert_eq!(interpret(&body, &vec![3], 10), InterpResult::Returned(3));
}

#[test]
fn reorganize_drops_dead_variables() {
    // after pruning the untaken arm, the variable only that arm defined is
    // dropped from the pool and the survivors are renumbered densely
    let mut body = match_body();
    const_fold(&mut body);
    reorganize(&mut body);
    assert_eq!(body.variables.len(), 2);
    // every remaining variable is still referenced by the remaining graph
    let mut referenced = vec![false; body.variables.len()];
    for b in &body.blocks {
        for p in &b.params {
            referenced[*p] = true;
        }
        for s in &b.statements {
            match s {
                Statement::Literal { dest, .. } => referenced[*dest] = true,
                Statement::BinaryOp { lhs, rhs, dest, .. } => {
                    referenced[*lhs] = true;
                    referenced[*rhs] = true;
                    referenced[*dest] = true;
                }
                Statement::Call { args, dest, .. } => {
                    for a in args {
                        referenced[*a] = true;
                    }
                    referenced[*dest] = true;
                }
                Statement::BoxValue { input, dest } | Statement::UnboxValue { input, dest } => {
                    referenced[*input] = true;
                    referenced[*dest] = true;
                }
            }
        }
        match &b.terminator {
            Terminator::Goto { args, .. } => {
                for a in args {
                    referenced[*a] = true;
                }
            }
            Terminator::MatchEnum { discriminant, .. } => referenced[*discriminant] = true,
            Terminator::Return { var } => referenced[*var] = true,
            Terminator::Unreachable => {}
        }
    }
    assert!(referenced.iter().all(|r| *r));
    assert_eq!(interpret(&body, &vec![], 10), InterpResult::Returned(11));
}

#[test]
fn reorganize_output_is_canonically_stable() {
    let mut once = match_body();
    const_fold(&mut once);
    reorganize(&mut once);
    let mut twice = once.clone();
    reorganize(&mut twice);
    assert_eq!(format!("{:?}", once), format!("{:?}", twice));
}
