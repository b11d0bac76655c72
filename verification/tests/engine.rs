use lowering_opt::config::{InliningStrategy, Optimizations};
use lowering_opt::db::{configure_local_into_box, Db};
use lowering_opt::diag::OptimizationError;
use lowering_opt::interp::{interpret, InterpResult};
use lowering_opt::ir::{BinOp, Block, LoweredBody, Statement, Terminator, VarType, Variable};
use lowering_opt::lowering::LoweringResult;
use lowering_opt::pipeline::LoweringStage;
use lowering_opt::diag::{Diagnostic, DiagnosticKind, LoweringFailure, Severity};
use lowering_opt::ir::FunctionId;

fn boxed_candidate_var() -> Variable {
    Variable { ty: VarType::Felt, box_candidate: true, is_boxed: false }
}

fn plain_var() -> Variable {
    Variable { ty: VarType::Felt, box_candidate: false, is_boxed: false }
}

/// A function with a boxable local: `f(x) = { let a = x + 1; a }`.
fn boxable_body() -> LoweredBody {
    LoweredBody {
        entry: 0,
        blocks: vec![Block {
            params: vec![0],
            statements: vec![
                Statement::Literal { dest: 1, value: 1 },
                Statement::BinaryOp { op: BinOp::Add, lhs: 0, rhs: 1, dest: 2 },
            ],
            terminator: Terminator::Return { var: 2 },
        }],
        variables: vec![plain_var(), plain_var(), boxed_candidate_var()],
    }
}

fn new_db() -> Db {
    Db::new(vec![LoweringResult::Body(boxable_body())])
}

#[test]
fn query_returns_pre_optimization_body_unchanged() {
    let mut db = new_db();
    let r = db.get_pre_optimization_body(0).unwrap();
    assert_eq!(format!("{:?}", r), format!("{:?}", boxable_body()));
}

#[test]
fn query_final_body_computes_same_value_as_pre() {
    let mut db = new_db();
    let pre = db.get_pre_optimization_body(0).unwrap();
    let fin = db.get_final_body(0).unwrap();
    assert_eq!(interpret(&pre, &vec![4], 10), InterpResult::Returned(5));
    assert_eq!(interpret(&fin, &vec![4], 10), InterpResult::Returned(5));
}

#[test]
fn configure_local_into_box_changes_representation_marker() {
    let mut db = new_db();
    configure_local_into_box(&mut db, true);
    db.set_local_into_box_flag(Some(true));
    let boxed = db.get_final_body(0).unwrap();
    assert!(boxed.variables.iter().any(|v| v.is_boxed));

    let mut plain_db = new_db();
    configure_local_into_box(&mut plain_db, false);
    let plain = plain_db.get_final_body(0).unwrap();
    assert!(plain.variables.iter().all(|v| !v.is_boxed));

    // the computed value is identical under both representations
    assert_eq!(interpret(&boxed, &vec![4], 10), InterpResult::Returned(5));
    assert_eq!(interpret(&plain, &vec![4], 10), InterpResult::Returned(5));
}

#[test]
fn cache_never_returns_stale_result_after_flag_change() {
    // query under one local-into-box setting, switch, query again: the
    // second answer must be the one the new setting prescribes
    let mut db = new_db();
    configure_local_into_box(&mut db, true);
    db.set_local_into_box_flag(Some(true));
    let first = db.get_final_body(0).unwrap();
    assert!(first.variables.iter().any(|v| v.is_boxed));

    configure_local_into_box(&mut db, false);
    db.set_local_into_box_flag(Some(false));
    let second = db.get_final_body(0).unwrap();
    assert!(second.variables.iter().all(|v| !v.is_boxed));

    // and it equals what a fresh store under the new setting computes
    let mut fresh = new_db();
    configure_local_into_box(&mut fresh, false);
    fresh.set_local_into_box_flag(Some(false));
    let fresh_result = fresh.get_final_body(0).unwrap();
    assert_eq!(format!("{:?}", second), format!("{:?}", fresh_result));
}

#[test]
fn repeated_queries_hit_the_cache_and_agree() {
    let mut db = new_db();
    configure_local_into_box(&mut db, false);
    let a = db.get_final_body(0).unwrap();
    let b = db.get_final_body(0).unwrap();
    assert_eq!(format!("{:?}", a), format!("{:?}", b));
    assert_eq!(db.cache.len(), 1);
}

#[test]
fn lowering_failure_is_propagated_and_cached() {
    let mut db = Db::new(vec![LoweringResult::Failure(LoweringFailure {})]);
    match db.get_final_body(0) {
        Err(OptimizationError::Lowering(_)) => {}
        other => panic!("expected a lowering failure, got {:?}", other),
    }
    match db.get_final_body(0) {
        Err(OptimizationError::Lowering(_)) => {}
        other => panic!("expected the stored failure again, got {:?}", other),
    }
    assert_eq!(db.cache.len(), 1);
}

#[test]
fn unknown_function_reports_lowering_failure() {
    let mut db = new_db();
    match db.get_final_body(7) {
        Err(OptimizationError::Lowering(_)) => {}
        other => panic!("expected a lowering failure, got {:?}", other),
    }
}

#[test]
fn conflicting_allow_list_is_a_configuration_error() {
    let mut db = new_db();
    db.optimizations = Some(Optimizations {
        inlining: InliningStrategy::Avoid(vec![5]),
        const_folding: true,
        local_into_box: false,
        movable_functions: vec![],
    });
    match db.get_final_body(0) {
        Err(OptimizationError::Configuration(c)) => assert_eq!(c.function, 5),
        other => panic!("expected a configuration conflict, got {:?}", other),
    }
}

#[test]
fn phase_failure_names_phase_and_function() {
    let malformed = LoweredBody { entry: 9, blocks: vec![], variables: vec![] };
    let mut db = Db::new(vec![LoweringResult::Body(malformed)]);
    configure_local_into_box(&mut db, false);
    match db.get_final_body(0) {
        Err(OptimizationError::Phase(pf)) => {
            assert_eq!(pf.function, 0);
        }
        other => panic!("expected a phase failure, got {:?}", other),
    }
}

#[test]
fn configuration_writes_bump_the_version() {
    let mut db = new_db();
    assert_eq!(db.version, 0);
    configure_local_into_box(&mut db, true);
    assert_eq!(db.version, 1);
    db.set_local_into_box_flag(Some(true));
    assert_eq!(db.version, 2);
}

#[test]
fn differential_interpretation_over_match_and_arithmetic() {
    // a function with a loop-free graph: dispatch on a literal, then
    // arithmetic in the taken arm
    let body = LoweredBody {
        entry: 0,
        blocks: vec![
            Block {
                params: vec![0],
                statements: vec![Statement::Literal { dest: 1, value: 1 }],
                terminator: Terminator::MatchEnum { discriminant: 1, arms: vec![1, 2] },
            },
            Block {
                params: vec![],
                statements: vec![Statement::Literal { dest: 2, value: 100 }],
                terminator: Terminator::Return { var: 2 },
            },
            Block {
                params: vec![],
                statements: vec![
                    Statement::Literal { dest: 3, value: 5 },
                    Statement::BinaryOp { op: BinOp::Mul, lhs: 0, rhs: 3, dest: 4 },
                ],
                terminator: Terminator::Return { var: 4 },
            },
        ],
        variables: vec![plain_var(), plain_var(), plain_var(), plain_var(), plain_var()],
    };
    let mut db = Db::new(vec![LoweringResult::Body(body)]);
    configure_local_into_box(&mut db, false);
    let pre = db.get_pre_optimization_body(0).unwrap();
    let fin = db.get_final_body(0).unwrap();
    for x in [0u64, 1, 2, 17, 1000] {
        let a = interpret(&pre, &vec![x], 20);
        let b = interpret(&fin, &vec![x], 20);
        assert_eq!(a, b);
        assert_eq!(a, InterpResult::Returned((x * 5) % 0x7fffffff));
    }
    // the final body took the statically-resolved arm, collapsed it into
    // the entry block, and dropped the other arm
    assert_eq!(fin.blocks.len(), 1);
}

#[test]
fn lowering_failure_surfaces_semantic_and_lowering_diagnostics() {
    let semantic = vec![Diagnostic {
        severity: Severity::Error,
        function: 0,
        kind: DiagnosticKind::LoweringFailed,
    }];
    let mut db = Db::new_with_semantic_diagnostics(
        vec![LoweringResult::Failure(LoweringFailure {})],
        semantic,
    );
    let (outcome, ds) = db.lowered_body_with_diagnostics(0, LoweringStage::Final);
    assert!(matches!(outcome, Err(OptimizationError::Lowering(_))));
    // the semantic list comes first, then the lowering-failure entry
    assert_eq!(ds.len(), 2);
    assert!(matches!(ds[1].kind, DiagnosticKind::LoweringFailed));
    assert_eq!(ds[1].function, 0);
    assert!(matches!(ds[1].severity, Severity::Error));
}

#[test]
fn final_body_with_unresolved_failure_is_refused() {
    // the caller's pipeline succeeds, but its movable callee never lowered:
    // the failure is attached to the caller as an error diagnostic, and
    // code generation must not consume such a final-stage body
    let caller = LoweredBody {
        entry: 0,
        blocks: vec![Block {
            params: vec![0],
            statements: vec![Statement::Call { callee: 1, args: vec![0], dest: 1 }],
            terminator: Terminator::Return { var: 1 },
        }],
        variables: vec![plain_var(), plain_var()],
    };
    let mut db = Db::new(vec![
        LoweringResult::Body(caller),
        LoweringResult::Failure(LoweringFailure {}),
    ]);
    let movable: Vec<FunctionId> = vec![1];
    db.optimizations = Some(
        Optimizations::enabled_with_default_movable_functions(InliningStrategy::Default)
            .with_movable_functions(movable),
    );
    match db.get_final_body(0) {
        Err(OptimizationError::Lowering(_)) => {}
        other => panic!("expected the unresolved failure to be refused, got {:?}", other),
    }
    // the underlying query still computes a body; only consumption refuses
    assert!(db.lowered_body(0, LoweringStage::Final).is_ok());
}
