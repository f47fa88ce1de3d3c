use olive_mir::ir::{BasicBlock, BinOp, Constant, Local, LocalDecl, MirFunction, Operand, Rvalue, Span, Statement, StatementKind, Terminator, TerminatorKind, Type};
use olive_mir::optimizations::gil_fusion::GilFusion;
use olive_mir::optimizations::Transform;
fn stmt(kind: StatementKind) -> Statement {
    Statement {
        kind,
        span: Span::default(),
    }
}

fn py_call_stmt(dst: Local, name: &str) -> Statement {
    stmt(StatementKind::Assign(
        dst,
        Rvalue::Call {
            func: Operand::Constant(Constant::Function(name.to_string())),
            args: vec![],
        },
    ))
}

fn decl(ty: Type) -> LocalDecl {
    LocalDecl {
        ty,
        name: None,
        span: Span::default(),
        is_mut: true,
        is_owning: false,
    }
}

fn count_gil_calls(func: &MirFunction, name: &str) -> usize {
    func.basic_blocks
        .iter()
        .flat_map(|bb| &bb.statements)
        .filter(|s| {
            matches!(
                &s.kind,
                StatementKind::Assign(_, Rvalue::Call { func: f, .. })
                    if matches!(f, Operand::Constant(Constant::Function(n)) if n == name)
            )
        })
        .count()
}

fn base_func(statements: Vec<Statement>) -> MirFunction {
    MirFunction {
        name: "test_fn".to_string(),
        locals: vec![decl(Type::PyObject), decl(Type::PyObject)],
        basic_blocks: vec![BasicBlock {
            statements,
            terminator: Some(Terminator {
                kind: TerminatorKind::Return,
                span: Span::default(),
            }),
        }],
        arg_count: 0,
        vararg_idx: None,
        kwarg_idx: None,
        param_names: vec![],
        is_async: false,
    }
}

#[test]
fn fuses_two_consecutive_py_calls() {
    let mut func = base_func(vec![
        py_call_stmt(Local(0), "__olive_py_call0"),
        py_call_stmt(Local(1), "__olive_py_call0"),
    ]);
    let changed = GilFusion.run(&mut func);
    assert!(changed);
    assert_eq!(count_gil_calls(&func, "__olive_py_gil_begin"), 1);
    assert_eq!(count_gil_calls(&func, "__olive_py_gil_end"), 1);
    let stmts = &func.basic_blocks[0].statements;
    assert!(matches!(
        &stmts[0].kind,
        StatementKind::Assign(_, Rvalue::Call { func: f, .. })
            if matches!(f, Operand::Constant(Constant::Function(n)) if n == "__olive_py_gil_begin")
    ));
    assert!(matches!(
        &stmts[3].kind,
        StatementKind::Assign(_, Rvalue::Call { func: f, .. })
            if matches!(f, Operand::Constant(Constant::Function(n)) if n == "__olive_py_gil_end")
    ));
}

#[test]
fn does_not_fuse_a_single_py_call() {
    let mut func = base_func(vec![py_call_stmt(Local(0), "__olive_py_call0")]);
    let changed = GilFusion.run(&mut func);
    assert!(!changed);
    assert_eq!(count_gil_calls(&func, "__olive_py_gil_begin"), 0);
}

#[test]
fn bridges_neutral_statements_between_py_calls() {
    let mut func = base_func(vec![
        py_call_stmt(Local(0), "__olive_py_call0"),
        stmt(StatementKind::StorageLive(Local(1))),
        py_call_stmt(Local(1), "__olive_py_call0"),
    ]);
    func.locals.push(decl(Type::PyObject));
    let changed = GilFusion.run(&mut func);
    assert!(changed);
    assert_eq!(count_gil_calls(&func, "__olive_py_gil_begin"), 1);
    assert_eq!(count_gil_calls(&func, "__olive_py_gil_end"), 1);
}

#[test]
fn does_not_fuse_across_an_unrecognized_call() {
    let mut func = base_func(vec![
        py_call_stmt(Local(0), "__olive_py_call0"),
        py_call_stmt(Local(1), "__olive_thread_spawn"),
        py_call_stmt(Local(0), "__olive_py_call0"),
    ]);
    let changed = GilFusion.run(&mut func);
    assert!(!changed);
    assert_eq!(count_gil_calls(&func, "__olive_py_gil_begin"), 0);
    assert_eq!(count_gil_calls(&func, "__olive_py_gil_end"), 0);
}

#[test]
fn never_spans_a_terminator() {
    let mut f1 = base_func(vec![py_call_stmt(Local(0), "__olive_py_call0")]);
    let mut f2 = base_func(vec![py_call_stmt(Local(0), "__olive_py_call0")]);
    f1.basic_blocks.push(f2.basic_blocks.pop().unwrap());
    let changed = GilFusion.run(&mut f1);
    assert!(!changed);
    assert_eq!(count_gil_calls(&f1, "__olive_py_gil_begin"), 0);
}

#[test]
fn fuses_binop_chain_on_pyobject_operands() {
    let mut func = base_func(vec![
        stmt(StatementKind::Assign(
            Local(0),
            Rvalue::BinaryOp(BinOp::Add, Operand::Copy(Local(0)), Operand::Copy(Local(1))),
        )),
        stmt(StatementKind::Assign(
            Local(0),
            Rvalue::BinaryOp(BinOp::Add, Operand::Copy(Local(0)), Operand::Copy(Local(1))),
        )),
    ]);
    let changed = GilFusion.run(&mut func);
    assert!(changed);
    assert_eq!(count_gil_calls(&func, "__olive_py_gil_begin"), 1);
    assert_eq!(count_gil_calls(&func, "__olive_py_gil_end"), 1);
}

#[test]
fn excludes_gil_and_lifecycle_calls_from_fusion() {
    let mut func = base_func(vec![
        py_call_stmt(Local(0), "__olive_py_initialize"),
        py_call_stmt(Local(0), "__olive_py_finalize"),
    ]);
    let changed = GilFusion.run(&mut func);
    assert!(!changed);
}

fn is_gil_call(s: &Statement) -> bool {
    matches!(
        &s.kind,
        StatementKind::Assign(_, Rvalue::Call { func: Operand::Constant(Constant::Function(n)), .. })
            if n == "__olive_py_gil_begin" || n == "__olive_py_gil_end"
    )
}

#[test]
fn removing_inserted_gil_calls_gives_back_the_block() {
    let original = vec![
        py_call_stmt(Local(0), "__olive_py_call0"),
        stmt(StatementKind::StorageLive(Local(1))),
        py_call_stmt(Local(1), "__olive_py_call0"),
        py_call_stmt(Local(0), "__olive_other"),
        py_call_stmt(Local(0), "__olive_py_call0"),
        py_call_stmt(Local(1), "__olive_py_call0"),
    ];
    let mut func = base_func(original.clone());
    assert!(GilFusion.run(&mut func));
    let stmts = &func.basic_blocks[0].statements;
    let kept: Vec<Statement> = stmts.iter().filter(|s| !is_gil_call(s)).cloned().collect();
    assert_eq!(kept, original);
    let marks: Vec<bool> = stmts
        .iter()
        .filter(|s| is_gil_call(s))
        .map(|s| matches!(&s.kind, StatementKind::Assign(_, Rvalue::Call { func: Operand::Constant(Constant::Function(n)), .. }) if n == "__olive_py_gil_begin"))
        .collect();
    assert_eq!(marks, vec![true, false, true, false]);
    assert_eq!(stmts.len(), original.len() + 4);
}
