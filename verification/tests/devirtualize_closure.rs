use olive_mir::ir::{
    BasicBlock, Constant, Local, LocalDecl, MirFunction, Operand, Rvalue, Span, Statement, StatementKind, Terminator,
    TerminatorKind, Type,
};
use olive_mir::optimizations::devirtualize_closure::DevirtualizeClosures;
use olive_mir::optimizations::Transform;

fn decl(ty: Type) -> LocalDecl {
    LocalDecl { ty, name: None, span: Span::default(), is_mut: true, is_owning: true }
}

fn assign(l: usize, rv: Rvalue) -> Statement {
    Statement { kind: StatementKind::Assign(Local(l), rv), span: Span::default() }
}

fn call(name: &str, args: Vec<Operand>) -> Rvalue {
    Rvalue::Call { func: Operand::Constant(Constant::Function(name.to_string())), args }
}

fn set_thunk(rec: usize, name: &str) -> Statement {
    Statement {
        kind: StatementKind::SetAttr(
            Operand::Copy(Local(rec)),
            "__thunk".to_string(),
            Operand::Constant(Constant::Function(name.to_string())),
        ),
        span: Span::default(),
    }
}

fn fn_ty() -> Type {
    Type::Fn(vec![Type::Int], Box::new(Type::Int))
}

/// Locals: 0 return, 1 record, 2 closure value, 3 alias, 4 result.
fn func(stmts: Vec<Statement>) -> MirFunction {
    MirFunction {
        name: "f".to_string(),
        locals: vec![
            decl(Type::Int),
            decl(Type::Struct("env".to_string(), vec![], false)),
            decl(fn_ty()),
            decl(fn_ty()),
            decl(Type::Int),
        ],
        basic_blocks: vec![BasicBlock {
            statements: stmts,
            terminator: Some(Terminator { kind: TerminatorKind::Return, span: Span::default() }),
        }],
        arg_count: 0,
        vararg_idx: None,
        kwarg_idx: None,
        param_names: vec![],
        is_async: false,
    }
}

fn closure_prologue() -> Vec<Statement> {
    vec![
        assign(1, call("__olive_struct_alloc", vec![])),
        set_thunk(1, "thunk_a"),
        assign(2, Rvalue::Cast(Operand::Copy(Local(1)), fn_ty())),
    ]
}

fn indirect_call(callee: usize) -> Statement {
    assign(
        4,
        Rvalue::Call { func: Operand::Copy(Local(callee)), args: vec![Operand::Constant(Constant::Int(7))] },
    )
}

#[test]
fn call_through_alias_becomes_direct() {
    let mut stmts = closure_prologue();
    stmts.push(assign(3, Rvalue::Use(Operand::Copy(Local(2)))));
    stmts.push(indirect_call(3));
    let mut f = func(stmts);
    assert!(DevirtualizeClosures.run(&mut f));
    assert_eq!(
        f.basic_blocks[0].statements[4].kind,
        StatementKind::Assign(
            Local(4),
            call("thunk_a", vec![Operand::Constant(Constant::Int(7)), Operand::Copy(Local(1))])
        )
    );
}

#[test]
fn dead_first_definition_keeps_single_def() {
    let mut stmts = closure_prologue();
    // The first assignment of the alias is overwritten before any read.
    stmts.push(assign(3, Rvalue::Use(Operand::Constant(Constant::Int(0)))));
    stmts.push(assign(3, Rvalue::Use(Operand::Copy(Local(2)))));
    stmts.push(indirect_call(3));
    let mut f = func(stmts);
    assert!(DevirtualizeClosures.run(&mut f));
    assert!(matches!(
        &f.basic_blocks[0].statements[5].kind,
        StatementKind::Assign(_, Rvalue::Call { func: Operand::Constant(Constant::Function(n)), .. }) if n == "thunk_a"
    ));
}

#[test]
fn thunk_stored_twice_not_resolved() {
    let mut stmts = closure_prologue();
    stmts.push(set_thunk(1, "thunk_b"));
    stmts.push(indirect_call(2));
    let mut f = func(stmts);
    let before = f.clone();
    assert!(!DevirtualizeClosures.run(&mut f));
    assert_eq!(f, before);
}

#[test]
fn reassigned_closure_value_not_resolved() {
    let mut stmts = closure_prologue();
    stmts.push(indirect_call(2));
    // A live second definition of the closure value.
    stmts.push(assign(2, Rvalue::Use(Operand::Copy(Local(3)))));
    stmts.push(indirect_call(2));
    let mut f = func(stmts);
    let before = f.clone();
    assert!(!DevirtualizeClosures.run(&mut f));
    assert_eq!(f, before);
}
