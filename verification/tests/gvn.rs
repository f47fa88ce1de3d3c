use olive_mir::ir::{BasicBlock, BinOp, Constant, Local, LocalDecl, MirFunction, Operand, Rvalue, Span, Statement, StatementKind, Terminator, TerminatorKind, Type};
use olive_mir::optimizations::gvn::GlobalValueNumbering;
use olive_mir::optimizations::Transform;
fn sp() -> Span {
    Span {
        file_id: 0,
        line: 0,
        col: 0,
        start: 0,
        end: 0,
    }
}

fn assign(l: usize, rv: Rvalue) -> Statement {
    Statement {
        kind: StatementKind::Assign(Local(l), rv),
        span: sp(),
    }
}

fn func(name: &str, locals: Vec<LocalDecl>, stmts: Vec<Statement>, args: usize) -> MirFunction {
    MirFunction {
        name: name.into(),
        locals,
        basic_blocks: vec![BasicBlock {
            statements: stmts,
            terminator: Some(Terminator {
                kind: TerminatorKind::Return,
                span: sp(),
            }),
        }],
        arg_count: args,
        vararg_idx: None,
        kwarg_idx: None,
        param_names: vec![],
        is_async: false,
    }
}

fn local_decl() -> LocalDecl {
    LocalDecl {
        ty: Type::Int,
        name: None,
        span: sp(),
        is_mut: false,
        is_owning: false,
    }
}

#[test]
fn replaces_duplicate_binop() {
    let mut f = func(
        "f",
        vec![local_decl(), local_decl(), local_decl()],
        vec![
            assign(
                2,
                Rvalue::BinaryOp(
                    BinOp::Add,
                    Operand::Copy(Local(0)),
                    Operand::Copy(Local(1)),
                ),
            ),
            assign(
                3,
                Rvalue::BinaryOp(
                    BinOp::Add,
                    Operand::Copy(Local(0)),
                    Operand::Copy(Local(1)),
                ),
            ),
        ],
        2,
    );
    assert!(GlobalValueNumbering.run(&mut f));
    match &f.basic_blocks[0].statements[1].kind {
        StatementKind::Assign(_, Rvalue::Use(Operand::Copy(Local(2)))) => {}
        _ => panic!("expected Use(Copy(Local(2)))"),
    }
}

#[test]
fn no_change_unique_binops() {
    let mut f = func(
        "f",
        vec![local_decl(), local_decl(), local_decl()],
        vec![
            assign(
                2,
                Rvalue::BinaryOp(
                    BinOp::Add,
                    Operand::Copy(Local(0)),
                    Operand::Copy(Local(1)),
                ),
            ),
            assign(
                3,
                Rvalue::BinaryOp(
                    BinOp::Sub,
                    Operand::Copy(Local(0)),
                    Operand::Copy(Local(1)),
                ),
            ),
        ],
        2,
    );
    assert!(!GlobalValueNumbering.run(&mut f));
}

#[test]
fn no_change_call_clears_map() {
    let mut f = func(
        "f",
        vec![local_decl(), local_decl(), local_decl()],
        vec![
            assign(
                2,
                Rvalue::BinaryOp(
                    BinOp::Add,
                    Operand::Copy(Local(0)),
                    Operand::Copy(Local(1)),
                ),
            ),
            assign(
                3,
                Rvalue::Call {
                    func: Operand::Constant(Constant::Function("g".into())),
                    args: vec![],
                },
            ),
            assign(
                4,
                Rvalue::BinaryOp(
                    BinOp::Add,
                    Operand::Copy(Local(0)),
                    Operand::Copy(Local(1)),
                ),
            ),
        ],
        2,
    );
    assert!(!GlobalValueNumbering.run(&mut f));
}
