use olive_mir::ir::{
    AggregateKind, BasicBlock, BasicBlockId, BinOp, Constant, Local, LocalDecl, MirFunction, Operand,
    Rvalue, Span, Statement, StatementKind, Terminator, TerminatorKind, Type, UnaryOp,
};
use olive_mir::optimizations::strength_reduction::StrengthReduction;
use olive_mir::optimizations::Transform;
fn sp() -> Span {
    Span {
        file_id: 0,
        line: 0,
        col: 0,
        start: 0,
        end: 0,
    }
}

fn assign(l: usize, rv: Rvalue) -> Statement {
    Statement {
        kind: StatementKind::Assign(Local(l), rv),
        span: sp(),
    }
}

fn func(locals: Vec<LocalDecl>, stmts: Vec<Statement>) -> MirFunction {
    MirFunction {
        name: "f".into(),
        locals,
        basic_blocks: vec![BasicBlock {
            statements: stmts,
            terminator: Some(Terminator {
                kind: TerminatorKind::Return,
                span: sp(),
            }),
        }],
        arg_count: 0,
        vararg_idx: None,
        kwarg_idx: None,
        param_names: vec![],
        is_async: false,
    }
}

fn local_decl(ty: Type) -> LocalDecl {
    LocalDecl {
        ty,
        name: None,
        span: sp(),
        is_mut: false,
        is_owning: false,
    }
}

#[test]
fn mul_power_of_two_to_shift() {
    let mut f = func(
        vec![local_decl(Type::Int)],
        vec![assign(
            0,
            Rvalue::BinaryOp(
                BinOp::Mul,
                Operand::Copy(Local(0)),
                Operand::Constant(Constant::Int(8)),
            ),
        )],
    );
    assert!(StrengthReduction.run(&mut f));
    match &f.basic_blocks[0].statements[0].kind {
        StatementKind::Assign(
            _,
            Rvalue::BinaryOp(BinOp::Shl, _, Operand::Constant(Constant::Int(3))),
        ) => {}
        _ => panic!("expected Shl by 3"),
    }
}

#[test]
fn div_power_of_two_to_shift() {
    let mut f = func(
        vec![local_decl(Type::Int)],
        vec![assign(
            0,
            Rvalue::BinaryOp(
                BinOp::Div,
                Operand::Copy(Local(0)),
                Operand::Constant(Constant::Int(16)),
            ),
        )],
    );
    assert!(StrengthReduction.run(&mut f));
    match &f.basic_blocks[0].statements[0].kind {
        StatementKind::Assign(
            _,
            Rvalue::BinaryOp(BinOp::Shr, _, Operand::Constant(Constant::Int(4))),
        ) => {}
        _ => panic!("expected Shr by 4"),
    }
}

#[test]
fn mod_power_of_two_to_and() {
    let mut f = func(
        vec![local_decl(Type::Int)],
        vec![assign(
            0,
            Rvalue::BinaryOp(
                BinOp::Mod,
                Operand::Copy(Local(0)),
                Operand::Constant(Constant::Int(8)),
            ),
        )],
    );
    assert!(StrengthReduction.run(&mut f));
    match &f.basic_blocks[0].statements[0].kind {
        StatementKind::Assign(
            _,
            Rvalue::BinaryOp(BinOp::And, _, Operand::Constant(Constant::Int(7))),
        ) => {}
        _ => panic!("expected And by 7"),
    }
}

#[test]
fn no_change_non_power_of_two() {
    let mut f = func(
        vec![local_decl(Type::Int)],
        vec![assign(
            0,
            Rvalue::BinaryOp(
                BinOp::Mul,
                Operand::Copy(Local(0)),
                Operand::Constant(Constant::Int(7)),
            ),
        )],
    );
    assert!(!StrengthReduction.run(&mut f));
}

#[test]
fn no_change_pyobj_type() {
    let mut f = func(
        vec![local_decl(Type::PyObject)],
        vec![assign(
            0,
            Rvalue::BinaryOp(
                BinOp::Mul,
                Operand::Copy(Local(0)),
                Operand::Constant(Constant::Int(8)),
            ),
        )],
    );
    assert!(!StrengthReduction.run(&mut f));
}
