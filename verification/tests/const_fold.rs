use olive_mir::ir::{
    AggregateKind, BasicBlock, BasicBlockId, BinOp, Constant, Local, LocalDecl, MirFunction, Operand,
    Rvalue, Span, Statement, StatementKind, Terminator, TerminatorKind, Type, UnaryOp,
};
use olive_mir::optimizations::const_fold::ConstantFolding;
use olive_mir::optimizations::Transform;
fn sp() -> Span {
    Span {
        file_id: 0,
        line: 0,
        col: 0,
        start: 0,
        end: 0,
    }
}

fn assign(l: usize, rv: Rvalue) -> Statement {
    Statement {
        kind: StatementKind::Assign(Local(l), rv),
        span: sp(),
    }
}

fn func(stmts: Vec<Statement>) -> MirFunction {
    MirFunction {
        name: "f".into(),
        locals: vec![],
        basic_blocks: vec![BasicBlock {
            statements: stmts,
            terminator: Some(Terminator {
                kind: TerminatorKind::Return,
                span: sp(),
            }),
        }],
        arg_count: 0,
        vararg_idx: None,
        kwarg_idx: None,
        param_names: vec![],
        is_async: false,
    }
}

#[test]
fn fold_add() {
    let mut f = func(vec![assign(
        0,
        Rvalue::BinaryOp(
            BinOp::Add,
            Operand::Constant(Constant::Int(2)),
            Operand::Constant(Constant::Int(3)),
        ),
    )]);
    assert!(ConstantFolding.run(&mut f));
    let k = match &f.basic_blocks[0].statements[0].kind {
        StatementKind::Assign(_, Rvalue::Use(Operand::Constant(k))) => k,
        _ => panic!(),
    };
    assert_eq!(*k, Constant::Int(5));
}

#[test]
fn fold_sub() {
    let mut f = func(vec![assign(
        0,
        Rvalue::BinaryOp(
            BinOp::Sub,
            Operand::Constant(Constant::Int(10)),
            Operand::Constant(Constant::Int(3)),
        ),
    )]);
    assert!(ConstantFolding.run(&mut f));
    let k = match &f.basic_blocks[0].statements[0].kind {
        StatementKind::Assign(_, Rvalue::Use(Operand::Constant(k))) => k,
        _ => panic!(),
    };
    assert_eq!(*k, Constant::Int(7));
}

#[test]
fn fold_mul() {
    let mut f = func(vec![assign(
        0,
        Rvalue::BinaryOp(
            BinOp::Mul,
            Operand::Constant(Constant::Int(6)),
            Operand::Constant(Constant::Int(7)),
        ),
    )]);
    assert!(ConstantFolding.run(&mut f));
    let k = match &f.basic_blocks[0].statements[0].kind {
        StatementKind::Assign(_, Rvalue::Use(Operand::Constant(k))) => k,
        _ => panic!(),
    };
    assert_eq!(*k, Constant::Int(42));
}

#[test]
fn fold_eq_true() {
    let mut f = func(vec![assign(
        0,
        Rvalue::BinaryOp(
            BinOp::Eq,
            Operand::Constant(Constant::Int(1)),
            Operand::Constant(Constant::Int(1)),
        ),
    )]);
    assert!(ConstantFolding.run(&mut f));
    let k = match &f.basic_blocks[0].statements[0].kind {
        StatementKind::Assign(_, Rvalue::Use(Operand::Constant(k))) => k,
        _ => panic!(),
    };
    assert_eq!(*k, Constant::Bool(true));
}

#[test]
fn fold_eq_false() {
    let mut f = func(vec![assign(
        0,
        Rvalue::BinaryOp(
            BinOp::Eq,
            Operand::Constant(Constant::Int(1)),
            Operand::Constant(Constant::Int(2)),
        ),
    )]);
    assert!(ConstantFolding.run(&mut f));
    let k = match &f.basic_blocks[0].statements[0].kind {
        StatementKind::Assign(_, Rvalue::Use(Operand::Constant(k))) => k,
        _ => panic!(),
    };
    assert_eq!(*k, Constant::Bool(false));
}

#[test]
fn fold_lt() {
    let mut f = func(vec![assign(
        0,
        Rvalue::BinaryOp(
            BinOp::Lt,
            Operand::Constant(Constant::Int(1)),
            Operand::Constant(Constant::Int(2)),
        ),
    )]);
    assert!(ConstantFolding.run(&mut f));
    let k = match &f.basic_blocks[0].statements[0].kind {
        StatementKind::Assign(_, Rvalue::Use(Operand::Constant(k))) => k,
        _ => panic!(),
    };
    assert_eq!(*k, Constant::Bool(true));
}

#[test]
fn fold_and() {
    let mut f = func(vec![assign(
        0,
        Rvalue::BinaryOp(
            BinOp::And,
            Operand::Constant(Constant::Bool(true)),
            Operand::Constant(Constant::Bool(false)),
        ),
    )]);
    assert!(ConstantFolding.run(&mut f));
    let k = match &f.basic_blocks[0].statements[0].kind {
        StatementKind::Assign(_, Rvalue::Use(Operand::Constant(k))) => k,
        _ => panic!(),
    };
    assert_eq!(*k, Constant::Bool(false));
}

#[test]
fn fold_unary_neg() {
    let mut f = func(vec![assign(
        0,
        Rvalue::UnaryOp(
            UnaryOp::Neg,
            Operand::Constant(Constant::Int(5)),
        ),
    )]);
    assert!(ConstantFolding.run(&mut f));
    let k = match &f.basic_blocks[0].statements[0].kind {
        StatementKind::Assign(_, Rvalue::Use(Operand::Constant(k))) => k,
        _ => panic!(),
    };
    assert_eq!(*k, Constant::Int(-5));
}

#[test]
fn fold_unary_neg_min_leaves_operation_for_codegen() {
    let mut f = func(vec![assign(
        0,
        Rvalue::UnaryOp(
            UnaryOp::Neg,
            Operand::Constant(Constant::Int(i64::MIN)),
        ),
    )]);
    assert!(!ConstantFolding.run(&mut f));
    assert!(matches!(
        f.basic_blocks[0].statements[0].kind,
        StatementKind::Assign(_, Rvalue::UnaryOp(..))
    ));
}

#[test]
fn fold_float_neg_into_f32_narrows() {
    // A folded `Float` constant keeps f64 bits; into an `F32`
    // destination that lies about the payload width downstream, so the
    // fold wraps in a narrowing `Cast` instead of a bare `Use`.
    let mut f = func(vec![assign(
        0,
        Rvalue::UnaryOp(
            UnaryOp::Neg,
            Operand::Constant(Constant::Float(f64::to_bits(1.0))),
        ),
    )]);
    f.locals = vec![LocalDecl {
        ty: Type::F32,
        name: None,
        span: sp(),
        is_mut: false,
        is_owning: false,
    }];
    assert!(ConstantFolding.run(&mut f));
    match &f.basic_blocks[0].statements[0].kind {
        StatementKind::Assign(
            _,
            Rvalue::Cast(Operand::Constant(Constant::Float(bits)), ty),
        ) => {
            assert_eq!(f64::from_bits(*bits), -1.0);
            assert_eq!(*ty, Type::F32);
        }
        _ => panic!(),
    }
}

#[test]
fn fold_unary_not() {
    let mut f = func(vec![assign(
        0,
        Rvalue::UnaryOp(
            UnaryOp::Not,
            Operand::Constant(Constant::Bool(true)),
        ),
    )]);
    assert!(ConstantFolding.run(&mut f));
    let k = match &f.basic_blocks[0].statements[0].kind {
        StatementKind::Assign(_, Rvalue::Use(Operand::Constant(k))) => k,
        _ => panic!(),
    };
    assert_eq!(*k, Constant::Bool(false));
}

#[test]
fn fold_no_change() {
    let mut f = func(vec![assign(
        0,
        Rvalue::BinaryOp(
            BinOp::Add,
            Operand::Copy(Local(0)),
            Operand::Constant(Constant::Int(1)),
        ),
    )]);
    assert!(!ConstantFolding.run(&mut f));
}
