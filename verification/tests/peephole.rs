use olive_mir::ir::{
    AggregateKind, BasicBlock, BasicBlockId, BinOp, Constant, Local, LocalDecl, MirFunction, Operand,
    Rvalue, Span, Statement, StatementKind, Terminator, TerminatorKind, Type, UnaryOp,
};
use olive_mir::optimizations::peephole::PeepholeOptimize;
use olive_mir::optimizations::Transform;
fn sp() -> Span {
    Span {
        file_id: 0,
        line: 0,
        col: 0,
        start: 0,
        end: 0,
    }
}

fn assign(l: usize, rv: Rvalue) -> Statement {
    Statement {
        kind: StatementKind::Assign(Local(l), rv),
        span: sp(),
    }
}

fn func(locals: Vec<Type>, stmts: Vec<Statement>) -> MirFunction {
    MirFunction {
        name: "f".into(),
        locals: locals
            .into_iter()
            .map(|ty| LocalDecl {
                ty,
                name: None,
                span: sp(),
                is_mut: false,
                is_owning: false,
            })
            .collect(),
        basic_blocks: vec![BasicBlock {
            statements: stmts,
            terminator: Some(Terminator {
                kind: TerminatorKind::Return,
                span: sp(),
            }),
        }],
        arg_count: 0,
        vararg_idx: None,
        kwarg_idx: None,
        param_names: vec![],
        is_async: false,
    }
}

fn locals_of(types: Type) -> Vec<Type> {
    vec![types.clone(), types]
}

#[test]
fn add_zero() {
    let mut f = func(
        locals_of(Type::Int),
        vec![assign(
            0,
            Rvalue::BinaryOp(
                BinOp::Add,
                Operand::Copy(Local(1)),
                Operand::Constant(Constant::Int(0)),
            ),
        )],
    );
    assert!(PeepholeOptimize.run(&mut f));
    assert!(matches!(
        f.basic_blocks[0].statements[0].kind,
        StatementKind::Assign(_, Rvalue::Use(_))
    ));
}

#[test]
fn mul_one() {
    let mut f = func(
        locals_of(Type::Int),
        vec![assign(
            0,
            Rvalue::BinaryOp(
                BinOp::Mul,
                Operand::Copy(Local(1)),
                Operand::Constant(Constant::Int(1)),
            ),
        )],
    );
    assert!(PeepholeOptimize.run(&mut f));
    assert!(matches!(
        f.basic_blocks[0].statements[0].kind,
        StatementKind::Assign(_, Rvalue::Use(_))
    ));
}

#[test]
fn mul_zero() {
    let mut f = func(
        locals_of(Type::Int),
        vec![assign(
            0,
            Rvalue::BinaryOp(
                BinOp::Mul,
                Operand::Copy(Local(1)),
                Operand::Constant(Constant::Int(0)),
            ),
        )],
    );
    assert!(PeepholeOptimize.run(&mut f));
    assert!(matches!(
        f.basic_blocks[0].statements[0].kind,
        StatementKind::Assign(_, Rvalue::Use(Operand::Constant(Constant::Int(0))))
    ));
}

#[test]
fn div_one() {
    let mut f = func(
        locals_of(Type::Int),
        vec![assign(
            0,
            Rvalue::BinaryOp(
                BinOp::Div,
                Operand::Copy(Local(1)),
                Operand::Constant(Constant::Int(1)),
            ),
        )],
    );
    assert!(PeepholeOptimize.run(&mut f));
    assert!(matches!(
        f.basic_blocks[0].statements[0].kind,
        StatementKind::Assign(_, Rvalue::Use(_))
    ));
}

#[test]
fn sub_self() {
    let mut f = func(
        locals_of(Type::Int),
        vec![assign(
            0,
            Rvalue::BinaryOp(BinOp::Sub, Operand::Copy(Local(1)), Operand::Copy(Local(1))),
        )],
    );
    assert!(PeepholeOptimize.run(&mut f));
    assert!(matches!(
        f.basic_blocks[0].statements[0].kind,
        StatementKind::Assign(_, Rvalue::Use(Operand::Constant(Constant::Int(0))))
    ));
}

#[test]
fn eq_self() {
    let mut f = func(
        locals_of(Type::Int),
        vec![assign(
            0,
            Rvalue::BinaryOp(BinOp::Eq, Operand::Copy(Local(1)), Operand::Copy(Local(1))),
        )],
    );
    assert!(PeepholeOptimize.run(&mut f));
    assert!(matches!(
        f.basic_blocks[0].statements[0].kind,
        StatementKind::Assign(_, Rvalue::Use(Operand::Constant(Constant::Bool(true))))
    ));
}

#[test]
fn neq_self() {
    let mut f = func(
        locals_of(Type::Int),
        vec![assign(
            0,
            Rvalue::BinaryOp(
                BinOp::NotEq,
                Operand::Copy(Local(1)),
                Operand::Copy(Local(1)),
            ),
        )],
    );
    assert!(PeepholeOptimize.run(&mut f));
    assert!(matches!(
        f.basic_blocks[0].statements[0].kind,
        StatementKind::Assign(_, Rvalue::Use(Operand::Constant(Constant::Bool(false))))
    ));
}

/// `x / x` faults for `x == 0` (JIT emits unconditional div-zero checks);
/// folding it to 1 would delete that fault.
#[test]
fn div_self_preserved() {
    let mut f = func(
        locals_of(Type::Int),
        vec![assign(
            0,
            Rvalue::BinaryOp(BinOp::Div, Operand::Copy(Local(1)), Operand::Copy(Local(1))),
        )],
    );
    assert!(!PeepholeOptimize.run(&mut f));
    assert!(matches!(
        f.basic_blocks[0].statements[0].kind,
        StatementKind::Assign(_, Rvalue::BinaryOp(BinOp::Div, _, _))
    ));
}

#[test]
fn and_zero() {
    let mut f = func(
        locals_of(Type::Int),
        vec![assign(
            0,
            Rvalue::BinaryOp(
                BinOp::And,
                Operand::Copy(Local(1)),
                Operand::Constant(Constant::Int(0)),
            ),
        )],
    );
    assert!(PeepholeOptimize.run(&mut f));
    assert!(matches!(
        f.basic_blocks[0].statements[0].kind,
        StatementKind::Assign(_, Rvalue::Use(Operand::Constant(Constant::Int(0))))
    ));
}

#[test]
fn or_zero() {
    let mut f = func(
        locals_of(Type::Int),
        vec![assign(
            0,
            Rvalue::BinaryOp(
                BinOp::Or,
                Operand::Copy(Local(1)),
                Operand::Constant(Constant::Int(0)),
            ),
        )],
    );
    assert!(PeepholeOptimize.run(&mut f));
    assert!(matches!(
        f.basic_blocks[0].statements[0].kind,
        StatementKind::Assign(_, Rvalue::Use(Operand::Copy(Local(1))))
    ));
}

#[test]
fn no_change_for_non_pattern() {
    let mut f = func(
        locals_of(Type::Int),
        vec![assign(
            0,
            Rvalue::BinaryOp(BinOp::Add, Operand::Copy(Local(1)), Operand::Copy(Local(2))),
        )],
    );
    assert!(!PeepholeOptimize.run(&mut f));
}

#[test]
fn shl_zero() {
    let mut f = func(
        locals_of(Type::Int),
        vec![assign(
            0,
            Rvalue::BinaryOp(
                BinOp::Shl,
                Operand::Copy(Local(1)),
                Operand::Constant(Constant::Int(0)),
            ),
        )],
    );
    assert!(PeepholeOptimize.run(&mut f));
    assert!(matches!(
        f.basic_blocks[0].statements[0].kind,
        StatementKind::Assign(_, Rvalue::Use(_))
    ));
}

#[test]
fn shr_zero() {
    let mut f = func(
        locals_of(Type::Int),
        vec![assign(
            0,
            Rvalue::BinaryOp(
                BinOp::Shr,
                Operand::Copy(Local(1)),
                Operand::Constant(Constant::Int(0)),
            ),
        )],
    );
    assert!(PeepholeOptimize.run(&mut f));
    assert!(matches!(
        f.basic_blocks[0].statements[0].kind,
        StatementKind::Assign(_, Rvalue::Use(_))
    ));
}

/// NaN - NaN is NaN, not 0.
#[test]
fn float_sub_self_preserved() {
    let mut f = func(
        locals_of(Type::Float),
        vec![assign(
            0,
            Rvalue::BinaryOp(BinOp::Sub, Operand::Copy(Local(1)), Operand::Copy(Local(1))),
        )],
    );
    assert!(!PeepholeOptimize.run(&mut f));
}

/// NaN == NaN is false.
#[test]
fn float_eq_self_preserved() {
    let mut f = func(
        locals_of(Type::Float),
        vec![assign(
            0,
            Rvalue::BinaryOp(BinOp::Eq, Operand::Copy(Local(1)), Operand::Copy(Local(1))),
        )],
    );
    assert!(!PeepholeOptimize.run(&mut f));
}

/// NaN <= NaN is false, so the reflexive-true fold must not fire.
#[test]
fn float_lte_self_preserved() {
    let mut f = func(
        locals_of(Type::Float),
        vec![assign(
            0,
            Rvalue::BinaryOp(
                BinOp::LtEq,
                Operand::Copy(Local(1)),
                Operand::Copy(Local(1)),
            ),
        )],
    );
    assert!(!PeepholeOptimize.run(&mut f));
}

/// NaN < NaN is false, matching the fold -- this one stays.
#[test]
fn float_lt_self_folded() {
    let mut f = func(
        locals_of(Type::Float),
        vec![assign(
            0,
            Rvalue::BinaryOp(BinOp::Lt, Operand::Copy(Local(1)), Operand::Copy(Local(1))),
        )],
    );
    assert!(PeepholeOptimize.run(&mut f));
    assert!(matches!(
        f.basic_blocks[0].statements[0].kind,
        StatementKind::Assign(_, Rvalue::Use(Operand::Constant(Constant::Bool(false))))
    ));
}

/// `v + 0` on a PyObject dispatches to `__add__`; the call must survive.
#[test]
fn pyobj_add_zero_preserved() {
    let mut f = func(
        locals_of(Type::PyObject),
        vec![assign(
            0,
            Rvalue::BinaryOp(
                BinOp::Add,
                Operand::Copy(Local(1)),
                Operand::Constant(Constant::Int(0)),
            ),
        )],
    );
    assert!(!PeepholeOptimize.run(&mut f));
}

/// `v * 0` on a PyObject dispatches to `__mul__`; replacing it with the
/// integer 0 would also type-confuse the destination slot.
#[test]
fn pyobj_mul_zero_preserved() {
    let mut f = func(
        locals_of(Type::PyObject),
        vec![assign(
            0,
            Rvalue::BinaryOp(
                BinOp::Mul,
                Operand::Copy(Local(1)),
                Operand::Constant(Constant::Int(0)),
            ),
        )],
    );
    assert!(!PeepholeOptimize.run(&mut f));
}

#[test]
fn unknown_type_operand_preserved() {
    let mut f = func(
        locals_of(Type::Any),
        vec![assign(
            0,
            Rvalue::BinaryOp(BinOp::Sub, Operand::Copy(Local(1)), Operand::Copy(Local(1))),
        )],
    );
    assert!(!PeepholeOptimize.run(&mut f));
}
