use olive_mir::ir::{AggregateKind, BasicBlock, Constant, Local, LocalDecl, MirFunction, Operand, Rvalue, Span, Statement, StatementKind, Terminator, TerminatorKind, Type};
use olive_mir::optimizations::move_elision::MoveElision;
use olive_mir::optimizations::Transform;
fn sp() -> Span {
    Span {
        file_id: 0,
        line: 0,
        col: 0,
        start: 0,
        end: 0,
    }
}

fn assign(l: usize, rv: Rvalue) -> Statement {
    Statement {
        kind: StatementKind::Assign(Local(l), rv),
        span: sp(),
    }
}

fn func(name: &str, locals: Vec<LocalDecl>, stmts: Vec<Statement>) -> MirFunction {
    MirFunction {
        name: name.into(),
        locals,
        basic_blocks: vec![BasicBlock {
            statements: stmts,
            terminator: Some(Terminator {
                kind: TerminatorKind::Return,
                span: sp(),
            }),
        }],
        arg_count: 0,
        vararg_idx: None,
        kwarg_idx: None,
        param_names: vec![],
        is_async: false,
    }
}

fn move_type_local() -> LocalDecl {
    LocalDecl {
        ty: Type::Tuple(vec![Type::Int]),
        name: None,
        span: sp(),
        is_mut: false,
        is_owning: true,
    }
}

#[test]
fn copy_to_move_dead_local() {
    let mut f = func(
        "f",
        vec![move_type_local()],
        vec![assign(0, Rvalue::Use(Operand::Copy(Local(0))))],
    );
    assert!(MoveElision.run(&mut f));
    match &f.basic_blocks[0].statements[0].kind {
        StatementKind::Assign(_, Rvalue::Use(Operand::Move(l))) if *l == Local(0) => {}
        _ => panic!("expected Move(Local(0))"),
    }
}

#[test]
fn int_type_not_moved() {
    let mut f = func(
        "f",
        vec![LocalDecl {
            ty: Type::Int,
            name: None,
            span: sp(),
            is_mut: false,
            is_owning: true,
        }],
        vec![assign(0, Rvalue::Use(Operand::Copy(Local(0))))],
    );
    // Int is copy type, not move type -> should stay Copy
    assert!(!MoveElision.run(&mut f));
}

#[test]
fn call_args_never_moved() {
    let mut f = func(
        "f",
        vec![move_type_local(), move_type_local()],
        vec![assign(
            1,
            Rvalue::Call {
                func: Operand::Constant(Constant::Function("g".into())),
                args: vec![Operand::Copy(Local(0))],
            },
        )],
    );
    // Moving an argument nulls the caller's variable with no new owner.
    assert!(!MoveElision.run(&mut f));
    match &f.basic_blocks[0].statements[0].kind {
        StatementKind::Assign(_, Rvalue::Call { args, .. }) => {
            assert!(matches!(args[0], Operand::Copy(_)));
        }
        _ => panic!("expected call"),
    }
}

#[test]
fn view_destination_keeps_copy() {
    let mut view_dst = move_type_local();
    view_dst.is_owning = false;
    let mut f = func(
        "f",
        vec![move_type_local(), view_dst],
        vec![assign(1, Rvalue::Use(Operand::Copy(Local(0))))],
    );
    // A non-owning destination will never free the value; moving into it
    // would leave the value ownerless.
    assert!(!MoveElision.run(&mut f));
}

#[test]
fn aggregate_elements_moved() {
    let mut f = func(
        "f",
        vec![move_type_local(), move_type_local()],
        vec![assign(
            1,
            Rvalue::Aggregate(AggregateKind::List, vec![Operand::Copy(Local(0))]),
        )],
    );
    assert!(MoveElision.run(&mut f));
    match &f.basic_blocks[0].statements[0].kind {
        StatementKind::Assign(_, Rvalue::Aggregate(_, ops)) => {
            assert!(matches!(ops[0], Operand::Move(_)));
        }
        _ => panic!("expected aggregate"),
    }
}
