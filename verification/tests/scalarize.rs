use olive_mir::ir::{AggregateKind, BasicBlock, Constant, Local, LocalDecl, MirFunction, Operand, Rvalue, Span, Statement, StatementKind, Terminator, TerminatorKind, Type};
use olive_mir::optimizations::scalarize::ScalarizeStructs;
use olive_mir::optimizations::Transform;
fn sp() -> Span {
    Span {
        file_id: 0,
        line: 0,
        col: 0,
        start: 0,
        end: 0,
    }
}

fn assign(l: usize, rv: Rvalue) -> Statement {
    Statement {
        kind: StatementKind::Assign(Local(l), rv),
        span: sp(),
    }
}

fn stmt(k: StatementKind) -> Statement {
    Statement {
        kind: k,
        span: sp(),
    }
}

fn local_decl(ty: Type) -> LocalDecl {
    LocalDecl {
        ty,
        name: None,
        span: sp(),
        is_mut: true,
        is_owning: true,
    }
}

fn func(blocks: Vec<BasicBlock>) -> MirFunction {
    MirFunction {
        name: "f".into(),
        locals: vec![],
        basic_blocks: blocks,
        arg_count: 0,
        vararg_idx: None,
        kwarg_idx: None,
        param_names: vec![],
        is_async: false,
    }
}

fn bb(stmts: Vec<Statement>, kind: TerminatorKind) -> BasicBlock {
    BasicBlock {
        statements: stmts,
        terminator: Some(Terminator { kind, span: sp() }),
    }
}

#[test]
fn no_struct_alloc_no_change() {
    let mut f = func(vec![bb(vec![], TerminatorKind::Return)]);
    assert!(!ScalarizeStructs.run(&mut f));
}

#[test]
fn single_dict_alloc_not_scalarized_if_no_attr_access() {
    let mut f = MirFunction {
        name: "f".into(),
        locals: vec![local_decl(Type::Any)],
        basic_blocks: vec![bb(
            vec![assign(0, Rvalue::Aggregate(AggregateKind::Dict, vec![]))],
            TerminatorKind::Return,
        )],
        arg_count: 0,
        vararg_idx: None,
        kwarg_idx: None,
        param_names: vec![],
        is_async: false,
    };
    // Single dict alloc with no field accesses -> find_candidates finds it,
    // can_scalarize returns false (due to Aggregate-based init being excluded), so no change
    let _changed = ScalarizeStructs.run(&mut f);
    // may or may not scalarize (depends on internal logic); at minimum run shouldn't crash
    assert!(!f.basic_blocks[0].statements.is_empty());
}

#[test]
fn scalarize_runs_safely() {
    let mut f = func(vec![bb(
        vec![assign(
            0,
            Rvalue::Aggregate(
                AggregateKind::Dict,
                vec![
                    Operand::Constant(Constant::Str("x".into())),
                    Operand::Constant(Constant::Int(1)),
                ],
            ),
        )],
        TerminatorKind::Return,
    )]);
    // Just ensure it runs without panicking
    ScalarizeStructs.run(&mut f);
}

fn aggregate_count(f: &MirFunction) -> usize {
    f.basic_blocks
        .iter()
        .flat_map(|bb| &bb.statements)
        .filter(|s| matches!(&s.kind, StatementKind::Assign(_, Rvalue::Aggregate(_, _))))
        .count()
}

#[test]
fn tuple_constant_index_is_scalarized() {
    // Local(1) holds a non-escaping tuple read by a constant index into the
    // scalar Local(2), which is returned. The tuple itself never escapes.
    let mut f = MirFunction {
        name: "f".into(),
        locals: vec![
            local_decl(Type::Int),
            local_decl(Type::Tuple(vec![Type::Int, Type::Int])),
            local_decl(Type::Int),
        ],
        basic_blocks: vec![bb(
            vec![
                assign(
                    1,
                    Rvalue::Aggregate(
                        AggregateKind::Tuple,
                        vec![
                            Operand::Constant(Constant::Int(10)),
                            Operand::Constant(Constant::Int(20)),
                        ],
                    ),
                ),
                assign(
                    2,
                    Rvalue::GetIndex(
                        Operand::Copy(Local(1)),
                        Operand::Constant(Constant::Int(0)),
                        false,
                    ),
                ),
                assign(0, Rvalue::Use(Operand::Copy(Local(2)))),
            ],
            TerminatorKind::Return,
        )],
        arg_count: 0,
        vararg_idx: None,
        kwarg_idx: None,
        param_names: vec![],
        is_async: false,
    };
    assert!(ScalarizeStructs.run(&mut f));
    assert_eq!(aggregate_count(&f), 0);
}

#[test]
fn returned_tuple_is_not_scalarized() {
    // The same tuple is both read locally and assigned into the return slot
    // Local(0). Because it escapes, the escape guard must leave the
    // allocation in place even though a field read is present.
    let tup = Type::Tuple(vec![Type::Int, Type::Int]);
    let mut f = MirFunction {
        name: "f".into(),
        locals: vec![
            local_decl(tup.clone()),
            local_decl(tup),
            local_decl(Type::Int),
        ],
        basic_blocks: vec![bb(
            vec![
                assign(
                    1,
                    Rvalue::Aggregate(
                        AggregateKind::Tuple,
                        vec![
                            Operand::Constant(Constant::Int(1)),
                            Operand::Constant(Constant::Int(2)),
                        ],
                    ),
                ),
                assign(
                    2,
                    Rvalue::GetIndex(
                        Operand::Copy(Local(1)),
                        Operand::Constant(Constant::Int(0)),
                        false,
                    ),
                ),
                assign(0, Rvalue::Use(Operand::Copy(Local(1)))),
            ],
            TerminatorKind::Return,
        )],
        arg_count: 0,
        vararg_idx: None,
        kwarg_idx: None,
        param_names: vec![],
        is_async: false,
    };
    assert!(!ScalarizeStructs.run(&mut f));
    assert_eq!(aggregate_count(&f), 1);
}

#[test]
fn drop_of_scalarized_tuple_moves_to_heap_field_slots() {
    // Local(1) is a scalarized tuple whose slot 0 holds a list. Its Drop
    // must become a Drop of the new list slot, or the list leaks.
    let mut f = MirFunction {
        name: "f".into(),
        locals: vec![
            local_decl(Type::Int),
            local_decl(Type::Tuple(vec![Type::List(Box::new(Type::Int))])),
            local_decl(Type::List(Box::new(Type::Int))),
            local_decl(Type::List(Box::new(Type::Int))),
        ],
        basic_blocks: vec![bb(
            vec![
                assign(
                    2,
                    Rvalue::Aggregate(
                        AggregateKind::List,
                        vec![Operand::Constant(Constant::Int(1))],
                    ),
                ),
                assign(
                    1,
                    Rvalue::Aggregate(AggregateKind::Tuple, vec![Operand::Copy(Local(2))]),
                ),
                assign(
                    3,
                    Rvalue::GetIndex(
                        Operand::Copy(Local(1)),
                        Operand::Constant(Constant::Int(0)),
                        false,
                    ),
                ),
                Statement {
                    kind: StatementKind::Drop(Local(1)),
                    span: sp(),
                },
            ],
            TerminatorKind::Return,
        )],
        arg_count: 0,
        vararg_idx: None,
        kwarg_idx: None,
        param_names: vec![],
        is_async: false,
    };
    assert!(ScalarizeStructs.run(&mut f));
    let slot = Local(4);
    let drops: Vec<Local> = f.basic_blocks[0]
        .statements
        .iter()
        .filter_map(|s| match &s.kind {
            StatementKind::Drop(l) => Some(*l),
            _ => None,
        })
        .collect();
    assert_eq!(drops, vec![slot]);
    assert_eq!(f.locals[slot.0].ty, Type::List(Box::new(Type::Int)));
}
