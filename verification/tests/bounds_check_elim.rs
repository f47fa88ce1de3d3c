use olive_mir::ir::{AggregateKind, BasicBlock, BasicBlockId, BinOp, Constant, Local, LocalDecl, MirFunction, Operand, Rvalue, Span, Statement, StatementKind, Terminator, TerminatorKind, Type};
use olive_mir::optimizations::bounds_check_elim::BoundsCheckElim;
use olive_mir::optimizations::Transform;
fn sp() -> Span {
    Span {
        file_id: 0,
        line: 0,
        col: 0,
        start: 0,
        end: 0,
    }
}

fn assign(l: usize, rv: Rvalue) -> Statement {
    Statement {
        kind: StatementKind::Assign(Local(l), rv),
        span: sp(),
    }
}

fn stmt(k: StatementKind) -> Statement {
    Statement {
        kind: k,
        span: sp(),
    }
}

fn decl(ty: Type) -> LocalDecl {
    LocalDecl {
        ty,
        name: None,
        span: sp(),
        is_mut: true,
        is_owning: true,
    }
}

fn func(locals: Vec<LocalDecl>, blocks: Vec<BasicBlock>) -> MirFunction {
    MirFunction {
        name: "f".into(),
        locals,
        basic_blocks: blocks,
        arg_count: 0,
        vararg_idx: None,
        kwarg_idx: None,
        param_names: vec![],
        is_async: false,
    }
}

fn bb(stmts: Vec<Statement>, term: TerminatorKind) -> BasicBlock {
    BasicBlock {
        statements: stmts,
        terminator: Some(Terminator {
            kind: term,
            span: sp(),
        }),
    }
}

fn int_op(c: i64) -> Operand {
    Operand::Constant(Constant::Int(c))
}

fn list_ty() -> Type {
    Type::List(Box::new(Type::Int))
}

/// Pulls the `unchecked` flag of the indexed access at a position.
fn unchecked_at(f: &MirFunction, b: usize, s: usize) -> bool {
    match &f.basic_blocks[b].statements[s].kind {
        StatementKind::Assign(_, Rvalue::GetIndex(_, _, u)) => *u,
        StatementKind::SetIndex(_, _, _, u) => *u,
        other => panic!("not an index access: {other:?}"),
    }
}

#[test]
fn const_index_into_fixed_list_is_unchecked() {
    let mut f = func(
        vec![decl(list_ty()), decl(Type::Int)],
        vec![bb(
            vec![
                assign(
                    0,
                    Rvalue::Aggregate(AggregateKind::List, vec![int_op(7), int_op(8)]),
                ),
                assign(1, Rvalue::GetIndex(Operand::Copy(Local(0)), int_op(1), false)),
            ],
            TerminatorKind::Return,
        )],
    );
    assert!(BoundsCheckElim.run(&mut f));
    assert!(unchecked_at(&f, 0, 1));
}

#[test]
fn const_index_out_of_range_stays_checked() {
    let mut f = func(
        vec![decl(list_ty()), decl(Type::Int)],
        vec![bb(
            vec![
                assign(
                    0,
                    Rvalue::Aggregate(AggregateKind::List, vec![int_op(7), int_op(8)]),
                ),
                assign(1, Rvalue::GetIndex(Operand::Copy(Local(0)), int_op(5), false)),
            ],
            TerminatorKind::Return,
        )],
    );
    assert!(!BoundsCheckElim.run(&mut f));
    assert!(!unchecked_at(&f, 0, 1));
}

#[test]
fn list_grown_by_call_stays_checked() {
    // A call takes the list, so its length is no longer statically known.
    let mut f = func(
        vec![decl(list_ty()), decl(Type::Int), decl(Type::Int)],
        vec![bb(
            vec![
                assign(0, Rvalue::Aggregate(AggregateKind::List, vec![int_op(7)])),
                assign(
                    2,
                    Rvalue::Call {
                        func: Operand::Constant(Constant::Function("__olive_append".into())),
                        args: vec![Operand::Copy(Local(0)), int_op(9)],
                    },
                ),
                assign(1, Rvalue::GetIndex(Operand::Copy(Local(0)), int_op(0), false)),
            ],
            TerminatorKind::Return,
        )],
    );
    assert!(!BoundsCheckElim.run(&mut f));
    assert!(!unchecked_at(&f, 0, 2));
}

#[test]
fn redundant_same_block_access_is_unchecked() {
    // Two reads of the same dynamic index; the second rides the first check.
    let mut f = func(
        vec![
            decl(list_ty()),
            decl(Type::Int),
            decl(Type::Int),
            decl(Type::Int),
        ],
        vec![bb(
            vec![
                assign(3, Rvalue::Use(int_op(0))),
                assign(
                    1,
                    Rvalue::GetIndex(Operand::Copy(Local(0)), Operand::Copy(Local(3)), false),
                ),
                assign(
                    2,
                    Rvalue::GetIndex(Operand::Copy(Local(0)), Operand::Copy(Local(3)), false),
                ),
            ],
            TerminatorKind::Return,
        )],
    );
    assert!(BoundsCheckElim.run(&mut f));
    assert!(!unchecked_at(&f, 0, 1), "first access keeps its check");
    assert!(unchecked_at(&f, 0, 2), "second access is redundant");
}

#[test]
fn redundant_access_checked_again_after_call() {
    let mut f = func(
        vec![
            decl(list_ty()),
            decl(Type::Int),
            decl(Type::Int),
            decl(Type::Int),
        ],
        vec![bb(
            vec![
                assign(3, Rvalue::Use(int_op(0))),
                assign(
                    1,
                    Rvalue::GetIndex(Operand::Copy(Local(0)), Operand::Copy(Local(3)), false),
                ),
                assign(
                    1,
                    Rvalue::Call {
                        func: Operand::Constant(Constant::Function("__olive_append".into())),
                        args: vec![Operand::Copy(Local(0)), int_op(9)],
                    },
                ),
                assign(
                    2,
                    Rvalue::GetIndex(Operand::Copy(Local(0)), Operand::Copy(Local(3)), false),
                ),
            ],
            TerminatorKind::Return,
        )],
    );
    assert!(!BoundsCheckElim.run(&mut f));
    assert!(!unchecked_at(&f, 0, 3), "call invalidated the prior check");
}

/// MIR for `i=0; while i<len(xs): xs[i]; i+=1`. Blocks: 0=preheader, 1=header, 2=body, 3=exit.
fn len_bounded_loop(index_idx: Operand) -> MirFunction {
    let locals = vec![
        decl(list_ty()),  // 0: xs
        decl(Type::Int),  // 1: i
        decl(Type::Int),  // 2: len
        decl(Type::Bool), // 3: cond
        decl(Type::Int),  // 4: loaded
    ];
    let preheader = bb(
        vec![
            assign(
                0,
                Rvalue::Aggregate(AggregateKind::List, vec![int_op(1), int_op(2), int_op(3)]),
            ),
            assign(1, Rvalue::Use(int_op(0))),
        ],
        TerminatorKind::Goto {
            target: BasicBlockId(1),
        },
    );
    let header = bb(
        vec![
            assign(
                2,
                Rvalue::Call {
                    func: Operand::Constant(Constant::Function("__olive_list_len".into())),
                    args: vec![Operand::Copy(Local(0))],
                },
            ),
            assign(
                3,
                Rvalue::BinaryOp(BinOp::Lt, Operand::Copy(Local(1)), Operand::Copy(Local(2))),
            ),
        ],
        TerminatorKind::SwitchInt {
            discr: Operand::Copy(Local(3)),
            targets: vec![(0, BasicBlockId(3))],
            otherwise: BasicBlockId(2),
        },
    );
    let body = bb(
        vec![
            assign(
                4,
                Rvalue::GetIndex(Operand::Copy(Local(0)), index_idx, false),
            ),
            assign(
                1,
                Rvalue::BinaryOp(BinOp::Add, Operand::Copy(Local(1)), int_op(1)),
            ),
        ],
        TerminatorKind::Goto {
            target: BasicBlockId(1),
        },
    );
    let exit = bb(vec![], TerminatorKind::Return);
    func(locals, vec![preheader, header, body, exit])
}

#[test]
fn induction_bounded_by_len_is_unchecked() {
    let mut f = len_bounded_loop(Operand::Copy(Local(1)));
    assert!(BoundsCheckElim.run(&mut f));
    assert!(unchecked_at(&f, 2, 0));
}

#[test]
fn induction_indexing_other_list_stays_checked() {
    // The bound is len(xs) but the access reads a different, unrelated list.
    let mut f = len_bounded_loop(Operand::Copy(Local(1)));
    f.locals.push(decl(list_ty()));
    f.basic_blocks[0].statements.push(assign(
        5,
        Rvalue::Aggregate(AggregateKind::List, vec![int_op(9)]),
    ));
    f.basic_blocks[2].statements[0] = assign(
        4,
        Rvalue::GetIndex(Operand::Copy(Local(5)), Operand::Copy(Local(1)), false),
    );
    assert!(!BoundsCheckElim.run(&mut f));
    assert!(!unchecked_at(&f, 2, 0));
}

#[test]
fn loop_object_mutated_stays_checked() {
    // Appending to xs inside the loop breaks the len(xs) bound invariant.
    let mut f = len_bounded_loop(Operand::Copy(Local(1)));
    f.locals.push(decl(Type::Int));
    f.basic_blocks[2].statements.insert(
        1,
        assign(
            5,
            Rvalue::Call {
                func: Operand::Constant(Constant::Function("__olive_append".into())),
                args: vec![Operand::Copy(Local(0)), int_op(0)],
            },
        ),
    );
    assert!(!BoundsCheckElim.run(&mut f));
    assert!(!unchecked_at(&f, 2, 0));
}

#[test]
fn induction_bounded_by_list_new_param_is_unchecked() {
    // `fn(n): xs = list_new(n); while i < n: xs[i]`. The list length equals
    // the immutable parameter `n`, so the `i < n` guard bounds the index
    // even though the limit is not syntactically `len(xs)`.
    let locals = vec![
        decl(Type::Int),  // 0: return
        decl(Type::Int),  // 1: n (parameter, never assigned)
        decl(list_ty()),  // 2: xs
        decl(Type::Int),  // 3: i
        decl(Type::Bool), // 4: cond
        decl(Type::Int),  // 5: loaded
    ];
    let preheader = bb(
        vec![
            assign(
                2,
                Rvalue::Call {
                    func: Operand::Constant(Constant::Function("__olive_list_new".into())),
                    args: vec![Operand::Copy(Local(1))],
                },
            ),
            assign(3, Rvalue::Use(int_op(0))),
        ],
        TerminatorKind::Goto {
            target: BasicBlockId(1),
        },
    );
    let header = bb(
        vec![assign(
            4,
            Rvalue::BinaryOp(BinOp::Lt, Operand::Copy(Local(3)), Operand::Copy(Local(1))),
        )],
        TerminatorKind::SwitchInt {
            discr: Operand::Copy(Local(4)),
            targets: vec![(0, BasicBlockId(3))],
            otherwise: BasicBlockId(2),
        },
    );
    let body = bb(
        vec![
            assign(
                5,
                Rvalue::GetIndex(Operand::Copy(Local(2)), Operand::Copy(Local(3)), false),
            ),
            assign(
                3,
                Rvalue::BinaryOp(BinOp::Add, Operand::Copy(Local(3)), int_op(1)),
            ),
        ],
        TerminatorKind::Goto {
            target: BasicBlockId(1),
        },
    );
    let exit = bb(vec![], TerminatorKind::Return);
    let mut f = func(locals, vec![preheader, header, body, exit]);
    f.arg_count = 1;
    assert!(BoundsCheckElim.run(&mut f));
    assert!(unchecked_at(&f, 2, 0));
}

#[test]
fn induction_bounded_by_reassigned_bound_stays_checked() {
    // If the limit local is reassigned, it is no longer a stable length, so
    // the bound cannot be trusted.
    let mut f = induction_reassigned_bound();
    assert!(!BoundsCheckElim.run(&mut f));
    assert!(!unchecked_at(&f, 2, 0));
}

/// Same as len_bounded_loop but n is mutated in the loop body (breaks the bound invariant).
fn induction_reassigned_bound() -> MirFunction {
    let locals = vec![
        decl(Type::Int),
        decl(Type::Int),
        decl(list_ty()),
        decl(Type::Int),
        decl(Type::Bool),
        decl(Type::Int),
    ];
    let preheader = bb(
        vec![
            assign(
                2,
                Rvalue::Call {
                    func: Operand::Constant(Constant::Function("__olive_list_new".into())),
                    args: vec![Operand::Copy(Local(1))],
                },
            ),
            assign(3, Rvalue::Use(int_op(0))),
        ],
        TerminatorKind::Goto {
            target: BasicBlockId(1),
        },
    );
    let header = bb(
        vec![assign(
            4,
            Rvalue::BinaryOp(BinOp::Lt, Operand::Copy(Local(3)), Operand::Copy(Local(1))),
        )],
        TerminatorKind::SwitchInt {
            discr: Operand::Copy(Local(4)),
            targets: vec![(0, BasicBlockId(3))],
            otherwise: BasicBlockId(2),
        },
    );
    let body = bb(
        vec![
            assign(
                5,
                Rvalue::GetIndex(Operand::Copy(Local(2)), Operand::Copy(Local(3)), false),
            ),
            assign(
                1,
                Rvalue::BinaryOp(BinOp::Add, Operand::Copy(Local(1)), int_op(1)),
            ),
            assign(
                3,
                Rvalue::BinaryOp(BinOp::Add, Operand::Copy(Local(3)), int_op(1)),
            ),
        ],
        TerminatorKind::Goto {
            target: BasicBlockId(1),
        },
    );
    let exit = bb(vec![], TerminatorKind::Return);
    let mut f = func(locals, vec![preheader, header, body, exit]);
    f.arg_count = 1;
    f
}

#[test]
fn setindex_in_len_bounded_loop_is_unchecked() {
    let mut f = len_bounded_loop(Operand::Copy(Local(1)));
    f.basic_blocks[2].statements[0] = stmt(StatementKind::SetIndex(
        Operand::Copy(Local(0)),
        Operand::Copy(Local(1)),
        int_op(42),
        false,
    ));
    assert!(BoundsCheckElim.run(&mut f));
    assert!(unchecked_at(&f, 2, 0));
}

fn one_block(locals: Vec<LocalDecl>, stmts: Vec<Statement>) -> MirFunction {
    func(locals, vec![bb(stmts, TerminatorKind::Return)])
}

fn call(name: &str, args: Vec<Operand>) -> Rvalue {
    Rvalue::Call {
        func: Operand::Constant(Constant::Function(name.into())),
        args,
    }
}

fn get(obj: usize, idx: Operand) -> Rvalue {
    Rvalue::GetIndex(Operand::Copy(Local(obj)), idx, false)
}

#[test]
fn const_index_into_tuple_is_unchecked() {
    let mut f = one_block(
        vec![decl(list_ty()), decl(Type::Int)],
        vec![
            assign(0, Rvalue::Aggregate(AggregateKind::Tuple, vec![int_op(1), int_op(2), int_op(3)])),
            assign(1, get(0, int_op(2))),
        ],
    );
    assert!(BoundsCheckElim.run(&mut f));
    assert!(unchecked_at(&f, 0, 1));
}

#[test]
fn negative_const_index_stays_checked() {
    let mut f = one_block(
        vec![decl(list_ty()), decl(Type::Int)],
        vec![
            assign(0, Rvalue::Aggregate(AggregateKind::List, vec![int_op(1), int_op(2)])),
            assign(1, get(0, int_op(-1))),
        ],
    );
    assert!(!BoundsCheckElim.run(&mut f));
    assert!(!unchecked_at(&f, 0, 1));
}

#[test]
fn list_new_of_constant_bounds_constant_indices() {
    let mut f = one_block(
        vec![decl(list_ty()), decl(Type::Int), decl(Type::Int)],
        vec![
            assign(0, call("__olive_list_new", vec![int_op(4)])),
            assign(1, get(0, int_op(3))),
            assign(2, get(0, int_op(4))),
        ],
    );
    assert!(BoundsCheckElim.run(&mut f));
    assert!(unchecked_at(&f, 0, 1));
    assert!(!unchecked_at(&f, 0, 2));
}

#[test]
fn length_read_keeps_known_length() {
    let mut f = one_block(
        vec![decl(list_ty()), decl(Type::Int), decl(Type::Int)],
        vec![
            assign(0, Rvalue::Aggregate(AggregateKind::List, vec![int_op(1), int_op(2)])),
            assign(2, call("__olive_list_len", vec![Operand::Copy(Local(0))])),
            assign(1, get(0, int_op(1))),
        ],
    );
    assert!(BoundsCheckElim.run(&mut f));
    assert!(unchecked_at(&f, 0, 2));
}

#[test]
fn borrowed_list_stays_checked() {
    let mut f = one_block(
        vec![decl(list_ty()), decl(Type::Int), decl(Type::Int)],
        vec![
            assign(0, Rvalue::Aggregate(AggregateKind::List, vec![int_op(1), int_op(2)])),
            assign(2, Rvalue::MutRef(Local(0))),
            assign(1, get(0, int_op(0))),
        ],
    );
    assert!(!BoundsCheckElim.run(&mut f));
    assert!(!unchecked_at(&f, 0, 2));
}

#[test]
fn copy_of_fixed_list_is_resolved() {
    let mut f = one_block(
        vec![decl(list_ty()), decl(list_ty()), decl(Type::Int)],
        vec![
            assign(0, Rvalue::Aggregate(AggregateKind::List, vec![int_op(1), int_op(2)])),
            assign(1, Rvalue::Use(Operand::Copy(Local(0)))),
            assign(2, get(1, int_op(1))),
        ],
    );
    assert!(BoundsCheckElim.run(&mut f));
    assert!(unchecked_at(&f, 0, 2));
}

#[test]
fn already_unchecked_access_reports_no_change() {
    let mut f = one_block(
        vec![decl(list_ty()), decl(Type::Int)],
        vec![
            assign(0, Rvalue::Aggregate(AggregateKind::List, vec![int_op(1), int_op(2)])),
            assign(1, Rvalue::GetIndex(Operand::Copy(Local(0)), int_op(0), true)),
        ],
    );
    assert!(!BoundsCheckElim.run(&mut f));
    assert!(unchecked_at(&f, 0, 1));
}

#[test]
fn reassigned_index_checked_again() {
    let mut f = one_block(
        vec![decl(list_ty()), decl(Type::Int), decl(Type::Int), decl(Type::Int)],
        vec![
            assign(3, Rvalue::Use(int_op(0))),
            assign(1, get(0, Operand::Copy(Local(3)))),
            assign(3, Rvalue::Use(int_op(1))),
            assign(2, get(0, Operand::Copy(Local(3)))),
        ],
    );
    assert!(!BoundsCheckElim.run(&mut f));
    assert!(!unchecked_at(&f, 0, 3));
}

#[test]
fn write_after_read_of_same_index_is_unchecked() {
    let mut f = one_block(
        vec![decl(list_ty()), decl(Type::Int), decl(Type::Int)],
        vec![
            assign(2, Rvalue::Use(int_op(0))),
            assign(1, get(0, Operand::Copy(Local(2)))),
            stmt(StatementKind::SetIndex(
                Operand::Copy(Local(0)),
                Operand::Copy(Local(2)),
                int_op(5),
                false,
            )),
        ],
    );
    assert!(BoundsCheckElim.run(&mut f));
    assert!(!unchecked_at(&f, 0, 1));
    assert!(unchecked_at(&f, 0, 2));
}

#[test]
fn attribute_store_clears_checks() {
    let mut f = one_block(
        vec![decl(list_ty()), decl(Type::Int), decl(Type::Int), decl(Type::Int)],
        vec![
            assign(3, Rvalue::Use(int_op(0))),
            assign(1, get(0, Operand::Copy(Local(3)))),
            stmt(StatementKind::SetAttr(Operand::Copy(Local(1)), "a".into(), int_op(1))),
            assign(2, get(0, Operand::Copy(Local(3)))),
        ],
    );
    assert!(!BoundsCheckElim.run(&mut f));
    assert!(!unchecked_at(&f, 0, 3));
}

#[test]
fn induction_with_negative_start_stays_checked() {
    let mut f = len_bounded_loop(Operand::Copy(Local(1)));
    f.basic_blocks[0].statements[1] = assign(1, Rvalue::Use(int_op(-1)));
    assert!(!BoundsCheckElim.run(&mut f));
    assert!(!unchecked_at(&f, 2, 0));
}
