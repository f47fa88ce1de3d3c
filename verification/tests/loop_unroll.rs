use olive_mir::ir::{BasicBlock, BasicBlockId, BinOp, Constant, Local, LocalDecl, MirFunction, Operand, Rvalue, Span, Statement, StatementKind, Terminator, TerminatorKind, Type};
use olive_mir::loop_utils;
use olive_mir::optimizations::loop_unroll::LoopUnroll;
use olive_mir::optimizations::loop_unroll::rewrite::{stmt_reads_local, subst_copy};
use olive_mir::optimizations::Transform;
fn sp() -> Span {
    Span::default()
}

fn int_local() -> LocalDecl {
    LocalDecl {
        ty: Type::Int,
        name: None,
        span: sp(),
        is_mut: true,
        is_owning: true,
    }
}

fn bool_local() -> LocalDecl {
    LocalDecl {
        ty: Type::Bool,
        name: None,
        span: sp(),
        is_mut: true,
        is_owning: true,
    }
}

fn assign(l: usize, rv: Rvalue) -> Statement {
    Statement {
        kind: StatementKind::Assign(Local(l), rv),
        span: sp(),
    }
}

fn term(kind: TerminatorKind) -> Option<Terminator> {
    Some(Terminator { kind, span: sp() })
}

fn func(locals: Vec<LocalDecl>, blocks: Vec<BasicBlock>, arg_count: usize) -> MirFunction {
    MirFunction {
        name: "f".into(),
        locals,
        basic_blocks: blocks,
        arg_count,
        vararg_idx: None,
        kwarg_idx: None,
        param_names: vec![],
        is_async: false,
    }
}

/// Builds `for i in 0..limit { acc += i }`. limit const or copy of local 0.
fn counted_loop(limit: Operand, arg_count: usize, indirect: bool) -> MirFunction {
    // locals: 0=param/spare, 1=i, 2=cond, 3=acc, 4=tmp
    let locals = vec![
        int_local(),
        int_local(),
        bool_local(),
        int_local(),
        int_local(),
    ];

    let entry = BasicBlock {
        statements: vec![
            assign(1, Rvalue::Use(Operand::Constant(Constant::Int(0)))),
            assign(3, Rvalue::Use(Operand::Constant(Constant::Int(0)))),
        ],
        terminator: term(TerminatorKind::Goto {
            target: BasicBlockId(1),
        }),
    };
    let header = BasicBlock {
        statements: vec![assign(
            2,
            Rvalue::BinaryOp(BinOp::Lt, Operand::Copy(Local(1)), limit),
        )],
        terminator: term(TerminatorKind::SwitchInt {
            discr: Operand::Copy(Local(2)),
            targets: vec![(1, BasicBlockId(2))],
            otherwise: BasicBlockId(3),
        }),
    };
    let mut body = vec![assign(
        3,
        Rvalue::BinaryOp(BinOp::Add, Operand::Copy(Local(3)), Operand::Copy(Local(1))),
    )];
    if indirect {
        body.push(assign(
            4,
            Rvalue::BinaryOp(
                BinOp::Add,
                Operand::Copy(Local(1)),
                Operand::Constant(Constant::Int(1)),
            ),
        ));
        body.push(assign(1, Rvalue::Use(Operand::Copy(Local(4)))));
    } else {
        body.push(assign(
            1,
            Rvalue::BinaryOp(
                BinOp::Add,
                Operand::Copy(Local(1)),
                Operand::Constant(Constant::Int(1)),
            ),
        ));
    }
    let body = BasicBlock {
        statements: body,
        terminator: term(TerminatorKind::Goto {
            target: BasicBlockId(1),
        }),
    };
    let exit = BasicBlock {
        statements: vec![],
        terminator: term(TerminatorKind::Return),
    };
    func(locals, vec![entry, header, body, exit], arg_count)
}

fn reaches_loop(func: &MirFunction) -> bool {
    !loop_utils::find_loops(func).is_empty()
}

#[test]
fn full_unroll_constant_trip() {
    let mut f = counted_loop(Operand::Constant(Constant::Int(4)), 0, false);
    assert!(LoopUnroll.run(&mut f));
    // One `acc += <const>` per iteration, no induction comparison left.
    let unrolled = f
        .basic_blocks
        .iter()
        .find(|bb| {
            matches!(
                bb.terminator.as_ref().map(|t| &t.kind),
                Some(TerminatorKind::Goto {
                    target: BasicBlockId(3)
                })
            ) && bb
                .statements
                .iter()
                .filter(|s| matches!(s.kind, StatementKind::Assign(Local(3), _)))
                .count()
                == 4
        })
        .expect("unrolled body with four copies");
    for s in &unrolled.statements {
        if let StatementKind::Assign(Local(3), Rvalue::BinaryOp(_, _, b)) = &s.kind {
            assert!(matches!(b, Operand::Constant(Constant::Int(_))));
        }
    }
}

#[test]
fn full_unroll_indirect_increment() {
    let mut f = counted_loop(Operand::Constant(Constant::Int(3)), 0, true);
    assert!(LoopUnroll.run(&mut f));
}

#[test]
fn partial_unroll_runtime_bound() {
    let mut f = counted_loop(Operand::Copy(Local(0)), 1, false);
    assert!(LoopUnroll.run(&mut f));
    let names: Vec<&str> = f.locals.iter().filter_map(|l| l.name.as_deref()).collect();
    assert!(names.contains(&"unroll_limit"));
    // Offset temps for copies 1, 2, 3.
    assert_eq!(names.iter().filter(|n| **n == "unroll_idx").count(), 3);
    assert!(reaches_loop(&f), "partial unroll keeps a residual loop");
}

#[test]
fn no_unroll_without_induction() {
    let mut f = counted_loop(Operand::Constant(Constant::Int(4)), 0, false);
    // Drop the increment.
    f.basic_blocks[2].statements.pop();
    assert!(!LoopUnroll.run(&mut f));
}

#[test]
fn no_unroll_nonlinear_body() {
    let mut f = counted_loop(Operand::Constant(Constant::Int(4)), 0, false);
    // Give the body an internal branch.
    f.basic_blocks[2].terminator = term(TerminatorKind::SwitchInt {
        discr: Operand::Copy(Local(3)),
        targets: vec![(1, BasicBlockId(1))],
        otherwise: BasicBlockId(3),
    });
    assert!(!LoopUnroll.run(&mut f));
}

#[test]
fn no_unroll_when_no_loops() {
    let mut f = func(
        vec![int_local()],
        vec![BasicBlock {
            statements: vec![],
            terminator: term(TerminatorKind::Return),
        }],
        0,
    );
    assert!(!LoopUnroll.run(&mut f));
}

#[test]
fn full_unroll_substitutes_each_iteration_value() {
    let mut f = counted_loop(Operand::Constant(Constant::Int(3)), 0, false);
    assert!(LoopUnroll.run(&mut f));
    assert_eq!(f.basic_blocks.len(), 5);
    let unrolled = &f.basic_blocks[4];
    let kinds: Vec<&StatementKind> = unrolled.statements.iter().map(|s| &s.kind).collect();
    assert_eq!(kinds.len(), 4);
    for (j, k) in kinds.iter().take(3).enumerate() {
        assert_eq!(
            **k,
            StatementKind::Assign(
                Local(3),
                Rvalue::BinaryOp(BinOp::Add, Operand::Copy(Local(3)), Operand::Constant(Constant::Int(j as i64)))
            )
        );
    }
    assert_eq!(
        *kinds[3],
        StatementKind::Assign(Local(1), Rvalue::Use(Operand::Constant(Constant::Int(3))))
    );
    // The preheader now jumps to the unrolled block.
    assert!(matches!(
        f.basic_blocks[0].terminator.as_ref().map(|t| &t.kind),
        Some(TerminatorKind::Goto { target: BasicBlockId(4) })
    ));
}

#[test]
fn inclusive_bound_counts_last_iteration() {
    let mut f = counted_loop(Operand::Constant(Constant::Int(2)), 0, false);
    f.basic_blocks[1].statements[0] = assign(
        2,
        Rvalue::BinaryOp(BinOp::LtEq, Operand::Copy(Local(1)), Operand::Constant(Constant::Int(2))),
    );
    assert!(LoopUnroll.run(&mut f));
    let unrolled = &f.basic_blocks[4];
    assert_eq!(unrolled.statements.len(), 4);
}

#[test]
fn partial_unroll_layout() {
    let mut f = counted_loop(Operand::Copy(Local(0)), 1, false);
    assert!(LoopUnroll.run(&mut f));
    // Two epilogue clones, the preheader, and the unrolled body.
    assert_eq!(f.basic_blocks.len(), 8);
    assert_eq!(f.locals.len(), 9);
    assert_eq!(
        f.basic_blocks[6].statements[0].kind,
        StatementKind::Assign(
            Local(5),
            Rvalue::BinaryOp(BinOp::Sub, Operand::Copy(Local(0)), Operand::Constant(Constant::Int(3)))
        )
    );
    assert!(matches!(
        f.basic_blocks[0].terminator.as_ref().map(|t| &t.kind),
        Some(TerminatorKind::Goto { target: BasicBlockId(6) })
    ));
    // Four copies of `acc += i`, three offset temps, and the step by four.
    assert_eq!(f.basic_blocks[7].statements.len(), 4 + 3 + 1);
    assert_eq!(
        f.basic_blocks[7].statements.last().unwrap().kind,
        StatementKind::Assign(
            Local(1),
            Rvalue::BinaryOp(BinOp::Add, Operand::Copy(Local(1)), Operand::Constant(Constant::Int(4)))
        )
    );
}

#[test]
fn substitution_reaches_vector_operands() {
    let load = Statement {
        kind: StatementKind::Assign(Local(2), Rvalue::VectorLoad(Operand::Copy(Local(1)), Operand::Copy(Local(3)), 4)),
        span: sp(),
    };
    let out = subst_copy(&load, 3, &Operand::Constant(Constant::Int(0)));
    assert!(!stmt_reads_local(&out, 3));
    assert_eq!(
        out.kind,
        StatementKind::Assign(
            Local(2),
            Rvalue::VectorLoad(Operand::Copy(Local(1)), Operand::Constant(Constant::Int(0)), 4)
        )
    );
    let store = Statement {
        kind: StatementKind::VectorStore(Operand::Copy(Local(1)), Operand::Copy(Local(3)), Operand::Copy(Local(2))),
        span: sp(),
    };
    let out = subst_copy(&store, 3, &Operand::Constant(Constant::Int(7)));
    assert_eq!(
        out.kind,
        StatementKind::VectorStore(
            Operand::Copy(Local(1)),
            Operand::Constant(Constant::Int(7)),
            Operand::Copy(Local(2))
        )
    );
}
