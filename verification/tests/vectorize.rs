use olive_mir::ir::{
    BasicBlock, BasicBlockId, BinOp, Constant, Local, LocalDecl, MirFunction, Operand, Rvalue, Span, Statement,
    StatementKind, Terminator, TerminatorKind, Type,
};
use olive_mir::optimizations::vectorize::LoopVectorizer;
use olive_mir::optimizations::Transform;

fn sp() -> Span {
    Span { file_id: 0, line: 0, col: 0, start: 0, end: 0 }
}

fn assign(l: usize, rv: Rvalue) -> Statement {
    Statement { kind: StatementKind::Assign(Local(l), rv), span: sp() }
}

fn bb(stmts: Vec<Statement>, kind: TerminatorKind) -> BasicBlock {
    BasicBlock { statements: stmts, terminator: Some(Terminator { kind, span: sp() }) }
}

fn func(name: &str, locals: Vec<LocalDecl>) -> MirFunction {
    MirFunction {
        name: name.into(),
        locals,
        basic_blocks: vec![],
        arg_count: 0,
        vararg_idx: None,
        kwarg_idx: None,
        param_names: vec![],
        is_async: false,
    }
}

fn local_decl(ty: Type) -> LocalDecl {
    LocalDecl { ty, name: None, span: sp(), is_mut: true, is_owning: true }
}

#[test]
fn no_loops_no_vectorize() {
    let mut f = func("f", vec![]);
    assert!(!LoopVectorizer.run(&mut f));
}

#[test]
fn empty_func_no_vectorize() {
    let mut f = func("f", vec![]);
    assert!(!LoopVectorizer.run(&mut f));
}

#[test]
fn alloc_vector_local_creates_vector_type() {
    let mut f = func("test", vec![local_decl(Type::Float)]);
    let v = LoopVectorizer.alloc_vector_local(&mut f, Local(0), 4);
    assert_eq!(v.0, 1);
    assert_eq!(f.locals.len(), 2);
    match &f.locals[v.0].ty {
        Type::Vector(inner, width) => {
            assert_eq!(**inner, Type::Float);
            assert_eq!(*width, 4);
        }
        _ => panic!("expected Vector type"),
    }
}

#[test]
fn fuse_fma_combines_mul_add() {
    let mut stmts = vec![
        assign(0, Rvalue::BinaryOp(BinOp::Mul, Operand::Copy(Local(1)), Operand::Copy(Local(2)))),
        assign(0, Rvalue::BinaryOp(BinOp::Add, Operand::Copy(Local(0)), Operand::Copy(Local(3)))),
    ];
    LoopVectorizer::fuse_fma(&mut stmts);
    assert_eq!(stmts.len(), 1);
    assert!(matches!(&stmts[0].kind, StatementKind::Assign(_, Rvalue::VectorFMA(..))));
}

#[test]
fn fuse_fma_no_mul_keeps_stmts() {
    let mut stmts = vec![
        assign(0, Rvalue::Use(Operand::Constant(Constant::Int(1)))),
        assign(0, Rvalue::BinaryOp(BinOp::Add, Operand::Copy(Local(1)), Operand::Copy(Local(2)))),
    ];
    let len = stmts.len();
    LoopVectorizer::fuse_fma(&mut stmts);
    assert_eq!(stmts.len(), len);
}

#[test]
fn fuse_fma_reordered() {
    let mut stmts = vec![
        assign(0, Rvalue::BinaryOp(BinOp::Mul, Operand::Copy(Local(1)), Operand::Copy(Local(2)))),
        assign(0, Rvalue::BinaryOp(BinOp::Add, Operand::Copy(Local(3)), Operand::Copy(Local(0)))),
    ];
    LoopVectorizer::fuse_fma(&mut stmts);
    assert_eq!(stmts.len(), 1);
    assert!(matches!(&stmts[0].kind, StatementKind::Assign(_, Rvalue::VectorFMA(..))));
}

/// `for i in 0..n { c[i] = a[i] + b[i] }`, with the exit block `exit`.
/// Locals: 0 n, 1 i, 2 cond, 3 a, 4 b, 5 x, 6 y, 7 z, 8 c.
fn elementwise_loop(y_ty: Type, exit: Vec<Statement>) -> MirFunction {
    let list = || local_decl(Type::List(Box::new(Type::Int)));
    let mut f = func(
        "f",
        vec![
            local_decl(Type::Int),
            local_decl(Type::Int),
            local_decl(Type::Bool),
            list(),
            list(),
            local_decl(Type::Int),
            local_decl(y_ty),
            local_decl(Type::Int),
            list(),
        ],
    );
    f.arg_count = 1;
    f.basic_blocks = vec![
        bb(
            vec![assign(1, Rvalue::Use(Operand::Constant(Constant::Int(0))))],
            TerminatorKind::Goto { target: BasicBlockId(1) },
        ),
        bb(
            vec![assign(2, Rvalue::BinaryOp(BinOp::Lt, Operand::Copy(Local(1)), Operand::Copy(Local(0))))],
            TerminatorKind::SwitchInt {
                discr: Operand::Copy(Local(2)),
                targets: vec![(1, BasicBlockId(2))],
                otherwise: BasicBlockId(3),
            },
        ),
        bb(
            vec![
                assign(5, Rvalue::GetIndex(Operand::Copy(Local(3)), Operand::Copy(Local(1)), false)),
                assign(6, Rvalue::GetIndex(Operand::Copy(Local(4)), Operand::Copy(Local(1)), false)),
                assign(7, Rvalue::BinaryOp(BinOp::Add, Operand::Copy(Local(5)), Operand::Copy(Local(6)))),
                Statement {
                    kind: StatementKind::SetIndex(
                        Operand::Copy(Local(8)),
                        Operand::Copy(Local(1)),
                        Operand::Copy(Local(7)),
                        false,
                    ),
                    span: sp(),
                },
                assign(1, Rvalue::BinaryOp(BinOp::Add, Operand::Copy(Local(1)), Operand::Constant(Constant::Int(1)))),
            ],
            TerminatorKind::Goto { target: BasicBlockId(1) },
        ),
        bb(exit, TerminatorKind::Return),
    ];
    f
}

#[test]
fn vectorizes_elementwise_loop() {
    let mut f = elementwise_loop(Type::Int, vec![]);
    assert!(LoopVectorizer.run(&mut f));
    // Two epilogue copies of the loop blocks and the pre-header.
    assert_eq!(f.basic_blocks.len(), 7);
    // The vector limit, then vectors for x, y and z, of two 64-bit lanes.
    assert_eq!(f.locals.len(), 13);
    assert_eq!(f.locals[9].name.as_deref(), Some("vec_limit"));
    for (k, name) in [(10, "v5"), (11, "v6"), (12, "v7")] {
        assert_eq!(f.locals[k].name.as_deref(), Some(name));
        assert_eq!(f.locals[k].ty, Type::Vector(Box::new(Type::Int), 2));
    }
    // The pre-header computes `n - 1` and enters the header.
    let pre = &f.basic_blocks[6];
    assert_eq!(
        pre.statements[0].kind,
        StatementKind::Assign(
            Local(9),
            Rvalue::BinaryOp(BinOp::Sub, Operand::Copy(Local(0)), Operand::Constant(Constant::Int(1)))
        )
    );
    assert_eq!(pre.terminator.as_ref().unwrap().kind, TerminatorKind::Goto { target: BasicBlockId(1) });
    // The entry goes through the pre-header.
    assert_eq!(f.basic_blocks[0].terminator.as_ref().unwrap().kind, TerminatorKind::Goto { target: BasicBlockId(6) });
    // The guard compares with the vector limit; the switch falls through
    // to the epilogue's header.
    let header = &f.basic_blocks[1];
    assert_eq!(
        header.statements[0].kind,
        StatementKind::Assign(
            Local(2),
            Rvalue::BinaryOp(BinOp::Lt, Operand::Copy(Local(1)), Operand::Copy(Local(9)))
        )
    );
    match &header.terminator.as_ref().unwrap().kind {
        TerminatorKind::SwitchInt { otherwise, .. } => {
            assert!(otherwise.0 == 4 || otherwise.0 == 5);
            let epi = &f.basic_blocks[otherwise.0];
            assert_eq!(epi.statements, f_original_header());
        }
        _ => panic!("expected a switch"),
    }
    // The body works on vectors and steps by two.
    let body = &f.basic_blocks[2].statements;
    assert_eq!(body.len(), 5);
    assert_eq!(
        body[0].kind,
        StatementKind::Assign(Local(10), Rvalue::VectorLoad(Operand::Copy(Local(3)), Operand::Copy(Local(1)), 2))
    );
    assert_eq!(
        body[1].kind,
        StatementKind::Assign(Local(11), Rvalue::VectorLoad(Operand::Copy(Local(4)), Operand::Copy(Local(1)), 2))
    );
    assert_eq!(
        body[2].kind,
        StatementKind::Assign(
            Local(12),
            Rvalue::BinaryOp(BinOp::Add, Operand::Copy(Local(10)), Operand::Copy(Local(11)))
        )
    );
    assert_eq!(
        body[3].kind,
        StatementKind::VectorStore(Operand::Copy(Local(8)), Operand::Copy(Local(1)), Operand::Copy(Local(12)))
    );
    assert_eq!(
        body[4].kind,
        StatementKind::Assign(
            Local(1),
            Rvalue::BinaryOp(BinOp::Add, Operand::Copy(Local(1)), Operand::Constant(Constant::Int(2)))
        )
    );
}

fn f_original_header() -> Vec<Statement> {
    vec![assign(2, Rvalue::BinaryOp(BinOp::Lt, Operand::Copy(Local(1)), Operand::Copy(Local(0))))]
}

#[test]
fn escaping_vector_value_not_vectorized() {
    let exit = vec![assign(0, Rvalue::Use(Operand::Copy(Local(7))))];
    let mut f = elementwise_loop(Type::Int, exit);
    let before = f.clone();
    assert!(!LoopVectorizer.run(&mut f));
    assert_eq!(f, before);
}

#[test]
fn mixed_lane_widths_not_vectorized() {
    let mut f = elementwise_loop(Type::I32, vec![]);
    let before = f.clone();
    assert!(!LoopVectorizer.run(&mut f));
    assert_eq!(f, before);
}

#[test]
fn fused_multiply_add_keeps_the_addition_span() {
    let add_span = Span { file_id: 1, line: 2, col: 3, start: 4, end: 5 };
    let mut stmts = vec![
        assign(7, Rvalue::BinaryOp(BinOp::Mul, Operand::Copy(Local(1)), Operand::Copy(Local(2)))),
        Statement {
            kind: StatementKind::Assign(
                Local(8),
                Rvalue::BinaryOp(BinOp::Add, Operand::Copy(Local(3)), Operand::Copy(Local(7))),
            ),
            span: add_span,
        },
        assign(9, Rvalue::Use(Operand::Copy(Local(8)))),
    ];
    LoopVectorizer::fuse_fma(&mut stmts);
    assert_eq!(stmts.len(), 2);
    assert_eq!(
        stmts[0],
        Statement {
            kind: StatementKind::Assign(
                Local(8),
                Rvalue::VectorFMA(Operand::Copy(Local(1)), Operand::Copy(Local(2)), Operand::Copy(Local(3)))
            ),
            span: add_span,
        }
    );
}
