use olive_mir::ir::{
    AggregateKind, BasicBlock, BasicBlockId, Constant, Local, LocalDecl, MirFunction, Operand, Rvalue, Span,
    Statement, StatementKind, Terminator, TerminatorKind, Type,
};
use olive_mir::optimizations::list_append::ListAppend;
use olive_mir::optimizations::Transform;

fn decl(ty: Type) -> LocalDecl {
    LocalDecl { ty, name: None, span: Span::default(), is_mut: true, is_owning: true }
}

fn st(kind: StatementKind) -> Statement {
    Statement { kind, span: Span::default() }
}

fn assign(l: usize, rv: Rvalue) -> Statement {
    st(StatementKind::Assign(Local(l), rv))
}

fn call(name: &str, args: Vec<Operand>) -> Rvalue {
    Rvalue::Call { func: Operand::Constant(Constant::Function(name.to_string())), args }
}

/// `t = [ops...]`
fn literal(t: usize, ops: Vec<Operand>) -> Statement {
    assign(t, Rvalue::Aggregate(AggregateKind::List, ops))
}

/// `dst = __olive_list_concat_move(move left, copy t)`
fn concat(dst: usize, left: usize, t: usize) -> Statement {
    assign(dst, call("__olive_list_concat_move", vec![Operand::Move(Local(left)), Operand::Copy(Local(t))]))
}

fn push(dst: usize, src: usize, op: Operand) -> Statement {
    assign(dst, call("__olive_list_push", vec![Operand::Move(Local(src)), op]))
}

fn term(kind: TerminatorKind) -> Option<Terminator> {
    Some(Terminator { kind, span: Span::default() })
}

/// Locals: 0 return, 1 left list, 2 result, 3 literal, 4 and 5 elements.
fn func(blocks: Vec<BasicBlock>) -> MirFunction {
    let list = || Type::List(Box::new(Type::Int));
    MirFunction {
        name: "f".to_string(),
        locals: vec![decl(Type::Int), decl(list()), decl(list()), decl(list()), decl(Type::Int), decl(Type::Int)],
        basic_blocks: blocks,
        arg_count: 0,
        vararg_idx: None,
        kwarg_idx: None,
        param_names: vec![],
        is_async: false,
    }
}

fn ret_block(statements: Vec<Statement>) -> BasicBlock {
    BasicBlock { statements, terminator: term(TerminatorKind::Return) }
}

fn elems() -> Vec<Operand> {
    vec![Operand::Copy(Local(4)), Operand::Copy(Local(5))]
}

#[test]
fn literal_in_same_block_becomes_pushes() {
    let mut f = func(vec![ret_block(vec![
        st(StatementKind::StorageLive(Local(3))),
        literal(3, elems()),
        concat(2, 1, 3),
        st(StatementKind::Drop(Local(3))),
        st(StatementKind::StorageDead(Local(3))),
    ])]);
    assert!(ListAppend.run(&mut f));
    assert_eq!(
        f.basic_blocks[0].statements,
        vec![push(2, 1, Operand::Copy(Local(4))), push(2, 2, Operand::Copy(Local(5)))]
    );
}

#[test]
fn empty_literal_becomes_a_move() {
    let mut f = func(vec![ret_block(vec![literal(3, vec![]), concat(2, 1, 3)])]);
    assert!(ListAppend.run(&mut f));
    assert_eq!(f.basic_blocks[0].statements, vec![assign(2, Rvalue::Use(Operand::Move(Local(1))))]);
}

#[test]
fn constant_elements_are_pushed_in_order() {
    let ops = vec![Operand::Constant(Constant::Int(1)), Operand::Constant(Constant::Int(2))];
    let mut f = func(vec![ret_block(vec![literal(3, ops), concat(2, 1, 3)])]);
    assert!(ListAppend.run(&mut f));
    assert_eq!(
        f.basic_blocks[0].statements,
        vec![push(2, 1, Operand::Constant(Constant::Int(1))), push(2, 2, Operand::Constant(Constant::Int(2)))]
    );
}

#[test]
fn clobbered_element_blocks_the_fold() {
    let stmts = vec![
        literal(3, elems()),
        assign(4, Rvalue::Use(Operand::Constant(Constant::Int(9)))),
        concat(2, 1, 3),
    ];
    let mut f = func(vec![ret_block(stmts.clone())]);
    assert!(!ListAppend.run(&mut f));
    assert_eq!(f.basic_blocks[0].statements, stmts);
}

#[test]
fn other_read_of_literal_blocks_the_fold() {
    let stmts = vec![literal(3, elems()), assign(0, call("len", vec![Operand::Copy(Local(3))])), concat(2, 1, 3)];
    let mut f = func(vec![ret_block(stmts.clone())]);
    assert!(!ListAppend.run(&mut f));
    assert_eq!(f.basic_blocks[0].statements, stmts);
}

#[test]
fn two_literals_of_one_list_block_the_fold() {
    let stmts = vec![literal(3, elems()), literal(3, elems()), concat(2, 1, 3)];
    let mut f = func(vec![ret_block(stmts.clone())]);
    assert!(!ListAppend.run(&mut f));
    assert_eq!(f.basic_blocks[0].statements, stmts);
}

#[test]
fn literal_in_dominating_block_folds_across_a_diamond() {
    let cond = TerminatorKind::SwitchInt {
        discr: Operand::Copy(Local(0)),
        targets: vec![(0, BasicBlockId(1))],
        otherwise: BasicBlockId(2),
    };
    let goto3 = || term(TerminatorKind::Goto { target: BasicBlockId(3) });
    let mut f = func(vec![
        BasicBlock { statements: vec![literal(3, elems())], terminator: term(cond) },
        BasicBlock { statements: vec![assign(0, Rvalue::Use(Operand::Constant(Constant::Int(1))))], terminator: goto3() },
        BasicBlock { statements: vec![], terminator: goto3() },
        ret_block(vec![concat(2, 1, 3), st(StatementKind::Drop(Local(3)))]),
    ]);
    assert!(ListAppend.run(&mut f));
    assert!(f.basic_blocks[0].statements.is_empty());
    assert_eq!(
        f.basic_blocks[3].statements,
        vec![push(2, 1, Operand::Copy(Local(4))), push(2, 2, Operand::Copy(Local(5)))]
    );
}

#[test]
fn clobber_on_a_branch_blocks_the_fold() {
    let cond = TerminatorKind::SwitchInt {
        discr: Operand::Copy(Local(0)),
        targets: vec![(0, BasicBlockId(1))],
        otherwise: BasicBlockId(2),
    };
    let goto3 = || term(TerminatorKind::Goto { target: BasicBlockId(3) });
    let blocks = vec![
        BasicBlock { statements: vec![literal(3, elems())], terminator: term(cond) },
        BasicBlock { statements: vec![st(StatementKind::Drop(Local(1)))], terminator: goto3() },
        BasicBlock { statements: vec![], terminator: goto3() },
        ret_block(vec![concat(2, 1, 3)]),
    ];
    let mut f = func(blocks.clone());
    assert!(!ListAppend.run(&mut f));
    assert_eq!(f.basic_blocks, blocks);
}

#[test]
fn two_appends_both_fold() {
    let mut f = func(vec![ret_block(vec![
        literal(3, vec![Operand::Copy(Local(4))]),
        concat(2, 1, 3),
        literal(5, vec![Operand::Copy(Local(4))]),
        concat(1, 2, 5),
    ])]);
    assert!(ListAppend.run(&mut f));
    assert_eq!(
        f.basic_blocks[0].statements,
        vec![push(2, 1, Operand::Copy(Local(4))), push(1, 2, Operand::Copy(Local(4)))]
    );
}
