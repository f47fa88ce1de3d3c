use olive_mir::debug_hooks::instrument;
use olive_mir::ir::{
    BasicBlock, Constant, Local, LocalDecl, MirFunction, Operand, Rvalue, Span, Statement, StatementKind, Terminator,
    TerminatorKind, Type,
};

fn at(line: usize) -> Span {
    Span { file_id: 1, line, col: 1, start: 0, end: 0 }
}

fn decl(name: Option<&str>, ty: Type) -> LocalDecl {
    LocalDecl { ty, name: name.map(|n| n.to_string()), span: Span::default(), is_mut: true, is_owning: true }
}

fn assign(l: usize, rv: Rvalue, span: Span) -> Statement {
    Statement { kind: StatementKind::Assign(Local(l), rv), span }
}

/// `fn f(a): x = a; return x`, on lines 2 and 3 of file 1.
fn sample(is_async: bool, with_spans: bool) -> MirFunction {
    let (l2, l3) = if with_spans { (at(2), at(3)) } else { (Span::default(), Span::default()) };
    MirFunction {
        name: "f".to_string(),
        locals: vec![decl(None, Type::Int), decl(Some("a"), Type::Int), decl(Some("x"), Type::Int)],
        basic_blocks: vec![BasicBlock {
            statements: vec![
                assign(2, Rvalue::Use(Operand::Copy(Local(1))), l2),
                assign(0, Rvalue::Use(Operand::Copy(Local(2))), l3),
            ],
            terminator: Some(Terminator { kind: TerminatorKind::Return, span: l3 }),
        }],
        arg_count: 1,
        vararg_idx: None,
        kwarg_idx: None,
        param_names: vec!["a".to_string()],
        is_async,
    }
}

/// The hook a statement calls, with its arguments and sink.
fn hook(s: &Statement) -> Option<(String, Vec<Operand>, usize)> {
    match &s.kind {
        StatementKind::Assign(sink, Rvalue::Call { func: Operand::Constant(Constant::Function(n)), args }) => {
            Some((n.clone(), args.clone(), sink.0))
        }
        _ => None,
    }
}

fn line_key(file: i64, line: i64) -> i64 {
    (file << 32) | line
}

#[test]
fn instrument_adds_entry_store_line_and_exit_hooks() {
    let mut fs = vec![sample(false, true)];
    let program = instrument(&mut fs);
    let f = &fs[0];
    let stmts = &f.basic_blocks[0].statements;
    assert_eq!(stmts.len(), 8);
    assert_eq!(
        hook(&stmts[0]),
        Some(("__olive_debug_enter".to_string(), vec![Operand::Constant(Constant::Int(0))], 3))
    );
    assert_eq!(
        hook(&stmts[1]),
        Some((
            "__olive_debug_store".to_string(),
            vec![Operand::Constant(Constant::Int(0)), Operand::Copy(Local(1))],
            4
        ))
    );
    assert_eq!(
        hook(&stmts[2]),
        Some(("__olive_debug_stmt".to_string(), vec![Operand::Constant(Constant::Int(line_key(1, 2)))], 5))
    );
    assert_eq!(stmts[3], assign(2, Rvalue::Use(Operand::Copy(Local(1))), at(2)));
    assert_eq!(
        hook(&stmts[4]),
        Some((
            "__olive_debug_store".to_string(),
            vec![Operand::Constant(Constant::Int(1)), Operand::Copy(Local(2))],
            6
        ))
    );
    assert_eq!(
        hook(&stmts[5]),
        Some(("__olive_debug_stmt".to_string(), vec![Operand::Constant(Constant::Int(line_key(1, 3)))], 7))
    );
    assert_eq!(stmts[6], assign(0, Rvalue::Use(Operand::Copy(Local(2))), at(3)));
    assert_eq!(hook(&stmts[7]), Some(("__olive_debug_exit".to_string(), vec![], 8)));
    // One sink per hook, all null-typed and unnamed.
    assert_eq!(f.locals.len(), 9);
    for d in &f.locals[3..] {
        assert_eq!(d.ty, Type::Null);
        assert!(d.name.is_none());
        assert!(!d.is_mut);
    }
    assert_eq!(program.functions.len(), 1);
    let info = &program.functions[0];
    assert_eq!(info.name, "f");
    assert_eq!(info.fn_id, 0);
    let cells: Vec<(String, usize)> = info.cells.iter().map(|c| (c.name.clone(), c.local)).collect();
    assert_eq!(cells, vec![("a".to_string(), 1), ("x".to_string(), 2)]);
}

#[test]
fn async_and_spanless_functions_untouched() {
    let mut fs = vec![sample(true, true), sample(false, false), sample(false, true)];
    let before = fs.clone();
    let program = instrument(&mut fs);
    assert_eq!(fs[0], before[0]);
    assert_eq!(fs[1], before[1]);
    assert_ne!(fs[2], before[2]);
    assert_eq!(program.functions.len(), 1);
    assert_eq!(program.functions[0].fn_id, 2);
}

#[test]
fn one_stop_per_line() {
    let mut f = sample(false, true);
    // Both statements on line 2: only the first gets a stop point.
    f.basic_blocks[0].statements[1].span = at(2);
    let mut fs = vec![f];
    instrument(&mut fs);
    let stops = fs[0].basic_blocks[0]
        .statements
        .iter()
        .filter(|s| matches!(hook(s), Some((n, _, _)) if n == "__olive_debug_stmt"))
        .count();
    assert_eq!(stops, 1);
}

#[test]
fn vector_locals_are_not_shown() {
    let mut f = sample(false, true);
    f.locals.push(decl(Some("v"), Type::Vector(Box::new(Type::Int), 2)));
    let mut fs = vec![f];
    let program = instrument(&mut fs);
    assert_eq!(program.functions[0].cells.len(), 2);
}
