use olive_mir::fx::VTables;
use olive_mir::ir::{
    AggregateKind, BasicBlock, Constant, Local, LocalDecl, MirFunction, Operand, Rvalue, Span, Statement,
    StatementKind, Terminator, TerminatorKind, Type,
};
use olive_mir::optimizations::devirtualize::Devirtualize;
use olive_mir::optimizations::Transform;
use vstd::hash_set::StringHashSet;

fn sp() -> Span {
    Span { file_id: 0, line: 0, col: 0, start: 0, end: 0 }
}

fn assign(l: usize, rv: Rvalue) -> Statement {
    Statement { kind: StatementKind::Assign(Local(l), rv), span: sp() }
}

fn decl(ty: Type) -> LocalDecl {
    LocalDecl { ty, name: None, span: sp(), is_mut: true, is_owning: true }
}

fn point() -> Type {
    Type::Struct("P".to_string(), vec![], false)
}

fn copy(l: usize) -> Operand {
    Operand::Copy(Local(l))
}

fn func_name(n: &str) -> Operand {
    Operand::Constant(Constant::Function(n.to_string()))
}

/// `s = P(); rec = (s, P_as_T, 0); d = data(rec); m = rec.vtable[0]; r = m(d); drop(rec)`
fn dispatch(extra: Vec<Statement>) -> MirFunction {
    let mut stmts = vec![
        assign(1, Rvalue::Call { func: func_name("P::new"), args: vec![] }),
        assign(
            2,
            Rvalue::Aggregate(
                AggregateKind::FatPtr,
                vec![
                    copy(1),
                    Operand::Constant(Constant::GlobalData("P_as_T".to_string())),
                    Operand::Constant(Constant::Int(0)),
                ],
            ),
        ),
        assign(5, Rvalue::FatPtrData(copy(2))),
        assign(3, Rvalue::VTableLoad { vtable: copy(2), method_idx: 0 }),
        assign(4, Rvalue::Call { func: copy(3), args: vec![copy(5)] }),
        Statement { kind: StatementKind::Drop(Local(2)), span: sp() },
    ];
    stmts.extend(extra);
    MirFunction {
        name: "f".to_string(),
        locals: vec![
            decl(Type::Int),
            decl(point()),
            decl(Type::Any),
            decl(Type::Any),
            decl(Type::Int),
            decl(Type::Any),
            decl(Type::Any),
        ],
        basic_blocks: vec![BasicBlock {
            statements: stmts,
            terminator: Some(Terminator { kind: TerminatorKind::Return, span: sp() }),
        }],
        arg_count: 0,
        vararg_idx: None,
        kwarg_idx: None,
        param_names: vec![],
        is_async: false,
    }
}

fn tables() -> VTables {
    let mut vt = VTables::new();
    vt.insert("P_as_T".to_string(), vec!["P::area".to_string()]);
    vt
}

fn kind(f: &MirFunction, j: usize) -> &StatementKind {
    &f.basic_blocks[0].statements[j].kind
}

#[test]
fn resolves_record_built_and_used_locally() {
    let vt = tables();
    let hd = StringHashSet::new();
    let mut f = dispatch(vec![]);
    assert!(Devirtualize { vtables: &vt, has_drop: &hd }.run(&mut f));
    assert!(matches!(kind(&f, 1), StatementKind::StorageLive(Local(2))));
    assert_eq!(kind(&f, 2), &StatementKind::Assign(Local(5), Rvalue::Use(copy(1))));
    assert_eq!(kind(&f, 3), &StatementKind::Assign(Local(3), Rvalue::Use(func_name("P::area"))));
    assert_eq!(
        kind(&f, 4),
        &StatementKind::Assign(Local(4), Rvalue::Call { func: func_name("P::area"), args: vec![copy(5)] })
    );
    assert_eq!(kind(&f, 5), &StatementKind::Drop(Local(1)));
    assert_eq!(f.locals[5].ty, point());
    assert_eq!(f.locals[3].ty, Type::Any);
}

#[test]
fn record_returned_keeps_dynamic_path() {
    let vt = tables();
    let hd = StringHashSet::new();
    let mut f = dispatch(vec![assign(0, Rvalue::Use(copy(2)))]);
    let before = f.clone();
    assert!(!Devirtualize { vtables: &vt, has_drop: &hd }.run(&mut f));
    assert_eq!(f, before);
}

#[test]
fn struct_with_drop_hook_keeps_dynamic_path() {
    let vt = tables();
    let mut hd = StringHashSet::new();
    hd.insert("P".to_string());
    let mut f = dispatch(vec![]);
    let before = f.clone();
    assert!(!Devirtualize { vtables: &vt, has_drop: &hd }.run(&mut f));
    assert_eq!(f, before);
}

#[test]
fn no_vtables_changes_nothing() {
    let vt = VTables::new();
    let hd = StringHashSet::new();
    let mut f = dispatch(vec![]);
    let before = f.clone();
    assert!(!Devirtualize { vtables: &vt, has_drop: &hd }.run(&mut f));
    assert_eq!(f, before);
}

#[test]
fn missing_method_keeps_dynamic_path() {
    let vt = tables();
    let hd = StringHashSet::new();
    let mut f = dispatch(vec![assign(6, Rvalue::VTableLoad { vtable: copy(2), method_idx: 3 })]);
    let before = f.clone();
    assert!(!Devirtualize { vtables: &vt, has_drop: &hd }.run(&mut f));
    assert_eq!(f, before);
}

#[test]
fn copies_of_record_are_followed() {
    let vt = tables();
    let hd = StringHashSet::new();
    let mut f = dispatch(vec![]);
    f.basic_blocks[0].statements[3] = assign(3, Rvalue::VTableLoad { vtable: copy(6), method_idx: 0 });
    f.basic_blocks[0].statements.insert(2, assign(6, Rvalue::Use(copy(2))));
    assert!(Devirtualize { vtables: &vt, has_drop: &hd }.run(&mut f));
    assert!(matches!(kind(&f, 2), StatementKind::StorageLive(Local(6))));
    assert_eq!(kind(&f, 4), &StatementKind::Assign(Local(3), Rvalue::Use(func_name("P::area"))));
}
