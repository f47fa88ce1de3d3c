use olive_mir::ir::{
    BasicBlock, BasicBlockId, Constant, Local, LocalDecl, MirFunction, Operand, Rvalue, Span, Statement,
    StatementKind, Terminator, TerminatorKind, Type,
};
use olive_mir::optimizations::drop_hooks::{collect_struct_has_drop, lower_drop_hooks, monomorphized_name};
use vstd::hash_set::StringHashSet;

fn sp() -> Span {
    Span { file_id: 0, line: 3, col: 0, start: 0, end: 0 }
}

fn decl(ty: Type) -> LocalDecl {
    LocalDecl { ty, name: None, span: sp(), is_mut: true, is_owning: true }
}

fn stmt(kind: StatementKind) -> Statement {
    Statement { kind, span: sp() }
}

fn call(dst: usize, name: &str, args: Vec<Operand>) -> Statement {
    stmt(StatementKind::Assign(
        Local(dst),
        Rvalue::Call { func: Operand::Constant(Constant::Function(name.to_string())), args },
    ))
}

fn ret() -> Option<Terminator> {
    Some(Terminator { kind: TerminatorKind::Return, span: sp() })
}

fn foo() -> Type {
    Type::Struct("Foo".to_string(), vec![], false)
}

fn func(name: &str, locals: Vec<Type>, statements: Vec<Statement>) -> MirFunction {
    MirFunction {
        name: name.to_string(),
        locals: locals.into_iter().map(decl).collect(),
        basic_blocks: vec![BasicBlock { statements, terminator: ret() }],
        arg_count: 0,
        vararg_idx: None,
        kwarg_idx: None,
        param_names: vec![],
        is_async: false,
    }
}

fn has(names: &[&str]) -> StringHashSet {
    let mut s = StringHashSet::new();
    for n in names {
        s.insert(n.to_string());
    }
    s
}

#[test]
fn monomorphized_name_of_plain_struct_is_its_name() {
    assert_eq!(monomorphized_name("Box", &[]), "Box");
}

#[test]
fn monomorphized_name_spells_type_arguments() {
    assert_eq!(monomorphized_name("Box", &[Type::Int]), "Box_int");
    assert_eq!(
        monomorphized_name("Pair", &[Type::Int, Type::List(Box::new(Type::Str))]),
        "Pair_int_list_str_"
    );
    assert_eq!(
        monomorphized_name("Grid", &[Type::Vector(Box::new(Type::F32), 128)]),
        "Grid_vec_f32_128_"
    );
    assert_eq!(
        monomorphized_name("Cb", &[Type::Fn(vec![Type::Int, Type::Bool], Box::new(Type::Str))]),
        "Cb__int_bool__to_str"
    );
}

#[test]
fn struct_names_come_from_drop_methods() {
    let fs = vec![
        func("Foo::__drop__", vec![Type::Int], vec![]),
        func("bar", vec![Type::Int], vec![]),
        func("Box_int::__drop__", vec![Type::Int], vec![]),
    ];
    let s = collect_struct_has_drop(&fs);
    assert!(s.contains("Foo"));
    assert!(s.contains("Box_int"));
    assert!(!s.contains("bar"));
    assert_eq!(s.len(), 2);
}

#[test]
fn struct_drop_becomes_drop_method_call() {
    let mut f = func("main", vec![Type::Int, foo()], vec![stmt(StatementKind::Drop(Local(1)))]);
    lower_drop_hooks(&mut f, &has(&["Foo"]));
    assert_eq!(f.locals.len(), 3);
    assert_eq!(f.locals[2].ty, Type::Any);
    assert!(f.locals[2].is_owning);
    assert_eq!(f.basic_blocks.len(), 1);
    assert_eq!(
        f.basic_blocks[0].statements,
        vec![call(2, "Foo::__drop__", vec![Operand::Move(Local(1))])]
    );
}

#[test]
fn generic_struct_drop_uses_monomorphized_name() {
    let boxed = Type::Struct("Box".to_string(), vec![Type::Int], false);
    let mut f = func("main", vec![Type::Int, boxed], vec![stmt(StatementKind::Drop(Local(1)))]);
    lower_drop_hooks(&mut f, &has(&["Box_int"]));
    assert_eq!(
        f.basic_blocks[0].statements,
        vec![call(2, "Box_int::__drop__", vec![Operand::Move(Local(1))])]
    );
}

#[test]
fn own_drop_method_keeps_plain_drop() {
    let original = func("Foo::__drop__", vec![Type::Int, foo()], vec![stmt(StatementKind::Drop(Local(1)))]);
    let mut f = original.clone();
    lower_drop_hooks(&mut f, &has(&["Foo"]));
    assert_eq!(f, original);
}

#[test]
fn no_drop_methods_changes_nothing() {
    let original = func("main", vec![Type::Int, foo()], vec![stmt(StatementKind::Drop(Local(1)))]);
    let mut f = original.clone();
    lower_drop_hooks(&mut f, &has(&[]));
    assert_eq!(f, original);
    lower_drop_hooks(&mut f, &has(&["Bar"]));
    assert_eq!(f, original);
}

#[test]
fn union_drop_gets_guarded_drop_method_call() {
    let union = Type::Union(vec![foo(), Type::Int]);
    let set0 = stmt(StatementKind::Assign(Local(0), Rvalue::Use(Operand::Constant(Constant::Int(1)))));
    let mut f = func("main", vec![Type::Int, union], vec![set0.clone(), stmt(StatementKind::Drop(Local(1)))]);
    lower_drop_hooks(&mut f, &has(&["Foo"]));
    assert_eq!(f.basic_blocks.len(), 3);
    assert_eq!(f.locals.len(), 5);
    assert_eq!(f.locals[2].ty, foo());
    assert_eq!(f.locals[3].ty, Type::Any);
    assert_eq!(f.locals[4].ty, Type::Bool);
    assert_eq!(
        f.basic_blocks[0].statements,
        vec![set0, call(4, "__olive_any_is_struct_box", vec![Operand::Copy(Local(1))])]
    );
    assert_eq!(
        f.basic_blocks[0].terminator,
        Some(Terminator {
            kind: TerminatorKind::SwitchInt {
                discr: Operand::Copy(Local(4)),
                targets: vec![(1, BasicBlockId(2))],
                otherwise: BasicBlockId(1),
            },
            span: sp(),
        })
    );
    assert_eq!(f.basic_blocks[1].statements, vec![stmt(StatementKind::Drop(Local(1)))]);
    assert_eq!(f.basic_blocks[1].terminator, ret());
    assert_eq!(
        f.basic_blocks[2].statements,
        vec![
            call(2, "__olive_struct_unbox_take", vec![Operand::Copy(Local(1))]),
            call(3, "Foo::__drop__", vec![Operand::Move(Local(2))]),
            stmt(StatementKind::Assign(Local(1), Rvalue::Use(Operand::Constant(Constant::Int(0))))),
        ]
    );
    assert_eq!(
        f.basic_blocks[2].terminator,
        Some(Terminator { kind: TerminatorKind::Goto { target: BasicBlockId(1) }, span: sp() })
    );
}

#[test]
fn union_with_two_struct_members_is_left_alone() {
    let union = Type::Union(vec![foo(), Type::Struct("Bar".to_string(), vec![], false)]);
    let original = func("main", vec![Type::Int, union], vec![stmt(StatementKind::Drop(Local(1)))]);
    let mut f = original.clone();
    lower_drop_hooks(&mut f, &has(&["Foo", "Bar"]));
    assert_eq!(f, original);
}
