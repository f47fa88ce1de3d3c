use olive_mir::ir::{
    AggregateKind, BasicBlock, BinOp, Constant, Local, LocalDecl, MirFunction, Operand, Rvalue, Span, Statement,
    StatementKind, Terminator, TerminatorKind, Type,
};
use olive_mir::optimizations::summaries::{compute_borrowed_returns, compute_param_escapes, runtime_escape};

fn sp() -> Span {
    Span { file_id: 0, line: 0, col: 0, start: 0, end: 0 }
}

fn heap_ty() -> Type {
    Type::List(Box::new(Type::Int))
}

fn decl(ty: Type, owning: bool) -> LocalDecl {
    LocalDecl { ty, name: Some("x".into()), span: sp(), is_mut: true, is_owning: owning }
}

fn assign(l: usize, rv: Rvalue) -> Statement {
    Statement { kind: StatementKind::Assign(Local(l), rv), span: sp() }
}

fn func_of(locals: Vec<LocalDecl>, stmts: Vec<Statement>) -> MirFunction {
    named_func("f", locals, stmts)
}

fn named_func(name: &str, locals: Vec<LocalDecl>, stmts: Vec<Statement>) -> MirFunction {
    MirFunction {
        name: name.into(),
        locals,
        basic_blocks: vec![BasicBlock {
            statements: stmts,
            terminator: Some(Terminator { kind: TerminatorKind::Return, span: sp() }),
        }],
        arg_count: 0,
        vararg_idx: None,
        kwarg_idx: None,
        param_names: vec![],
        is_async: false,
    }
}

fn call(dst: usize, name: &str, args: Vec<Operand>) -> Statement {
    assign(dst, Rvalue::Call { func: Operand::Constant(Constant::Function(name.to_string())), args })
}

#[test]
fn runtime_escapes_covers_all_store_like_builtins() {
    let store_sites: &[(&str, usize, &str)] = &[
        ("__olive_list_append", 1, "stores value pointer in list"),
        ("__olive_list_insert", 2, "stores value pointer in list at position"),
        ("__olive_obj_set", 2, "stores value pointer in object/dict"),
        ("__olive_set_add", 1, "stores value pointer in set"),
        ("__olive_chan_send", 1, "value transfers to channel"),
        ("__olive_mutex_new", 0, "initial value stored in mutex"),
        ("__olive_mutex_unlock", 1, "value stored in mutex on unlock"),
        ("__olive_pool_run", 1, "callback stored in pool"),
        ("__olive_pool_run_sync", 1, "callback stored in pool"),
        ("__olive_cache_set", 2, "stores return value in memo cache"),
        ("__olive_cache_set_tuple", 2, "stores return value in tuple-keyed cache"),
        ("__olive_py_setitem", 2, "stores PyObject pointer in Python object"),
        ("__olive_py_setitem_int", 2, "stores PyObject pointer in Python object (int key)"),
        ("__olive_py_setattr", 2, "stores PyObject pointer as Python attribute"),
        (
            "__olive_list_extend",
            1,
            "source elements stored in target (lowered through per-element MIR, not direct call)",
        ),
        ("__olive_list_extend_typed", 1, "typed variant deep-copies elements internally"),
    ];
    for &(name, pos, reason) in store_sites {
        let in_re = runtime_escape(name, pos);
        let excluded = matches!(
            name,
            "__olive_cache_set"
                | "__olive_cache_set_tuple"
                | "__olive_py_setitem"
                | "__olive_py_setitem_int"
                | "__olive_py_setattr"
                | "__olive_list_extend"
                | "__olive_list_extend_typed"
        );
        assert!(
            excluded || in_re,
            "store-like builtin '{name}' at position {pos} not in RUNTIME_ESCAPES: {reason}"
        );
    }
}

#[test]
fn async_wrappers_do_not_transfer_caller_arguments() {
    let mut function = func_of(
        vec![decl(heap_ty(), true), decl(heap_ty(), false)],
        vec![assign(0, Rvalue::Aggregate(AggregateKind::List, vec![Operand::Copy(Local(1))]))],
    );
    function.arg_count = 1;
    assert_eq!(*compute_param_escapes(&[function.clone()]).flags("f").unwrap(), vec![true]);
    function.is_async = true;
    assert_eq!(*compute_param_escapes(&[function]).flags("f").unwrap(), vec![false]);
}

#[test]
fn foreign_async_parameters_keep_the_existing_escape_contract() {
    let mut function = func_of(
        vec![decl(heap_ty(), true), decl(Type::Struct("Foreign".into(), vec![], true), false)],
        vec![assign(0, Rvalue::Aggregate(AggregateKind::List, vec![Operand::Copy(Local(1))]))],
    );
    function.arg_count = 1;
    function.is_async = true;
    assert_eq!(*compute_param_escapes(&[function]).flags("f").unwrap(), vec![true]);
}

#[test]
fn runtime_store_position_decides_escape() {
    assert!(runtime_escape("__olive_list_append", 1));
    assert!(!runtime_escape("__olive_list_append", 0));
    assert!(runtime_escape("__olive_mutex_new", 0));
    assert!(!runtime_escape("__olive_list_len", 0));
}

#[test]
fn escape_follows_copies_and_callees() {
    // sink(a, b): appends b to a, so its second parameter escapes.
    let mut sink = named_func(
        "sink",
        vec![decl(Type::Int, true), decl(heap_ty(), false), decl(heap_ty(), false), decl(Type::Any, true)],
        vec![call(3, "__olive_list_append", vec![Operand::Copy(Local(1)), Operand::Copy(Local(2))])],
    );
    sink.arg_count = 2;
    // relay(x, y): copies y and hands the copy to sink's second slot.
    let mut relay = named_func(
        "relay",
        vec![
            decl(Type::Int, true),
            decl(heap_ty(), false),
            decl(heap_ty(), false),
            decl(heap_ty(), false),
            decl(Type::Any, true),
        ],
        vec![
            assign(3, Rvalue::Use(Operand::Copy(Local(2)))),
            call(4, "sink", vec![Operand::Copy(Local(1)), Operand::Move(Local(3))]),
        ],
    );
    relay.arg_count = 2;
    // pure(x): only reads its parameter.
    let mut pure = named_func(
        "pure",
        vec![decl(Type::Int, true), decl(Type::Int, false)],
        vec![assign(0, Rvalue::BinaryOp(BinOp::Add, Operand::Copy(Local(1)), Operand::Constant(Constant::Int(1))))],
    );
    pure.arg_count = 1;
    let table = compute_param_escapes(&[relay, sink, pure]);
    assert_eq!(*table.flags("sink").unwrap(), vec![false, true]);
    assert_eq!(*table.flags("relay").unwrap(), vec![false, true]);
    assert_eq!(*table.flags("pure").unwrap(), vec![false]);
    assert!(table.flags("missing").is_none());
}

#[test]
fn async_results_are_not_caller_borrows() {
    let mut function = func_of(
        vec![decl(heap_ty(), true), decl(heap_ty(), false)],
        vec![assign(0, Rvalue::Use(Operand::Copy(Local(1))))],
    );
    function.arg_count = 1;
    assert!(compute_borrowed_returns(&[function.clone()]).contains("f"));
    function.is_async = true;
    assert!(!compute_borrowed_returns(&[function]).contains("f"));
}

#[test]
fn borrowed_returns_follow_reads_and_callees() {
    // get(o): returns a field read out of its argument.
    let mut get = named_func(
        "get",
        vec![decl(heap_ty(), true), decl(Type::Any, false)],
        vec![assign(0, Rvalue::GetAttr(Operand::Copy(Local(1)), "items".to_string()))],
    );
    get.arg_count = 1;
    // wrap(): returns what `get` returns.
    let wrap = named_func(
        "wrap",
        vec![decl(heap_ty(), true), decl(Type::Any, true)],
        vec![call(0, "get", vec![Operand::Copy(Local(1))])],
    );
    // fresh(): builds a new list.
    let fresh = named_func(
        "fresh",
        vec![decl(heap_ty(), true)],
        vec![assign(0, Rvalue::Aggregate(AggregateKind::List, vec![]))],
    );
    // count(o): returns an integer, never a borrow.
    let mut count = named_func(
        "count",
        vec![decl(Type::Int, true), decl(heap_ty(), false)],
        vec![assign(0, Rvalue::Use(Operand::Copy(Local(1))))],
    );
    count.arg_count = 1;
    let b = compute_borrowed_returns(&[wrap, get, fresh, count]);
    assert!(b.contains("get"));
    assert!(b.contains("wrap"));
    assert!(!b.contains("fresh"));
    assert!(!b.contains("count"));
}
