//! GIL region fusion. Inside a block, a run of two or more statements that
//! touch Python objects, with nothing opaque between them, is wrapped in one
//! `__olive_py_gil_begin` / `__olive_py_gil_end` pair, from its first to its
//! last Python statement. Each inserted call writes a fresh `Null` local.
//!
//! A statement touches Python when it is a call of a `__olive_py_*` runtime
//! function (other than the GIL and lifecycle ones), an operation, attribute
//! or index access or cast on a `PyObject`, an attribute or index store into
//! one, or a drop of one. It is opaque when it is any other call, an
//! aggregate holding a `PyObject`, or a drop that may run a destructor;
//! everything else is neutral and may sit inside a region.

use super::Transform;
use crate::ir::{
    is_named, local_type, operand_local, spec_is_move_type, BasicBlock, Constant, Local, LocalDecl,
    MirFunction, Operand, Rvalue, Span, Statement, StatementKind, Type,
};
use vstd::prelude::*;
use vstd::string::{StrSliceExecFns, StringExecFns};

verus! {

pub struct GilFusion;

/// How a statement relates to the GIL.
#[derive(PartialEq, Eq, Clone, Copy, Structural)]
pub enum StmtClass {
    /// Lowers to a runtime call that takes the GIL itself.
    PyTouch,
    /// Never calls out; may sit inside a region.
    Neutral,
    /// Anything else; ends a run.
    Opaque,
}

/// `op` reads a local declared as a `PyObject`.
pub open spec fn is_py_operand(locals: Seq<LocalDecl>, op: Operand) -> bool {
    match operand_local(op) {
        Some(l) => local_type(locals, l) == Some(Type::PyObject),
        None => false,
    }
}

pub open spec fn py_prefix() -> Seq<char> {
    seq!['_', '_', 'o', 'l', 'i', 'v', 'e', '_', 'p', 'y', '_']
}

/// A `__olive_py_*` runtime function other than the GIL and lifecycle ones.
pub open spec fn is_py_runtime_call(name: Seq<char>) -> bool {
    &&& name.len() >= 11
    &&& name.subrange(0, 11) == py_prefix()
    &&& name != "__olive_py_gil_begin"@
    &&& name != "__olive_py_gil_end"@
    &&& name != "__olive_py_initialize"@
    &&& name != "__olive_py_finalize"@
}

pub open spec fn py_if(b: bool) -> StmtClass {
    if b {
        StmtClass::PyTouch
    } else {
        StmtClass::Neutral
    }
}

pub open spec fn rvalue_class(locals: Seq<LocalDecl>, rv: Rvalue) -> StmtClass {
    match rv {
        Rvalue::Call { func, .. } => match func {
            Operand::Constant(Constant::Function(name)) => if is_py_runtime_call(name@) {
                StmtClass::PyTouch
            } else {
                StmtClass::Opaque
            },
            _ => StmtClass::Opaque,
        },
        Rvalue::BinaryOp(_, l, r) => py_if(is_py_operand(locals, l) || is_py_operand(locals, r)),
        Rvalue::UnaryOp(_, o) => py_if(is_py_operand(locals, o)),
        Rvalue::GetAttr(o, _) => py_if(is_py_operand(locals, o)),
        Rvalue::GetIndex(o, _, _) => py_if(is_py_operand(locals, o)),
        Rvalue::Cast(o, ty) => py_if(is_py_operand(locals, o) || ty is PyObject),
        Rvalue::Aggregate(_, ops) => if exists|i: int|
            0 <= i < ops@.len() && #[trigger] is_py_operand(locals, ops@[i]) {
            StmtClass::Opaque
        } else {
            StmtClass::Neutral
        },
        _ => StmtClass::Neutral,
    }
}

/// The class of a statement. A drop of a local that is not declared is
/// taken as opaque.
pub open spec fn statement_class(locals: Seq<LocalDecl>, s: Statement) -> StmtClass {
    match s.kind {
        StatementKind::Assign(_, rv) => rvalue_class(locals, rv),
        StatementKind::Drop(l) => match local_type(locals, l.0) {
            Some(ty) => if ty is PyObject {
                StmtClass::PyTouch
            } else if !spec_is_move_type(ty) {
                StmtClass::Neutral
            } else {
                StmtClass::Opaque
            },
            None => StmtClass::Opaque,
        },
        StatementKind::SetAttr(o, _, _) => py_if(is_py_operand(locals, o)),
        StatementKind::SetIndex(o, _, _, _) => py_if(is_py_operand(locals, o)),
        _ => StmtClass::Neutral,
    }
}

pub open spec fn classes(locals: Seq<LocalDecl>, stmts: Seq<Statement>) -> Seq<StmtClass> {
    stmts.map_values(|s: Statement| statement_class(locals, s))
}

/// A `PyTouch` statement precedes position `i` in its run (no opaque one
/// between).
pub open spec fn py_before(c: Seq<StmtClass>, i: int) -> bool
    decreases i,
{
    if i <= 0 || i > c.len() {
        false
    } else if c[i - 1] == StmtClass::Opaque {
        false
    } else if c[i - 1] == StmtClass::PyTouch {
        true
    } else {
        py_before(c, i - 1)
    }
}

/// A `PyTouch` statement follows position `i` in its run.
pub open spec fn py_after(c: Seq<StmtClass>, i: int) -> bool
    decreases c.len() - i,
{
    if i < 0 || i + 1 >= c.len() {
        false
    } else if c[i + 1] == StmtClass::Opaque {
        false
    } else if c[i + 1] == StmtClass::PyTouch {
        true
    } else {
        py_after(c, i + 1)
    }
}

/// Position `i` is the first Python statement of a region.
pub open spec fn opens_region(c: Seq<StmtClass>, i: int) -> bool {
    c[i] == StmtClass::PyTouch && !py_before(c, i) && py_after(c, i)
}

/// Position `i` is the last Python statement of a region.
pub open spec fn closes_region(c: Seq<StmtClass>, i: int) -> bool {
    c[i] == StmtClass::PyTouch && py_before(c, i) && !py_after(c, i)
}

/// The GIL calls inserted before position `i`.
pub open spec fn calls_before(c: Seq<StmtClass>, i: int) -> nat
    decreases i,
{
    if i <= 0 {
        0
    } else {
        calls_before(c, i - 1) + (if opens_region(c, i - 1) {
            1nat
        } else {
            0nat
        }) + (if closes_region(c, i - 1) {
            1nat
        } else {
            0nat
        })
    }
}

pub open spec fn default_span() -> Span {
    Span { file_id: 0, line: 0, col: 0, start: 0, end: 0 }
}

/// `s` is `Local(sink) = name()`, at the default span.
pub open spec fn is_gil_call(s: Statement, sink: nat, name: Seq<char>) -> bool {
    &&& s.span == default_span()
    &&& s.kind matches StatementKind::Assign(d, Rvalue::Call { func, args })
    &&& d.0 == sink
    &&& func matches Operand::Constant(Constant::Function(n)) && n@ == name
    &&& args@.len() == 0
}

/// The declaration of a local an inserted call writes.
pub open spec fn is_sink_decl(d: LocalDecl) -> bool {
    &&& d.ty is Null
    &&& d.name is None
    &&& d.span == default_span()
    &&& !d.is_mut
    &&& !d.is_owning
}

/// Where statement `i` of a block classified as `c` lands after fusion.
pub open spec fn out_pos(c: Seq<StmtClass>, i: int) -> int {
    i + calls_before(c, i) + if opens_region(c, i) {
        1int
    } else {
        0int
    }
}

/// `b` is the block `a` after fusion, classified as `c`, its inserted
/// calls writing the locals numbered from `base` on, in order.
pub open spec fn fused(c: Seq<StmtClass>, a: Seq<Statement>, b: Seq<Statement>, base: nat) -> bool {
    &&& b.len() == a.len() + calls_before(c, a.len() as int)
    &&& forall|i: int|
        0 <= i < a.len() ==> {
            &&& b[#[trigger] out_pos(c, i)] == a[i]
            &&& opens_region(c, i) ==> is_gil_call(
                b[out_pos(c, i) - 1],
                base + calls_before(c, i),
                "__olive_py_gil_begin"@,
            )
            &&& closes_region(c, i) ==> is_gil_call(
                b[out_pos(c, i) + 1],
                base + calls_before(c, i),
                "__olive_py_gil_end"@,
            )
        }
}

/// The number of locals before the sinks of block `b` are added: the
/// original `n` plus the calls inserted in earlier blocks, each block
/// classified against the locals declared when it is reached.
pub open spec fn sink_base(n: nat, locals: Seq<LocalDecl>, blocks: Seq<BasicBlock>, b: int) -> nat
    decreases b,
{
    if b <= 0 {
        n
    } else {
        let prev = sink_base(n, locals, blocks, b - 1);
        let stmts = blocks[b - 1].statements@;
        prev + calls_before(classes(locals.subrange(0, prev as int), stmts), stmts.len() as int)
    }
}

fn py_operand(locals: &Vec<LocalDecl>, op: &Operand) -> (r: bool)
    ensures
        r == is_py_operand(locals@, *op),
{
    match op {
        Operand::Copy(l) | Operand::Move(l) => l.0 < locals.len() && matches!(locals[l.0].ty, Type::PyObject),
        Operand::Constant(_) => false,
    }
}

fn py_runtime_call(name: &String) -> (r: bool)
    ensures
        r == is_py_runtime_call(name@),
{
    let prefix = "__olive_py_";
    proof {
        reveal_strlit("__olive_py_");
    }
    assert(prefix@ == py_prefix());
    let s = name.as_str();
    let n = s.unicode_len();
    if n < 11 {
        return false;
    }
    let mut k: usize = 0;
    while k < 11
        invariant
            n == name@.len(),
            s@ == name@,
            n >= 11,
            0 <= k <= 11,
            prefix@ == py_prefix(),
            forall|q: int| 0 <= q < k ==> name@[q] == py_prefix()[q],
        decreases 11 - k,
    {
        if s.get_char(k) != prefix.get_char(k) {
            assert(name@.subrange(0, 11)[k as int] != py_prefix()[k as int]);
            return false;
        }
        k = k + 1;
    }
    assert(name@.subrange(0, 11) =~= py_prefix());
    !is_named(name, "__olive_py_gil_begin") && !is_named(name, "__olive_py_gil_end") && !is_named(
        name,
        "__olive_py_initialize",
    ) && !is_named(name, "__olive_py_finalize")
}

fn rvalue_class_of(locals: &Vec<LocalDecl>, rv: &Rvalue) -> (c: StmtClass)
    ensures
        c == rvalue_class(locals@, *rv),
{
    match rv {
        Rvalue::Call { func, .. } => match func {
            Operand::Constant(Constant::Function(name)) => if py_runtime_call(name) {
                StmtClass::PyTouch
            } else {
                StmtClass::Opaque
            },
            _ => StmtClass::Opaque,
        },
        Rvalue::BinaryOp(_, l, r) => if py_operand(locals, l) || py_operand(locals, r) {
            StmtClass::PyTouch
        } else {
            StmtClass::Neutral
        },
        Rvalue::UnaryOp(_, o) | Rvalue::GetAttr(o, _) | Rvalue::GetIndex(o, _, _) => if py_operand(
            locals,
            o,
        ) {
            StmtClass::PyTouch
        } else {
            StmtClass::Neutral
        },
        Rvalue::Cast(o, ty) => if py_operand(locals, o) || matches!(ty, Type::PyObject) {
            StmtClass::PyTouch
        } else {
            StmtClass::Neutral
        },
        Rvalue::Aggregate(_, ops) => {
            let mut i: usize = 0;
            while i < ops.len()
                invariant
                    0 <= i <= ops@.len(),
                    *rv == Rvalue::Aggregate((*rv)->Aggregate_0, *ops),
                    forall|k: int| 0 <= k < i ==> !#[trigger] is_py_operand(locals@, ops@[k]),
                decreases ops.len() - i,
            {
                if py_operand(locals, &ops[i]) {
                    assert(is_py_operand(locals@, ops@[i as int]));
                    return StmtClass::Opaque;
                }
                i = i + 1;
            }
            StmtClass::Neutral
        },
        _ => StmtClass::Neutral,
    }
}

fn statement_class_of(locals: &Vec<LocalDecl>, s: &Statement) -> (c: StmtClass)
    ensures
        c == statement_class(locals@, *s),
{
    match &s.kind {
        StatementKind::Assign(_, rv) => rvalue_class_of(locals, rv),
        StatementKind::Drop(l) => {
            if l.0 < locals.len() {
                let ty = &locals[l.0].ty;
                if matches!(ty, Type::PyObject) {
                    StmtClass::PyTouch
                } else if !ty.is_move_type() {
                    StmtClass::Neutral
                } else {
                    StmtClass::Opaque
                }
            } else {
                StmtClass::Opaque
            }
        },
        StatementKind::SetAttr(o, _, _) | StatementKind::SetIndex(o, _, _, _) => if py_operand(locals, o) {
            StmtClass::PyTouch
        } else {
            StmtClass::Neutral
        },
        _ => StmtClass::Neutral,
    }
}

/// The region boundaries of a block classified as `c`: whether each
/// position opens a region, and whether it closes one.
fn region_flags(c: &Vec<StmtClass>) -> (r: (Vec<bool>, Vec<bool>))
    ensures
        r.0@.len() == c@.len(),
        r.1@.len() == c@.len(),
        forall|i: int| 0 <= i < c@.len() ==> r.0@[i] == opens_region(c@, i),
        forall|i: int| 0 <= i < c@.len() ==> r.1@[i] == closes_region(c@, i),
{
    let n = c.len();
    let mut before: Vec<bool> = Vec::new();
    let mut seen = false;
    let mut i: usize = 0;
    while i < n
        invariant
            n == c@.len(),
            0 <= i <= n,
            before@.len() == i,
            seen == py_before(c@, i as int),
            forall|k: int| 0 <= k < i ==> before@[k] == py_before(c@, k),
        decreases n - i,
    {
        before.push(seen);
        if c[i] == StmtClass::Opaque {
            seen = false;
        } else if c[i] == StmtClass::PyTouch {
            seen = true;
        }
        i = i + 1;
    }
    let mut after_rev: Vec<bool> = Vec::new();
    let mut ahead = false;
    let mut j: usize = n;
    while j > 0
        invariant
            n == c@.len(),
            0 <= j <= n,
            after_rev@.len() == n - j,
            j > 0 ==> ahead == py_after(c@, j - 1),
            forall|k: int| j <= k < n ==> after_rev@[n - 1 - k] == py_after(c@, k),
        decreases j,
    {
        after_rev.push(ahead);
        let k = j - 1;
        if c[k] == StmtClass::Opaque {
            ahead = false;
        } else if c[k] == StmtClass::PyTouch {
            ahead = true;
        }
        j = j - 1;
    }
    let mut opens: Vec<bool> = Vec::new();
    let mut closes: Vec<bool> = Vec::new();
    i = 0;
    while i < n
        invariant
            n == c@.len(),
            0 <= i <= n,
            before@.len() == n,
            after_rev@.len() == n,
            forall|k: int| 0 <= k < n ==> before@[k] == py_before(c@, k),
            forall|k: int| 0 <= k < n ==> after_rev@[n - 1 - k] == py_after(c@, k),
            opens@.len() == i,
            closes@.len() == i,
            forall|k: int| 0 <= k < i ==> opens@[k] == opens_region(c@, k),
            forall|k: int| 0 <= k < i ==> closes@[k] == closes_region(c@, k),
        decreases n - i,
    {
        let py = c[i] == StmtClass::PyTouch;
        let b = before[i];
        let a = after_rev[n - 1 - i];
        opens.push(py && !b && a);
        closes.push(py && b && !a);
        i = i + 1;
    }
    (opens, closes)
}

/// `Local(sink) = name()`.
fn gil_call(sink: Local, name: &str) -> (s: Statement)
    ensures
        is_gil_call(s, sink.0 as nat, name@),
{
    Statement {
        kind: StatementKind::Assign(
            sink,
            Rvalue::Call {
                func: Operand::Constant(Constant::Function(String::from_str(name))),
                args: Vec::new(),
            },
        ),
        span: Span::default(),
    }
}

/// Declares a fresh local for an inserted call to write.
fn new_sink(locals: &mut Vec<LocalDecl>) -> (l: Local)
    ensures
        final(locals)@.len() == old(locals)@.len() + 1,
        final(locals)@.subrange(0, old(locals)@.len() as int) == old(locals)@,
        is_sink_decl(final(locals)@[old(locals)@.len() as int]),
        l.0 == old(locals)@.len(),
{
    let l = Local(locals.len());
    locals.push(LocalDecl {
        ty: Type::Null,
        name: None,
        span: Span::default(),
        is_mut: false,
        is_owning: false,
    });
    assert(locals@.subrange(0, old(locals)@.len() as int) =~= old(locals)@);
    l
}

fn block_classes(locals: &Vec<LocalDecl>, stmts: &Vec<Statement>) -> (c: Vec<StmtClass>)
    ensures
        c@ == classes(locals@, stmts@),
{
    let mut c: Vec<StmtClass> = Vec::new();
    let mut i: usize = 0;
    while i < stmts.len()
        invariant
            0 <= i <= stmts@.len(),
            c@.len() == i,
            forall|k: int| 0 <= k < i ==> c@[k] == statement_class(locals@, #[trigger] stmts@[k]),
        decreases stmts.len() - i,
    {
        c.push(statement_class_of(locals, &stmts[i]));
        i = i + 1;
    }
    assert(c@ =~= classes(locals@, stmts@));
    c
}

/// Fusion of block `b`, its sinks declared after the current locals.
#[verifier::spinoff_prover]
#[verifier::rlimit(40)]
fn fuse_block(func: &mut MirFunction, b: usize) -> (changed: bool)
    requires
        b < old(func).basic_blocks@.len(),
    ensures
        ({
            let a = old(func).basic_blocks@[b as int].statements@;
            let c = classes(old(func).locals@, a);
            let base = old(func).locals@.len();
            &&& final(func).basic_blocks@.len() == old(func).basic_blocks@.len()
            &&& forall|k: int| 0 <= k < old(func).basic_blocks@.len() && k != b ==> #[trigger] final(func).basic_blocks@[k]
                == old(func).basic_blocks@[k]
            &&& final(func).basic_blocks@[b as int].terminator == old(func).basic_blocks@[b as int].terminator
            &&& fused(c, a, final(func).basic_blocks@[b as int].statements@, base)
            &&& final(func).locals@.len() == base + calls_before(c, a.len() as int)
            &&& final(func).locals@.subrange(0, base as int) == old(func).locals@
            &&& forall|k: int| base <= k < final(func).locals@.len() ==> is_sink_decl(#[trigger] final(func).locals@[k])
            &&& changed == exists|i: int| 0 <= i < a.len() && #[trigger] opens_region(c, i)
        }),
        final(func).name == old(func).name,
        final(func).arg_count == old(func).arg_count,
        final(func).vararg_idx == old(func).vararg_idx,
        final(func).kwarg_idx == old(func).kwarg_idx,
        final(func).param_names == old(func).param_names,
        final(func).is_async == old(func).is_async,
{
    let ghost old_blocks = func.basic_blocks@;
    let ghost old_locals = func.locals@;
    let ghost base = old_locals.len();
    let mut bb = BasicBlock { statements: Vec::new(), terminator: None };
    func.basic_blocks.set_and_swap(b, &mut bb);
    let ghost a = bb.statements@;
    let c = block_classes(&func.locals, &bb.statements);
    let (opens, closes) = region_flags(&c);
    let n = bb.statements.len();
    let mut new_stmts: Vec<Statement> = Vec::new();
    let mut changed = false;
    let mut i: usize = 0;
    while i < n
        invariant
            n == a.len(),
            c@ == classes(old_locals, a),
            opens@.len() == n,
            closes@.len() == n,
            forall|k: int| 0 <= k < n ==> opens@[k] == opens_region(c@, k),
            forall|k: int| 0 <= k < n ==> closes@[k] == closes_region(c@, k),
            bb.statements@.len() == n,
            forall|k: int| i <= k < n ==> bb.statements@[k] == a[k],
            bb.terminator == old_blocks[b as int].terminator,
            0 <= i <= n,
            new_stmts@.len() == i + calls_before(c@, i as int),
            func.locals@.len() == base + calls_before(c@, i as int),
            func.locals@.subrange(0, base as int) == old_locals,
            forall|k: int| base <= k < func.locals@.len() ==> is_sink_decl(#[trigger] func.locals@[k]),
            forall|k: int|
                0 <= k < i ==> {
                    &&& new_stmts@[#[trigger] out_pos(c@, k)] == a[k]
                    &&& opens_region(c@, k) ==> is_gil_call(
                        new_stmts@[out_pos(c@, k) - 1],
                        base + calls_before(c@, k),
                        "__olive_py_gil_begin"@,
                    )
                    &&& closes_region(c@, k) ==> is_gil_call(
                        new_stmts@[out_pos(c@, k) + 1],
                        base + calls_before(c@, k),
                        "__olive_py_gil_end"@,
                    )
                },
            changed == exists|k: int| 0 <= k < i && #[trigger] opens_region(c@, k),
            func.basic_blocks@ == old_blocks.update(b as int, func.basic_blocks@[b as int]),
            func.basic_blocks@.len() == old_blocks.len(),
            b < old_blocks.len(),
            func.name == old(func).name,
            func.arg_count == old(func).arg_count,
            func.vararg_idx == old(func).vararg_idx,
            func.kwarg_idx == old(func).kwarg_idx,
            func.param_names == old(func).param_names,
            func.is_async == old(func).is_async,
        decreases n - i,
    {
        let ghost before = new_stmts@;
        let ghost locals_before = func.locals@;
        if opens[i] {
            let sink = new_sink(&mut func.locals);
            new_stmts.push(gil_call(sink, "__olive_py_gil_begin"));
            changed = true;
        }
        let mut st = Statement {
            kind: StatementKind::StorageLive(Local(0)),
            span: Span::default(),
        };
        bb.statements.set_and_swap(i, &mut st);
        new_stmts.push(st);
        if closes[i] {
            let sink = new_sink(&mut func.locals);
            new_stmts.push(gil_call(sink, "__olive_py_gil_end"));
        }
        proof {
            assert(out_pos(c@, i as int) == before.len() + if opens_region(c@, i as int) {
                1int
            } else {
                0int
            });
            assert forall|k: int| base <= k < func.locals@.len() implies is_sink_decl(#[trigger] func.locals@[k]) by {
                if k < locals_before.len() {
                    assert(func.locals@[k] == locals_before[k]);
                }
            }
            assert(func.locals@.subrange(0, base as int) =~= old_locals) by {
                assert forall|k: int| 0 <= k < base implies func.locals@[k] == old_locals[k] by {
                    assert(func.locals@[k] == locals_before[k]);
                    assert(locals_before.subrange(0, base as int)[k] == locals_before[k]);
                }
            }
            assert forall|k: int| 0 <= k < i + 1 implies {
                &&& new_stmts@[#[trigger] out_pos(c@, k)] == a[k]
                &&& opens_region(c@, k) ==> is_gil_call(
                    new_stmts@[out_pos(c@, k) - 1],
                    base + calls_before(c@, k),
                    "__olive_py_gil_begin"@,
                )
                &&& closes_region(c@, k) ==> is_gil_call(
                    new_stmts@[out_pos(c@, k) + 1],
                    base + calls_before(c@, k),
                    "__olive_py_gil_end"@,
                )
            } by {
                if k < i {
                    assert(out_pos(c@, k) + 1 < before.len() || !closes_region(c@, k)) by {
                        if closes_region(c@, k) {
                            lemma_calls_mono(c@, k + 1, i as int);
                        }
                    }
                    lemma_calls_mono(c@, k + 1, i as int);
                    assert(new_stmts@[out_pos(c@, k)] == before[out_pos(c@, k)]);
                }
            }
        }
        i = i + 1;
    }
    bb.statements = new_stmts;
    func.basic_blocks.set_and_swap(b, &mut bb);
    proof {
        assert forall|k: int| 0 <= k < old_blocks.len() && k != b implies #[trigger] func.basic_blocks@[k]
            == old_blocks[k] by {
            assert(func.basic_blocks@[k] == old_blocks.update(b as int, func.basic_blocks@[b as int])[k]);
        }
    }
    changed
}

proof fn lemma_calls_mono(c: Seq<StmtClass>, i: int, j: int)
    requires
        0 <= i <= j,
    ensures
        calls_before(c, i) <= calls_before(c, j),
        i < j ==> calls_before(c, i) + (if opens_region(c, i) {
            1nat
        } else {
            0nat
        }) + (if closes_region(c, i) {
            1nat
        } else {
            0nat
        }) <= calls_before(c, j),
    decreases j - i,
{
    if i < j {
        lemma_calls_mono(c, i + 1, j);
    }
}

proof fn lemma_sink_base_grows(n: nat, locals: Seq<LocalDecl>, blocks: Seq<BasicBlock>, i: int, j: int)
    requires
        0 <= i <= j,
    ensures
        sink_base(n, locals, blocks, i) <= sink_base(n, locals, blocks, j),
    decreases j - i,
{
    if i < j {
        lemma_sink_base_grows(n, locals, blocks, i, j - 1);
    }
}

/// `sink_base` only looks at the locals below the base it computes.
proof fn lemma_sink_base_prefix(
    n: nat,
    l1: Seq<LocalDecl>,
    l2: Seq<LocalDecl>,
    blocks: Seq<BasicBlock>,
    b: int,
)
    requires
        0 <= b,
        sink_base(n, l1, blocks, b) <= l1.len(),
        sink_base(n, l1, blocks, b) <= l2.len(),
        l1.subrange(0, sink_base(n, l1, blocks, b) as int) == l2.subrange(
            0,
            sink_base(n, l1, blocks, b) as int,
        ),
    ensures
        sink_base(n, l2, blocks, b) == sink_base(n, l1, blocks, b),
    decreases b,
{
    if b > 0 {
        let prev = sink_base(n, l1, blocks, b - 1);
        lemma_sink_base_grows(n, l1, blocks, b - 1, b);
        assert(l1.subrange(0, prev as int) =~= l2.subrange(0, prev as int)) by {
            assert forall|k: int| 0 <= k < prev implies l1.subrange(0, prev as int)[k] == l2.subrange(
                0,
                prev as int,
            )[k] by {
                assert(l1.subrange(0, sink_base(n, l1, blocks, b) as int)[k] == l1[k]);
                assert(l2.subrange(0, sink_base(n, l1, blocks, b) as int)[k] == l2[k]);
            }
        }
        lemma_sink_base_prefix(n, l1, l2, blocks, b - 1);
    }
}

impl Transform for GilFusion {
    open spec fn accepts(&self, func: MirFunction) -> bool {
        true
    }

    /// Each block is fused (`fused`) in order, its inserted calls writing
    /// new `Null` locals numbered on from those of earlier blocks.
    #[verifier::spinoff_prover]
    #[verifier::rlimit(30)]
    fn run(&self, func: &mut MirFunction) -> (changed: bool)
        ensures
            final(func).name == old(func).name,
            final(func).arg_count == old(func).arg_count,
            final(func).vararg_idx == old(func).vararg_idx,
            final(func).kwarg_idx == old(func).kwarg_idx,
            final(func).param_names == old(func).param_names,
            final(func).is_async == old(func).is_async,
            final(func).locals@.subrange(0, old(func).locals@.len() as int) == old(func).locals@,
            forall|k: int|
                old(func).locals@.len() <= k < final(func).locals@.len() ==> is_sink_decl(
                    #[trigger] final(func).locals@[k],
                ),
            final(func).locals@.len() == sink_base(
                old(func).locals@.len(),
                final(func).locals@,
                old(func).basic_blocks@,
                old(func).basic_blocks@.len() as int,
            ),
            final(func).basic_blocks@.len() == old(func).basic_blocks@.len(),
            forall|b: int|
                0 <= b < old(func).basic_blocks@.len() ==> {
                    let base = sink_base(
                        old(func).locals@.len(),
                        final(func).locals@,
                        old(func).basic_blocks@,
                        b,
                    );
                    let a = old(func).basic_blocks@[b].statements@;
                    &&& #[trigger] final(func).basic_blocks@[b].terminator == old(func).basic_blocks@[b].terminator
                    &&& fused(
                        classes(final(func).locals@.subrange(0, base as int), a),
                        a,
                        final(func).basic_blocks@[b].statements@,
                        base,
                    )
                },
            changed == exists|b: int, i: int|
                0 <= b < old(func).basic_blocks@.len() && 0 <= i < old(func).basic_blocks@[b].statements@.len()
                    && #[trigger] opens_region(
                    classes(
                        final(func).locals@.subrange(
                            0,
                            sink_base(
                                old(func).locals@.len(),
                                final(func).locals@,
                                old(func).basic_blocks@,
                                b,
                            ) as int,
                        ),
                        old(func).basic_blocks@[b].statements@,
                    ),
                    i,
                ),
    {
        let ghost old_blocks = func.basic_blocks@;
        let ghost n0 = func.locals@.len();
        let mut changed = false;
        let mut b: usize = 0;
        while b < func.basic_blocks.len()
            invariant
                func.basic_blocks@.len() == old_blocks.len(),
                0 <= b <= old_blocks.len(),
                old_blocks == old(func).basic_blocks@,
                n0 == old(func).locals@.len(),
                n0 <= func.locals@.len(),
                func.name == old(func).name,
                func.arg_count == old(func).arg_count,
                func.vararg_idx == old(func).vararg_idx,
                func.kwarg_idx == old(func).kwarg_idx,
                func.param_names == old(func).param_names,
                func.is_async == old(func).is_async,
                func.locals@.subrange(0, n0 as int) == old(func).locals@,
                forall|k: int| n0 <= k < func.locals@.len() ==> is_sink_decl(#[trigger] func.locals@[k]),
                func.locals@.len() == sink_base(n0, func.locals@, old_blocks, b as int),
                forall|k: int| b <= k < old_blocks.len() ==> #[trigger] func.basic_blocks@[k] == old_blocks[k],
                forall|k: int|
                    0 <= k < b ==> {
                        let base = sink_base(n0, func.locals@, old_blocks, k);
                        let a = old_blocks[k].statements@;
                        &&& #[trigger] func.basic_blocks@[k].terminator == old_blocks[k].terminator
                        &&& fused(
                            classes(func.locals@.subrange(0, base as int), a),
                            a,
                            func.basic_blocks@[k].statements@,
                            base,
                        )
                    },
                changed == exists|k: int, i: int|
                    0 <= k < b && 0 <= i < old_blocks[k].statements@.len() && #[trigger] opens_region(
                        classes(
                            func.locals@.subrange(0, sink_base(n0, func.locals@, old_blocks, k) as int),
                            old_blocks[k].statements@,
                        ),
                        i,
                    ),
            decreases old_blocks.len() - b,
        {
            let ghost locals_before = func.locals@;
            let ghost blocks_before = func.basic_blocks@;
            let c = fuse_block(func, b);
            proof {
                let l2 = func.locals@;
                let a = old_blocks[b as int].statements@;
                assert(blocks_before[b as int] == old_blocks[b as int]);
                assert(l2.subrange(0, locals_before.len() as int) =~= locals_before);
                assert forall|k: int| 0 <= k <= b implies sink_base(n0, l2, old_blocks, k) == sink_base(
                    n0,
                    locals_before,
                    old_blocks,
                    k,
                ) by {
                    lemma_sink_base_grows(n0, locals_before, old_blocks, k, b as int);
                    let sb = sink_base(n0, locals_before, old_blocks, k);
                    assert(locals_before.subrange(0, sb as int) =~= l2.subrange(0, sb as int)) by {
                        assert forall|q: int| 0 <= q < sb implies locals_before.subrange(0, sb as int)[q]
                            == l2.subrange(0, sb as int)[q] by {
                            assert(l2.subrange(0, locals_before.len() as int)[q] == l2[q]);
                        }
                    }
                    lemma_sink_base_prefix(n0, locals_before, l2, old_blocks, k);
                }
                assert(locals_before.subrange(0, locals_before.len() as int) =~= locals_before);
                assert(l2.subrange(0, locals_before.len() as int) =~= locals_before);
                assert(sink_base(n0, l2, old_blocks, b + 1) == l2.len());
                assert forall|k: int| 0 <= k < b + 1 implies classes(
                    l2.subrange(0, sink_base(n0, l2, old_blocks, k) as int),
                    old_blocks[k].statements@,
                ) == classes(
                    locals_before.subrange(0, sink_base(n0, locals_before, old_blocks, k) as int),
                    old_blocks[k].statements@,
                ) by {
                    lemma_sink_base_grows(n0, locals_before, old_blocks, k, b as int);
                    let sb = sink_base(n0, locals_before, old_blocks, k);
                    assert(l2.subrange(0, sb as int) =~= locals_before.subrange(0, sb as int)) by {
                        assert forall|q: int| 0 <= q < sb implies l2.subrange(0, sb as int)[q]
                            == locals_before.subrange(0, sb as int)[q] by {
                            assert(l2.subrange(0, locals_before.len() as int)[q] == l2[q]);
                        }
                    }
                }
                assert forall|k: int| n0 <= k < l2.len() implies is_sink_decl(#[trigger] l2[k]) by {
                    if k < locals_before.len() {
                        assert(l2.subrange(0, locals_before.len() as int)[k] == l2[k]);
                    }
                }
                assert(l2.subrange(0, n0 as int) =~= old(func).locals@) by {
                    assert forall|q: int| 0 <= q < n0 implies l2.subrange(0, n0 as int)[q] == old(func).locals@[q] by {
                        assert(l2.subrange(0, locals_before.len() as int)[q] == l2[q]);
                        assert(locals_before.subrange(0, n0 as int)[q] == locals_before[q]);
                    }
                }
            }
            changed = changed || c;
            b = b + 1;
        }
        changed
    }
}


/// The next `PyTouch` after `m`, with only neutral statements between, when
/// `py_after(c, m)` holds.
proof fn lemma_py_after_next(c: Seq<StmtClass>, m: int) -> (n: int)
    requires
        py_after(c, m),
    ensures
        m < n < c.len(),
        c[n] == StmtClass::PyTouch,
        forall|k: int| m < k < n ==> c[k] == StmtClass::Neutral,
    decreases c.len() - m,
{
    if c[m + 1] == StmtClass::PyTouch {
        m + 1
    } else {
        let n = lemma_py_after_next(c, m + 1);
        n
    }
}

/// A `PyTouch` at `m` followed by neutral statements up to `n` puts a
/// `PyTouch` before `n`.
proof fn lemma_py_before_from(c: Seq<StmtClass>, m: int, n: int)
    requires
        0 <= m < n <= c.len(),
        c[m] == StmtClass::PyTouch,
        forall|k: int| m < k < n ==> c[k] == StmtClass::Neutral,
    ensures
        py_before(c, n),
    decreases n - m,
{
    if n - 1 > m {
        lemma_py_before_from(c, m, n - 1);
    }
}

/// From a `PyTouch` at `m` that has one before it in its run, the run goes
/// on to a statement that closes the region, with nothing opaque, and no
/// statement opening or closing a region, in between.
proof fn lemma_run_closes(c: Seq<StmtClass>, m: int) -> (j: int)
    requires
        0 <= m < c.len(),
        c[m] == StmtClass::PyTouch,
        py_before(c, m),
    ensures
        m <= j < c.len(),
        closes_region(c, j),
        forall|k: int| m <= k <= j ==> c[k] != StmtClass::Opaque,
        forall|k: int| m <= k < j ==> !opens_region(c, k) && !closes_region(c, k),
    decreases c.len() - m,
{
    if !py_after(c, m) {
        m
    } else {
        let n = lemma_py_after_next(c, m);
        lemma_py_before_from(c, m, n);
        let j = lemma_run_closes(c, n);
        assert forall|k: int| m <= k < j implies !opens_region(c, k) && !closes_region(c, k) by {
            if k >= n {
            } else if k == m {
            } else {
                assert(c[k] == StmtClass::Neutral);
            }
        }
        j
    }
}

/// Every GIL region that fusion opens is closed later in the same block: the
/// region starts and ends on statements that touch Python (so it holds at
/// least two), contains nothing opaque, and no other region opens or closes
/// inside it.
pub proof fn lemma_region_closes(c: Seq<StmtClass>, i: int)
    requires
        0 <= i < c.len(),
        opens_region(c, i),
    ensures
        exists|j: int|
            i < j < c.len() && #[trigger] closes_region(c, j) && c[i] == StmtClass::PyTouch && c[j]
                == StmtClass::PyTouch && (forall|k: int| i <= k <= j ==> c[k] != StmtClass::Opaque) && (
            forall|k: int| i < k < j ==> !opens_region(c, k) && !closes_region(c, k)),
{
    let n = lemma_py_after_next(c, i);
    lemma_py_before_from(c, i, n);
    let j = lemma_run_closes(c, n);
    assert forall|k: int| i < k < j implies !opens_region(c, k) && !closes_region(c, k) by {
        if k < n {
            assert(c[k] == StmtClass::Neutral);
        }
    }
    assert(closes_region(c, j));
}

/// Every GIL region that fusion closes was opened earlier in the same block,
/// with nothing opaque in between.
pub proof fn lemma_region_opened(c: Seq<StmtClass>, j: int)
    requires
        0 <= j < c.len(),
        closes_region(c, j),
    ensures
        exists|i: int|
            0 <= i < j && #[trigger] opens_region(c, i) && (forall|k: int|
                i <= k <= j ==> c[k] != StmtClass::Opaque),
    decreases j,
{
    let m = lemma_py_before_prev(c, j);
    if !py_before(c, m) {
        assert(py_after(c, m)) by {
            lemma_py_after_from(c, m, j);
        }
        assert(opens_region(c, m));
    } else {
        lemma_region_opened_from(c, m, j);
    }
}

/// The last `PyTouch` before `j`, with only neutral statements between,
/// when `py_before(c, j)` holds.
proof fn lemma_py_before_prev(c: Seq<StmtClass>, j: int) -> (m: int)
    requires
        py_before(c, j),
    ensures
        0 <= m < j <= c.len(),
        c[m] == StmtClass::PyTouch,
        forall|k: int| m < k < j ==> c[k] == StmtClass::Neutral,
    decreases j,
{
    if c[j - 1] == StmtClass::PyTouch {
        j - 1
    } else {
        lemma_py_before_prev(c, j - 1)
    }
}

/// A `PyTouch` at `n` preceded by neutral statements back to `m` puts a
/// `PyTouch` after `m`.
proof fn lemma_py_after_from(c: Seq<StmtClass>, m: int, n: int)
    requires
        0 <= m < n < c.len(),
        c[n] == StmtClass::PyTouch,
        forall|k: int| m < k < n ==> c[k] == StmtClass::Neutral,
    ensures
        py_after(c, m),
    decreases n - m,
{
    if m + 1 < n {
        lemma_py_after_from(c, m + 1, n);
    }
}

/// Walking back from a `PyTouch` at `m` that has one before it, in a run
/// that goes on to `j`, reaches the statement that opened the region.
proof fn lemma_region_opened_from(c: Seq<StmtClass>, m: int, j: int)
    requires
        0 <= m < j < c.len(),
        c[m] == StmtClass::PyTouch,
        py_before(c, m),
        forall|k: int| m <= k <= j ==> c[k] != StmtClass::Opaque,
    ensures
        exists|i: int|
            0 <= i < j && #[trigger] opens_region(c, i) && (forall|k: int|
                i <= k <= j ==> c[k] != StmtClass::Opaque),
    decreases m,
{
    let p = lemma_py_before_prev(c, m);
    lemma_py_after_from(c, p, m);
    if !py_before(c, p) {
        assert(opens_region(c, p));
    } else {
        lemma_region_opened_from(c, p, j);
    }
}


/// `s` is one of the GIL calls fusion inserts.
pub open spec fn is_gil_marker(s: Statement) -> bool {
    exists|k: nat| is_gil_call(s, k, "__olive_py_gil_begin"@) || is_gil_call(s, k, "__olive_py_gil_end"@)
}

/// Statement `i + 1` lands one place after statement `i`, plus the calls
/// inserted between them.
proof fn lemma_out_pos_step(c: Seq<StmtClass>, i: int)
    requires
        0 <= i,
    ensures
        out_pos(c, i + 1) == out_pos(c, i) + 1 + (if closes_region(c, i) {
            1int
        } else {
            0int
        }) + (if opens_region(c, i + 1) {
            1int
        } else {
            0int
        }),
{
}

/// Statements keep their order.
proof fn lemma_out_pos_mono(c: Seq<StmtClass>, i: int, j: int)
    requires
        0 <= i < j,
    ensures
        out_pos(c, i) < out_pos(c, j),
    decreases j - i,
{
    lemma_out_pos_step(c, j - 1);
    if i < j - 1 {
        lemma_out_pos_mono(c, i, j - 1);
    }
}

/// The last statement at or before position `p` of the fused block.
proof fn lemma_slot(c: Seq<StmtClass>, p: int, k: int) -> (i: int)
    requires
        0 <= k,
        out_pos(c, 0) <= p,
    ensures
        0 <= i <= k,
        out_pos(c, i) <= p,
        i < k ==> p < out_pos(c, i + 1),
    decreases k,
{
    if out_pos(c, k) <= p {
        k
    } else {
        lemma_slot(c, p, k - 1)
    }
}

/// Fusion only inserts GIL calls: the block's statements all stay, in their
/// order, and every other statement of the fused block is a
/// `__olive_py_gil_begin` or `__olive_py_gil_end` call.
pub proof fn lemma_fusion_only_inserts(c: Seq<StmtClass>, a: Seq<Statement>, b: Seq<Statement>, base: nat)
    requires
        c.len() == a.len(),
        fused(c, a, b, base),
    ensures
        forall|i: int, j: int| 0 <= i < j < a.len() ==> out_pos(c, i) < out_pos(c, j),
        forall|i: int| 0 <= i < a.len() ==> 0 <= #[trigger] out_pos(c, i) < b.len() && b[out_pos(c, i)] == a[i],
        forall|p: int|
            0 <= p < b.len() ==> (exists|i: int| 0 <= i < a.len() && #[trigger] out_pos(c, i) == p)
                || is_gil_marker(b[p]),
{
    let n = a.len() as int;
    assert forall|i: int, j: int| 0 <= i < j < a.len() implies out_pos(c, i) < out_pos(c, j) by {
        lemma_out_pos_mono(c, i, j);
    }
    if n > 0 {
        assert(calls_before(c, n) == calls_before(c, n - 1) + (if opens_region(c, n - 1) {
            1nat
        } else {
            0nat
        }) + (if closes_region(c, n - 1) {
            1nat
        } else {
            0nat
        }));
        assert(out_pos(c, n - 1) < b.len());
    }
    assert forall|i: int| 0 <= i < a.len() implies 0 <= #[trigger] out_pos(c, i) < b.len() && b[out_pos(c, i)]
        == a[i] by {
        if i < n - 1 {
            lemma_out_pos_mono(c, i, n - 1);
        }
    }
    assert forall|p: int| 0 <= p < b.len() implies (exists|i: int| 0 <= i < a.len() && #[trigger] out_pos(c, i) == p)
        || is_gil_marker(b[p]) by {
        if n == 0 {
        } else if p < out_pos(c, 0) {
            assert(opens_region(c, 0) && p == 0);
            assert(is_gil_call(b[p], base + calls_before(c, 0), "__olive_py_gil_begin"@));
        } else {
            let i = lemma_slot(c, p, n - 1);
            if out_pos(c, i) == p {
            } else if i == n - 1 {
                assert(closes_region(c, i));
                assert(p == out_pos(c, i) + 1);
                assert(is_gil_call(b[p], base + calls_before(c, i), "__olive_py_gil_end"@));
            } else {
                lemma_out_pos_step(c, i);
                if closes_region(c, i) && p == out_pos(c, i) + 1 {
                    assert(is_gil_call(b[p], base + calls_before(c, i), "__olive_py_gil_end"@));
                } else {
                    assert(opens_region(c, i + 1) && p == out_pos(c, i + 1) - 1);
                    assert(is_gil_call(b[p], base + calls_before(c, i + 1), "__olive_py_gil_begin"@));
                }
            }
        }
    }
}

} // verus!
