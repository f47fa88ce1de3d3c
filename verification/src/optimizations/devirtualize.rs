//! Devirtualization of trait-object dispatch. A fat-pointer record built
//! once, from a struct local and a known vtable, and used only in ways the
//! pass can follow (method loads, data reads, plain copies, drops) is
//! resolved at compile time: method loads become the method's function,
//! calls through them become direct, data reads read the struct local, the
//! record's drop drops the struct, and the record and its copies are left
//! for dead-code elimination.

use super::assigns::{count_local, defs_wf, gather_defs, single_def, single_def_of, singles, Defs};
use super::copy_prop::statements_assign_count;
use super::scalarize::{flat, lemma_flat_all, lemma_flat_index, lemma_flat_step, operand_is, rvalue_references};
use super::Transform;
use crate::fx::{index_set_contents, vtables_contents, IndexSet, VTables};
use crate::ir::{
    copy_type, operand_local, operand_local_of, same_except_blocks, type_view, AggregateKind,
    BasicBlock, Constant, Local, LocalDecl, MirFunction, Operand, Rvalue, Statement, StatementKind,
    TerminatorKind, Type,
};
use vstd::hash_set::StringHashSet;
use vstd::prelude::*;

verus! {

pub struct Devirtualize<'a> {
    /// The method names of each vtable.
    pub vtables: &'a VTables,
    /// Structs with a `__drop__` hook keep the dynamic path: the record's
    /// drop shim runs the hook, and this pass runs after hook lowering.
    pub has_drop: &'a StringHashSet,
}

/// A struct type that is not from the FFI and has no `__drop__` hook.
pub open spec fn plain_struct(t: Type, hd: Set<Seq<char>>) -> bool {
    match t {
        Type::Struct(name, _, ffi) => !ffi && !hd.contains(name@),
        _ => false,
    }
}

/// The data operand and vtable name of `r`, when `r` is assigned once, a
/// three-part fat-pointer record whose vtable is known.
pub open spec fn fat_record(stmts: Seq<Statement>, vt: Map<Seq<char>, Seq<Seq<char>>>, r: usize) -> Option<
    (Operand, Seq<char>),
> {
    match single_def(stmts, r) {
        Some(Rvalue::Aggregate(AggregateKind::FatPtr, ops)) => if ops@.len() == 3 {
            match ops@[1] {
                Operand::Constant(Constant::GlobalData(v)) => if vt.contains_key(v@) {
                    Some((ops@[0], v@))
                } else {
                    None
                },
                _ => None,
            }
        } else {
            None
        },
        _ => None,
    }
}

/// The struct local a record `r` wraps, when the pass may resolve it: `r`
/// and the struct local are not parameters, the struct local is assigned
/// once and has a plain struct type.
pub open spec fn record_data(f: MirFunction, vt: Map<Seq<char>, Seq<Seq<char>>>, hd: Set<Seq<char>>, r: usize) -> Option<
    usize,
> {
    let stmts = flat(f.basic_blocks@);
    match fat_record(stmts, vt, r) {
        Some((data, _)) => match operand_local(data) {
            Some(l) => if r > f.arg_count && l > f.arg_count && statements_assign_count(stmts, l) == 1
                && plain_struct(f.locals@[l as int].ty, hd) {
                Some(l)
            } else {
                None
            },
            None => None,
        },
        None => None,
    }
}

/// The local `a` is a plain copy of: `a`, neither a parameter nor the
/// return slot, is assigned once, by `a = use x`.
pub open spec fn copy_source(f: MirFunction, a: usize) -> Option<usize> {
    if a > f.arg_count && a != 0 {
        match single_def(flat(f.basic_blocks@), a) {
            Some(Rvalue::Use(op)) => operand_local(op),
            _ => None,
        }
    } else {
        None
    }
}

/// The record reached from `a` in at most `fuel` copy steps.
pub open spec fn record_within(
    f: MirFunction,
    vt: Map<Seq<char>, Seq<Seq<char>>>,
    hd: Set<Seq<char>>,
    a: usize,
    fuel: nat,
) -> Option<usize>
    decreases fuel,
{
    if record_data(f, vt, hd, a) is Some {
        Some(a)
    } else if fuel == 0 {
        None
    } else {
        match copy_source(f, a) {
            Some(s) => record_within(f, vt, hd, s, (fuel - 1) as nat),
            None => None,
        }
    }
}

/// The record `a` holds: `a` itself, or the end of its chain of plain
/// copies. A chain that ends elsewhere, or loops, holds none; a chain
/// visits each once-assigned local at most once, which bounds its steps.
pub open spec fn record_of(f: MirFunction, vt: Map<Seq<char>, Seq<Seq<char>>>, hd: Set<Seq<char>>, a: usize) -> Option<
    usize,
> {
    record_within(f, vt, hd, a, singles(flat(f.basic_blocks@)).len() + 1)
}

/// Method `idx` of the vtable of record `r`.
pub open spec fn method_at(f: MirFunction, vt: Map<Seq<char>, Seq<Seq<char>>>, r: usize, idx: usize) -> Option<
    Seq<char>,
> {
    match fat_record(flat(f.basic_blocks@), vt, r) {
        Some((_, v)) => if idx < vt[v].len() {
            Some(vt[v][idx as int])
        } else {
            None
        },
        None => None,
    }
}

/// A load of method slot `idx` from a record built once as
/// `(data, vtable v, _)` resolves exactly to the `idx`-th entry of `v`'s
/// method list, and to nothing when `v` has no such slot.
pub proof fn lemma_method_at_slot(
    f: MirFunction,
    vt: Map<Seq<char>, Seq<Seq<char>>>,
    r: usize,
    ops: Vec<Operand>,
    v: String,
    idx: usize,
)
    requires
        single_def(flat(f.basic_blocks@), r) == Some(Rvalue::Aggregate(AggregateKind::FatPtr, ops)),
        ops@.len() == 3,
        ops@[1] == Operand::Constant(Constant::GlobalData(v)),
        vt.contains_key(v@),
    ensures
        idx < vt[v@].len() ==> method_at(f, vt, r, idx) == Some(vt[v@][idx as int]),
        idx >= vt[v@].len() ==> method_at(f, vt, r, idx) is None,
        forall|j: usize|
            idx < vt[v@].len() && j < vt[v@].len() && vt[v@][idx as int] != vt[v@][j as int] ==> method_at(
                f,
                vt,
                r,
                idx,
            ) != method_at(f, vt, r, j),
{
}

/// `s` reads local `l` in a way the rewrite cannot follow. A method load is
/// followed when the method exists and the load's target is assigned once;
/// a copy when its target holds a record too and is not the return slot; a
/// data read and a drop always.
pub open spec fn escaping_read(
    f: MirFunction,
    vt: Map<Seq<char>, Seq<Seq<char>>>,
    hd: Set<Seq<char>>,
    s: Statement,
    l: usize,
) -> bool {
    match s.kind {
        StatementKind::Assign(dest, rv) => match rv {
            Rvalue::VTableLoad { vtable, method_idx } => operand_local(vtable) == Some(l) && match record_of(
                f,
                vt,
                hd,
                l,
            ) {
                Some(r) => !(method_at(f, vt, r, method_idx) is Some && statements_assign_count(
                    flat(f.basic_blocks@),
                    dest.0,
                ) == 1),
                None => false,
            },
            Rvalue::FatPtrData(_) => false,
            Rvalue::Use(op) => operand_local(op) == Some(l) && record_of(f, vt, hd, l) is Some && (record_of(
                f,
                vt,
                hd,
                dest.0,
            ) is None || dest.0 == 0),
            _ => rvalue_references(rv, l),
        },
        StatementKind::SetIndex(o, i, v, _) => operand_is(o, l) || operand_is(i, l) || operand_is(v, l),
        StatementKind::VectorStore(o, i, v) => operand_is(o, l) || operand_is(i, l) || operand_is(v, l),
        StatementKind::SetAttr(o, _, v) => operand_is(o, l) || operand_is(v, l),
        StatementKind::PtrStore(p, v) => operand_is(p, l) || operand_is(v, l),
        StatementKind::GenCheck { value, generation } => value.0 == l || generation.0 == l,
        _ => false,
    }
}

/// The block's terminator is a switch on local `l`.
pub open spec fn switch_reads(b: BasicBlock, l: usize) -> bool {
    match b.terminator {
        Some(t) => match t.kind {
            TerminatorKind::SwitchInt { discr, .. } => operand_local(discr) == Some(l),
            _ => false,
        },
        None => false,
    }
}

/// `s` reads a local holding record `r` in a way the rewrite cannot follow.
pub open spec fn poisons_at(
    f: MirFunction,
    vt: Map<Seq<char>, Seq<Seq<char>>>,
    hd: Set<Seq<char>>,
    s: Statement,
    r: usize,
) -> bool {
    exists|l: usize| #[trigger] escaping_read(f, vt, hd, s, l) && record_of(f, vt, hd, l) == Some(r)
}

/// Some statement of `bb`, or its switch, reads a local holding record `r`
/// in a way the rewrite cannot follow.
pub open spec fn block_poisons(
    f: MirFunction,
    vt: Map<Seq<char>, Seq<Seq<char>>>,
    hd: Set<Seq<char>>,
    bb: BasicBlock,
    r: usize,
) -> bool {
    ||| exists|j: int| 0 <= j < bb.statements@.len() && #[trigger] poisons_at(f, vt, hd, bb.statements@[j], r)
    ||| exists|l: usize| #[trigger] switch_reads(bb, l) && record_of(f, vt, hd, l) == Some(r)
}

/// Record `r` escapes somewhere in the function, and keeps its dynamic path.
pub open spec fn poisoned(f: MirFunction, vt: Map<Seq<char>, Seq<Seq<char>>>, hd: Set<Seq<char>>, r: usize) -> bool {
    exists|b: int| 0 <= b < f.basic_blocks@.len() && #[trigger] block_poisons(f, vt, hd, f.basic_blocks@[b], r)
}

/// The record `l` holds, when that record is resolved.
pub open spec fn live_record(f: MirFunction, vt: Map<Seq<char>, Seq<Seq<char>>>, hd: Set<Seq<char>>, l: usize) -> Option<
    usize,
> {
    match record_of(f, vt, hd, l) {
        Some(r) => if poisoned(f, vt, hd, r) {
            None
        } else {
            Some(r)
        },
        None => None,
    }
}

/// The struct local of the resolved record `l` holds.
pub open spec fn live_data(f: MirFunction, vt: Map<Seq<char>, Seq<Seq<char>>>, hd: Set<Seq<char>>, l: usize) -> Option<
    usize,
> {
    match live_record(f, vt, hd, l) {
        Some(r) => record_data(f, vt, hd, r),
        None => None,
    }
}

/// The method `dest` holds, when its only assignment loads an existing
/// method from a resolved record.
pub open spec fn resolved_method(
    f: MirFunction,
    vt: Map<Seq<char>, Seq<Seq<char>>>,
    hd: Set<Seq<char>>,
    dest: usize,
) -> Option<Seq<char>> {
    match single_def(flat(f.basic_blocks@), dest) {
        Some(Rvalue::VTableLoad { vtable, method_idx }) => match operand_local(vtable) {
            Some(l) => match live_record(f, vt, hd, l) {
                Some(r) => method_at(f, vt, r, method_idx),
                None => None,
            },
            None => None,
        },
        _ => None,
    }
}

/// The pass rewrites `s`: a method load it resolves, a data read or drop of
/// a resolved record, the definition of a resolved record or a copy of one
/// into a local holding it, or a call through a resolved method.
pub open spec fn devirt_hit(f: MirFunction, vt: Map<Seq<char>, Seq<Seq<char>>>, hd: Set<Seq<char>>, s: Statement) -> bool {
    match s.kind {
        StatementKind::Assign(dest, rv) => match rv {
            Rvalue::VTableLoad { .. } => resolved_method(f, vt, hd, dest.0) is Some,
            Rvalue::FatPtrData(op) => operand_local(op) is Some && live_record(
                f,
                vt,
                hd,
                operand_local(op)->0,
            ) is Some,
            Rvalue::Aggregate(AggregateKind::FatPtr, _) => live_record(f, vt, hd, dest.0) == Some(dest.0),
            Rvalue::Use(op) => operand_local(op) is Some && live_record(f, vt, hd, operand_local(op)->0) is Some
                && live_record(f, vt, hd, dest.0) is Some,
            Rvalue::Call { func: fo, .. } => operand_local(fo) is Some && resolved_method(
                f,
                vt,
                hd,
                operand_local(fo)->0,
            ) is Some,
            _ => false,
        },
        StatementKind::Drop(l) => live_record(f, vt, hd, l.0) is Some,
        _ => false,
    }
}

/// `b` is what the pass makes of `a`.
pub open spec fn devirtualized(
    f: MirFunction,
    vt: Map<Seq<char>, Seq<Seq<char>>>,
    hd: Set<Seq<char>>,
    a: Statement,
    b: Statement,
) -> bool {
    &&& b.span == a.span
    &&& if !devirt_hit(f, vt, hd, a) {
        b == a
    } else {
        match a.kind {
            StatementKind::Assign(dest, rv) => match rv {
                Rvalue::VTableLoad { .. } => b.kind matches StatementKind::Assign(
                    d,
                    Rvalue::Use(Operand::Constant(Constant::Function(n))),
                ) && d == dest && resolved_method(f, vt, hd, dest.0) == Some(n@),
                Rvalue::FatPtrData(op) => b.kind == StatementKind::Assign(
                    dest,
                    Rvalue::Use(Operand::Copy(Local(live_data(f, vt, hd, operand_local(op)->0)->0))),
                ),
                Rvalue::Call { func: fo, args } => b.kind matches StatementKind::Assign(
                    d,
                    Rvalue::Call { func: Operand::Constant(Constant::Function(n)), args: a2 },
                ) && d == dest && a2 == args && resolved_method(f, vt, hd, operand_local(fo)->0) == Some(n@),
                _ => b.kind == StatementKind::StorageLive(dest),
            },
            StatementKind::Drop(l) => b.kind == StatementKind::Drop(Local(live_data(f, vt, hd, l.0)->0)),
            _ => b == a,
        }
    }
}

/// The struct local whose type `l` takes: `l` is assigned once, by a data
/// read of a resolved record.
pub open spec fn retyped_to(f: MirFunction, vt: Map<Seq<char>, Seq<Seq<char>>>, hd: Set<Seq<char>>, l: usize) -> Option<
    usize,
> {
    match single_def(flat(f.basic_blocks@), l) {
        Some(Rvalue::FatPtrData(op)) => match operand_local(op) {
            Some(x) => live_data(f, vt, hd, x),
            None => None,
        },
        _ => None,
    }
}

/// Local `l` after the pass, `new`: unchanged unless `retyped_to` gives it
/// a struct local; then only its type changes, to the struct local's type
/// when that local is not retyped itself.
pub open spec fn local_retyped(
    f: MirFunction,
    vt: Map<Seq<char>, Seq<Seq<char>>>,
    hd: Set<Seq<char>>,
    new: LocalDecl,
    l: usize,
) -> bool {
    let old = f.locals@[l as int];
    match retyped_to(f, vt, hd, l) {
        None => new == old,
        Some(src) => {
            &&& new.name == old.name
            &&& new.span == old.span
            &&& new.is_mut == old.is_mut
            &&& new.is_owning == old.is_owning
            &&& retyped_to(f, vt, hd, src) is None ==> type_view(new.ty) == type_view(f.locals@[src as int].ty)
        },
    }
}

/// `s` assigns only declared locals, and a fat-pointer record it builds
/// reads only declared locals.
pub open spec fn declared_in(n: nat, s: Statement) -> bool {
    match s.kind {
        StatementKind::Assign(d, rv) => d.0 < n && match rv {
            Rvalue::Aggregate(AggregateKind::FatPtr, ops) => forall|i: int|
                0 <= i < ops@.len() && (#[trigger] operand_local(ops@[i])) is Some ==> operand_local(
                    ops@[i],
                )->0 < n,
            _ => true,
        },
        _ => true,
    }
}

/// Every statement of `f` satisfies `declared_in`.
pub open spec fn declares_records(f: MirFunction) -> bool {
    forall|j: int|
        0 <= j < flat(f.basic_blocks@).len() ==> #[trigger] declared_in(
            f.locals@.len(),
            flat(f.basic_blocks@)[j],
        )
}

proof fn lemma_record_within(
    f: MirFunction,
    vt: Map<Seq<char>, Seq<Seq<char>>>,
    hd: Set<Seq<char>>,
    a: usize,
    fuel: nat,
)
    ensures
        record_within(f, vt, hd, a, fuel) matches Some(r) ==> record_data(f, vt, hd, r) is Some,
    decreases fuel,
{
    if record_data(f, vt, hd, a) is None && fuel > 0 {
        if let Some(s) = copy_source(f, a) {
            lemma_record_within(f, vt, hd, s, (fuel - 1) as nat);
        }
    }
}

/// What `record_of` finds is a record.
proof fn lemma_record_of(f: MirFunction, vt: Map<Seq<char>, Seq<Seq<char>>>, hd: Set<Seq<char>>, a: usize)
    ensures
        record_of(f, vt, hd, a) matches Some(r) ==> record_data(f, vt, hd, r) is Some,
{
    lemma_record_within(f, vt, hd, a, singles(flat(f.basic_blocks@)).len() + 1);
}


/// The local a fat-pointer record wraps is declared.
proof fn lemma_wrapped_declared(f: MirFunction, vt: Map<Seq<char>, Seq<Seq<char>>>, r: usize)
    requires
        declares_records(f),
    ensures
        fat_record(flat(f.basic_blocks@), vt, r) matches Some((data, _)) ==> (operand_local(data) matches Some(l)
            ==> l < f.locals@.len()),
{
    let stmts = flat(f.basic_blocks@);
    if let Some((data, _)) = fat_record(stmts, vt, r) {
        let rv = single_def(stmts, r)->0;
        crate::optimizations::assigns::lemma_last_rvalue_site(stmts, r);
        let j = choose|j: int|
            0 <= j < stmts.len() && #[trigger] crate::optimizations::assigns::statement_rvalue(stmts[j])
                == crate::optimizations::assigns::last_rvalue(stmts, r) && crate::optimizations::copy_prop::assigns_to(stmts[j], r);
        assert(declared_in(f.locals@.len(), stmts[j]));
        let ops = rv->Aggregate_1;
        assert(operand_is(ops@[0], operand_local(data)->0) || operand_local(data) is None);
    }
}

/// A local with a single definition is declared.
proof fn lemma_defined_declared(f: MirFunction, l: usize)
    requires
        declares_records(f),
    ensures
        single_def(flat(f.basic_blocks@), l) is Some ==> l < f.locals@.len(),
{
    let stmts = flat(f.basic_blocks@);
    if single_def(stmts, l) is Some {
        crate::optimizations::assigns::lemma_last_rvalue_site(stmts, l);
        let j = choose|j: int|
            0 <= j < stmts.len() && #[trigger] crate::optimizations::assigns::statement_rvalue(stmts[j])
                == crate::optimizations::assigns::last_rvalue(stmts, l) && crate::optimizations::copy_prop::assigns_to(stmts[j], l);
        assert(declared_in(f.locals@.len(), stmts[j]));
    }
}

/// `fat_record`, computed.
fn fat_record_of<'a>(p: &Devirtualize, func: &'a MirFunction, d: &Defs, r: usize) -> (res: Option<(&'a Operand, &'a String)>)
    requires
        defs_wf(*d, func.basic_blocks@),
    ensures
        (match res {
            Some((o, v)) => Some((*o, v@)),
            None => None,
        }) == fat_record(flat(func.basic_blocks@), vtables_contents(*p.vtables), r),
{
    match single_def_of(func, d, r) {
        Some(Rvalue::Aggregate(k, ops)) => if matches!(k, AggregateKind::FatPtr) && ops.len() == 3 {
            match &ops[1] {
                Operand::Constant(Constant::GlobalData(v)) => if p.vtables.methods(v.as_str()).is_some() {
                    Some((&ops[0], v))
                } else {
                    None
                },
                _ => None,
            }
        } else {
            None
        },
        _ => None,
    }
}

/// `record_data`, computed.
fn record_data_of(p: &Devirtualize, func: &MirFunction, d: &Defs, r: usize) -> (res: Option<usize>)
    requires
        defs_wf(*d, func.basic_blocks@),
        declares_records(*func),
    ensures
        res == record_data(*func, vtables_contents(*p.vtables), p.has_drop@, r),
{
    let ghost stmts = flat(func.basic_blocks@);
    match fat_record_of(p, func, d, r) {
        Some((data, _)) => match operand_local_of(data) {
            Some(l) => {
                proof {
                    lemma_wrapped_declared(*func, vtables_contents(*p.vtables), r);
                    assert(count_of_is(d, stmts, l.0));
                }
                if r > func.arg_count && l.0 > func.arg_count && count_local(d, l.0) == 1 {
                    match &func.locals[l.0].ty {
                        Type::Struct(name, _, ffi) => if !*ffi && !p.has_drop.contains(name.as_str()) {
                            Some(l.0)
                        } else {
                            None
                        },
                        _ => None,
                    }
                } else {
                    None
                }
            },
            None => None,
        },
        None => None,
    }
}

/// The recorded count of `l` is its capped assignment count.
spec fn count_of_is(d: &Defs, stmts: Seq<Statement>, l: usize) -> bool {
    crate::optimizations::copy_prop::count_of(crate::fx::index_map_contents(d.counts), l)
        == crate::optimizations::const_prop::capped(statements_assign_count(stmts, l))
}

/// `copy_source`, computed.
fn copy_source_of(func: &MirFunction, d: &Defs, a: usize) -> (res: Option<usize>)
    requires
        defs_wf(*d, func.basic_blocks@),
    ensures
        res == copy_source(*func, a),
{
    if a > func.arg_count && a != 0 {
        match single_def_of(func, d, a) {
            Some(Rvalue::Use(op)) => match operand_local_of(op) {
                Some(x) => Some(x.0),
                None => None,
            },
            _ => None,
        }
    } else {
        None
    }
}

/// `record_of`, computed.
fn record_held(p: &Devirtualize, func: &MirFunction, d: &Defs, a: usize) -> (res: Option<usize>)
    requires
        defs_wf(*d, func.basic_blocks@),
        declares_records(*func),
    ensures
        res == record_of(*func, vtables_contents(*p.vtables), p.has_drop@, a),
{
    let ghost vt = vtables_contents(*p.vtables);
    let ghost hd = p.has_drop@;
    let mut cur = a;
    let mut rem = d.singles;
    loop
        invariant
            defs_wf(*d, func.basic_blocks@),
            declares_records(*func),
            vt == vtables_contents(*p.vtables),
            hd == p.has_drop@,
            rem <= d.singles,
            record_of(*func, vt, hd, a) == record_within(*func, vt, hd, cur, rem as nat + 1),
        decreases rem,
    {
        if record_data_of(p, func, d, cur).is_some() {
            return Some(cur);
        }
        let ghost prev = cur;
        match copy_source_of(func, d, cur) {
            Some(s) => {
                cur = s;
            },
            None => {
                return None;
            },
        }
        assert(record_within(*func, vt, hd, prev, rem as nat + 1) == record_within(*func, vt, hd, cur, rem as nat));
        if rem == 0 {
            assert(record_within(*func, vt, hd, cur, 0) == if record_data(*func, vt, hd, cur) is Some {
                Some(cur)
            } else {
                None
            });
            if record_data_of(p, func, d, cur).is_some() {
                return Some(cur);
            } else {
                return None;
            }
        }
        rem = rem - 1;
    }
}

/// `method_at`, computed.
fn method_at_of<'b>(p: &Devirtualize<'b>, func: &MirFunction, d: &Defs, r: usize, idx: usize) -> (res: Option<&'b String>)
    requires
        defs_wf(*d, func.basic_blocks@),
    ensures
        (match res {
            Some(m) => Some(m@),
            None => None,
        }) == method_at(*func, vtables_contents(*p.vtables), r, idx),
{
    match fat_record_of(p, func, d, r) {
        Some((_, v)) => match p.vtables.methods(v.as_str()) {
            Some(ms) => if idx < ms.len() {
                proof {
                    assert(ms@.map_values(|m: String| m@)[idx as int] == ms@[idx as int]@);
                }
                Some(&ms[idx])
            } else {
                None
            },
            None => None,
        },
        None => None,
    }
}

/// Appends the local `op` reads, if any.
fn push_read(v: &mut Vec<usize>, op: &Operand)
    ensures
        forall|x: usize| #[trigger] final(v)@.contains(x) == (old(v)@.contains(x) || operand_is(*op, x)),
{
    let ghost before = v@;
    if let Some(l) = operand_local_of(op) {
        v.push(l.0);
        proof {
            assert forall|x: usize| #[trigger] v@.contains(x) == (before.contains(x) || operand_is(*op, x)) by {
                vstd::seq_lib::lemma_seq_contains_after_push(before, l.0, x);
            }
        }
    }
}

/// Appends the locals of `ops`.
fn push_reads(v: &mut Vec<usize>, ops: &Vec<Operand>)
    ensures
        forall|x: usize|
            #[trigger] final(v)@.contains(x) == (old(v)@.contains(x) || exists|i: int|
                0 <= i < ops@.len() && #[trigger] operand_is(ops@[i], x)),
{
    let ghost start = v@;
    let mut k: usize = 0;
    while k < ops.len()
        invariant
            0 <= k <= ops@.len(),
            forall|x: usize|
                #[trigger] v@.contains(x) == (start.contains(x) || exists|i: int|
                    0 <= i < k && #[trigger] operand_is(ops@[i], x)),
        decreases ops.len() - k,
    {
        let ghost before = v@;
        push_read(v, &ops[k]);
        proof {
            assert forall|x: usize| #[trigger]
                v@.contains(x) == (start.contains(x) || exists|i: int|
                    0 <= i < k + 1 && #[trigger] operand_is(ops@[i], x)) by {
                assert(before.contains(x) == (start.contains(x) || exists|i: int|
                    0 <= i < k && #[trigger] operand_is(ops@[i], x)));
            }
        }
        k = k + 1;
    }
}

/// The locals an rvalue mentions.
fn rvalue_reference_list(rv: &Rvalue) -> (v: Vec<usize>)
    ensures
        forall|x: usize| #[trigger] v@.contains(x) == rvalue_references(*rv, x),
{
    let mut v: Vec<usize> = Vec::new();
    match rv {
        Rvalue::Use(o) | Rvalue::UnaryOp(_, o) | Rvalue::GetAttr(o, _) | Rvalue::GetTag(o)
        | Rvalue::GetTypeId(o) | Rvalue::FatPtrData(o) | Rvalue::Cast(o, _) | Rvalue::PtrLoad(o)
        | Rvalue::GenOf(o) | Rvalue::VTableLoad { vtable: o, .. } | Rvalue::VectorSplat(o, _)
        | Rvalue::VectorReduce(_, o, _) => {
            push_read(&mut v, o);
        },
        Rvalue::BinaryOp(_, a, b) | Rvalue::GetIndex(a, b, _) | Rvalue::VectorLoad(a, b, _) => {
            push_read(&mut v, a);
            push_read(&mut v, b);
        },
        Rvalue::VectorFMA(a, b, c) => {
            push_read(&mut v, a);
            push_read(&mut v, b);
            push_read(&mut v, c);
        },
        Rvalue::Call { func, args } => {
            push_read(&mut v, func);
            push_reads(&mut v, args);
        },
        Rvalue::Aggregate(_, ops) => {
            push_reads(&mut v, ops);
        },
        Rvalue::Ref(x) | Rvalue::MutRef(x) => {
            v.push(x.0);
            proof {
                assert forall|y: usize| #[trigger] v@.contains(y) == rvalue_references(*rv, y) by {
                    if y == x.0 {
                        assert(v@[0] == y);
                    }
                }
            }
        },
    }
    v
}

/// The locals `s` reads in ways the rewrite cannot follow.
fn escaping_reads_of(p: &Devirtualize, func: &MirFunction, d: &Defs, s: &Statement) -> (v: Vec<usize>)
    requires
        defs_wf(*d, func.basic_blocks@),
        declares_records(*func),
    ensures
        forall|x: usize|
            #[trigger] v@.contains(x) == escaping_read(*func, vtables_contents(*p.vtables), p.has_drop@, *s, x),
{
    let ghost stmts = flat(func.basic_blocks@);
    let mut v: Vec<usize> = Vec::new();
    match &s.kind {
        StatementKind::Assign(dest, rv) => match rv {
            Rvalue::VTableLoad { vtable, method_idx } => {
                if let Some(l) = operand_local_of(vtable) {
                    if let Some(r) = record_held(p, func, d, l.0) {
                        proof {
                            assert(count_of_is(d, stmts, dest.0));
                        }
                        let ok = method_at_of(p, func, d, r, *method_idx).is_some() && count_local(d, dest.0) == 1;
                        if !ok {
                            v.push(l.0);
                        }
                    }
                }
                proof {
                    assert forall|x: usize| #[trigger]
                        v@.contains(x) == escaping_read(*func, vtables_contents(*p.vtables), p.has_drop@, *s, x) by {
                        if v@.len() > 0 {
                            assert(v@[0] == x ==> v@.contains(x));
                        }
                    }
                }
            },
            Rvalue::FatPtrData(_) => {},
            Rvalue::Use(op) => {
                if let Some(l) = operand_local_of(op) {
                    if record_held(p, func, d, l.0).is_some() && (record_held(p, func, d, dest.0).is_none()
                        || dest.0 == 0) {
                        v.push(l.0);
                    }
                }
                proof {
                    assert forall|x: usize| #[trigger]
                        v@.contains(x) == escaping_read(*func, vtables_contents(*p.vtables), p.has_drop@, *s, x) by {
                        if v@.len() > 0 {
                            assert(v@[0] == x ==> v@.contains(x));
                        }
                    }
                }
            },
            _ => {
                v = rvalue_reference_list(rv);
            },
        },
        StatementKind::SetIndex(o, i, x, _) | StatementKind::VectorStore(o, i, x) => {
            push_read(&mut v, o);
            push_read(&mut v, i);
            push_read(&mut v, x);
        },
        StatementKind::SetAttr(o, _, x) | StatementKind::PtrStore(o, x) => {
            push_read(&mut v, o);
            push_read(&mut v, x);
        },
        StatementKind::GenCheck { value, generation } => {
            v.push(value.0);
            v.push(generation.0);
            proof {
                assert forall|y: usize| #[trigger]
                    v@.contains(y) == escaping_read(*func, vtables_contents(*p.vtables), p.has_drop@, *s, y) by {
                    if y == value.0 {
                        assert(v@[0] == y);
                    }
                    if y == generation.0 {
                        assert(v@[1] == y);
                    }
                }
            }
        },
        _ => {},
    }
    v
}

/// Adds the records `s` poisons.
fn add_poison(p: &Devirtualize, func: &MirFunction, d: &Defs, s: &Statement, set: &mut IndexSet)
    requires
        defs_wf(*d, func.basic_blocks@),
        declares_records(*func),
    ensures
        forall|r: usize|
            #[trigger] index_set_contents(*final(set)).contains(r) == (index_set_contents(*old(set)).contains(r)
                || poisons_at(*func, vtables_contents(*p.vtables), p.has_drop@, *s, r)),
{
    let ghost vt = vtables_contents(*p.vtables);
    let ghost hd = p.has_drop@;
    let ghost start = index_set_contents(*set);
    let reads = escaping_reads_of(p, func, d, s);
    let mut k: usize = 0;
    while k < reads.len()
        invariant
            defs_wf(*d, func.basic_blocks@),
            declares_records(*func),
            vt == vtables_contents(*p.vtables),
            hd == p.has_drop@,
            0 <= k <= reads@.len(),
            forall|x: usize| #[trigger] reads@.contains(x) == escaping_read(*func, vt, hd, *s, x),
            forall|r: usize|
                #[trigger] index_set_contents(*set).contains(r) == (start.contains(r) || exists|q: int|
                    0 <= q < k && #[trigger] record_of(*func, vt, hd, reads@[q]) == Some(r)),
        decreases reads.len() - k,
    {
        let ghost before = index_set_contents(*set);
        if let Some(r) = record_held(p, func, d, reads[k]) {
            set.insert(r);
        }
        proof {
            assert forall|r: usize| #[trigger]
                index_set_contents(*set).contains(r) == (start.contains(r) || exists|q: int|
                    0 <= q < k + 1 && #[trigger] record_of(*func, vt, hd, reads@[q]) == Some(r)) by {
                assert(before.contains(r) == (start.contains(r) || exists|q: int|
                    0 <= q < k && #[trigger] record_of(*func, vt, hd, reads@[q]) == Some(r)));
            }
        }
        k = k + 1;
    }
    proof {
        assert forall|r: usize| #[trigger]
            index_set_contents(*set).contains(r) == (start.contains(r) || poisons_at(*func, vt, hd, *s, r)) by {
            if exists|q: int| 0 <= q < reads@.len() && #[trigger] record_of(*func, vt, hd, reads@[q]) == Some(r) {
                let q = choose|q: int| 0 <= q < reads@.len() && #[trigger] record_of(*func, vt, hd, reads@[q]) == Some(r);
                assert(reads@.contains(reads@[q]));
                assert(escaping_read(*func, vt, hd, *s, reads@[q]));
            }
            if poisons_at(*func, vt, hd, *s, r) {
                let l = choose|l: usize| #[trigger] escaping_read(*func, vt, hd, *s, l) && record_of(*func, vt, hd, l) == Some(r);
                assert(reads@.contains(l));
                let q = choose|q: int| 0 <= q < reads@.len() && reads@[q] == l;
                assert(record_of(*func, vt, hd, reads@[q]) == Some(r));
            }
        }
    }
}

/// The records that escape somewhere in the function.
fn poison_set(p: &Devirtualize, func: &MirFunction, d: &Defs) -> (set: IndexSet)
    requires
        defs_wf(*d, func.basic_blocks@),
        declares_records(*func),
    ensures
        forall|r: usize|
            #[trigger] index_set_contents(set).contains(r) == poisoned(
                *func,
                vtables_contents(*p.vtables),
                p.has_drop@,
                r,
            ),
{
    let ghost vt = vtables_contents(*p.vtables);
    let ghost hd = p.has_drop@;
    let ghost blocks = func.basic_blocks@;
    let mut set = IndexSet::new();
    let mut b: usize = 0;
    while b < func.basic_blocks.len()
        invariant
            defs_wf(*d, func.basic_blocks@),
            declares_records(*func),
            vt == vtables_contents(*p.vtables),
            hd == p.has_drop@,
            blocks == func.basic_blocks@,
            0 <= b <= blocks.len(),
            forall|r: usize|
                #[trigger] index_set_contents(set).contains(r) == exists|q: int|
                    0 <= q < b && #[trigger] block_poisons(*func, vt, hd, blocks[q], r),
        decreases blocks.len() - b,
    {
        let ghost start = index_set_contents(set);
        let bb = &func.basic_blocks[b];
        let mut j: usize = 0;
        while j < bb.statements.len()
            invariant
                defs_wf(*d, func.basic_blocks@),
                declares_records(*func),
                vt == vtables_contents(*p.vtables),
                hd == p.has_drop@,
                blocks == func.basic_blocks@,
                b < blocks.len(),
                *bb == blocks[b as int],
                0 <= j <= bb.statements@.len(),
                forall|r: usize|
                    #[trigger] index_set_contents(set).contains(r) == (start.contains(r) || exists|q: int|
                        0 <= q < j && #[trigger] poisons_at(*func, vt, hd, bb.statements@[q], r)),
            decreases bb.statements.len() - j,
        {
            let ghost before = index_set_contents(set);
            add_poison(p, func, d, &bb.statements[j], &mut set);
            proof {
                assert forall|r: usize| #[trigger]
                    index_set_contents(set).contains(r) == (start.contains(r) || exists|q: int|
                        0 <= q < j + 1 && #[trigger] poisons_at(*func, vt, hd, bb.statements@[q], r)) by {
                    assert(before.contains(r) == (start.contains(r) || exists|q: int|
                        0 <= q < j && #[trigger] poisons_at(*func, vt, hd, bb.statements@[q], r)));
                }
            }
            j = j + 1;
        }
        let ghost mid = index_set_contents(set);
        let mut switched: Option<usize> = None;
        if let Some(t) = &bb.terminator {
            if let TerminatorKind::SwitchInt { discr, .. } = &t.kind {
                if let Some(l) = operand_local_of(discr) {
                    switched = Some(l.0);
                    if let Some(r) = record_held(p, func, d, l.0) {
                        set.insert(r);
                    }
                }
            }
        }
        proof {
            assert forall|l: usize| #[trigger] switch_reads(*bb, l) == (switched == Some(l)) by {}
            assert forall|r: usize| #[trigger]
                index_set_contents(set).contains(r) == exists|q: int|
                    0 <= q < b + 1 && #[trigger] block_poisons(*func, vt, hd, blocks[q], r) by {
                assert(start.contains(r) == exists|q: int|
                    0 <= q < b && #[trigger] block_poisons(*func, vt, hd, blocks[q], r));
                assert(mid.contains(r) == (start.contains(r) || exists|q: int|
                    0 <= q < bb.statements@.len() && #[trigger] poisons_at(*func, vt, hd, bb.statements@[q], r)));
                if block_poisons(*func, vt, hd, blocks[b as int], r) {
                    if exists|l: usize| #[trigger] switch_reads(*bb, l) && record_of(*func, vt, hd, l) == Some(r) {
                        let l = choose|l: usize| #[trigger] switch_reads(*bb, l) && record_of(*func, vt, hd, l) == Some(r);
                        assert(switched == Some(l));
                    }
                }
                if let Some(l) = switched {
                    if record_of(*func, vt, hd, l) == Some(r) {
                        assert(switch_reads(*bb, l));
                        assert(block_poisons(*func, vt, hd, blocks[b as int], r));
                    }
                }
            }
        }
        b = b + 1;
    }
    set
}

/// `set` holds exactly the poisoned records.
spec fn poison_wf(set: IndexSet, f: MirFunction, vt: Map<Seq<char>, Seq<Seq<char>>>, hd: Set<Seq<char>>) -> bool {
    forall|r: usize| #[trigger] index_set_contents(set).contains(r) == poisoned(f, vt, hd, r)
}

/// `live_record`, computed.
fn live_record_of(p: &Devirtualize, func: &MirFunction, d: &Defs, poison: &IndexSet, l: usize) -> (res: Option<usize>)
    requires
        defs_wf(*d, func.basic_blocks@),
        declares_records(*func),
        poison_wf(*poison, *func, vtables_contents(*p.vtables), p.has_drop@),
    ensures
        res == live_record(*func, vtables_contents(*p.vtables), p.has_drop@, l),
{
    match record_held(p, func, d, l) {
        Some(r) => if poison.contains(r) {
            None
        } else {
            Some(r)
        },
        None => None,
    }
}

/// `resolved_method`, computed.
fn resolved_method_of<'b>(p: &Devirtualize<'b>, func: &MirFunction, d: &Defs, poison: &IndexSet, dest: usize) -> (res: Option<&'b String>)
    requires
        defs_wf(*d, func.basic_blocks@),
        declares_records(*func),
        poison_wf(*poison, *func, vtables_contents(*p.vtables), p.has_drop@),
    ensures
        (match res {
            Some(m) => Some(m@),
            None => None,
        }) == resolved_method(*func, vtables_contents(*p.vtables), p.has_drop@, dest),
{
    match single_def_of(func, d, dest) {
        Some(Rvalue::VTableLoad { vtable, method_idx }) => match operand_local_of(vtable) {
            Some(l) => match live_record_of(p, func, d, poison, l.0) {
                Some(r) => method_at_of(p, func, d, r, *method_idx),
                None => None,
            },
            None => None,
        },
        _ => None,
    }
}

/// What the rewrite does to one statement.
enum Plan {
    Keep,
    /// A method load becomes the method's function.
    Method(String),
    /// A data read reads the struct local.
    Data(usize),
    /// A resolved record's definition, or a copy of one, is emptied.
    Live,
    /// A call through a resolved method calls it directly.
    DirectCall(String),
    /// A resolved record's drop drops the struct local.
    DropData(usize),
}

/// `pl` is the plan for `s`.
spec fn planned(f: MirFunction, vt: Map<Seq<char>, Seq<Seq<char>>>, hd: Set<Seq<char>>, s: Statement, pl: Plan) -> bool {
    match pl {
        Plan::Keep => !devirt_hit(f, vt, hd, s),
        Plan::Method(m) => {
            &&& devirt_hit(f, vt, hd, s)
            &&& s.kind matches StatementKind::Assign(dest, Rvalue::VTableLoad { .. })
            &&& resolved_method(f, vt, hd, dest.0) == Some(m@)
        },
        Plan::Data(src) => {
            &&& devirt_hit(f, vt, hd, s)
            &&& s.kind matches StatementKind::Assign(_, Rvalue::FatPtrData(op))
            &&& live_data(f, vt, hd, operand_local(op)->0) == Some(src)
        },
        Plan::Live => {
            &&& devirt_hit(f, vt, hd, s)
            &&& s.kind is Assign
            &&& (s.kind->Assign_1 is Aggregate || s.kind->Assign_1 is Use)
        },
        Plan::DirectCall(m) => {
            &&& devirt_hit(f, vt, hd, s)
            &&& s.kind matches StatementKind::Assign(_, Rvalue::Call { func: fo, .. })
            &&& resolved_method(f, vt, hd, operand_local(fo)->0) == Some(m@)
        },
        Plan::DropData(src) => {
            &&& devirt_hit(f, vt, hd, s)
            &&& s.kind matches StatementKind::Drop(l)
            &&& live_data(f, vt, hd, l.0) == Some(src)
        },
    }
}

/// The plan for `s`.
fn plan_for(p: &Devirtualize, func: &MirFunction, d: &Defs, poison: &IndexSet, s: &Statement) -> (pl: Plan)
    requires
        defs_wf(*d, func.basic_blocks@),
        declares_records(*func),
        poison_wf(*poison, *func, vtables_contents(*p.vtables), p.has_drop@),
    ensures
        planned(*func, vtables_contents(*p.vtables), p.has_drop@, *s, pl),
{
    let ghost vt = vtables_contents(*p.vtables);
    let ghost hd = p.has_drop@;
    match &s.kind {
        StatementKind::Assign(dest, rv) => match rv {
            Rvalue::VTableLoad { .. } => match resolved_method_of(p, func, d, poison, dest.0) {
                Some(m) => Plan::Method(m.clone()),
                None => Plan::Keep,
            },
            Rvalue::FatPtrData(op) => match operand_local_of(op) {
                Some(l) => match live_record_of(p, func, d, poison, l.0) {
                    Some(r) => {
                        proof {
                            lemma_record_of(*func, vt, hd, l.0);
                        }
                        match record_data_of(p, func, d, r) {
                            Some(src) => Plan::Data(src),
                            None => Plan::Keep,
                        }
                    },
                    None => Plan::Keep,
                },
                None => Plan::Keep,
            },
            Rvalue::Aggregate(k, _) => {
                let live = match live_record_of(p, func, d, poison, dest.0) {
                    Some(r) => r == dest.0,
                    None => false,
                };
                if matches!(k, AggregateKind::FatPtr) && live {
                    Plan::Live
                } else {
                    Plan::Keep
                }
            },
            Rvalue::Use(op) => match operand_local_of(op) {
                Some(l) => if live_record_of(p, func, d, poison, l.0).is_some() && live_record_of(
                    p,
                    func,
                    d,
                    poison,
                    dest.0,
                ).is_some() {
                    Plan::Live
                } else {
                    Plan::Keep
                },
                None => Plan::Keep,
            },
            Rvalue::Call { func: fo, .. } => match operand_local_of(fo) {
                Some(l) => match resolved_method_of(p, func, d, poison, l.0) {
                    Some(m) => Plan::DirectCall(m.clone()),
                    None => Plan::Keep,
                },
                None => Plan::Keep,
            },
            _ => Plan::Keep,
        },
        StatementKind::Drop(l) => match live_record_of(p, func, d, poison, l.0) {
            Some(r) => {
                proof {
                    lemma_record_of(*func, vt, hd, l.0);
                }
                match record_data_of(p, func, d, r) {
                    Some(src) => Plan::DropData(src),
                    None => Plan::Keep,
                }
            },
            None => Plan::Keep,
        },
        _ => Plan::Keep,
    }
}

/// What `pl` makes of `s`.
fn apply_plan(
    s: Statement,
    pl: Plan,
    Ghost(f): Ghost<MirFunction>,
    Ghost(vt): Ghost<Map<Seq<char>, Seq<Seq<char>>>>,
    Ghost(hd): Ghost<Set<Seq<char>>>,
) -> (r: Statement)
    requires
        planned(f, vt, hd, s, pl),
    ensures
        devirtualized(f, vt, hd, s, r),
{
    let span = s.span;
    match pl {
        Plan::Keep => s,
        Plan::Method(m) => match s.kind {
            StatementKind::Assign(dest, _) => Statement {
                kind: StatementKind::Assign(dest, Rvalue::Use(Operand::Constant(Constant::Function(m)))),
                span,
            },
            k => Statement { kind: k, span },
        },
        Plan::Data(src) => match s.kind {
            StatementKind::Assign(dest, _) => Statement {
                kind: StatementKind::Assign(dest, Rvalue::Use(Operand::Copy(Local(src)))),
                span,
            },
            k => Statement { kind: k, span },
        },
        Plan::Live => match s.kind {
            StatementKind::Assign(dest, _) => Statement { kind: StatementKind::StorageLive(dest), span },
            k => Statement { kind: k, span },
        },
        Plan::DirectCall(m) => match s.kind {
            StatementKind::Assign(dest, Rvalue::Call { func: _, args }) => Statement {
                kind: StatementKind::Assign(
                    dest,
                    Rvalue::Call { func: Operand::Constant(Constant::Function(m)), args },
                ),
                span,
            },
            k => Statement { kind: k, span },
        },
        Plan::DropData(src) => match s.kind {
            StatementKind::Drop(_) => Statement { kind: StatementKind::Drop(Local(src)), span },
            k => Statement { kind: k, span },
        },
    }
}

/// The plans of every statement, block by block, and the locals to retype
/// with their struct locals, in statement order.
fn make_plans(p: &Devirtualize, func: &MirFunction, d: &Defs, poison: &IndexSet) -> (res: (
    Vec<Vec<Plan>>,
    Vec<(usize, usize)>,
))
    requires
        defs_wf(*d, func.basic_blocks@),
        declares_records(*func),
        poison_wf(*poison, *func, vtables_contents(*p.vtables), p.has_drop@),
    ensures
        res.0@.len() == func.basic_blocks@.len(),
        forall|b: int|
            0 <= b < func.basic_blocks@.len() ==> (#[trigger] res.0@[b])@.len()
                == func.basic_blocks@[b].statements@.len(),
        forall|b: int, j: int|
            0 <= b < func.basic_blocks@.len() && 0 <= j < func.basic_blocks@[b].statements@.len() ==> planned(
                *func,
                vtables_contents(*p.vtables),
                p.has_drop@,
                func.basic_blocks@[b].statements@[j],
                #[trigger] res.0@[b]@[j],
            ),
        forall|q: int|
            0 <= q < res.1@.len() ==> retyped_to(*func, vtables_contents(*p.vtables), p.has_drop@, (#[trigger] res.1@[q]).0)
                == Some(res.1@[q].1) && res.1@[q].0 < func.locals@.len() && res.1@[q].1 < func.locals@.len(),
        forall|l: usize|
            #[trigger] retyped_to(*func, vtables_contents(*p.vtables), p.has_drop@, l) is Some ==> exists|q: int|
                0 <= q < res.1@.len() && (#[trigger] res.1@[q]).0 == l,
{
    let ghost vt = vtables_contents(*p.vtables);
    let ghost hd = p.has_drop@;
    let ghost blocks = func.basic_blocks@;
    let ghost all = flat(blocks);
    let mut plans: Vec<Vec<Plan>> = Vec::new();
    let mut retypes: Vec<(usize, usize)> = Vec::new();
    let mut b: usize = 0;
    assert(flat(blocks.subrange(0, 0)) =~= Seq::<Statement>::empty());
    while b < func.basic_blocks.len()
        invariant
            defs_wf(*d, func.basic_blocks@),
            declares_records(*func),
            poison_wf(*poison, *func, vt, hd),
            vt == vtables_contents(*p.vtables),
            hd == p.has_drop@,
            blocks == func.basic_blocks@,
            all == flat(blocks),
            0 <= b <= blocks.len(),
            plans@.len() == b,
            forall|q: int| 0 <= q < b ==> (#[trigger] plans@[q])@.len() == blocks[q].statements@.len(),
            forall|q: int, j: int|
                0 <= q < b && 0 <= j < blocks[q].statements@.len() ==> planned(
                    *func,
                    vt,
                    hd,
                    blocks[q].statements@[j],
                    #[trigger] plans@[q]@[j],
                ),
            forall|q: int|
                0 <= q < retypes@.len() ==> retyped_to(*func, vt, hd, (#[trigger] retypes@[q]).0) == Some(
                    retypes@[q].1,
                ) && retypes@[q].0 < func.locals@.len() && retypes@[q].1 < func.locals@.len(),
            forall|l: usize|
                #[trigger] retyped_to(*func, vt, hd, l) is Some && crate::optimizations::assigns::last_rvalue(
                    flat(blocks.subrange(0, b as int)),
                    l,
                ) is Some ==> exists|q: int| 0 <= q < retypes@.len() && (#[trigger] retypes@[q]).0 == l,
        decreases blocks.len() - b,
    {
        let ghost pre = flat(blocks.subrange(0, b as int));
        let stmts = &func.basic_blocks[b].statements;
        let mut row: Vec<Plan> = Vec::new();
        let mut j: usize = 0;
        assert(pre + stmts@.subrange(0, 0) =~= pre);
        while j < stmts.len()
            invariant
                defs_wf(*d, func.basic_blocks@),
                declares_records(*func),
                poison_wf(*poison, *func, vt, hd),
                vt == vtables_contents(*p.vtables),
                hd == p.has_drop@,
                blocks == func.basic_blocks@,
                all == flat(blocks),
                b < blocks.len(),
                pre == flat(blocks.subrange(0, b as int)),
                stmts@ == blocks[b as int].statements@,
                0 <= j <= stmts@.len(),
                row@.len() == j,
                forall|q: int| 0 <= q < j ==> planned(*func, vt, hd, stmts@[q], #[trigger] row@[q]),
                forall|q: int|
                    0 <= q < retypes@.len() ==> retyped_to(*func, vt, hd, (#[trigger] retypes@[q]).0) == Some(
                        retypes@[q].1,
                    ) && retypes@[q].0 < func.locals@.len() && retypes@[q].1 < func.locals@.len(),
                forall|l: usize|
                    #[trigger] retyped_to(*func, vt, hd, l) is Some && crate::optimizations::assigns::last_rvalue(
                        pre + stmts@.subrange(0, j as int),
                        l,
                    ) is Some ==> exists|q: int| 0 <= q < retypes@.len() && (#[trigger] retypes@[q]).0 == l,
            decreases stmts.len() - j,
        {
            let ghost seen = pre + stmts@.subrange(0, j as int);
            let ghost st = stmts@[j as int];
            let ghost before = retypes@;
            assert(pre + stmts@.subrange(0, j + 1) =~= seen.push(st));
            assert(seen.push(st).drop_last() =~= seen);
            proof {
                lemma_flat_index(blocks, b as int, j as int);
            }
            let pl = plan_for(p, func, d, poison, &stmts[j]);
            if let StatementKind::Assign(dest, Rvalue::FatPtrData(_)) = &stmts[j].kind {
                if let Plan::Data(src) = pl {
                    proof {
                        assert(count_of_is(d, all, dest.0));
                    }
                    if count_local(d, dest.0) == 1 {
                        proof {
                            crate::optimizations::assigns::lemma_single_def_at(
                                all,
                                pre.len() + j,
                                dest.0,
                            );
                            lemma_defined_declared(*func, dest.0);
                            lemma_record_of(*func, vt, hd, operand_local(st.kind->Assign_1->FatPtrData_0)->0);
                            lemma_wrapped_declared(
                                *func,
                                vt,
                                live_record(*func, vt, hd, operand_local(st.kind->Assign_1->FatPtrData_0)->0)->0,
                            );
                        }
                        retypes.push((dest.0, src));
                    }
                }
            }
            proof {
                assert forall|q: int| 0 <= q < retypes@.len() implies retyped_to(
                    *func,
                    vt,
                    hd,
                    (#[trigger] retypes@[q]).0,
                ) == Some(retypes@[q].1) && retypes@[q].0 < func.locals@.len() && retypes@[q].1
                    < func.locals@.len() by {
                    if q < before.len() {
                        assert(retypes@[q] == before[q]);
                    }
                }
                assert forall|l: usize|
                    #[trigger] retyped_to(*func, vt, hd, l) is Some && crate::optimizations::assigns::last_rvalue(
                        seen.push(st),
                        l,
                    ) is Some implies exists|q: int| 0 <= q < retypes@.len() && (#[trigger] retypes@[q]).0 == l by {
                    if crate::optimizations::copy_prop::assigns_to(st, l) {
                        crate::optimizations::assigns::lemma_single_def_at(all, pre.len() + j, l);
                        assert(retypes@[retypes@.len() - 1].0 == l);
                    } else {
                        assert(crate::optimizations::assigns::last_rvalue(seen.push(st), l)
                            == crate::optimizations::assigns::last_rvalue(seen, l));
                        let q = choose|q: int| 0 <= q < before.len() && (#[trigger] before[q]).0 == l;
                        assert(retypes@[q] == before[q]);
                    }
                }
            }
            row.push(pl);
            j = j + 1;
        }
        proof {
            lemma_flat_step(blocks, b as int);
            assert(stmts@.subrange(0, stmts@.len() as int) =~= stmts@);
        }
        plans.push(row);
        b = b + 1;
    }
    proof {
        lemma_flat_all(blocks);
        assert forall|l: usize| #[trigger] retyped_to(*func, vt, hd, l) is Some implies exists|q: int|
            0 <= q < retypes@.len() && (#[trigger] retypes@[q]).0 == l by {
            crate::optimizations::assigns::lemma_last_rvalue_some(all, l);
        }
    }
    (plans, retypes)
}

/// Carries out the plans on the blocks; true when some plan rewrites.
fn apply_plans(
    blocks: &mut Vec<BasicBlock>,
    plans: Vec<Vec<Plan>>,
    Ghost(f): Ghost<MirFunction>,
    Ghost(vt): Ghost<Map<Seq<char>, Seq<Seq<char>>>>,
    Ghost(hd): Ghost<Set<Seq<char>>>,
) -> (changed: bool)
    requires
        plans@.len() == old(blocks)@.len(),
        forall|b: int|
            0 <= b < old(blocks)@.len() ==> (#[trigger] plans@[b])@.len() == old(blocks)@[b].statements@.len(),
        forall|b: int, j: int|
            0 <= b < old(blocks)@.len() && 0 <= j < old(blocks)@[b].statements@.len() ==> planned(
                f,
                vt,
                hd,
                old(blocks)@[b].statements@[j],
                #[trigger] plans@[b]@[j],
            ),
    ensures
        final(blocks)@.len() == old(blocks)@.len(),
        forall|b: int|
            0 <= b < old(blocks)@.len() ==> {
                &&& (#[trigger] final(blocks)@[b]).terminator == old(blocks)@[b].terminator
                &&& final(blocks)@[b].statements@.len() == old(blocks)@[b].statements@.len()
            },
        forall|b: int, j: int|
            0 <= b < old(blocks)@.len() && 0 <= j < old(blocks)@[b].statements@.len() ==> devirtualized(
                f,
                vt,
                hd,
                old(blocks)@[b].statements@[j],
                #[trigger] final(blocks)@[b].statements@[j],
            ),
        changed == exists|b: int, j: int|
            0 <= b < old(blocks)@.len() && 0 <= j < old(blocks)@[b].statements@.len() && #[trigger] devirt_hit(
                f,
                vt,
                hd,
                old(blocks)@[b].statements@[j],
            ),
{
    let ghost orig = blocks@;
    let ghost all_plans = plans@;
    let mut plans = plans;
    let mut changed = false;
    let mut b: usize = 0;
    while b < blocks.len()
        invariant
            blocks@.len() == orig.len(),
            plans@.len() == orig.len(),
            all_plans.len() == orig.len(),
            0 <= b <= orig.len(),
            forall|q: int| b <= q < orig.len() ==> #[trigger] plans@[q] == all_plans[q],
            forall|q: int| 0 <= q < orig.len() ==> (#[trigger] all_plans[q])@.len() == orig[q].statements@.len(),
            forall|q: int, j: int|
                0 <= q < orig.len() && 0 <= j < orig[q].statements@.len() ==> planned(
                    f,
                    vt,
                    hd,
                    orig[q].statements@[j],
                    #[trigger] all_plans[q]@[j],
                ),
            forall|q: int| b <= q < orig.len() ==> #[trigger] blocks@[q] == orig[q],
            forall|q: int|
                0 <= q < b ==> {
                    &&& (#[trigger] blocks@[q]).terminator == orig[q].terminator
                    &&& blocks@[q].statements@.len() == orig[q].statements@.len()
                },
            forall|q: int, j: int|
                0 <= q < b && 0 <= j < orig[q].statements@.len() ==> devirtualized(
                    f,
                    vt,
                    hd,
                    orig[q].statements@[j],
                    #[trigger] blocks@[q].statements@[j],
                ),
            changed == exists|q: int, j: int|
                0 <= q < b && 0 <= j < orig[q].statements@.len() && #[trigger] devirt_hit(
                    f,
                    vt,
                    hd,
                    orig[q].statements@[j],
                ),
        decreases orig.len() - b,
    {
        let mut bb = BasicBlock { statements: Vec::new(), terminator: None };
        blocks.set_and_swap(b, &mut bb);
        let mut row: Vec<Plan> = Vec::new();
        plans.set_and_swap(b, &mut row);
        let ghost start = bb.statements@;
        let ghost row0 = row@;
        let mut any = false;
        let mut j: usize = 0;
        while j < bb.statements.len()
            invariant
                b < orig.len(),
                bb.terminator == orig[b as int].terminator,
                start == orig[b as int].statements@,
                row0 == all_plans[b as int]@,
                row0.len() == start.len(),
                row@.len() == start.len(),
                forall|q: int| j <= q < start.len() ==> #[trigger] row@[q] == row0[q],
                forall|q: int| 0 <= q < start.len() ==> planned(f, vt, hd, start[q], #[trigger] row0[q]),
                bb.statements@.len() == start.len(),
                0 <= j <= start.len(),
                forall|q: int| j <= q < start.len() ==> #[trigger] bb.statements@[q] == start[q],
                forall|q: int| 0 <= q < j ==> devirtualized(f, vt, hd, start[q], #[trigger] bb.statements@[q]),
                any == exists|q: int| 0 <= q < j && #[trigger] devirt_hit(f, vt, hd, start[q]),
            decreases start.len() - j,
        {
            let span = bb.statements[j].span;
            let mut st = Statement { kind: StatementKind::StorageLive(Local(0)), span };
            bb.statements.set_and_swap(j, &mut st);
            let mut pl = Plan::Keep;
            row.set_and_swap(j, &mut pl);
            let hit = !matches!(pl, Plan::Keep);
            let ns = apply_plan(st, pl, Ghost(f), Ghost(vt), Ghost(hd));
            bb.statements.set(j, ns);
            any = any || hit;
            j = j + 1;
        }
        blocks.set_and_swap(b, &mut bb);
        changed = changed || any;
        b = b + 1;
    }
    changed
}

/// Whether local `l` is the destination of some pair of `retypes`.
spec fn retype_dest(retypes: Seq<(usize, usize)>, l: usize) -> bool {
    exists|q: int| 0 <= q < retypes.len() && (#[trigger] retypes[q]).0 == l
}

/// Gives each listed local a copy of its struct local's type, in order.
fn apply_retypes(locals: &mut Vec<LocalDecl>, retypes: &Vec<(usize, usize)>, Ghost(src_of): Ghost<spec_fn(usize) -> usize>)
    requires
        forall|q: int|
            0 <= q < retypes@.len() ==> (#[trigger] retypes@[q]).0 < old(locals)@.len() && retypes@[q].1
                < old(locals)@.len() && src_of(retypes@[q].0) == retypes@[q].1,
    ensures
        final(locals)@.len() == old(locals)@.len(),
        forall|l: int|
            0 <= l < old(locals)@.len() && !retype_dest(retypes@, l as usize) ==> #[trigger] final(locals)@[l]
                == old(locals)@[l],
        forall|l: int|
            0 <= l < old(locals)@.len() && retype_dest(retypes@, l as usize) ==> {
                &&& (#[trigger] final(locals)@[l]).name == old(locals)@[l].name
                &&& final(locals)@[l].span == old(locals)@[l].span
                &&& final(locals)@[l].is_mut == old(locals)@[l].is_mut
                &&& final(locals)@[l].is_owning == old(locals)@[l].is_owning
                &&& !retype_dest(retypes@, src_of(l as usize)) ==> type_view(final(locals)@[l].ty) == type_view(
                    old(locals)@[src_of(l as usize) as int].ty,
                )
            },
{
    let ghost orig = locals@;
    assert(orig.len() == locals.len());
    let mut k: usize = 0;
    while k < retypes.len()
        invariant
            locals@.len() == orig.len(),
            orig.len() <= usize::MAX,
            0 <= k <= retypes@.len(),
            forall|q: int|
                0 <= q < retypes@.len() ==> (#[trigger] retypes@[q]).0 < orig.len() && retypes@[q].1 < orig.len()
                    && src_of(retypes@[q].0) == retypes@[q].1,
            forall|l: int|
                0 <= l < orig.len() && !retype_dest(retypes@.subrange(0, k as int), l as usize)
                    ==> #[trigger] locals@[l] == orig[l],
            forall|l: int|
                0 <= l < orig.len() && retype_dest(retypes@.subrange(0, k as int), l as usize) ==> {
                    &&& (#[trigger] locals@[l]).name == orig[l].name
                    &&& locals@[l].span == orig[l].span
                    &&& locals@[l].is_mut == orig[l].is_mut
                    &&& locals@[l].is_owning == orig[l].is_owning
                    &&& !retype_dest(retypes@, src_of(l as usize)) ==> type_view(locals@[l].ty) == type_view(orig[src_of(l as usize) as int].ty)
                },
        decreases retypes.len() - k,
    {
        let (dest, src) = retypes[k];
        let ghost before = locals@;
        let ghost done = retypes@.subrange(0, k as int);
        let ghost next = retypes@.subrange(0, k + 1);
        assert(next =~= done.push((dest, src)));
        assert forall|l: usize| #[trigger] retype_dest(next, l) == (retype_dest(done, l) || l == dest) by {
            if retype_dest(next, l) {
                let q = choose|q: int| 0 <= q < next.len() && (#[trigger] next[q]).0 == l;
                if q < done.len() {
                    assert(done[q] == next[q]);
                }
            }
            if retype_dest(done, l) {
                let q = choose|q: int| 0 <= q < done.len() && (#[trigger] done[q]).0 == l;
                assert(next[q] == done[q]);
            }
            if l == dest {
                assert(next[k as int].0 == l);
            }
        }
        let ty = copy_type(&locals[src].ty);
        let mut decl = LocalDecl {
            ty: Type::Int,
            name: None,
            span: crate::ir::Span { file_id: 0, line: 0, col: 0, start: 0, end: 0 },
            is_mut: false,
            is_owning: false,
        };
        locals.set_and_swap(dest, &mut decl);
        locals.set(
            dest,
            LocalDecl { ty, name: decl.name, span: decl.span, is_mut: decl.is_mut, is_owning: decl.is_owning },
        );
        proof {
            if !retype_dest(retypes@, src) {
                assert(!retype_dest(done, src)) by {
                    if retype_dest(done, src) {
                        let q = choose|q: int| 0 <= q < done.len() && (#[trigger] done[q]).0 == src;
                        assert(retypes@[q] == done[q]);
                    }
                }
                assert(before[src as int] == orig[src as int]);
            }
            assert(retypes@[k as int] == (dest, src));
            assert forall|l: int|
                0 <= l < orig.len() && !retype_dest(next, l as usize) implies #[trigger] locals@[l] == orig[l] by {
                assert(retype_dest(next, l as usize) == (retype_dest(done, l as usize) || l as usize == dest));
                assert(locals@[l] == before[l]);
            }
            assert forall|l: int|
                0 <= l < orig.len() && retype_dest(next, l as usize) implies {
                    &&& (#[trigger] locals@[l]).name == orig[l].name
                    &&& locals@[l].span == orig[l].span
                    &&& locals@[l].is_mut == orig[l].is_mut
                    &&& locals@[l].is_owning == orig[l].is_owning
                    &&& !retype_dest(retypes@, src_of(l as usize)) ==> type_view(locals@[l].ty) == type_view(orig[src_of(l as usize) as int].ty)
                } by {
                assert(retype_dest(next, l as usize) == (retype_dest(done, l as usize) || l as usize == dest));
                if l == dest as int {
                    assert(src_of(dest) == src);
                    if !retype_dest(retypes@, src) {
                        assert(!retype_dest(done, src)) by {
                            if retype_dest(done, src) {
                                let q = choose|q: int| 0 <= q < done.len() && (#[trigger] done[q]).0 == src;
                                assert(retypes@[q] == done[q]);
                            }
                        }
                        assert(before[src as int] == orig[src as int]);
                        assert(type_view(locals@[l].ty) == type_view(orig[src as int].ty));
                    }
                    if retype_dest(done, dest) {
                        assert(before[l].name == orig[l].name);
                    } else {
                        assert(before[l] == orig[l]);
                    }
                } else {
                    assert(locals@[l] == before[l]);
                }
            }
        }
        k = k + 1;
    }
    assert(retypes@.subrange(0, retypes@.len() as int) =~= retypes@);
}

impl Transform for Devirtualize<'_> {
    /// Every statement assigns only declared locals, and every fat-pointer
    /// record wraps only declared locals.
    open spec fn accepts(&self, func: MirFunction) -> bool {
        declares_records(func)
    }

    /// Each statement becomes what `devirtualized` says; a local assigned
    /// once by a data read of a resolved record takes (a copy of) the type
    /// of the record's struct local; true when some statement was rewritten.
    fn run(&self, func: &mut MirFunction) -> (changed: bool)
        ensures
            final(func).name == old(func).name,
            final(func).arg_count == old(func).arg_count,
            final(func).vararg_idx == old(func).vararg_idx,
            final(func).kwarg_idx == old(func).kwarg_idx,
            final(func).param_names@ == old(func).param_names@,
            final(func).is_async == old(func).is_async,
            final(func).basic_blocks@.len() == old(func).basic_blocks@.len(),
            forall|b: int|
                0 <= b < old(func).basic_blocks@.len() ==> {
                    &&& (#[trigger] final(func).basic_blocks@[b]).terminator
                        == old(func).basic_blocks@[b].terminator
                    &&& final(func).basic_blocks@[b].statements@.len()
                        == old(func).basic_blocks@[b].statements@.len()
                },
            forall|b: int, j: int|
                0 <= b < old(func).basic_blocks@.len() && 0 <= j
                    < old(func).basic_blocks@[b].statements@.len() ==> devirtualized(
                    *old(func),
                    vtables_contents(*self.vtables),
                    self.has_drop@,
                    old(func).basic_blocks@[b].statements@[j],
                    #[trigger] final(func).basic_blocks@[b].statements@[j],
                ),
            final(func).locals@.len() == old(func).locals@.len(),
            forall|l: int|
                0 <= l < old(func).locals@.len() ==> #[trigger] local_retyped(
                    *old(func),
                    vtables_contents(*self.vtables),
                    self.has_drop@,
                    final(func).locals@[l],
                    l as usize,
                ),
            changed == exists|b: int, j: int|
                0 <= b < old(func).basic_blocks@.len() && 0 <= j
                    < old(func).basic_blocks@[b].statements@.len() && #[trigger] devirt_hit(
                    *old(func),
                    vtables_contents(*self.vtables),
                    self.has_drop@,
                    old(func).basic_blocks@[b].statements@[j],
                ),
    {
        let ghost f = *func;
        let ghost vt = vtables_contents(*self.vtables);
        let ghost hd = self.has_drop@;
        let d = gather_defs(func);
        let poison = poison_set(self, func, &d);
        let (plans, retypes) = make_plans(self, func, &d, &poison);
        let changed = apply_plans(&mut func.basic_blocks, plans, Ghost(f), Ghost(vt), Ghost(hd));
        let ghost src_of = |l: usize| retyped_to(f, vt, hd, l)->0;
        apply_retypes(&mut func.locals, &retypes, Ghost(src_of));
        proof {
            assert(f.locals@.len() == func.locals.len());
            assert forall|l: int| 0 <= l < f.locals@.len() implies #[trigger] local_retyped(
                f,
                vt,
                hd,
                func.locals@[l],
                l as usize,
            ) by {
                let lu = l as usize;
                if retyped_to(f, vt, hd, lu) is Some {
                    assert(retype_dest(retypes@, lu));
                    let src = retyped_to(f, vt, hd, lu)->0;
                    if retyped_to(f, vt, hd, src) is None {
                        if retype_dest(retypes@, src) {
                            let q = choose|q: int| 0 <= q < retypes@.len() && (#[trigger] retypes@[q]).0 == src;
                            assert(retyped_to(f, vt, hd, retypes@[q].0) is Some);
                        }
                    }
                } else {
                    if retype_dest(retypes@, lu) {
                        let q = choose|q: int| 0 <= q < retypes@.len() && (#[trigger] retypes@[q]).0 == lu;
                        assert(retyped_to(f, vt, hd, retypes@[q].0) is Some);
                    }
                }
            }
        }
        changed
    }
}

} // verus!
