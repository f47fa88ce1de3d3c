//! Statement-level helpers of loop unrolling: reads of a local, storage
//! markers, and copies of a statement with reads of one local replaced.

use super::super::scalarize::{operand_is, operand_is_local, rvalue_references, rvalue_refs};
use crate::ir::{
    clone_operands, copy_type, operand_local, type_view, Constant, Operand, Rvalue, Statement,
    StatementKind,
};
use vstd::prelude::*;

verus! {

/// The constant `c` of `i + c` or `c + i`, where `i` is the induction.
pub open spec fn step_of(a: Operand, b: Operand, induction: usize) -> Option<i64> {
    match (a, b) {
        (Operand::Copy(s), Operand::Constant(Constant::Int(c))) => if s.0 == induction {
            Some(c)
        } else {
            None
        },
        (Operand::Constant(Constant::Int(c)), Operand::Copy(s)) => if s.0 == induction {
            Some(c)
        } else {
            None
        },
        _ => None,
    }
}

pub fn step_from_add(a: &Operand, b: &Operand, induction: usize) -> (r: Option<i64>)
    ensures
        r == step_of(*a, *b, induction),
{
    match (a, b) {
        (Operand::Copy(s), Operand::Constant(Constant::Int(c))) => if s.0 == induction {
            Some(*c)
        } else {
            None
        },
        (Operand::Constant(Constant::Int(c)), Operand::Copy(s)) => if s.0 == induction {
            Some(*c)
        } else {
            None
        },
        _ => None,
    }
}

/// `s` reads local `l`, as a value or by reference.
pub open spec fn statement_reads(s: Statement, l: usize) -> bool {
    match s.kind {
        StatementKind::Assign(_, rv) => rvalue_references(rv, l),
        StatementKind::SetAttr(a, _, b) => operand_is(a, l) || operand_is(b, l),
        StatementKind::PtrStore(a, b) => operand_is(a, l) || operand_is(b, l),
        StatementKind::SetIndex(a, b, c, _) => operand_is(a, l) || operand_is(b, l) || operand_is(c, l),
        StatementKind::VectorStore(a, b, c) => operand_is(a, l) || operand_is(b, l) || operand_is(c, l),
        StatementKind::GenCheck { value, generation } => value.0 == l || generation.0 == l,
        _ => false,
    }
}

pub fn stmt_reads_local(s: &Statement, l: usize) -> (r: bool)
    ensures
        r == statement_reads(*s, l),
{
    match &s.kind {
        StatementKind::Assign(_, rv) => rvalue_refs(rv, l),
        StatementKind::SetAttr(a, _, b) | StatementKind::PtrStore(a, b) => operand_is_local(a, l)
            || operand_is_local(b, l),
        StatementKind::SetIndex(a, b, c, _) | StatementKind::VectorStore(a, b, c) => operand_is_local(a, l)
            || operand_is_local(b, l) || operand_is_local(c, l),
        StatementKind::GenCheck { value, generation } => value.0 == l || generation.0 == l,
        _ => false,
    }
}

/// `s` is a storage marker of local `l`.
pub open spec fn storage_of(s: Statement, l: usize) -> bool {
    match s.kind {
        StatementKind::StorageLive(x) => x.0 == l,
        StatementKind::StorageDead(x) => x.0 == l,
        _ => false,
    }
}

pub fn is_storage_of(s: &Statement, l: usize) -> (r: bool)
    ensures
        r == storage_of(*s, l),
{
    match &s.kind {
        StatementKind::StorageLive(x) | StatementKind::StorageDead(x) => x.0 == l,
        _ => false,
    }
}

/// `op` with a read of `from` replaced by `to`.
pub open spec fn subst_op(op: Operand, from: usize, to: Operand) -> Operand {
    if operand_local(op) == Some(from) {
        to
    } else {
        op
    }
}

/// `b` is `a` with every operand read of `from` replaced by `to` (a
/// reference names a place, not an operand, and stays).
pub open spec fn subst_rvalue_rel(a: Rvalue, b: Rvalue, from: usize, to: Operand) -> bool {
    match a {
        Rvalue::Use(o) => b == Rvalue::Use(subst_op(o, from, to)),
        Rvalue::UnaryOp(u, o) => b == Rvalue::UnaryOp(u, subst_op(o, from, to)),
        Rvalue::Cast(o, t) => b matches Rvalue::Cast(o2, t2) && o2 == subst_op(o, from, to) && type_view(t2) == type_view(t),
        Rvalue::GetAttr(o, n) => b == Rvalue::GetAttr(subst_op(o, from, to), n),
        Rvalue::GetTag(o) => b == Rvalue::GetTag(subst_op(o, from, to)),
        Rvalue::GetTypeId(o) => b == Rvalue::GetTypeId(subst_op(o, from, to)),
        Rvalue::PtrLoad(o) => b == Rvalue::PtrLoad(subst_op(o, from, to)),
        Rvalue::GenOf(o) => b == Rvalue::GenOf(subst_op(o, from, to)),
        Rvalue::FatPtrData(o) => b == Rvalue::FatPtrData(subst_op(o, from, to)),
        Rvalue::VTableLoad { vtable, method_idx } => b == Rvalue::VTableLoad {
            vtable: subst_op(vtable, from, to),
            method_idx,
        },
        Rvalue::BinaryOp(op, x, y) => b == Rvalue::BinaryOp(op, subst_op(x, from, to), subst_op(y, from, to)),
        Rvalue::GetIndex(x, y, u) => b == Rvalue::GetIndex(subst_op(x, from, to), subst_op(y, from, to), u),
        Rvalue::Call { func, args } => b matches Rvalue::Call { func: f2, args: a2 } && f2 == subst_op(
            func,
            from,
            to,
        ) && a2@ == args@.map_values(|o: Operand| subst_op(o, from, to)),
        Rvalue::Aggregate(k, ops) => b matches Rvalue::Aggregate(k2, o2) && k2 == k && o2@ == ops@.map_values(
            |o: Operand| subst_op(o, from, to),
        ),
        Rvalue::VectorSplat(o, w) => b == Rvalue::VectorSplat(subst_op(o, from, to), w),
        Rvalue::VectorLoad(x, y, w) => b == Rvalue::VectorLoad(subst_op(x, from, to), subst_op(y, from, to), w),
        Rvalue::VectorFMA(x, y, z) => b == Rvalue::VectorFMA(
            subst_op(x, from, to),
            subst_op(y, from, to),
            subst_op(z, from, to),
        ),
        Rvalue::VectorReduce(op, o, w) => b == Rvalue::VectorReduce(op, subst_op(o, from, to), w),
        _ => b == a,
    }
}

/// `b` is `a` with the reads of `from` replaced by `to`, as the unroller
/// substitutes them: in assignments' rvalues, attribute and index stores,
/// and pointer and vector stores.
pub open spec fn substituted(a: Statement, b: Statement, from: usize, to: Operand) -> bool {
    &&& b.span == a.span
    &&& match a.kind {
        StatementKind::Assign(d, rv) => b.kind matches StatementKind::Assign(d2, rv2) && d2 == d
            && subst_rvalue_rel(rv, rv2, from, to),
        StatementKind::SetAttr(o, n, v) => b.kind == StatementKind::SetAttr(
            subst_op(o, from, to),
            n,
            subst_op(v, from, to),
        ),
        StatementKind::SetIndex(o, i, v, u) => b.kind == StatementKind::SetIndex(
            subst_op(o, from, to),
            subst_op(i, from, to),
            subst_op(v, from, to),
            u,
        ),
        StatementKind::PtrStore(p, v) => b.kind == StatementKind::PtrStore(
            subst_op(p, from, to),
            subst_op(v, from, to),
        ),
        StatementKind::VectorStore(p, i, v) => b.kind == StatementKind::VectorStore(
            subst_op(p, from, to),
            subst_op(i, from, to),
            subst_op(v, from, to),
        ),
        _ => b.kind == a.kind,
    }
}

/// Replacing every read of `from` by a constant leaves no read of `from`
/// behind, but in a gen check or a reference, which name the local itself.
pub proof fn lemma_substitution_removes_reads(a: Statement, b: Statement, from: usize, to: Operand)
    requires
        substituted(a, b, from, to),
        to is Constant,
        !(a.kind is GenCheck),
        !(a.kind matches StatementKind::Assign(_, Rvalue::Ref(x)) && x.0 == from),
        !(a.kind matches StatementKind::Assign(_, Rvalue::MutRef(x)) && x.0 == from),
    ensures
        !statement_reads(b, from),
{
    match a.kind {
        StatementKind::Assign(d, rv) => {
            let rv2 = b.kind->Assign_1;
            match rv {
                Rvalue::Call { func, args } => {
                    let a2 = rv2->Call_args;
                    assert forall|i: int| 0 <= i < a2@.len() implies !#[trigger] operand_is(a2@[i], from) by {
                        assert(a2@[i] == subst_op(args@[i], from, to));
                    }
                },
                Rvalue::Aggregate(k, ops) => {
                    let o2 = rv2->Aggregate_1;
                    assert forall|i: int| 0 <= i < o2@.len() implies !#[trigger] operand_is(o2@[i], from) by {
                        assert(o2@[i] == subst_op(ops@[i], from, to));
                    }
                },
                _ => {},
            }
        },
        _ => {},
    }
}

fn subst_operand_copy(op: &Operand, from: usize, to: &Operand) -> (r: Operand)
    ensures
        r == subst_op(*op, from, *to),
{
    match op {
        Operand::Copy(l) | Operand::Move(l) => if l.0 == from {
            to.clone()
        } else {
            op.clone()
        },
        Operand::Constant(_) => op.clone(),
    }
}

fn subst_operands_copy(ops: &Vec<Operand>, from: usize, to: &Operand) -> (r: Vec<Operand>)
    ensures
        r@ == ops@.map_values(|o: Operand| subst_op(o, from, *to)),
{
    let mut out: Vec<Operand> = Vec::new();
    let mut i: usize = 0;
    while i < ops.len()
        invariant
            0 <= i <= ops@.len(),
            out@ == ops@.subrange(0, i as int).map_values(|o: Operand| subst_op(o, from, *to)),
        decreases ops.len() - i,
    {
        out.push(subst_operand_copy(&ops[i], from, to));
        i = i + 1;
        assert(out@ =~= ops@.subrange(0, i as int).map_values(|o: Operand| subst_op(o, from, *to)));
    }
    assert(ops@.subrange(0, ops@.len() as int) =~= ops@);
    out
}

fn subst_rvalue_copy(rv: &Rvalue, from: usize, to: &Operand) -> (r: Rvalue)
    ensures
        subst_rvalue_rel(*rv, r, from, *to),
{
    match rv {
        Rvalue::Use(o) => Rvalue::Use(subst_operand_copy(o, from, to)),
        Rvalue::UnaryOp(u, o) => Rvalue::UnaryOp(*u, subst_operand_copy(o, from, to)),
        Rvalue::Cast(o, t) => Rvalue::Cast(subst_operand_copy(o, from, to), copy_type(t)),
        Rvalue::GetAttr(o, n) => Rvalue::GetAttr(subst_operand_copy(o, from, to), n.clone()),
        Rvalue::GetTag(o) => Rvalue::GetTag(subst_operand_copy(o, from, to)),
        Rvalue::GetTypeId(o) => Rvalue::GetTypeId(subst_operand_copy(o, from, to)),
        Rvalue::PtrLoad(o) => Rvalue::PtrLoad(subst_operand_copy(o, from, to)),
        Rvalue::GenOf(o) => Rvalue::GenOf(subst_operand_copy(o, from, to)),
        Rvalue::FatPtrData(o) => Rvalue::FatPtrData(subst_operand_copy(o, from, to)),
        Rvalue::VTableLoad { vtable, method_idx } => Rvalue::VTableLoad {
            vtable: subst_operand_copy(vtable, from, to),
            method_idx: *method_idx,
        },
        Rvalue::BinaryOp(op, x, y) => Rvalue::BinaryOp(
            *op,
            subst_operand_copy(x, from, to),
            subst_operand_copy(y, from, to),
        ),
        Rvalue::GetIndex(x, y, u) => Rvalue::GetIndex(
            subst_operand_copy(x, from, to),
            subst_operand_copy(y, from, to),
            *u,
        ),
        Rvalue::Call { func, args } => Rvalue::Call {
            func: subst_operand_copy(func, from, to),
            args: subst_operands_copy(args, from, to),
        },
        Rvalue::Aggregate(k, ops) => Rvalue::Aggregate(*k, subst_operands_copy(ops, from, to)),
        Rvalue::Ref(l) => Rvalue::Ref(*l),
        Rvalue::MutRef(l) => Rvalue::MutRef(*l),
        Rvalue::VectorSplat(o, w) => Rvalue::VectorSplat(subst_operand_copy(o, from, to), *w),
        Rvalue::VectorLoad(x, y, w) => Rvalue::VectorLoad(
            subst_operand_copy(x, from, to),
            subst_operand_copy(y, from, to),
            *w,
        ),
        Rvalue::VectorFMA(x, y, z) => Rvalue::VectorFMA(
            subst_operand_copy(x, from, to),
            subst_operand_copy(y, from, to),
            subst_operand_copy(z, from, to),
        ),
        Rvalue::VectorReduce(op, o, w) => Rvalue::VectorReduce(*op, subst_operand_copy(o, from, to), *w),
    }
}

/// A copy of `s` with the reads of `from` replaced by `to`.
pub fn subst_copy(s: &Statement, from: usize, to: &Operand) -> (r: Statement)
    ensures
        substituted(*s, r, from, *to),
{
    let kind = match &s.kind {
        StatementKind::Assign(d, rv) => StatementKind::Assign(*d, subst_rvalue_copy(rv, from, to)),
        StatementKind::SetAttr(o, n, v) => StatementKind::SetAttr(
            subst_operand_copy(o, from, to),
            n.clone(),
            subst_operand_copy(v, from, to),
        ),
        StatementKind::SetIndex(o, i, v, u) => StatementKind::SetIndex(
            subst_operand_copy(o, from, to),
            subst_operand_copy(i, from, to),
            subst_operand_copy(v, from, to),
            *u,
        ),
        StatementKind::PtrStore(p, v) => StatementKind::PtrStore(
            subst_operand_copy(p, from, to),
            subst_operand_copy(v, from, to),
        ),
        StatementKind::VectorStore(p, i, v) => StatementKind::VectorStore(
            subst_operand_copy(p, from, to),
            subst_operand_copy(i, from, to),
            subst_operand_copy(v, from, to),
        ),
        StatementKind::StorageLive(l) => StatementKind::StorageLive(*l),
        StatementKind::StorageDead(l) => StatementKind::StorageDead(*l),
        StatementKind::Drop(l) => StatementKind::Drop(*l),
        StatementKind::GenCheck { value, generation } => StatementKind::GenCheck {
            value: *value,
            generation: *generation,
        },
    };
    Statement { kind, span: s.span }
}

} // verus!
