//! The optimisation passes over a `MirFunction`.

pub mod algebraic;
pub mod assigns;
pub mod bounds_check_elim;
pub mod const_fold;
pub mod const_prop;
pub mod copy_prop;
pub mod cse;
pub mod dce;
pub mod devirtualize;
pub mod devirtualize_closure;
pub mod gil_fusion;
pub mod gvn;
pub mod drop_hooks;
pub mod inliner;
pub mod list_append;
pub mod loop_unroll;
pub mod move_elision;
pub mod ownership;
pub mod summaries;
pub mod strength_reduction;
pub mod tail_call;
pub mod vectorize;
pub mod peephole;
pub mod propagate;
pub mod scalarize;

use crate::ir::{Local, MirFunction, Operand, Rvalue};
use vstd::prelude::*;

verus! {

/// A pass that rewrites a function in place and reports whether it changed it.
pub trait Transform {
    /// The functions the pass accepts: those on which it does not fault.
    spec fn accepts(&self, func: MirFunction) -> bool;

    fn run(&self, func: &mut MirFunction) -> bool
        requires
            self.accepts(*old(func)),
    ;
}

/// The local an operand reads, as a one- or zero-element list.
pub open spec fn op_locals(op: Operand) -> Seq<Local> {
    match op {
        Operand::Copy(l) => seq![l],
        Operand::Move(l) => seq![l],
        Operand::Constant(_) => seq![],
    }
}

/// The locals a list of operands reads, in order.
pub open spec fn ops_locals(ops: Seq<Operand>) -> Seq<Local>
    decreases ops.len(),
{
    if ops.len() == 0 {
        seq![]
    } else {
        ops_locals(ops.drop_last()) + op_locals(ops.last())
    }
}

/// The locals an rvalue reads, in operand order; a reference reads its local.
pub open spec fn rvalue_locals(rv: Rvalue) -> Seq<Local> {
    match rv {
        Rvalue::Use(o) | Rvalue::UnaryOp(_, o) | Rvalue::Cast(o, _) | Rvalue::GetAttr(o, _) | Rvalue::GetTag(o)
        | Rvalue::GetTypeId(o) | Rvalue::VectorSplat(o, _) | Rvalue::VectorReduce(_, o, _) | Rvalue::PtrLoad(o)
        | Rvalue::GenOf(o) | Rvalue::FatPtrData(o) | Rvalue::VTableLoad { vtable: o, .. } => op_locals(o),
        Rvalue::BinaryOp(_, a, b) | Rvalue::GetIndex(a, b, _) | Rvalue::VectorLoad(a, b, _) => op_locals(a)
            + op_locals(b),
        Rvalue::VectorFMA(a, b, c) => op_locals(a) + op_locals(b) + op_locals(c),
        Rvalue::Call { func, args } => op_locals(func) + ops_locals(args@),
        Rvalue::Aggregate(_, ops) => ops_locals(ops@),
        Rvalue::Ref(l) | Rvalue::MutRef(l) => seq![l],
    }
}

fn push_op_local(op: &Operand, out: &mut Vec<Local>)
    ensures
        final(out)@ == old(out)@ + op_locals(*op),
{
    match op {
        Operand::Copy(l) | Operand::Move(l) => {
            out.push(*l);
        },
        Operand::Constant(_) => {},
    }
    assert(out@ =~= old(out)@ + op_locals(*op));
}

fn push_ops_locals(ops: &Vec<Operand>, out: &mut Vec<Local>)
    ensures
        final(out)@ == old(out)@ + ops_locals(ops@),
{
    let ghost start = out@;
    let mut i: usize = 0;
    while i < ops.len()
        invariant
            0 <= i <= ops@.len(),
            out@ == start + ops_locals(ops@.subrange(0, i as int)),
        decreases ops.len() - i,
    {
        push_op_local(&ops[i], out);
        proof {
            assert(ops@.subrange(0, i + 1).drop_last() =~= ops@.subrange(0, i as int));
            assert(out@ =~= start + ops_locals(ops@.subrange(0, i + 1)));
        }
        i = i + 1;
    }
    assert(ops@.subrange(0, ops@.len() as int) =~= ops@);
}

/// Appends the locals `rval` reads to `out`, as `rvalue_locals` lists them.
pub(crate) fn rvalue_operand_locals(rval: &Rvalue, out: &mut Vec<Local>)
    ensures
        final(out)@ == old(out)@ + rvalue_locals(*rval),
{
    match rval {
        Rvalue::Use(op) | Rvalue::UnaryOp(_, op) | Rvalue::Cast(op, _) | Rvalue::GetAttr(op, _) | Rvalue::GetTag(op)
        | Rvalue::GetTypeId(op) | Rvalue::VectorSplat(op, _) | Rvalue::VectorReduce(_, op, _) | Rvalue::PtrLoad(op)
        | Rvalue::GenOf(op) | Rvalue::FatPtrData(op) | Rvalue::VTableLoad { vtable: op, .. } => push_op_local(op, out),
        Rvalue::BinaryOp(_, a, b) | Rvalue::GetIndex(a, b, _) | Rvalue::VectorLoad(a, b, _) => {
            push_op_local(a, out);
            push_op_local(b, out);
            assert(out@ =~= old(out)@ + rvalue_locals(*rval));
        },
        Rvalue::VectorFMA(a, b, c) => {
            push_op_local(a, out);
            push_op_local(b, out);
            push_op_local(c, out);
            assert(out@ =~= old(out)@ + rvalue_locals(*rval));
        },
        Rvalue::Call { func, args } => {
            push_op_local(func, out);
            push_ops_locals(args, out);
            assert(out@ =~= old(out)@ + rvalue_locals(*rval));
        },
        Rvalue::Aggregate(_, ops) => push_ops_locals(ops, out),
        Rvalue::Ref(l) | Rvalue::MutRef(l) => {
            out.push(*l);
            assert(out@ =~= old(out)@ + rvalue_locals(*rval));
        },
    }
}

} // verus!
