//! Dead code elimination: an assignment whose destination is never read
//! anywhere in the function is removed, unless it is a call (which may have
//! effects). Local 0, the return slot, always counts as read.

use super::Transform;
use crate::ir::{
    local_type, operand_local, same_except_blocks, spec_is_move_type, BasicBlock, LocalDecl,
    MirFunction, Operand, Rvalue, Statement, StatementKind, Terminator, TerminatorKind,
};
use std::collections::HashSet;
use vstd::prelude::*;

verus! {

pub struct DeadCodeElimination;

/// The local an operand reads, as a set.
pub open spec fn operand_reads(op: Operand) -> Set<usize> {
    match operand_local(op) {
        Some(l) => set![l],
        None => Set::empty(),
    }
}

/// The locals read by a list of operands.
pub open spec fn operands_reads(ops: Seq<Operand>) -> Set<usize>
    decreases ops.len(),
{
    if ops.len() == 0 {
        Set::empty()
    } else {
        operands_reads(ops.drop_last()).union(operand_reads(ops.last()))
    }
}

/// The locals an rvalue reads (a reference counts as a read of its local).
pub open spec fn rvalue_uses(rv: Rvalue) -> Set<usize> {
    match rv {
        Rvalue::Use(o) | Rvalue::UnaryOp(_, o) | Rvalue::GetAttr(o, _) | Rvalue::GetTag(o)
        | Rvalue::GetTypeId(o) | Rvalue::FatPtrData(o) | Rvalue::Cast(o, _) | Rvalue::PtrLoad(o)
        | Rvalue::GenOf(o) | Rvalue::VTableLoad { vtable: o, .. } | Rvalue::VectorSplat(o, _)
        | Rvalue::VectorReduce(_, o, _) => operand_reads(o),
        Rvalue::BinaryOp(_, l, r) | Rvalue::GetIndex(l, r, _) | Rvalue::VectorLoad(l, r, _) => operand_reads(l).union(operand_reads(r)),
        Rvalue::VectorFMA(a, b, c) => operand_reads(a).union(operand_reads(b)).union(operand_reads(c)),
        Rvalue::Call { func, args } => operand_reads(func).union(operands_reads(args@)),
        Rvalue::Aggregate(_, ops) => operands_reads(ops@),
        Rvalue::Ref(l) | Rvalue::MutRef(l) => set![l.0],
    }
}

/// The locals a statement reads. A `Drop` reads its local when the local
/// owns heap data.
pub open spec fn statement_uses(locals: Seq<LocalDecl>, s: Statement) -> Set<usize> {
    match s.kind {
        StatementKind::Assign(_, rv) => rvalue_uses(rv),
        StatementKind::SetAttr(o, _, v) => operand_reads(o).union(operand_reads(v)),
        StatementKind::SetIndex(o, i, v, _) | StatementKind::VectorStore(o, i, v) => operand_reads(
            o,
        ).union(operand_reads(i)).union(operand_reads(v)),
        StatementKind::PtrStore(p, v) => operand_reads(p).union(operand_reads(v)),
        StatementKind::Drop(l) => match local_type(locals, l.0) {
            Some(t) => if spec_is_move_type(t) {
                set![l.0]
            } else {
                Set::empty()
            },
            None => Set::empty(),
        },
        StatementKind::GenCheck { value, generation } => set![value.0, generation.0],
        _ => Set::empty(),
    }
}

/// The locals a terminator reads.
pub open spec fn terminator_uses(t: Option<Terminator>) -> Set<usize> {
    match t {
        Some(Terminator { kind: TerminatorKind::SwitchInt { discr, .. }, .. }) => operand_reads(discr),
        _ => Set::empty(),
    }
}

/// The locals read by a list of statements.
pub open spec fn statements_uses(locals: Seq<LocalDecl>, stmts: Seq<Statement>) -> Set<usize>
    decreases stmts.len(),
{
    if stmts.len() == 0 {
        Set::empty()
    } else {
        statements_uses(locals, stmts.drop_last()).union(statement_uses(locals, stmts.last()))
    }
}

/// The locals read anywhere in a list of blocks.
pub open spec fn blocks_uses(locals: Seq<LocalDecl>, blocks: Seq<BasicBlock>) -> Set<usize>
    decreases blocks.len(),
{
    if blocks.len() == 0 {
        Set::empty()
    } else {
        blocks_uses(locals, blocks.drop_last()).union(
            statements_uses(locals, blocks.last().statements@),
        ).union(terminator_uses(blocks.last().terminator))
    }
}

/// The locals of `f` that count as read: the return slot and every local
/// some statement or terminator reads.
pub open spec fn used_locals(f: MirFunction) -> Set<usize> {
    set![0usize].union(blocks_uses(f.locals@, f.basic_blocks@))
}

/// Whether the pass keeps statement `s`, given the read locals.
pub open spec fn keeps(used: Set<usize>, s: Statement) -> bool {
    match s.kind {
        StatementKind::Assign(dest, rv) => rv is Call || used.contains(dest.0),
        _ => true,
    }
}

/// The statements of a block that the pass keeps, in order.
pub open spec fn live_statements(used: Set<usize>, stmts: Seq<Statement>) -> Seq<Statement> {
    stmts.filter(|s: Statement| keeps(used, s))
}

fn record_operand_usage(op: &Operand, used: &mut HashSet<usize>)
    ensures
        final(used)@ == old(used)@.union(operand_reads(*op)),
{
    match op {
        Operand::Copy(l) | Operand::Move(l) => {
            used.insert(l.0);
            assert(final(used)@ =~= old(used)@.union(operand_reads(*op)));
        },
        Operand::Constant(_) => {
            assert(old(used)@ =~= old(used)@.union(operand_reads(*op)));
        },
    }
}

fn record_operands_usage(ops: &Vec<Operand>, used: &mut HashSet<usize>)
    ensures
        final(used)@ == old(used)@.union(operands_reads(ops@)),
{
    let mut i: usize = 0;
    assert(ops@.subrange(0, 0) =~= Seq::<Operand>::empty());
    assert(used@ =~= old(used)@.union(operands_reads(ops@.subrange(0, 0))));
    while i < ops.len()
        invariant
            0 <= i <= ops@.len(),
            used@ == old(used)@.union(operands_reads(ops@.subrange(0, i as int))),
        decreases ops.len() - i,
    {
        assert(ops@.subrange(0, i + 1).drop_last() =~= ops@.subrange(0, i as int));
        record_operand_usage(&ops[i], used);
        i = i + 1;
        assert(used@ =~= old(used)@.union(operands_reads(ops@.subrange(0, i as int))));
    }
    assert(ops@.subrange(0, ops@.len() as int) =~= ops@);
}

fn record_rvalue_usage(rval: &Rvalue, used: &mut HashSet<usize>)
    ensures
        final(used)@ == old(used)@.union(rvalue_uses(*rval)),
{
    match rval {
        Rvalue::Use(op) | Rvalue::UnaryOp(_, op) | Rvalue::GetAttr(op, _) | Rvalue::GetTag(op)
        | Rvalue::GetTypeId(op) | Rvalue::FatPtrData(op) | Rvalue::Cast(op, _)
        | Rvalue::PtrLoad(op) | Rvalue::GenOf(op) | Rvalue::VTableLoad { vtable: op, .. }
        | Rvalue::VectorSplat(op, _) | Rvalue::VectorReduce(_, op, _) => {
            record_operand_usage(op, used);
        },
        Rvalue::BinaryOp(_, l, r) | Rvalue::GetIndex(l, r, _) | Rvalue::VectorLoad(l, r, _) => {
            record_operand_usage(l, used);
            record_operand_usage(r, used);
            assert(final(used)@ =~= old(used)@.union(rvalue_uses(*rval)));
        },
        Rvalue::VectorFMA(a, b, c) => {
            record_operand_usage(a, used);
            record_operand_usage(b, used);
            record_operand_usage(c, used);
            assert(final(used)@ =~= old(used)@.union(rvalue_uses(*rval)));
        },
        Rvalue::Call { func, args } => {
            record_operand_usage(func, used);
            record_operands_usage(args, used);
            assert(final(used)@ =~= old(used)@.union(rvalue_uses(*rval)));
        },
        Rvalue::Aggregate(_, ops) => {
            record_operands_usage(ops, used);
        },
        Rvalue::Ref(l) | Rvalue::MutRef(l) => {
            used.insert(l.0);
            assert(final(used)@ =~= old(used)@.union(rvalue_uses(*rval)));
        },
    }
}

fn record_statement_usage(locals: &Vec<LocalDecl>, stmt: &Statement, used: &mut HashSet<usize>)
    ensures
        final(used)@ == old(used)@.union(statement_uses(locals@, *stmt)),
{
    match &stmt.kind {
        StatementKind::Assign(_, rval) => record_rvalue_usage(rval, used),
        StatementKind::SetAttr(obj, _, val) => {
            record_operand_usage(obj, used);
            record_operand_usage(val, used);
            assert(final(used)@ =~= old(used)@.union(statement_uses(locals@, *stmt)));
        },
        StatementKind::SetIndex(obj, idx, val, _) | StatementKind::VectorStore(obj, idx, val) => {
            record_operand_usage(obj, used);
            record_operand_usage(idx, used);
            record_operand_usage(val, used);
            assert(final(used)@ =~= old(used)@.union(statement_uses(locals@, *stmt)));
        },
        StatementKind::PtrStore(ptr, val) => {
            record_operand_usage(ptr, used);
            record_operand_usage(val, used);
            assert(final(used)@ =~= old(used)@.union(statement_uses(locals@, *stmt)));
        },
        StatementKind::Drop(l) => {
            if l.0 < locals.len() && locals[l.0].ty.is_move_type() {
                used.insert(l.0);
            }
            assert(final(used)@ =~= old(used)@.union(statement_uses(locals@, *stmt)));
        },
        StatementKind::GenCheck { value, generation } => {
            used.insert(value.0);
            used.insert(generation.0);
            assert(final(used)@ =~= old(used)@.union(statement_uses(locals@, *stmt)));
        },
        _ => {
            assert(final(used)@ =~= old(used)@.union(statement_uses(locals@, *stmt)));
        },
    }
}

/// The locals read anywhere in the function.
fn collect_used(func: &MirFunction) -> (used: HashSet<usize>)
    ensures
        used@ == used_locals(*func),
{
    let mut used: HashSet<usize> = HashSet::new();
    used.insert(0);
    let ghost blocks = func.basic_blocks@;
    let ghost locals = func.locals@;
    assert(blocks.subrange(0, 0) =~= Seq::<BasicBlock>::empty());
    assert(used@ =~= set![0usize].union(blocks_uses(locals, blocks.subrange(0, 0))));
    let mut i: usize = 0;
    while i < func.basic_blocks.len()
        invariant
            blocks == func.basic_blocks@,
            locals == func.locals@,
            0 <= i <= blocks.len(),
            used@ == set![0usize].union(blocks_uses(locals, blocks.subrange(0, i as int))),
        decreases blocks.len() - i,
    {
        let bb = &func.basic_blocks[i];
        let ghost before = used@;
        let mut j: usize = 0;
        assert(bb.statements@.subrange(0, 0) =~= Seq::<Statement>::empty());
        assert(used@ =~= before.union(statements_uses(locals, bb.statements@.subrange(0, 0))));
        while j < bb.statements.len()
            invariant
                locals == func.locals@,
                0 <= j <= bb.statements@.len(),
                used@ == before.union(statements_uses(locals, bb.statements@.subrange(0, j as int))),
            decreases bb.statements@.len() - j,
        {
            assert(bb.statements@.subrange(0, j + 1).drop_last() =~= bb.statements@.subrange(
                0,
                j as int,
            ));
            record_statement_usage(&func.locals, &bb.statements[j], &mut used);
            j = j + 1;
            assert(used@ =~= before.union(
                statements_uses(locals, bb.statements@.subrange(0, j as int)),
            ));
        }
        assert(bb.statements@.subrange(0, bb.statements@.len() as int) =~= bb.statements@);
        if let Some(term) = &bb.terminator {
            if let TerminatorKind::SwitchInt { discr, .. } = &term.kind {
                record_operand_usage(discr, &mut used);
            }
        }
        assert(blocks.subrange(0, i + 1).drop_last() =~= blocks.subrange(0, i as int));
        assert(blocks.subrange(0, i + 1).last() == blocks[i as int]);
        i = i + 1;
        assert(used@ =~= set![0usize].union(blocks_uses(locals, blocks.subrange(0, i as int))));
    }
    assert(blocks.subrange(0, blocks.len() as int) =~= blocks);
    used
}

/// Removes, in order, the statements of one block that `keeps` rejects.
fn retain_live(stmts: &mut Vec<Statement>, used: &HashSet<usize>) -> (changed: bool)
    ensures
        final(stmts)@ == live_statements(used@, old(stmts)@),
        changed == (final(stmts)@.len() != old(stmts)@.len()),
{
    let ghost orig = stmts@;
    let ghost p = |s: Statement| keeps(used@, s);
    let ghost n = orig.len();
    let len0 = stmts.len();
    let mut j: usize = 0;
    let mut k: usize = 0;
    proof {
        reveal_with_fuel(Seq::<Statement>::filter, 1);
        assert(orig.subrange(0, 0) =~= Seq::<Statement>::empty());
        assert(stmts@ =~= orig.subrange(0, 0).filter(p) + orig.subrange(0, n as int));
    }
    while j < stmts.len()
        invariant
            n == orig.len(),
            0 <= k <= n,
            j == orig.subrange(0, k as int).filter(p).len(),
            stmts@.len() == j + (n - k),
            n == len0,
            stmts@ == orig.subrange(0, k as int).filter(p) + orig.subrange(k as int, n as int),
            p == (|s: Statement| keeps(used@, s)),
        decreases n - k,
    {
        proof {
            reveal_with_fuel(Seq::<Statement>::filter, 1);
            assert(orig.subrange(0, k + 1).drop_last() =~= orig.subrange(0, k as int));
            assert(orig.subrange(0, k + 1).last() == orig[k as int]);
            assert(stmts@[j as int] == orig[k as int]);
        }
        let keep = match &stmts[j].kind {
            StatementKind::Assign(dest, rval) => matches!(rval, Rvalue::Call { .. }) || used.contains(
                &dest.0,
            ),
            _ => true,
        };
        assert(keep == p(orig[k as int]));
        if keep {
            j = j + 1;
            assert(stmts@ =~= orig.subrange(0, k + 1).filter(p) + orig.subrange(k + 1, n as int));
        } else {
            stmts.remove(j);
            assert(stmts@ =~= orig.subrange(0, k + 1).filter(p) + orig.subrange(k + 1, n as int));
        }
        k = k + 1;
    }
    assert(orig.subrange(0, n as int) =~= orig);
    assert(stmts@ =~= orig.filter(p));
    stmts.len() != len0
}

impl Transform for DeadCodeElimination {
    open spec fn accepts(&self, func: MirFunction) -> bool {
        true
    }

    /// Keeps exactly the statements `keeps(used_locals(..), _)` accepts, in order.
    fn run(&self, func: &mut MirFunction) -> (changed: bool)
        ensures
            same_except_blocks(*final(func), *old(func)),
            final(func).basic_blocks@.len() == old(func).basic_blocks@.len(),
            forall|i: int|
                0 <= i < old(func).basic_blocks@.len() ==> {
                    &&& #[trigger] final(func).basic_blocks@[i].terminator
                        == old(func).basic_blocks@[i].terminator
                    &&& final(func).basic_blocks@[i].statements@ == live_statements(
                        used_locals(*old(func)),
                        old(func).basic_blocks@[i].statements@,
                    )
                },
            changed == exists|i: int|
                0 <= i < old(func).basic_blocks@.len()
                    && #[trigger] live_statements(
                    used_locals(*old(func)),
                    old(func).basic_blocks@[i].statements@,
                ).len() != old(func).basic_blocks@[i].statements@.len(),
    {
        let used = collect_used(func);
        let ghost orig = func.basic_blocks@;
        let ghost u = used_locals(*old(func));
        let mut changed = false;
        let mut i: usize = 0;
        while i < func.basic_blocks.len()
            invariant
                same_except_blocks(*func, *old(func)),
                orig == old(func).basic_blocks@,
                used@ == u,
                u == used_locals(*old(func)),
                func.basic_blocks@.len() == orig.len(),
                0 <= i <= orig.len(),
                forall|k: int|
                    0 <= k < i ==> {
                        &&& #[trigger] func.basic_blocks@[k].terminator == orig[k].terminator
                        &&& func.basic_blocks@[k].statements@ == live_statements(
                            u,
                            orig[k].statements@,
                        )
                    },
                forall|k: int| i <= k < orig.len() ==> #[trigger] func.basic_blocks@[k] == orig[k],
                changed == exists|k: int|
                    0 <= k < i && #[trigger] live_statements(u, orig[k].statements@).len()
                        != orig[k].statements@.len(),
            decreases orig.len() - i,
        {
            let mut bb = BasicBlock { statements: Vec::new(), terminator: None };
            func.basic_blocks.set_and_swap(i, &mut bb);
            let c = retain_live(&mut bb.statements, &used);
            func.basic_blocks.set_and_swap(i, &mut bb);
            changed = changed || c;
            i = i + 1;
        }
        changed
    }
}

} // verus!
