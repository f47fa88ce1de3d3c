//! Local common subexpression elimination. Within a block, an operation
//! (`Use`, unary or binary) that was already computed into a local still
//! holding it is replaced by a copy of that local. A call forgets every
//! available expression; an assignment, drop, storage end or move of a local
//! forgets the expressions held in it or reading it. Expressions that move a
//! local are never reused: a move zeroes its source.

use super::Transform;
use crate::ir::{
    operand_eq, operand_local, same_except_blocks, same_operand, BasicBlock, Local, MirFunction,
    Operand, Rvalue, Statement, StatementKind,
};
use vstd::prelude::*;

verus! {

pub struct CommonSubexpressionElimination;

/// The operands an rvalue reads, in order (none for references and vtable loads).
pub open spec fn rvalue_operands(rv: Rvalue) -> Seq<Operand> {
    match rv {
        Rvalue::Use(o) | Rvalue::UnaryOp(_, o) | Rvalue::GetAttr(o, _) | Rvalue::GetTag(o)
        | Rvalue::GetTypeId(o) | Rvalue::FatPtrData(o) | Rvalue::Cast(o, _) | Rvalue::PtrLoad(o)
        | Rvalue::GenOf(o) | Rvalue::VectorSplat(o, _) | Rvalue::VectorReduce(_, o, _) => seq![o],
        Rvalue::BinaryOp(_, l, r) | Rvalue::GetIndex(l, r, _) | Rvalue::VectorLoad(l, r, _) => seq![l, r],
        Rvalue::VectorFMA(a, b, c) => seq![a, b, c],
        Rvalue::Call { func, args } => seq![func] + args@,
        Rvalue::Aggregate(_, ops) => ops@,
        Rvalue::Ref(_) | Rvalue::MutRef(_) | Rvalue::VTableLoad { .. } => seq![],
    }
}

/// The operands of a statement that a move may appear in.
pub open spec fn statement_operands(kind: StatementKind) -> Seq<Operand> {
    match kind {
        StatementKind::Assign(_, rv) => rvalue_operands(rv),
        StatementKind::SetIndex(o, i, v, _) | StatementKind::VectorStore(o, i, v) => seq![o, i, v],
        StatementKind::SetAttr(o, _, v) => seq![o, v],
        StatementKind::PtrStore(p, v) => seq![p, v],
        _ => seq![],
    }
}

/// The locals moved by `ops`, in order.
pub open spec fn moved_of(ops: Seq<Operand>) -> Seq<usize>
    decreases ops.len(),
{
    if ops.len() == 0 {
        seq![]
    } else {
        let rest = moved_of(ops.drop_last());
        match ops.last() {
            Operand::Move(l) => rest.push(l.0),
            _ => rest,
        }
    }
}

/// The locals a statement moves, in order.
pub open spec fn moved_locals(kind: StatementKind) -> Seq<usize> {
    moved_of(statement_operands(kind))
}

proof fn lemma_moved_of_append(a: Seq<Operand>, b: Seq<Operand>)
    ensures
        moved_of(a + b) == moved_of(a) + moved_of(b),
    decreases b.len(),
{
    if b.len() == 0 {
        assert(a + b =~= a);
        assert(moved_of(b) =~= seq![]);
        assert(moved_of(a) + moved_of(b) =~= moved_of(a));
    } else {
        lemma_moved_of_append(a, b.drop_last());
        assert((a + b).drop_last() =~= a + b.drop_last());
        assert((a + b).last() == b.last());
        match b.last() {
            Operand::Move(l) => {
                assert(moved_of(a) + moved_of(b) =~= (moved_of(a) + moved_of(b.drop_last())).push(l.0));
            },
            _ => {},
        }
    }
}

pub open spec fn has_move(rv: Rvalue) -> bool {
    exists|i: int| 0 <= i < rvalue_operands(rv).len() && #[trigger] rvalue_operands(rv)[i] is Move
}

pub open spec fn reads_local(rv: Rvalue, l: usize) -> bool {
    exists|i: int|
        0 <= i < rvalue_operands(rv).len() && operand_local(#[trigger] rvalue_operands(rv)[i])
            == Some(l)
}

/// An expression CSE may reuse: a use, unary or binary operation without moves.
pub open spec fn is_candidate(rv: Rvalue) -> bool {
    (rv is Use || rv is UnaryOp || rv is BinaryOp) && !has_move(rv)
}

/// Two candidate expressions compute the same thing (what `==` on them decides).
pub open spec fn same_expr(a: Rvalue, b: Rvalue) -> bool {
    match (a, b) {
        (Rvalue::Use(x), Rvalue::Use(y)) => same_operand(x, y),
        (Rvalue::UnaryOp(p, x), Rvalue::UnaryOp(q, y)) => p == q && same_operand(x, y),
        (Rvalue::BinaryOp(p, x1, x2), Rvalue::BinaryOp(q, y1, y2)) => p == q && same_operand(x1, y1)
            && same_operand(x2, y2),
        _ => false,
    }
}

/// The entries of `avail` that survive losing local `l`: those not held in
/// `l` and not reading it.
pub open spec fn forget_local(avail: Seq<(Rvalue, Local)>, l: usize) -> Seq<(Rvalue, Local)> {
    avail.filter(|e: (Rvalue, Local)| e.1.0 != l && !reads_local(e.0, l))
}

pub open spec fn forget_all(avail: Seq<(Rvalue, Local)>, ls: Seq<usize>) -> Seq<(Rvalue, Local)>
    decreases ls.len(),
{
    if ls.len() == 0 {
        avail
    } else {
        forget_all(forget_local(avail, ls[0]), ls.subrange(1, ls.len() as int))
    }
}

/// The index of the first available entry computing `rv`.
pub open spec fn first_match(avail: Seq<(Rvalue, Local)>, rv: Rvalue) -> Option<int> {
    if exists|i: int| 0 <= i < avail.len() && #[trigger] same_expr(avail[i].0, rv) {
        Some(
            choose|i: int|
                0 <= i < avail.len() && same_expr(avail[i].0, rv) && forall|k: int|
                    0 <= k < i ==> !#[trigger] same_expr(avail[k].0, rv),
        )
    } else {
        None
    }
}

/// One step of the scan: the statement after CSE and the available
/// expressions after it, given those before it.
pub open spec fn cse_step(avail: Seq<(Rvalue, Local)>, s: Statement) -> (Statement, Seq<(Rvalue, Local)>) {
    let moved = moved_locals(s.kind);
    let (new_s, a1) = match s.kind {
        StatementKind::Assign(dest, rv) => if rv is Call {
            (s, Seq::<(Rvalue, Local)>::empty())
        } else {
            let (new_s, a0) = if is_candidate(rv) {
                match first_match(avail, rv) {
                    Some(i) => (
                        Statement {
                            kind: StatementKind::Assign(
                                dest,
                                Rvalue::Use(Operand::Copy(avail[i].1)),
                            ),
                            span: s.span,
                        },
                        avail,
                    ),
                    None => (s, avail.push((rv, dest))),
                }
            } else {
                (s, avail)
            };
            (new_s, forget_local(a0, dest.0))
        },
        StatementKind::SetIndex(..) | StatementKind::SetAttr(..) | StatementKind::VectorStore(..)
        | StatementKind::PtrStore(..) => (
            s,
            avail.filter(|e: (Rvalue, Local)| !(e.0 is GetIndex || e.0 is GetAttr)),
        ),
        StatementKind::Drop(l) | StatementKind::StorageDead(l) => (s, forget_local(avail, l.0)),
        _ => (s, avail),
    };
    (new_s, forget_all(a1, moved))
}

/// The statements of a block after CSE, scanning from the front.
pub open spec fn cse_scan(stmts: Seq<Statement>, avail: Seq<(Rvalue, Local)>) -> Seq<Statement>
    decreases stmts.len(),
{
    if stmts.len() == 0 {
        stmts
    } else {
        let (s, a) = cse_step(avail, stmts[0]);
        seq![s] + cse_scan(stmts.subrange(1, stmts.len() as int), a)
    }
}

/// Whether the scan rewrites some statement.
pub open spec fn cse_changes(stmts: Seq<Statement>, avail: Seq<(Rvalue, Local)>) -> bool
    decreases stmts.len(),
{
    if stmts.len() == 0 {
        false
    } else {
        let (s, a) = cse_step(avail, stmts[0]);
        s != stmts[0] || cse_changes(stmts.subrange(1, stmts.len() as int), a)
    }
}

pub(crate) fn clone_candidate(rv: &Rvalue) -> (r: Rvalue)
    requires
        rv is Use || rv is UnaryOp || rv is BinaryOp,
    ensures
        r == *rv,
{
    match rv {
        Rvalue::Use(o) => Rvalue::Use(o.clone()),
        Rvalue::UnaryOp(op, o) => Rvalue::UnaryOp(*op, o.clone()),
        Rvalue::BinaryOp(op, a, b) => Rvalue::BinaryOp(*op, a.clone(), b.clone()),
        _ => Rvalue::Use(Operand::Constant(crate::ir::Constant::NoneValue)),
    }
}

pub(crate) fn expr_eq(a: &Rvalue, b: &Rvalue) -> (r: bool)
    ensures
        r == same_expr(*a, *b),
{
    match (a, b) {
        (Rvalue::Use(x), Rvalue::Use(y)) => operand_eq(x, y),
        (Rvalue::UnaryOp(p, x), Rvalue::UnaryOp(q, y)) => *p == *q && operand_eq(x, y),
        (Rvalue::BinaryOp(p, x1, x2), Rvalue::BinaryOp(q, y1, y2)) => *p == *q && operand_eq(x1, y1)
            && operand_eq(x2, y2),
        _ => false,
    }
}

fn operand_is_move(op: &Operand) -> (r: bool)
    ensures
        r == op is Move,
{
    matches!(op, Operand::Move(_))
}

fn operand_reads(op: &Operand, l: usize) -> (r: bool)
    ensures
        r == (operand_local(*op) == Some(l)),
{
    match op {
        Operand::Copy(x) | Operand::Move(x) => x.0 == l,
        Operand::Constant(_) => false,
    }
}

impl CommonSubexpressionElimination {
    pub(crate) fn rvalue_has_move(rval: &Rvalue) -> (r: bool)
        requires
            rval is Use || rval is UnaryOp || rval is BinaryOp,
        ensures
            r == has_move(*rval),
    {
        match rval {
            Rvalue::Use(o) | Rvalue::UnaryOp(_, o) => {
                let r = operand_is_move(o);
                assert(rvalue_operands(*rval)[0] == *o);
                r
            },
            Rvalue::BinaryOp(_, a, b) => {
                let r = operand_is_move(a) || operand_is_move(b);
                assert(rvalue_operands(*rval)[0] == *a);
                assert(rvalue_operands(*rval)[1] == *b);
                r
            },
            _ => false,
        }
    }

    pub(crate) fn uses_local(rval: &Rvalue, l: usize) -> (r: bool)
        requires
            rval is Use || rval is UnaryOp || rval is BinaryOp,
        ensures
            r == reads_local(*rval, l),
    {
        match rval {
            Rvalue::Use(o) | Rvalue::UnaryOp(_, o) => {
                let r = operand_reads(o, l);
                assert(rvalue_operands(*rval)[0] == *o);
                r
            },
            Rvalue::BinaryOp(_, a, b) => {
                let r = operand_reads(a, l) || operand_reads(b, l);
                assert(rvalue_operands(*rval)[0] == *a);
                assert(rvalue_operands(*rval)[1] == *b);
                r
            },
            _ => false,
        }
    }
}

fn push_moves(ops: &Vec<Operand>, out: &mut Vec<usize>)
    ensures
        final(out)@ == old(out)@ + moved_of(ops@),
{
    let mut i: usize = 0;
    assert(ops@.subrange(0, 0) =~= Seq::<Operand>::empty());
    assert(out@ =~= old(out)@ + moved_of(ops@.subrange(0, 0)));
    while i < ops.len()
        invariant
            0 <= i <= ops@.len(),
            out@ == old(out)@ + moved_of(ops@.subrange(0, i as int)),
        decreases ops.len() - i,
    {
        assert(ops@.subrange(0, i + 1).drop_last() =~= ops@.subrange(0, i as int));
        assert(ops@.subrange(0, i + 1).last() == ops@[i as int]);
        if let Operand::Move(l) = &ops[i] {
            out.push(l.0);
        }
        i = i + 1;
        assert(out@ =~= old(out)@ + moved_of(ops@.subrange(0, i as int)));
    }
    assert(ops@.subrange(0, ops@.len() as int) =~= ops@);
}

fn push_move(op: &Operand, out: &mut Vec<usize>)
    ensures
        final(out)@ == old(out)@ + moved_of(seq![*op]),
{
    assert(seq![*op].drop_last() =~= Seq::<Operand>::empty());
    proof {
        reveal_with_fuel(moved_of, 2);
    }
    if let Operand::Move(l) = op {
        out.push(l.0);
    }
    assert(out@ =~= old(out)@ + moved_of(seq![*op]));
}

/// The locals `kind` moves, in order.
pub(crate) fn statement_moves(kind: &StatementKind) -> (out: Vec<usize>)
    ensures
        out@ == moved_locals(*kind),
{
    let mut out: Vec<usize> = Vec::new();
    let ghost ops = statement_operands(*kind);
    match kind {
        StatementKind::Assign(_, rv) => match rv {
            Rvalue::Use(o) | Rvalue::UnaryOp(_, o) | Rvalue::GetAttr(o, _) | Rvalue::GetTag(o)
            | Rvalue::GetTypeId(o) | Rvalue::FatPtrData(o) | Rvalue::Cast(o, _)
            | Rvalue::PtrLoad(o) | Rvalue::GenOf(o) | Rvalue::VectorSplat(o, _)
            | Rvalue::VectorReduce(_, o, _) => {
                push_move(o, &mut out);
                assert(ops =~= seq![*o]);
            },
            Rvalue::BinaryOp(_, a, b) | Rvalue::GetIndex(a, b, _) | Rvalue::VectorLoad(a, b, _) => {
                push_move(a, &mut out);
                push_move(b, &mut out);
                proof {
                    lemma_moved_of_append(seq![*a], seq![*b]);
                    assert(ops =~= seq![*a] + seq![*b]);
                }
            },
            Rvalue::VectorFMA(a, b, c) => {
                push_move(a, &mut out);
                push_move(b, &mut out);
                push_move(c, &mut out);
                proof {
                    lemma_moved_of_append(seq![*a], seq![*b]);
                    lemma_moved_of_append(seq![*a] + seq![*b], seq![*c]);
                    assert(ops =~= seq![*a] + seq![*b] + seq![*c]);
                }
            },
            Rvalue::Call { func, args } => {
                push_move(func, &mut out);
                push_moves(args, &mut out);
                proof {
                    lemma_moved_of_append(seq![*func], args@);
                }
            },
            Rvalue::Aggregate(_, args) => {
                push_moves(args, &mut out);
            },
            _ => {
                assert(ops =~= Seq::<Operand>::empty());
            },
        },
        StatementKind::SetIndex(o, i, v, _) | StatementKind::VectorStore(o, i, v) => {
            push_move(o, &mut out);
            push_move(i, &mut out);
            push_move(v, &mut out);
            proof {
                lemma_moved_of_append(seq![*o], seq![*i]);
                lemma_moved_of_append(seq![*o] + seq![*i], seq![*v]);
                assert(ops =~= seq![*o] + seq![*i] + seq![*v]);
            }
        },
        StatementKind::SetAttr(o, _, v) | StatementKind::PtrStore(o, v) => {
            push_move(o, &mut out);
            push_move(v, &mut out);
            proof {
                lemma_moved_of_append(seq![*o], seq![*v]);
                assert(ops =~= seq![*o] + seq![*v]);
            }
        },
        _ => {
            assert(ops =~= Seq::<Operand>::empty());
        },
    }
    assert(out@ =~= moved_locals(*kind));
    out
}

/// Every entry of `avail` is a candidate expression.
pub open spec fn all_candidates(avail: Seq<(Rvalue, Local)>) -> bool {
    forall|i: int| 0 <= i < avail.len() ==> #[trigger] is_candidate(avail[i].0)
}

pub(crate) proof fn lemma_filter_candidates(avail: Seq<(Rvalue, Local)>, p: spec_fn((Rvalue, Local)) -> bool)
    requires
        all_candidates(avail),
    ensures
        all_candidates(avail.filter(p)),
{
    avail.filter_lemma(p);
    assert forall|i: int| 0 <= i < avail.filter(p).len() implies #[trigger] is_candidate(
        avail.filter(p)[i].0,
    ) by {
        let x = avail.filter(p)[i];
        assert(avail.filter(p).contains(x));
        avail.lemma_filter_contains_rev(p, x);
        assert(avail.contains(x));
    }
}

/// Keeps the entries not held in `l` and not reading it.
fn forget(avail: &mut Vec<(Rvalue, Local)>, l: usize)
    requires
        all_candidates(old(avail)@),
    ensures
        final(avail)@ == forget_local(old(avail)@, l),
        all_candidates(final(avail)@),
{
    let ghost orig = avail@;
    let ghost p = |e: (Rvalue, Local)| e.1.0 != l && !reads_local(e.0, l);
    let mut kept: Vec<(Rvalue, Local)> = Vec::new();
    let mut k: usize = 0;
    assert(orig.subrange(0, 0) =~= Seq::<(Rvalue, Local)>::empty());
    proof {
        reveal_with_fuel(Seq::<(Rvalue, Local)>::filter, 1);
    }
    while k < avail.len()
        invariant
            avail@ == orig,
            all_candidates(orig),
            0 <= k <= orig.len(),
            kept@ == orig.subrange(0, k as int).filter(p),
            p == (|e: (Rvalue, Local)| e.1.0 != l && !reads_local(e.0, l)),
        decreases orig.len() - k,
    {
        proof {
            reveal_with_fuel(Seq::<(Rvalue, Local)>::filter, 1);
            assert(orig.subrange(0, k + 1).drop_last() =~= orig.subrange(0, k as int));
            assert(orig.subrange(0, k + 1).last() == orig[k as int]);
            assert(is_candidate(orig[k as int].0));
        }
        let entry = &avail[k];
        if entry.1.0 != l && !CommonSubexpressionElimination::uses_local(&entry.0, l) {
            kept.push((clone_candidate(&entry.0), entry.1));
        }
        k = k + 1;
    }
    assert(orig.subrange(0, orig.len() as int) =~= orig);
    proof {
        lemma_filter_candidates(orig, p);
    }
    *avail = kept;
}

/// Keeps the entries that are not attribute or index reads.
fn forget_projections(avail: &mut Vec<(Rvalue, Local)>)
    requires
        all_candidates(old(avail)@),
    ensures
        final(avail)@ == old(avail)@.filter(|e: (Rvalue, Local)| !(e.0 is GetIndex || e.0 is GetAttr)),
        all_candidates(final(avail)@),
{
    let ghost orig = avail@;
    let ghost p = |e: (Rvalue, Local)| !(e.0 is GetIndex || e.0 is GetAttr);
    let mut kept: Vec<(Rvalue, Local)> = Vec::new();
    let mut k: usize = 0;
    assert(orig.subrange(0, 0) =~= Seq::<(Rvalue, Local)>::empty());
    proof {
        reveal_with_fuel(Seq::<(Rvalue, Local)>::filter, 1);
    }
    while k < avail.len()
        invariant
            avail@ == orig,
            all_candidates(orig),
            0 <= k <= orig.len(),
            kept@ == orig.subrange(0, k as int).filter(p),
            p == (|e: (Rvalue, Local)| !(e.0 is GetIndex || e.0 is GetAttr)),
        decreases orig.len() - k,
    {
        proof {
            reveal_with_fuel(Seq::<(Rvalue, Local)>::filter, 1);
            assert(orig.subrange(0, k + 1).drop_last() =~= orig.subrange(0, k as int));
            assert(orig.subrange(0, k + 1).last() == orig[k as int]);
            assert(is_candidate(orig[k as int].0));
        }
        let entry = &avail[k];
        if !matches!(entry.0, Rvalue::GetIndex(..) | Rvalue::GetAttr(..)) {
            kept.push((clone_candidate(&entry.0), entry.1));
        }
        k = k + 1;
    }
    assert(orig.subrange(0, orig.len() as int) =~= orig);
    proof {
        lemma_filter_candidates(orig, p);
    }
    *avail = kept;
}

fn forget_moves(avail: &mut Vec<(Rvalue, Local)>, moved: &Vec<usize>)
    requires
        all_candidates(old(avail)@),
    ensures
        final(avail)@ == forget_all(old(avail)@, moved@),
        all_candidates(final(avail)@),
{
    let mut i: usize = 0;
    assert(moved@.subrange(0, moved@.len() as int) =~= moved@);
    while i < moved.len()
        invariant
            0 <= i <= moved@.len(),
            all_candidates(avail@),
            forget_all(old(avail)@, moved@) == forget_all(avail@, moved@.subrange(i as int, moved@.len() as int)),
        decreases moved.len() - i,
    {
        let ghost rest = moved@.subrange(i as int, moved@.len() as int);
        assert(rest.subrange(1, rest.len() as int) =~= moved@.subrange(i + 1, moved@.len() as int));
        forget(avail, moved[i]);
        i = i + 1;
    }
    assert(moved@.subrange(i as int, moved@.len() as int) =~= Seq::<usize>::empty());
}

/// The index of the first available entry computing `rv`.
pub(crate) fn find_match(avail: &Vec<(Rvalue, Local)>, rv: &Rvalue) -> (r: Option<usize>)
    ensures
        r matches Some(i) ==> first_match(avail@, *rv) == Some(i as int) && i < avail@.len(),
        r is None ==> first_match(avail@, *rv) is None,
{
    let mut i: usize = 0;
    while i < avail.len()
        invariant
            0 <= i <= avail@.len(),
            forall|k: int| 0 <= k < i ==> !#[trigger] same_expr(avail@[k].0, *rv),
        decreases avail.len() - i,
    {
        if expr_eq(&avail[i].0, rv) {
            return Some(i);
        }
        i = i + 1;
    }
    None
}

/// One step of the scan on `stmt`; true when the statement was rewritten.
fn cse_statement(avail: &mut Vec<(Rvalue, Local)>, stmt: &mut Statement) -> (changed: bool)
    requires
        all_candidates(old(avail)@),
    ensures
        (*final(stmt), final(avail)@) == cse_step(old(avail)@, *old(stmt)),
        changed == (*final(stmt) != *old(stmt)),
        all_candidates(final(avail)@),
{
    let moved = statement_moves(&stmt.kind);
    let mut changed = false;
    let mut replacement: Option<Local> = None;
    match &stmt.kind {
        StatementKind::Assign(dest, rval) => {
            if matches!(rval, Rvalue::Call { .. }) {
                *avail = Vec::new();
                assert(avail@ =~= Seq::<(Rvalue, Local)>::empty());
            } else {
                let candidate = matches!(rval, Rvalue::BinaryOp(..) | Rvalue::UnaryOp(..) | Rvalue::Use(..))
                    && !CommonSubexpressionElimination::rvalue_has_move(rval);
                if candidate {
                    match find_match(avail, rval) {
                        Some(i) => {
                            replacement = Some(avail[i].1);
                        },
                        None => {
                            avail.push((clone_candidate(rval), *dest));
                        },
                    }
                }
                forget(avail, dest.0);
            }
        },
        StatementKind::SetIndex(..) | StatementKind::SetAttr(..) | StatementKind::VectorStore(..)
        | StatementKind::PtrStore(..) => {
            forget_projections(avail);
        },
        StatementKind::Drop(l) | StatementKind::StorageDead(l) => {
            forget(avail, l.0);
        },
        _ => {},
    }
    if let Some(existing) = replacement {
        let (dest, same) = match &stmt.kind {
            StatementKind::Assign(d, Rvalue::Use(Operand::Copy(x))) => (*d, x.0 == existing.0),
            StatementKind::Assign(d, _) => (*d, false),
            _ => (Local(0), false),
        };
        if !same {
            stmt.kind = StatementKind::Assign(dest, Rvalue::Use(Operand::Copy(existing)));
            changed = true;
        }
    }
    forget_moves(avail, &moved);
    changed
}

/// CSE over the statements of one block.
fn cse_block(stmts: &mut Vec<Statement>) -> (changed: bool)
    ensures
        final(stmts)@ == cse_scan(old(stmts)@, Seq::empty()),
        changed == cse_changes(old(stmts)@, Seq::empty()),
{
    let ghost orig = stmts@;
    let ghost n = orig.len();
    let mut avail: Vec<(Rvalue, Local)> = Vec::new();
    let mut changed = false;
    let mut j: usize = 0;
    assert(orig.subrange(0, n as int) =~= orig);
    assert(avail@ =~= Seq::<(Rvalue, Local)>::empty());
    while j < stmts.len()
        invariant
            n == orig.len(),
            stmts@.len() == n,
            0 <= j <= n,
            all_candidates(avail@),
            stmts@.subrange(j as int, n as int) == orig.subrange(j as int, n as int),
            cse_scan(orig, Seq::empty()) == stmts@.subrange(0, j as int) + cse_scan(
                orig.subrange(j as int, n as int),
                avail@,
            ),
            cse_changes(orig, Seq::empty()) == (changed || cse_changes(
                orig.subrange(j as int, n as int),
                avail@,
            )),
        decreases n - j,
    {
        let ghost tail = orig.subrange(j as int, n as int);
        let ghost before = avail@;
        assert(tail[0] == orig[j as int]);
        assert(tail.subrange(1, tail.len() as int) =~= orig.subrange(j + 1, n as int));
        assert(stmts@[j as int] == orig[j as int]) by {
            assert(stmts@.subrange(j as int, n as int)[0] == stmts@[j as int]);
        }
        let mut s = Statement { kind: StatementKind::StorageLive(Local(0)), span: crate::ir::Span::default() };
        stmts.set_and_swap(j, &mut s);
        let c = cse_statement(&mut avail, &mut s);
        stmts.set_and_swap(j, &mut s);
        changed = changed || c;
        assert(stmts@.subrange(j + 1, n as int) =~= orig.subrange(j + 1, n as int));
        assert(stmts@.subrange(0, j + 1) =~= stmts@.subrange(0, j as int) + seq![stmts@[j as int]]);
        j = j + 1;
    }
    assert(orig.subrange(n as int, n as int) =~= Seq::<Statement>::empty());
    assert(stmts@.subrange(0, n as int) =~= stmts@);
    changed
}

impl Transform for CommonSubexpressionElimination {
    open spec fn accepts(&self, func: MirFunction) -> bool {
        true
    }

    /// Each block becomes `cse_scan` of its statements.
    fn run(&self, func: &mut MirFunction) -> (changed: bool)
        ensures
            same_except_blocks(*final(func), *old(func)),
            final(func).basic_blocks@.len() == old(func).basic_blocks@.len(),
            forall|i: int|
                0 <= i < old(func).basic_blocks@.len() ==> {
                    &&& #[trigger] final(func).basic_blocks@[i].terminator
                        == old(func).basic_blocks@[i].terminator
                    &&& final(func).basic_blocks@[i].statements@ == cse_scan(
                        old(func).basic_blocks@[i].statements@,
                        Seq::empty(),
                    )
                },
            changed == exists|i: int|
                0 <= i < old(func).basic_blocks@.len() && cse_changes(
                    #[trigger] old(func).basic_blocks@[i].statements@,
                    Seq::empty(),
                ),
    {
        let ghost orig = func.basic_blocks@;
        let mut changed = false;
        let mut i: usize = 0;
        while i < func.basic_blocks.len()
            invariant
                same_except_blocks(*func, *old(func)),
                orig == old(func).basic_blocks@,
                func.basic_blocks@.len() == orig.len(),
                0 <= i <= orig.len(),
                forall|k: int|
                    0 <= k < i ==> {
                        &&& #[trigger] func.basic_blocks@[k].terminator == orig[k].terminator
                        &&& func.basic_blocks@[k].statements@ == cse_scan(
                            orig[k].statements@,
                            Seq::empty(),
                        )
                    },
                forall|k: int| i <= k < orig.len() ==> #[trigger] func.basic_blocks@[k] == orig[k],
                changed == exists|k: int|
                    0 <= k < i && cse_changes(#[trigger] orig[k].statements@, Seq::empty()),
            decreases orig.len() - i,
        {
            let mut bb = BasicBlock { statements: Vec::new(), terminator: None };
            func.basic_blocks.set_and_swap(i, &mut bb);
            let c = cse_block(&mut bb.statements);
            func.basic_blocks.set_and_swap(i, &mut bb);
            changed = changed || c;
            i = i + 1;
        }
        changed
    }
}

} // verus!
