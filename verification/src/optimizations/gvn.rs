//! Value numbering of unary and binary operations, block by block. An
//! operation whose operands are constants, parameters or locals written
//! once is recorded with the local it was computed into, when that local is
//! itself written once; a later identical operation in the block becomes a
//! copy of that local. A write to a local forgets the operations reading
//! it, a call forgets everything, and moving a local forgets the operations
//! recorded under it. Writes inside loops count twice.

use super::const_prop::{capped, write_counts, write_weight};
use super::copy_prop::count_of;
use super::cse::{
    all_candidates, clone_candidate, expr_eq, find_match, first_match, has_move, is_candidate, same_expr,
    lemma_filter_candidates, moved_locals, reads_local, rvalue_operands, statement_moves,
    CommonSubexpressionElimination,
};
use super::Transform;
use crate::fx::{index_map_contents, index_set_contents, IndexMap, IndexSet};
use crate::ir::{
    operand_local, same_except_blocks, BasicBlock, Local, MirFunction, Operand, Rvalue, Statement,
    StatementKind,
};
use crate::loop_utils::{blocks_in_loops, loop_blocks_of, natural_loop, Loop};
use vstd::prelude::*;

verus! {

pub struct GlobalValueNumbering;

/// The locals written exactly once, a write inside a loop counting twice.
pub open spec fn written_once(f: MirFunction, lb: Set<usize>) -> Set<usize> {
    Set::new(|l: usize| write_weight(f.basic_blocks@, lb, l) == 1)
}

/// A constant, a parameter (or the return slot), or a local written once.
pub open spec fn stable_operand(once: Set<usize>, arg_count: usize, op: Operand) -> bool {
    match operand_local(op) {
        Some(l) => l <= arg_count || once.contains(l),
        None => true,
    }
}

/// An operation value numbering records: unary or binary, without moves,
/// on stable operands.
pub open spec fn numbered(once: Set<usize>, arg_count: usize, rv: Rvalue) -> bool {
    !has_move(rv) && match rv {
        Rvalue::UnaryOp(_, a) => stable_operand(once, arg_count, a),
        Rvalue::BinaryOp(_, a, b) => stable_operand(once, arg_count, a) && stable_operand(
            once,
            arg_count,
            b,
        ),
        _ => false,
    }
}

/// The entries whose operation does not read `l`.
pub open spec fn forget_readers(avail: Seq<(Rvalue, Local)>, l: usize) -> Seq<(Rvalue, Local)> {
    avail.filter(|e: (Rvalue, Local)| !reads_local(e.0, l))
}

/// The entries not recorded under a local of `moved`.
pub open spec fn forget_held(avail: Seq<(Rvalue, Local)>, moved: Seq<usize>) -> Seq<(Rvalue, Local)> {
    avail.filter(|e: (Rvalue, Local)| !moved.contains(e.1.0))
}

/// One step of the block scan: the statement after numbering and the
/// recorded operations after it.
pub open spec fn gvn_step(
    once: Set<usize>,
    arg_count: usize,
    avail: Seq<(Rvalue, Local)>,
    s: Statement,
) -> (Statement, Seq<(Rvalue, Local)>) {
    let (s1, a1) = match s.kind {
        StatementKind::Assign(dest, rv) => {
            let (s1, a0) = if numbered(once, arg_count, rv) {
                match first_match(avail, rv) {
                    Some(i) => if avail[i].1 != dest {
                        (
                            Statement {
                                kind: StatementKind::Assign(
                                    dest,
                                    Rvalue::Use(Operand::Copy(avail[i].1)),
                                ),
                                span: s.span,
                            },
                            avail,
                        )
                    } else {
                        (s, avail)
                    },
                    None => if once.contains(dest.0) {
                        (s, avail.push((rv, dest)))
                    } else {
                        (s, avail)
                    },
                }
            } else {
                (s, avail)
            };
            (s1, forget_readers(a0, dest.0))
        },
        _ => (s, avail),
    };
    let a2 = if s1.kind is SetIndex || s1.kind is SetAttr || s1.kind is VectorStore {
        a1.filter(|e: (Rvalue, Local)| !(e.0 is GetIndex || e.0 is GetAttr))
    } else {
        a1
    };
    let a3 = if s1.kind matches StatementKind::Assign(_, Rvalue::Call { .. }) {
        Seq::empty()
    } else {
        a2
    };
    (s1, forget_held(a3, moved_locals(s1.kind)))
}

/// The statements of a block after value numbering.
pub open spec fn gvn_scan(
    once: Set<usize>,
    arg_count: usize,
    stmts: Seq<Statement>,
    avail: Seq<(Rvalue, Local)>,
) -> Seq<Statement>
    decreases stmts.len(),
{
    if stmts.len() == 0 {
        stmts
    } else {
        let (s, a) = gvn_step(once, arg_count, avail, stmts[0]);
        seq![s] + gvn_scan(once, arg_count, stmts.subrange(1, stmts.len() as int), a)
    }
}

/// Whether value numbering rewrites some statement of the block.
pub open spec fn gvn_changes(
    once: Set<usize>,
    arg_count: usize,
    stmts: Seq<Statement>,
    avail: Seq<(Rvalue, Local)>,
) -> bool
    decreases stmts.len(),
{
    if stmts.len() == 0 {
        false
    } else {
        let (s, a) = gvn_step(once, arg_count, avail, stmts[0]);
        s != stmts[0] || gvn_changes(once, arg_count, stmts.subrange(1, stmts.len() as int), a)
    }
}

/// Every recorded operation is held in a local of `once`.
pub open spec fn records_in(once: Set<usize>, avail: Seq<(Rvalue, Local)>) -> bool {
    forall|i: int| 0 <= i < avail.len() ==> once.contains(#[trigger] avail[i].1.0)
}

/// `t` is `s`, or `s` assigns a local and `t` copies into it a local of
/// `once` instead, at the same span.
pub open spec fn copies_once_written(once: Set<usize>, s: Statement, t: Statement) -> bool {
    t == s || exists|d: Local|
        #![trigger once.contains(d.0)]
        once.contains(d.0) && match s.kind {
            StatementKind::Assign(dest, _) => t == Statement {
                kind: StatementKind::Assign(dest, Rvalue::Use(Operand::Copy(d))),
                span: s.span,
            },
            _ => false,
        }
}

proof fn lemma_first_match_from(avail: Seq<(Rvalue, Local)>, rv: Rvalue, j: int)
    requires
        0 <= j < avail.len(),
        same_expr(avail[j].0, rv),
    ensures
        exists|i: int|
            0 <= i < avail.len() && same_expr(avail[i].0, rv) && forall|k: int|
                0 <= k < i ==> !#[trigger] same_expr(avail[k].0, rv),
    decreases j,
{
    if exists|k: int| 0 <= k < j && #[trigger] same_expr(avail[k].0, rv) {
        let k = choose|k: int| 0 <= k < j && #[trigger] same_expr(avail[k].0, rv);
        lemma_first_match_from(avail, rv, k);
    } else {
        assert(0 <= j < avail.len() && same_expr(avail[j].0, rv) && forall|k: int|
            0 <= k < j ==> !#[trigger] same_expr(avail[k].0, rv));
    }
}

proof fn lemma_first_match_in_range(avail: Seq<(Rvalue, Local)>, rv: Rvalue)
    ensures
        first_match(avail, rv) matches Some(i) ==> 0 <= i < avail.len(),
{
    if exists|i: int| 0 <= i < avail.len() && #[trigger] same_expr(avail[i].0, rv) {
        let j = choose|i: int| 0 <= i < avail.len() && #[trigger] same_expr(avail[i].0, rv);
        lemma_first_match_from(avail, rv, j);
    }
}

proof fn lemma_records_filter(once: Set<usize>, avail: Seq<(Rvalue, Local)>, pred: spec_fn((Rvalue, Local)) -> bool)
    requires
        records_in(once, avail),
    ensures
        records_in(once, avail.filter(pred)),
    decreases avail.len(),
{
    reveal(Seq::filter);
    if avail.len() > 0 {
        lemma_records_filter(once, avail.drop_last(), pred);
        let sub = avail.drop_last().filter(pred);
        assert forall|i: int| 0 <= i < avail.filter(pred).len() implies once.contains(
            #[trigger] avail.filter(pred)[i].1.0,
        ) by {
            if i < sub.len() {
                assert(avail.filter(pred)[i] == sub[i]);
            } else {
                assert(avail.filter(pred)[i] == avail.last());
                assert(avail.last() == avail[avail.len() - 1]);
            }
        }
    }
}

/// One step keeps the records in `once` and only rewrites an assignment
/// into a copy of a local of `once`.
proof fn lemma_gvn_step_once(once: Set<usize>, arg_count: usize, avail: Seq<(Rvalue, Local)>, s: Statement)
    requires
        records_in(once, avail),
    ensures
        records_in(once, gvn_step(once, arg_count, avail, s).1),
        copies_once_written(once, s, gvn_step(once, arg_count, avail, s).0),
{
    let (s1, a1) = match s.kind {
        StatementKind::Assign(dest, rv) => {
            lemma_first_match_in_range(avail, rv);
            let (s1, a0) = if numbered(once, arg_count, rv) {
                match first_match(avail, rv) {
                    Some(i) => if avail[i].1 != dest {
                        assert(once.contains(avail[i].1.0));
                        (
                            Statement {
                                kind: StatementKind::Assign(dest, Rvalue::Use(Operand::Copy(avail[i].1))),
                                span: s.span,
                            },
                            avail,
                        )
                    } else {
                        (s, avail)
                    },
                    None => if once.contains(dest.0) {
                        assert(records_in(once, avail.push((rv, dest))));
                        (s, avail.push((rv, dest)))
                    } else {
                        (s, avail)
                    },
                }
            } else {
                (s, avail)
            };
            assert(records_in(once, a0));
            lemma_records_filter(once, a0, |e: (Rvalue, Local)| !reads_local(e.0, dest.0));
            (s1, forget_readers(a0, dest.0))
        },
        _ => (s, avail),
    };
    assert(records_in(once, a1));
    lemma_records_filter(once, a1, |e: (Rvalue, Local)| !(e.0 is GetIndex || e.0 is GetAttr));
    let a2 = if s1.kind is SetIndex || s1.kind is SetAttr || s1.kind is VectorStore {
        a1.filter(|e: (Rvalue, Local)| !(e.0 is GetIndex || e.0 is GetAttr))
    } else {
        a1
    };
    let a3 = if s1.kind matches StatementKind::Assign(_, Rvalue::Call { .. }) {
        Seq::empty()
    } else {
        a2
    };
    assert(records_in(once, a3));
    lemma_records_filter(once, a3, |e: (Rvalue, Local)| !moved_locals(s1.kind).contains(e.1.0));
    assert((s1, forget_held(a3, moved_locals(s1.kind))) == gvn_step(once, arg_count, avail, s));
}

/// Value numbering only ever rewrites an assignment into a copy of a
/// local that holds a recorded value, and records only locals of `once`:
/// every statement of the scanned block is kept, or becomes a copy, into
/// the same destination, of a local of `once`.
pub proof fn lemma_gvn_scan_copies_once_written(
    once: Set<usize>,
    arg_count: usize,
    stmts: Seq<Statement>,
    avail: Seq<(Rvalue, Local)>,
)
    requires
        records_in(once, avail),
    ensures
        gvn_scan(once, arg_count, stmts, avail).len() == stmts.len(),
        forall|k: int|
            0 <= k < stmts.len() ==> copies_once_written(
                once,
                stmts[k],
                #[trigger] gvn_scan(once, arg_count, stmts, avail)[k],
            ),
    decreases stmts.len(),
{
    if stmts.len() > 0 {
        let (s, a) = gvn_step(once, arg_count, avail, stmts[0]);
        lemma_gvn_step_once(once, arg_count, avail, stmts[0]);
        let rest = stmts.subrange(1, stmts.len() as int);
        lemma_gvn_scan_copies_once_written(once, arg_count, rest, a);
        let out = gvn_scan(once, arg_count, stmts, avail);
        assert(out == seq![s] + gvn_scan(once, arg_count, rest, a));
        assert forall|k: int| 0 <= k < stmts.len() implies copies_once_written(
            once,
            stmts[k],
            #[trigger] gvn_scan(once, arg_count, stmts, avail)[k],
        ) by {
            if k > 0 {
                assert(out[k] == gvn_scan(once, arg_count, rest, a)[k - 1]);
                assert(rest[k - 1] == stmts[k]);
            }
        }
    }
}

/// In a function after value numbering, a statement that changed copies,
/// into its own destination, a local written exactly once in the function
/// (a write inside a loop counting twice), so that local still holds the
/// value it was recorded with.
pub proof fn lemma_gvn_reuses_written_once(f: MirFunction, lb: Set<usize>, b: int, k: int)
    requires
        0 <= b < f.basic_blocks@.len(),
        0 <= k < f.basic_blocks@[b].statements@.len(),
    ensures
        ({
            let s = f.basic_blocks@[b].statements@[k];
            let t = gvn_scan(written_once(f, lb), f.arg_count, f.basic_blocks@[b].statements@, Seq::empty())[k];
            t == s || exists|d: Local|
                #![trigger write_weight(f.basic_blocks@, lb, d.0)]
                write_weight(f.basic_blocks@, lb, d.0) == 1 && match s.kind {
                    StatementKind::Assign(dest, _) => t == Statement {
                        kind: StatementKind::Assign(dest, Rvalue::Use(Operand::Copy(d))),
                        span: s.span,
                    },
                    _ => false,
                }
        }),
{
    let once = written_once(f, lb);
    let stmts = f.basic_blocks@[b].statements@;
    lemma_gvn_scan_copies_once_written(once, f.arg_count, stmts, Seq::empty());
    let t = gvn_scan(once, f.arg_count, stmts, Seq::empty())[k];
    assert(copies_once_written(once, stmts[k], t));
    if t != stmts[k] {
        let d = choose|d: Local|
            #![trigger once.contains(d.0)]
            once.contains(d.0) && match stmts[k].kind {
                StatementKind::Assign(dest, _) => t == Statement {
                    kind: StatementKind::Assign(dest, Rvalue::Use(Operand::Copy(d))),
                    span: stmts[k].span,
                },
                _ => false,
            };
        assert(write_weight(f.basic_blocks@, lb, d.0) == 1);
    }
}

/// The locals counted once in `counts`.
pub open spec fn once_of(counts: Map<usize, usize>) -> Set<usize> {
    Set::new(|l: usize| count_of(counts, l) == 1)
}

fn count(counts: &IndexMap, l: usize) -> (c: usize)
    ensures
        c == count_of(index_map_contents(*counts), l),
{
    match counts.get(l) {
        Some(c) => c,
        None => 0,
    }
}

fn op_stable(op: &Operand, counts: &IndexMap, arg_count: usize) -> (r: bool)
    ensures
        r == stable_operand(once_of(index_map_contents(*counts)), arg_count, *op),
{
    match op {
        Operand::Constant(_) => true,
        Operand::Copy(l) => l.0 <= arg_count || count(counts, l.0) == 1,
        Operand::Move(l) => l.0 <= arg_count || count(counts, l.0) == 1,
    }
}

fn is_numbered(rv: &Rvalue, counts: &IndexMap, arg_count: usize) -> (r: bool)
    ensures
        r == numbered(once_of(index_map_contents(*counts)), arg_count, *rv),
        r ==> is_candidate(*rv),
{
    match rv {
        Rvalue::UnaryOp(_, a) => !CommonSubexpressionElimination::rvalue_has_move(rv) && op_stable(
            a,
            counts,
            arg_count,
        ),
        Rvalue::BinaryOp(_, a, b) => !CommonSubexpressionElimination::rvalue_has_move(rv)
            && op_stable(a, counts, arg_count) && op_stable(b, counts, arg_count),
        _ => false,
    }
}

fn contains_local(v: &Vec<usize>, x: usize) -> (r: bool)
    ensures
        r == v@.contains(x),
{
    let mut i: usize = 0;
    while i < v.len()
        invariant
            0 <= i <= v@.len(),
            forall|k: int| 0 <= k < i ==> v@[k] != x,
        decreases v.len() - i,
    {
        if v[i] == x {
            assert(v@[i as int] == x);
            return true;
        }
        i = i + 1;
    }
    false
}

/// Keeps the entries whose operation does not read `l`.
fn forget_readers_of(avail: &mut Vec<(Rvalue, Local)>, l: usize)
    requires
        all_candidates(old(avail)@),
    ensures
        final(avail)@ == forget_readers(old(avail)@, l),
        all_candidates(final(avail)@),
{
    let ghost orig = avail@;
    let ghost p = |e: (Rvalue, Local)| !reads_local(e.0, l);
    let mut kept: Vec<(Rvalue, Local)> = Vec::new();
    let mut k: usize = 0;
    assert(orig.subrange(0, 0) =~= Seq::<(Rvalue, Local)>::empty());
    proof {
        reveal_with_fuel(Seq::<(Rvalue, Local)>::filter, 1);
    }
    while k < avail.len()
        invariant
            avail@ == orig,
            all_candidates(orig),
            0 <= k <= orig.len(),
            kept@ == orig.subrange(0, k as int).filter(p),
            p == (|e: (Rvalue, Local)| !reads_local(e.0, l)),
        decreases orig.len() - k,
    {
        proof {
            reveal_with_fuel(Seq::<(Rvalue, Local)>::filter, 1);
            assert(orig.subrange(0, k + 1).drop_last() =~= orig.subrange(0, k as int));
            assert(orig.subrange(0, k + 1).last() == orig[k as int]);
            assert(is_candidate(orig[k as int].0));
        }
        let entry = &avail[k];
        if !CommonSubexpressionElimination::uses_local(&entry.0, l) {
            kept.push((clone_candidate(&entry.0), entry.1));
        }
        k = k + 1;
    }
    assert(orig.subrange(0, orig.len() as int) =~= orig);
    proof {
        lemma_filter_candidates(orig, p);
    }
    *avail = kept;
}

/// Keeps the entries that are not attribute or index reads.
fn forget_projections(avail: &mut Vec<(Rvalue, Local)>)
    requires
        all_candidates(old(avail)@),
    ensures
        final(avail)@ == old(avail)@.filter(|e: (Rvalue, Local)| !(e.0 is GetIndex || e.0 is GetAttr)),
        all_candidates(final(avail)@),
{
    let ghost orig = avail@;
    let ghost p = |e: (Rvalue, Local)| !(e.0 is GetIndex || e.0 is GetAttr);
    let mut kept: Vec<(Rvalue, Local)> = Vec::new();
    let mut k: usize = 0;
    assert(orig.subrange(0, 0) =~= Seq::<(Rvalue, Local)>::empty());
    proof {
        reveal_with_fuel(Seq::<(Rvalue, Local)>::filter, 1);
    }
    while k < avail.len()
        invariant
            avail@ == orig,
            all_candidates(orig),
            0 <= k <= orig.len(),
            kept@ == orig.subrange(0, k as int).filter(p),
            p == (|e: (Rvalue, Local)| !(e.0 is GetIndex || e.0 is GetAttr)),
        decreases orig.len() - k,
    {
        proof {
            reveal_with_fuel(Seq::<(Rvalue, Local)>::filter, 1);
            assert(orig.subrange(0, k + 1).drop_last() =~= orig.subrange(0, k as int));
            assert(orig.subrange(0, k + 1).last() == orig[k as int]);
            assert(is_candidate(orig[k as int].0));
        }
        let entry = &avail[k];
        if !matches!(entry.0, Rvalue::GetIndex(..) | Rvalue::GetAttr(..)) {
            kept.push((clone_candidate(&entry.0), entry.1));
        }
        k = k + 1;
    }
    assert(orig.subrange(0, orig.len() as int) =~= orig);
    proof {
        lemma_filter_candidates(orig, p);
    }
    *avail = kept;
}

/// Keeps the entries not recorded under a local of `moved`.
fn forget_held_in(avail: &mut Vec<(Rvalue, Local)>, moved: &Vec<usize>)
    requires
        all_candidates(old(avail)@),
    ensures
        final(avail)@ == forget_held(old(avail)@, moved@),
        all_candidates(final(avail)@),
{
    let ghost orig = avail@;
    let ghost p = |e: (Rvalue, Local)| !moved@.contains(e.1.0);
    let mut kept: Vec<(Rvalue, Local)> = Vec::new();
    let mut k: usize = 0;
    assert(orig.subrange(0, 0) =~= Seq::<(Rvalue, Local)>::empty());
    proof {
        reveal_with_fuel(Seq::<(Rvalue, Local)>::filter, 1);
    }
    while k < avail.len()
        invariant
            avail@ == orig,
            all_candidates(orig),
            0 <= k <= orig.len(),
            kept@ == orig.subrange(0, k as int).filter(p),
            p == (|e: (Rvalue, Local)| !moved@.contains(e.1.0)),
        decreases orig.len() - k,
    {
        proof {
            reveal_with_fuel(Seq::<(Rvalue, Local)>::filter, 1);
            assert(orig.subrange(0, k + 1).drop_last() =~= orig.subrange(0, k as int));
            assert(orig.subrange(0, k + 1).last() == orig[k as int]);
            assert(is_candidate(orig[k as int].0));
        }
        let entry = &avail[k];
        if !contains_local(moved, entry.1.0) {
            kept.push((clone_candidate(&entry.0), entry.1));
        }
        k = k + 1;
    }
    assert(orig.subrange(0, orig.len() as int) =~= orig);
    proof {
        lemma_filter_candidates(orig, p);
    }
    *avail = kept;
}

/// One step of the scan on `stmt`; true when the statement was rewritten.
fn gvn_statement(
    avail: &mut Vec<(Rvalue, Local)>,
    stmt: &mut Statement,
    counts: &IndexMap,
    arg_count: usize,
) -> (changed: bool)
    requires
        all_candidates(old(avail)@),
    ensures
        (*final(stmt), final(avail)@) == gvn_step(
            once_of(index_map_contents(*counts)),
            arg_count,
            old(avail)@,
            *old(stmt),
        ),
        changed == (*final(stmt) != *old(stmt)),
        all_candidates(final(avail)@),
{
    let ghost once = once_of(index_map_contents(*counts));
    let mut changed = false;
    let mut replacement: Option<(Local, Local)> = None;
    if let StatementKind::Assign(dest, rval) = &stmt.kind {
        if is_numbered(rval, counts, arg_count) {
            match find_match(avail, rval) {
                Some(i) => {
                    if avail[i].1.0 != dest.0 {
                        replacement = Some((*dest, avail[i].1));
                    }
                },
                None => {
                    if count(counts, dest.0) == 1 {
                        avail.push((clone_candidate(rval), *dest));
                    }
                },
            }
        }
        forget_readers_of(avail, dest.0);
    }
    if let Some((dest, existing)) = replacement {
        stmt.kind = StatementKind::Assign(dest, Rvalue::Use(Operand::Copy(existing)));
        changed = true;
    }
    if matches!(stmt.kind, StatementKind::SetIndex(..) | StatementKind::SetAttr(..) | StatementKind::VectorStore(..)) {
        forget_projections(avail);
    }
    if matches!(stmt.kind, StatementKind::Assign(_, Rvalue::Call { .. })) {
        *avail = Vec::new();
        assert(avail@ =~= Seq::<(Rvalue, Local)>::empty());
    }
    let moved = statement_moves(&stmt.kind);
    forget_held_in(avail, &moved);
    changed
}

/// Value numbering over the statements of one block.
fn gvn_block(stmts: &mut Vec<Statement>, counts: &IndexMap, arg_count: usize) -> (changed: bool)
    ensures
        final(stmts)@ == gvn_scan(
            once_of(index_map_contents(*counts)),
            arg_count,
            old(stmts)@,
            Seq::empty(),
        ),
        changed == gvn_changes(once_of(index_map_contents(*counts)), arg_count, old(stmts)@, Seq::empty()),
{
    let ghost once = once_of(index_map_contents(*counts));
    let ghost orig = stmts@;
    let ghost n = orig.len();
    let mut avail: Vec<(Rvalue, Local)> = Vec::new();
    let mut changed = false;
    let mut j: usize = 0;
    assert(orig.subrange(0, n as int) =~= orig);
    assert(avail@ =~= Seq::<(Rvalue, Local)>::empty());
    while j < stmts.len()
        invariant
            once == once_of(index_map_contents(*counts)),
            n == orig.len(),
            stmts@.len() == n,
            0 <= j <= n,
            all_candidates(avail@),
            stmts@.subrange(j as int, n as int) == orig.subrange(j as int, n as int),
            gvn_scan(once, arg_count, orig, Seq::empty()) == stmts@.subrange(0, j as int) + gvn_scan(
                once,
                arg_count,
                orig.subrange(j as int, n as int),
                avail@,
            ),
            gvn_changes(once, arg_count, orig, Seq::empty()) == (changed || gvn_changes(
                once,
                arg_count,
                orig.subrange(j as int, n as int),
                avail@,
            )),
        decreases n - j,
    {
        let ghost tail = orig.subrange(j as int, n as int);
        assert(tail[0] == orig[j as int]);
        assert(tail.subrange(1, tail.len() as int) =~= orig.subrange(j + 1, n as int));
        assert(stmts@[j as int] == orig[j as int]) by {
            assert(stmts@.subrange(j as int, n as int)[0] == stmts@[j as int]);
        }
        let mut s = Statement {
            kind: StatementKind::StorageLive(Local(0)),
            span: crate::ir::Span::default(),
        };
        stmts.set_and_swap(j, &mut s);
        let c = gvn_statement(&mut avail, &mut s, counts, arg_count);
        stmts.set_and_swap(j, &mut s);
        changed = changed || c;
        assert(stmts@.subrange(j + 1, n as int) =~= orig.subrange(j + 1, n as int));
        assert(stmts@.subrange(0, j + 1) =~= stmts@.subrange(0, j as int) + seq![stmts@[j as int]]);
        j = j + 1;
    }
    assert(orig.subrange(n as int, n as int) =~= Seq::<Statement>::empty());
    assert(stmts@.subrange(0, n as int) =~= stmts@);
    changed
}

impl Transform for GlobalValueNumbering {
    open spec fn accepts(&self, func: MirFunction) -> bool {
        true
    }

    /// Each block becomes `gvn_scan` of its statements, for the locals
    /// written once when the blocks of the function's natural loops count
    /// their writes twice.
    fn run(&self, func: &mut MirFunction) -> (changed: bool)
        ensures
            same_except_blocks(*final(func), *old(func)),
            exists|lb: Set<usize>|
                #![trigger written_once(*old(func), lb)]
                {
                    &&& loop_blocks_of(old(func).basic_blocks@, lb)
                    &&& final(func).basic_blocks@.len() == old(func).basic_blocks@.len()
                    &&& forall|i: int|
                        0 <= i < old(func).basic_blocks@.len() ==> {
                            &&& #[trigger] final(func).basic_blocks@[i].terminator
                                == old(func).basic_blocks@[i].terminator
                            &&& final(func).basic_blocks@[i].statements@ == gvn_scan(
                                written_once(*old(func), lb),
                                old(func).arg_count,
                                old(func).basic_blocks@[i].statements@,
                                Seq::empty(),
                            )
                        }
                    &&& changed == exists|i: int|
                        0 <= i < old(func).basic_blocks@.len() && gvn_changes(
                            written_once(*old(func), lb),
                            old(func).arg_count,
                            #[trigger] old(func).basic_blocks@[i].statements@,
                            Seq::empty(),
                        )
                },
    {
        let loop_blocks = blocks_in_loops(func);
        let ghost lb = index_set_contents(loop_blocks);
        let counts = write_counts(func, &loop_blocks);
        let ghost once = once_of(index_map_contents(counts));
        assert(once =~= written_once(*old(func), lb)) by {
            assert forall|l: usize| #[trigger] once.contains(l) == written_once(*old(func), lb).contains(l) by {
                assert(count_of(index_map_contents(counts), l) == capped(
                    write_weight(old(func).basic_blocks@, lb, l),
                ));
            }
        }
        let arg_count = func.arg_count;
        let ghost orig = func.basic_blocks@;
        let mut changed = false;
        let mut i: usize = 0;
        while i < func.basic_blocks.len()
            invariant
                same_except_blocks(*func, *old(func)),
                orig == old(func).basic_blocks@,
                arg_count == old(func).arg_count,
                once == once_of(index_map_contents(counts)),
                func.basic_blocks@.len() == orig.len(),
                0 <= i <= orig.len(),
                forall|k: int|
                    0 <= k < i ==> {
                        &&& #[trigger] func.basic_blocks@[k].terminator == orig[k].terminator
                        &&& func.basic_blocks@[k].statements@ == gvn_scan(
                            once,
                            arg_count,
                            orig[k].statements@,
                            Seq::empty(),
                        )
                    },
                forall|k: int| i <= k < orig.len() ==> #[trigger] func.basic_blocks@[k] == orig[k],
                changed == exists|k: int|
                    0 <= k < i && gvn_changes(once, arg_count, #[trigger] orig[k].statements@, Seq::empty()),
            decreases orig.len() - i,
        {
            let mut bb = BasicBlock { statements: Vec::new(), terminator: None };
            func.basic_blocks.set_and_swap(i, &mut bb);
            let c = gvn_block(&mut bb.statements, &counts, arg_count);
            func.basic_blocks.set_and_swap(i, &mut bb);
            changed = changed || c;
            i = i + 1;
        }
        changed
    }
}

} // verus!
