//! Move elision: the last use of an owning heap local, in a position whose
//! destination takes over freeing the value, becomes a move instead of a
//! copy, and the local's now stale `Drop` later in the block goes away.
//!
//! Those positions are the source of an assignment to an owning heap local
//! that is not itself live afterwards, the elements of an aggregate, the
//! element handed to `__olive_list_push`, and the value stored by an
//! attribute, index or pointer store. The `Drop` removed is the first one of
//! the local after the move, unless the local is assigned again before it.

use super::Transform;
use crate::fx::{index_set_contents, IndexSet};
use crate::ir::{
    is_named, same_except_blocks, spec_is_move_type, BasicBlock, Constant, Local, LocalDecl,
    MirFunction, Operand, Rvalue, Statement, StatementKind,
};
use crate::liveness::{below, live_solution, targets_in_range, Liveness};
use vstd::prelude::*;

verus! {

pub struct MoveElision;

/// Local `l` is declared owning, with a type whose values own heap data.
pub open spec fn owns_heap(locals: Seq<LocalDecl>, l: usize) -> bool {
    l < locals.len() && locals[l as int].is_owning && spec_is_move_type(locals[l as int].ty)
}

/// `op` copies an owning heap local that is dead afterwards.
pub open spec fn promotes(locals: Seq<LocalDecl>, live: Set<usize>, op: Operand) -> bool {
    op matches Operand::Copy(l) && !live.contains(l.0) && owns_heap(locals, l.0)
}

/// `op`, with such a copy turned into a move.
pub open spec fn promote(locals: Seq<LocalDecl>, live: Set<usize>, op: Operand) -> Operand {
    if promotes(locals, live, op) {
        Operand::Move(op->Copy_0)
    } else {
        op
    }
}

/// The locals `ops` promote, in order.
pub open spec fn promoted_of(locals: Seq<LocalDecl>, live: Set<usize>, ops: Seq<Operand>) -> Seq<usize>
    decreases ops.len(),
{
    if ops.len() == 0 {
        seq![]
    } else {
        promoted_of(locals, live, ops.drop_last()) + if promotes(locals, live, ops.last()) {
            seq![ops.last()->Copy_0.0]
        } else {
            seq![]
        }
    }
}

/// The locals `[op]` promotes.
pub open spec fn promoted_one(locals: Seq<LocalDecl>, live: Set<usize>, op: Operand) -> Seq<usize> {
    if promotes(locals, live, op) {
        seq![op->Copy_0.0]
    } else {
        seq![]
    }
}

/// The callee is `__olive_list_push`.
pub open spec fn is_list_push(f: Operand) -> bool {
    f matches Operand::Constant(Constant::Function(n)) && n@ == "__olive_list_push"@
}

/// `dst = op` may hand `op`'s value to `dst`: `dst` owns heap values and,
/// when `op` is a copy, `dst` is dead afterwards.
pub open spec fn use_transfers(locals: Seq<LocalDecl>, live: Set<usize>, dst: Local, op: Operand) -> bool {
    owns_heap(locals, dst.0) && !(op is Copy && live.contains(dst.0))
}

/// `b` is `a` with its transferring operands promoted, `live` being the
/// locals live after `a`.
pub open spec fn promoted(locals: Seq<LocalDecl>, live: Set<usize>, a: Statement, b: Statement) -> bool {
    &&& b.span == a.span
    &&& match a.kind {
        StatementKind::Assign(d, Rvalue::Use(op)) => if use_transfers(locals, live, d, op) {
            b.kind == StatementKind::Assign(d, Rvalue::Use(promote(locals, live, op)))
        } else {
            b.kind == a.kind
        },
        StatementKind::Assign(d, Rvalue::Aggregate(k, ops)) => b.kind matches StatementKind::Assign(
            d2,
            Rvalue::Aggregate(k2, ops2),
        ) && d2 == d && k2 == k && ops2@ == ops@.map_values(|o: Operand| promote(locals, live, o)),
        StatementKind::Assign(d, Rvalue::Call { func, args }) => if is_list_push(func) && args@.len()
            > 1 {
            b.kind matches StatementKind::Assign(d2, Rvalue::Call { func: f2, args: a2 }) && d2 == d
                && f2 == func && a2@ == args@.update(1, promote(locals, live, args@[1]))
        } else {
            b.kind == a.kind
        },
        StatementKind::SetAttr(o, n, v) => b.kind == StatementKind::SetAttr(o, n, promote(locals, live, v)),
        StatementKind::SetIndex(o, i, v, c) => b.kind == StatementKind::SetIndex(
            o,
            i,
            promote(locals, live, v),
            c,
        ),
        StatementKind::PtrStore(p, v) => b.kind == StatementKind::PtrStore(p, promote(locals, live, v)),
        _ => b.kind == a.kind,
    }
}

/// The locals whose copies `a` turns into moves, in order.
pub open spec fn transfers_of(locals: Seq<LocalDecl>, live: Set<usize>, a: Statement) -> Seq<usize> {
    match a.kind {
        StatementKind::Assign(d, Rvalue::Use(op)) => if use_transfers(locals, live, d, op) {
            promoted_one(locals, live, op)
        } else {
            seq![]
        },
        StatementKind::Assign(_, Rvalue::Aggregate(_, ops)) => promoted_of(locals, live, ops@),
        StatementKind::Assign(_, Rvalue::Call { func, args }) => if is_list_push(func) && args@.len()
            > 1 {
            promoted_one(locals, live, args@[1])
        } else {
            seq![]
        },
        StatementKind::SetAttr(_, _, v) => promoted_one(locals, live, v),
        StatementKind::SetIndex(_, _, v, _) => promoted_one(locals, live, v),
        StatementKind::PtrStore(_, v) => promoted_one(locals, live, v),
        _ => seq![],
    }
}

/// The position of the first `Drop` of `src` at or after `from`, unless
/// `src` is assigned before it.
pub open spec fn drop_after(stmts: Seq<Statement>, from: int, src: usize) -> Option<int>
    decreases stmts.len() - from,
{
    if from < 0 || from >= stmts.len() {
        None
    } else {
        match stmts[from].kind {
            StatementKind::Drop(l) => if l.0 == src {
                Some(from)
            } else {
                drop_after(stmts, from + 1, src)
            },
            StatementKind::Assign(d, _) => if d.0 == src {
                None
            } else {
                drop_after(stmts, from + 1, src)
            },
            _ => drop_after(stmts, from + 1, src),
        }
    }
}

/// The `t`-th local moved by statement `j` of the original statements `a`
/// has its stale `Drop` at position `k` of the promoted statements `s`.
pub open spec fn moved_drop(
    locals: Seq<LocalDecl>,
    live: Seq<Set<usize>>,
    a: Seq<Statement>,
    s: Seq<Statement>,
    j: int,
    t: int,
    k: int,
) -> bool {
    &&& 0 <= j < a.len()
    &&& 0 <= t < transfers_of(locals, live[j + 1], a[j]).len()
    &&& drop_after(s, j + 1, transfers_of(locals, live[j + 1], a[j])[t]) == Some(k)
}

/// Position `k` of the promoted statements `s` of a block holds a stale drop.
pub open spec fn stale_drop(
    locals: Seq<LocalDecl>,
    live: Seq<Set<usize>>,
    a: Seq<Statement>,
    s: Seq<Statement>,
    k: int,
) -> bool {
    exists|j: int, t: int| #[trigger] moved_drop(locals, live, a, s, j, t, k)
}

/// `s` without the statements at the positions `del` holds.
pub open spec fn without_positions(s: Seq<Statement>, del: spec_fn(int) -> bool) -> Seq<Statement>
    decreases s.len(),
{
    if s.len() == 0 {
        s
    } else {
        let rest = without_positions(s.drop_last(), del);
        if del(s.len() - 1) {
            rest
        } else {
            rest.push(s.last())
        }
    }
}

/// What move elision makes of one block's statements `a`, `live[j]` being
/// the locals live before statement `j` (and `live[a.len()]` those live at
/// the terminator).
pub open spec fn elided(
    locals: Seq<LocalDecl>,
    live: Seq<Set<usize>>,
    a: Seq<Statement>,
    b: Seq<Statement>,
) -> bool {
    exists|s: Seq<Statement>|
        {
            &&& s.len() == a.len()
            &&& forall|j: int| 0 <= j < a.len() ==> #[trigger] promoted(locals, live[j + 1], a[j], s[j])
            &&& b == without_positions(s, |k: int| stale_drop(locals, live, a, s, k))
        }
}

/// Some statement of the block promotes a copy.
pub open spec fn block_transfers(locals: Seq<LocalDecl>, live: Seq<Set<usize>>, a: Seq<Statement>) -> bool {
    exists|j: int| 0 <= j < a.len() && #[trigger] transfers_of(locals, live[j + 1], a[j]).len() > 0
}

fn owns_heap_local(locals: &Vec<LocalDecl>, l: usize) -> (r: bool)
    ensures
        r == owns_heap(locals@, l),
{
    l < locals.len() && locals[l].is_owning && locals[l].ty.is_move_type()
}

/// Promotes `op` and records the local it moves.
fn promote_operand(op: &mut Operand, live: &IndexSet, locals: &Vec<LocalDecl>, out: &mut Vec<usize>)
    ensures
        *final(op) == promote(locals@, index_set_contents(*live), *old(op)),
        final(out)@ == old(out)@ + promoted_one(locals@, index_set_contents(*live), *old(op)),
{
    if let Operand::Copy(l) = *op {
        if !live.contains(l.0) && owns_heap_local(locals, l.0) {
            *op = Operand::Move(l);
            out.push(l.0);
            assert(out@ =~= old(out)@ + promoted_one(locals@, index_set_contents(*live), *old(op)));
            return;
        }
    }
    assert(out@ =~= old(out)@ + promoted_one(locals@, index_set_contents(*live), *old(op)));
}

fn promote_operands(ops: &mut Vec<Operand>, live: &IndexSet, locals: &Vec<LocalDecl>, out: &mut Vec<usize>)
    ensures
        final(ops)@ == old(ops)@.map_values(|o: Operand| promote(locals@, index_set_contents(*live), o)),
        final(out)@ == old(out)@ + promoted_of(locals@, index_set_contents(*live), old(ops)@),
{
    let ghost orig = ops@;
    let ghost lv = index_set_contents(*live);
    let mut i: usize = 0;
    assert(orig.subrange(0, 0) =~= Seq::<Operand>::empty());
    assert(out@ =~= old(out)@ + promoted_of(locals@, lv, orig.subrange(0, 0)));
    while i < ops.len()
        invariant
            ops@.len() == orig.len(),
            lv == index_set_contents(*live),
            0 <= i <= orig.len(),
            forall|k: int| 0 <= k < i ==> ops@[k] == promote(locals@, lv, #[trigger] orig[k]),
            forall|k: int| i <= k < orig.len() ==> ops@[k] == orig[k],
            out@ == old(out)@ + promoted_of(locals@, lv, orig.subrange(0, i as int)),
        decreases orig.len() - i,
    {
        let mut op = Operand::Constant(Constant::NoneValue);
        ops.set_and_swap(i, &mut op);
        assert(op == orig[i as int]);
        promote_operand(&mut op, live, locals, out);
        ops.set_and_swap(i, &mut op);
        assert(orig.subrange(0, i + 1).drop_last() =~= orig.subrange(0, i as int));
        assert(orig.subrange(0, i + 1).last() == orig[i as int]);
        assert(promoted_one(locals@, lv, orig[i as int]) =~= (if promotes(locals@, lv, orig[i as int]) {
            seq![orig[i as int]->Copy_0.0]
        } else {
            seq![]
        }));
        i = i + 1;
        assert(out@ =~= old(out)@ + promoted_of(locals@, lv, orig.subrange(0, i as int)));
    }
    assert(orig.subrange(0, orig.len() as int) =~= orig);
    assert(ops@ =~= orig.map_values(|o: Operand| promote(locals@, lv, o)));
}

fn is_list_push_callee(f: &Operand) -> (r: bool)
    ensures
        r == is_list_push(*f),
{
    match f {
        Operand::Constant(Constant::Function(n)) => is_named(n, "__olive_list_push"),
        _ => false,
    }
}

/// Promotes the transferring operands of `stmt`, `live` being the locals
/// live after it, and returns the locals it moves.
fn promote_statement(stmt: &mut Statement, live: &IndexSet, locals: &Vec<LocalDecl>) -> (moved: Vec<usize>)
    ensures
        promoted(locals@, index_set_contents(*live), *old(stmt), *final(stmt)),
        moved@ == transfers_of(locals@, index_set_contents(*live), *old(stmt)),
{
    let mut moved: Vec<usize> = Vec::new();
    match &mut stmt.kind {
        StatementKind::Assign(dst, rval) => {
            let d = *dst;
            match rval {
                Rvalue::Use(op) => {
                    let is_copy = matches!(op, Operand::Copy(_));
                    if owns_heap_local(locals, d.0) && !(is_copy && live.contains(d.0)) {
                        promote_operand(op, live, locals, &mut moved);
                    }
                },
                Rvalue::Aggregate(_, ops) => {
                    promote_operands(ops, live, locals, &mut moved);
                },
                Rvalue::Call { func, args } => {
                    if is_list_push_callee(func) && args.len() > 1 {
                        let ghost before = args@;
                        let mut op = Operand::Constant(Constant::NoneValue);
                        args.set_and_swap(1, &mut op);
                        promote_operand(&mut op, live, locals, &mut moved);
                        args.set_and_swap(1, &mut op);
                        assert(args@ =~= before.update(1, promote(locals@, index_set_contents(*live), before[1])));
                    }
                },
                _ => {},
            }
        },
        StatementKind::SetAttr(_, _, v) => {
            promote_operand(v, live, locals, &mut moved);
        },
        StatementKind::SetIndex(_, _, v, _) => {
            promote_operand(v, live, locals, &mut moved);
        },
        StatementKind::PtrStore(_, v) => {
            promote_operand(v, live, locals, &mut moved);
        },
        _ => {},
    }
    assert(moved@ =~= transfers_of(locals@, index_set_contents(*live), *old(stmt)));
    moved
}

/// The position of the first `Drop` of `src` at or after `from`, unless
/// `src` is assigned before it.
fn find_drop(stmts: &Vec<Statement>, from: usize, src: usize) -> (r: Option<usize>)
    ensures
        r matches Some(k) ==> drop_after(stmts@, from as int, src) == Some(k as int) && k < stmts@.len(),
        r is None ==> drop_after(stmts@, from as int, src) is None,
{
    let mut i = from;
    while i < stmts.len()
        invariant
            from <= i,
            drop_after(stmts@, from as int, src) == drop_after(stmts@, i as int, src),
        decreases stmts.len() - i,
    {
        match &stmts[i].kind {
            StatementKind::Drop(l) => {
                if l.0 == src {
                    return Some(i);
                }
            },
            StatementKind::Assign(d, _) => {
                if d.0 == src {
                    return None;
                }
            },
            _ => {},
        }
        i = i + 1;
    }
    None
}

/// The sets of one row of a liveness result.
pub open spec fn row_view(row: Seq<IndexSet>) -> Seq<Set<usize>> {
    Seq::new(row.len(), |k: int| index_set_contents(row[k]))
}

proof fn lemma_without_positions_step(s: Seq<Statement>, del: spec_fn(int) -> bool, k: int)
    requires
        0 <= k < s.len(),
    ensures
        without_positions(s.subrange(0, k + 1), del) == if del(k) {
            without_positions(s.subrange(0, k), del)
        } else {
            without_positions(s.subrange(0, k), del).push(s[k])
        },
{
    assert(s.subrange(0, k + 1).drop_last() =~= s.subrange(0, k));
    assert(s.subrange(0, k + 1).last() == s[k]);
}

/// Move elision on the statements of one block.
fn elide_block(stmts: &mut Vec<Statement>, live: &Vec<IndexSet>, locals: &Vec<LocalDecl>) -> (changed: bool)
    requires
        live@.len() == old(stmts)@.len() + 1,
    ensures
        elided(locals@, row_view(live@), old(stmts)@, final(stmts)@),
        changed == block_transfers(locals@, row_view(live@), old(stmts)@),
{
    let ghost a = stmts@;
    let ghost lv = row_view(live@);
    let n = stmts.len();
    let mut transfers: Vec<Vec<usize>> = Vec::new();
    let mut changed = false;
    let mut j: usize = 0;
    while j < n
        invariant
            n == a.len(),
            stmts@.len() == n,
            live@.len() == n + 1,
            lv == row_view(live@),
            0 <= j <= n,
            transfers@.len() == j,
            forall|k: int| 0 <= k < j ==> #[trigger] promoted(locals@, lv[k + 1], a[k], stmts@[k]),
            forall|k: int| j <= k < n ==> stmts@[k] == a[k],
            forall|k: int| 0 <= k < j ==> (#[trigger] transfers@[k])@ == transfers_of(locals@, lv[k + 1], a[k]),
            changed == exists|k: int| 0 <= k < j && #[trigger] transfers_of(locals@, lv[k + 1], a[k]).len() > 0,
        decreases n - j,
    {
        let mut st = Statement {
            kind: StatementKind::StorageLive(Local(0)),
            span: crate::ir::Span::default(),
        };
        stmts.set_and_swap(j, &mut st);
        assert(st == a[j as int]);
        assert(lv[j + 1] == index_set_contents(live@[j + 1]));
        let moved = promote_statement(&mut st, &live[j + 1], locals);
        stmts.set_and_swap(j, &mut st);
        if moved.len() > 0 {
            changed = true;
        }
        assert(changed == exists|k: int| 0 <= k < j + 1 && #[trigger] transfers_of(locals@, lv[k + 1], a[k]).len() > 0) by {
            if moved.len() > 0 {
                assert(transfers_of(locals@, lv[j + 1], a[j as int]).len() > 0);
            }
        }
        transfers.push(moved);
        j = j + 1;
    }
    let ghost s = stmts@;
    let ghost del = |k: int| stale_drop(locals@, lv, a, s, k);
    let mut marks: Vec<bool> = Vec::new();
    let mut k: usize = 0;
    while k < n
        invariant
            n == s.len(),
            marks@.len() == k,
            0 <= k <= n,
            forall|i: int| 0 <= i < k ==> !(#[trigger] marks@[i]),
        decreases n - k,
    {
        marks.push(false);
        k = k + 1;
    }
    j = 0;
    while j < n
        invariant
            n == a.len(),
            s == stmts@,
            s.len() == n,
            lv == row_view(live@),
            live@.len() == n + 1,
            transfers@.len() == n,
            forall|k: int| 0 <= k < n ==> (#[trigger] transfers@[k])@ == transfers_of(locals@, lv[k + 1], a[k]),
            0 <= j <= n,
            marks@.len() == n,
            forall|q: int|
                0 <= q < n ==> (#[trigger] marks@[q] <==> exists|jj: int, tt: int|
                    jj < j && #[trigger] moved_drop(locals@, lv, a, s, jj, tt, q)),
        decreases n - j,
    {
        let ts = &transfers[j];
        let mut t: usize = 0;
        while t < ts.len()
            invariant
                n == a.len(),
                s == stmts@,
                s.len() == n,
                0 <= j < n,
                ts@ == transfers_of(locals@, lv[j + 1], a[j as int]),
                0 <= t <= ts@.len(),
                marks@.len() == n,
                forall|q: int|
                    0 <= q < n ==> (#[trigger] marks@[q] <==> (exists|jj: int, tt: int|
                        jj < j && #[trigger] moved_drop(locals@, lv, a, s, jj, tt, q)) || (exists|tt: int|
                        tt < t && #[trigger] moved_drop(locals@, lv, a, s, j as int, tt, q))),
            decreases ts.len() - t,
        {
            if let Some(q) = find_drop(stmts, j + 1, ts[t]) {
                marks.set(q, true);
                assert(moved_drop(locals@, lv, a, s, j as int, t as int, q as int));
            }
            t = t + 1;
        }
        proof {
            assert forall|q: int|
                0 <= q < n implies (#[trigger] marks@[q] <==> exists|jj: int, tt: int|
                    jj < j + 1 && #[trigger] moved_drop(locals@, lv, a, s, jj, tt, q)) by {
                if exists|jj: int, tt: int| jj < j + 1 && #[trigger] moved_drop(locals@, lv, a, s, jj, tt, q) {
                    let (jj, tt) = choose|jj: int, tt: int| jj < j + 1 && #[trigger] moved_drop(locals@, lv, a, s, jj, tt, q);
                    if jj == j {
                        assert(moved_drop(locals@, lv, a, s, j as int, tt, q));
                    }
                }
            }
        }
        j = j + 1;
    }
    let mut kept: Vec<Statement> = Vec::new();
    k = 0;
    assert(s.subrange(0, 0) =~= Seq::<Statement>::empty());
    while k < n
        invariant
            n == s.len(),
            stmts@.len() == n,
            forall|i: int| k <= i < n ==> stmts@[i] == s[i],
            marks@.len() == n,
            0 <= k <= n,
            forall|q: int| 0 <= q < n ==> (#[trigger] marks@[q] <==> del(q)),
            kept@ == without_positions(s.subrange(0, k as int), del),
        decreases n - k,
    {
        let mut st = Statement {
            kind: StatementKind::StorageLive(Local(0)),
            span: crate::ir::Span::default(),
        };
        stmts.set_and_swap(k, &mut st);
        proof {
            lemma_without_positions_step(s, del, k as int);
        }
        if !marks[k] {
            kept.push(st);
        }
        k = k + 1;
    }
    assert(s.subrange(0, n as int) =~= s);
    *stmts = kept;
    assert(elided(locals@, lv, a, stmts@)) by {
        assert(forall|q: int| 0 <= q < n ==> (marks@[q] <==> del(q))) by {
        }
    }
    changed
}

impl Transform for MoveElision {
    /// Every jump targets a block of the function.
    open spec fn accepts(&self, func: MirFunction) -> bool {
        targets_in_range(func.basic_blocks@)
    }

    /// Each block becomes what `elided` says of it, under the least solution
    /// of the liveness equations.
    fn run(&self, func: &mut MirFunction) -> (changed: bool)
        ensures
            same_except_blocks(*final(func), *old(func)),
            exists|la: Seq<Seq<Set<usize>>>|
                {
                    &&& #[trigger] live_solution(old(func).basic_blocks@, la)
                    &&& forall|x: Seq<Seq<Set<usize>>>|
                        #[trigger] live_solution(old(func).basic_blocks@, x) ==> below(la, x)
                    &&& final(func).basic_blocks@.len() == old(func).basic_blocks@.len()
                    &&& forall|b: int|
                        0 <= b < old(func).basic_blocks@.len() ==> {
                            &&& #[trigger] final(func).basic_blocks@[b].terminator
                                == old(func).basic_blocks@[b].terminator
                            &&& elided(
                                old(func).locals@,
                                la[b],
                                old(func).basic_blocks@[b].statements@,
                                final(func).basic_blocks@[b].statements@,
                            )
                        }
                    &&& changed == exists|b: int|
                        0 <= b < old(func).basic_blocks@.len() && block_transfers(
                            old(func).locals@,
                            la[b],
                            #[trigger] old(func).basic_blocks@[b].statements@,
                        )
                },
    {
        let liveness = Liveness::compute(func);
        let ghost la = liveness.view_sets();
        let ghost orig = func.basic_blocks@;
        let mut changed = false;
        let mut b: usize = 0;
        while b < func.basic_blocks.len()
            invariant
                same_except_blocks(*func, *old(func)),
                orig == old(func).basic_blocks@,
                la == liveness.view_sets(),
                crate::liveness::shaped(orig, la),
                func.basic_blocks@.len() == orig.len(),
                0 <= b <= orig.len(),
                forall|k: int|
                    0 <= k < b ==> {
                        &&& #[trigger] func.basic_blocks@[k].terminator == orig[k].terminator
                        &&& elided(
                            old(func).locals@,
                            la[k],
                            orig[k].statements@,
                            func.basic_blocks@[k].statements@,
                        )
                    },
                forall|k: int| b <= k < orig.len() ==> #[trigger] func.basic_blocks@[k] == orig[k],
                changed == exists|k: int|
                    0 <= k < b && block_transfers(old(func).locals@, la[k], #[trigger] orig[k].statements@),
            decreases orig.len() - b,
        {
            let mut bb = BasicBlock { statements: Vec::new(), terminator: None };
            func.basic_blocks.set_and_swap(b, &mut bb);
            assert(la[b as int].len() == orig[b as int].statements@.len() + 1);
            assert(row_view(liveness.live_after@[b as int]@) =~= la[b as int]);
            let c = elide_block(&mut bb.statements, &liveness.live_after[b], &func.locals);
            func.basic_blocks.set_and_swap(b, &mut bb);
            changed = changed || c;
            b = b + 1;
        }
        changed
    }
}

} // verus!
