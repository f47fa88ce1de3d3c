//! Loop unrolling: a loop with a constant trip count of at most
//! `FULL_TRIP_LIMIT` is replaced by straight-line copies of its body; one
//! with another bound runs `PARTIAL_FACTOR` copies per iteration, with a
//! copy of the original loop as epilogue. Only straight-line bodies are
//! unrolled.

pub mod rewrite;

use super::assigns::{defs_wf, gather_defs, single_def, single_def_of, Defs};
use super::Transform;
use super::copy_prop::{assigns_to, statements_assign_count};
use super::scalarize::flat;
use crate::fx::{index_map_contents, index_set_contents, IndexMap, IndexSet};
use crate::ir::{
    operand_local, operand_local_of, same_except_blocks, BasicBlock, Local, LocalDecl, Span, Terminator, Type, BasicBlockId, BinOp, Constant, MirFunction, Operand, Rvalue, Statement,
    StatementKind, TerminatorKind,
};
use crate::loop_utils::{cloned_block, find_loops, found_loops, natural_loop, remapped_terminator, Loop};
use rewrite::{statement_reads, step_of, stmt_reads_local, storage_of, substituted};
use vstd::prelude::*;

verus! {

/// Full unroll for constant trip counts; 4x partial with epilogue otherwise.
pub struct LoopUnroll;

const FULL_TRIP_LIMIT: i64 = 32;

const PARTIAL_FACTOR: i64 = 4;

const MAX_EXPANSION: usize = 1024;

/// One step of sorting switch targets: `t` joins the side it falls on,
/// unless that side already holds another target.
pub open spec fn split_step(acc: Option<(Option<usize>, Option<usize>)>, t: usize, body: Set<usize>) -> Option<
    (Option<usize>, Option<usize>),
> {
    match acc {
        None => None,
        Some((inside, outside)) => if body.contains(t) {
            if inside is Some && inside->0 != t {
                None
            } else {
                Some((Some(t), outside))
            }
        } else {
            if outside is Some && outside->0 != t {
                None
            } else {
                Some((inside, Some(t)))
            }
        },
    }
}

/// Sorts switch targets into the one inside the loop body and the one
/// outside; `None` when two different targets fall on one side.
pub open spec fn split_targets(ts: Seq<usize>, body: Set<usize>) -> Option<(Option<usize>, Option<usize>)>
    decreases ts.len(),
{
    if ts.len() == 0 {
        Some((None, None))
    } else {
        split_step(split_targets(ts.drop_last(), body), ts.last(), body)
    }
}

/// The targets of a switch, the fallback last.
pub open spec fn switch_targets(targets: Seq<(i64, BasicBlockId)>, otherwise: BasicBlockId) -> Seq<usize> {
    targets.map_values(|t: (i64, BasicBlockId)| t.1.0).push(otherwise.0)
}

/// The header's switch as (condition local, target in the loop, exit).
pub open spec fn header_switch(blocks: Seq<BasicBlock>, lp: Loop) -> Option<(usize, usize, usize)> {
    match blocks[lp.header.0 as int].terminator {
        Some(t) => match t.kind {
            TerminatorKind::SwitchInt { discr, targets, otherwise } => match operand_local(discr) {
                Some(c) => match split_targets(switch_targets(targets@, otherwise), index_set_contents(lp.body)) {
                    Some((Some(i), Some(o))) => Some((c, i, o)),
                    _ => None,
                },
                None => None,
            },
            _ => None,
        },
        None => None,
    }
}

/// The first `cond = i < limit` or `cond = i <= limit` of `stmts`, as
/// (induction, comparison, limit).
pub open spec fn first_test(stmts: Seq<Statement>, cond: usize) -> Option<(usize, BinOp, Operand)>
    decreases stmts.len(),
{
    if stmts.len() == 0 {
        None
    } else {
        match stmts[0].kind {
            StatementKind::Assign(l, Rvalue::BinaryOp(op, Operand::Copy(idx), rhs)) => if l.0 == cond && (op is Lt
                || op is LtEq) {
                Some((idx.0, op, rhs))
            } else {
                first_test(stmts.drop_first(), cond)
            },
            _ => first_test(stmts.drop_first(), cond),
        }
    }
}

/// The header holds only assignments of the condition and storage markers.
pub open spec fn guard_only(stmts: Seq<Statement>, cond: usize) -> bool {
    forall|j: int|
        0 <= j < stmts.len() ==> match (#[trigger] stmts[j]).kind {
            StatementKind::Assign(l, _) => l.0 == cond,
            StatementKind::StorageLive(_) | StatementKind::StorageDead(_) => true,
            _ => false,
        }
}

/// The chain of blocks from `cur` to the latch, each ending in a jump to
/// the next, all in the body, none the header or seen before.
pub open spec fn chain_from(
    blocks: Seq<BasicBlock>,
    header: usize,
    body: Set<usize>,
    latch: usize,
    cur: usize,
    seen: Set<usize>,
    fuel: nat,
) -> Option<Seq<usize>>
    decreases fuel,
{
    if fuel == 0 || cur == header || !body.contains(cur) || seen.contains(cur) || cur >= blocks.len() {
        None
    } else {
        match blocks[cur as int].terminator {
            Some(t) => match t.kind {
                TerminatorKind::Goto { target } => if cur == latch {
                    if target.0 == header {
                        Some(seq![cur])
                    } else {
                        None
                    }
                } else {
                    match chain_from(blocks, header, body, latch, target.0, seen.insert(cur), (fuel - 1) as nat) {
                        Some(rest) => Some(seq![cur] + rest),
                        None => None,
                    }
                },
                _ => None,
            },
            None => None,
        }
    }
}

/// The straight-line chain from the body entry to the latch, covering the
/// body but the header.
pub open spec fn linear_chain(blocks: Seq<BasicBlock>, lp: Loop, entry: usize, latch: usize) -> Option<Seq<usize>> {
    match chain_from(blocks, lp.header.0, index_set_contents(lp.body), latch, entry, Set::empty(), blocks.len() + 1) {
        Some(c) => if c.len() == index_set_contents(lp.body).len() - 1 {
            Some(c)
        } else {
            None
        },
        None => None,
    }
}

/// The statements of the chain's blocks, in order.
pub open spec fn chain_statements(blocks: Seq<BasicBlock>, chain: Seq<usize>) -> Seq<Statement>
    decreases chain.len(),
{
    if chain.len() == 0 {
        seq![]
    } else {
        chain_statements(blocks, chain.drop_last()) + blocks[chain.last() as int].statements@
    }
}

/// The index of a statement assigning `l` (the only one, where the
/// analysis uses it).
pub open spec fn sole_assign(stmts: Seq<Statement>, l: usize) -> int {
    choose|u: int| 0 <= u < stmts.len() && #[trigger] assigns_to(stmts[u], l)
}

/// The step of the induction's only update, `i = i + c` or `i = t` with a
/// private `t = i + c`, and the work with the update removed.
pub open spec fn extract_step(work: Seq<Statement>, ind: usize) -> Option<(i64, Seq<Statement>)> {
    if statements_assign_count(work, ind) != 1 {
        None
    } else {
        let u = sole_assign(work, ind);
        if exists|k: int| u < k < work.len() && #[trigger] statement_reads(work[k], ind) {
            None
        } else {
            match work[u].kind {
                StatementKind::Assign(_, Rvalue::BinaryOp(BinOp::Add, a, b)) => match step_of(a, b, ind) {
                    Some(st) => Some((st, work.remove(u))),
                    None => None,
                },
                StatementKind::Assign(_, Rvalue::Use(Operand::Copy(tmp))) => if exists|k: int|
                    0 <= k < work.len() && k != u && #[trigger] statement_reads(work[k], tmp.0) {
                    None
                } else if statements_assign_count(work, tmp.0) != 1 {
                    None
                } else {
                    let d = sole_assign(work, tmp.0);
                    match work[d].kind {
                        StatementKind::Assign(_, Rvalue::BinaryOp(BinOp::Add, a, b)) => match step_of(a, b, ind) {
                            Some(st) => Some(
                                (
                                    st,
                                    if u < d {
                                        work.remove(d).remove(u)
                                    } else {
                                        work.remove(u).remove(d)
                                    },
                                ),
                            ),
                            None => None,
                        },
                        _ => None,
                    }
                },
                _ => None,
            }
        }
    }
}

/// The work neither writes, borrows nor drops the induction, and holds no
/// vector operation.
pub open spec fn unrollable(work: Seq<Statement>, ind: usize) -> bool {
    forall|j: int|
        0 <= j < work.len() ==> match (#[trigger] work[j]).kind {
            StatementKind::Assign(dest, rv) => dest.0 != ind && match rv {
                Rvalue::Ref(l) => l.0 != ind,
                Rvalue::MutRef(l) => l.0 != ind,
                Rvalue::VectorLoad(..) | Rvalue::VectorSplat(..) | Rvalue::VectorFMA(..) | Rvalue::VectorReduce(
                    ..,
                ) => false,
                _ => true,
            },
            StatementKind::Drop(l) => l.0 != ind,
            StatementKind::VectorStore(..) => false,
            _ => true,
        }
}

/// The blocks a terminator may jump to, in order.
pub open spec fn successors_of(t: TerminatorKind) -> Seq<usize> {
    match t {
        TerminatorKind::Goto { target } => seq![target.0],
        TerminatorKind::SwitchInt { targets, otherwise, .. } => switch_targets(targets@, otherwise),
        _ => seq![],
    }
}

/// Block `b` may jump to `header`.
pub open spec fn enters(b: BasicBlock, header: usize) -> bool {
    match b.terminator {
        Some(t) => successors_of(t.kind).contains(header),
        None => false,
    }
}

/// The blocks below `n` outside the loop body that may jump to the header.
pub open spec fn outside_preds(blocks: Seq<BasicBlock>, body: Set<usize>, header: usize, n: nat) -> Seq<usize>
    decreases n,
{
    if n == 0 {
        seq![]
    } else {
        let b = (n - 1) as nat;
        let rest = outside_preds(blocks, body, header, b);
        if !body.contains(b as usize) && enters(blocks[b as int], header) {
            rest.push(b as usize)
        } else {
            rest
        }
    }
}

/// The constant the last `ind = c` of `stmts` assigns.
pub open spec fn last_const_assign(stmts: Seq<Statement>, ind: usize) -> Option<i64>
    decreases stmts.len(),
{
    if stmts.len() == 0 {
        None
    } else {
        match stmts.last().kind {
            StatementKind::Assign(d, Rvalue::Use(Operand::Constant(Constant::Int(v)))) => if d.0 == ind {
                Some(v)
            } else {
                last_const_assign(stmts.drop_last(), ind)
            },
            _ => last_const_assign(stmts.drop_last(), ind),
        }
    }
}

/// The constant the induction holds on loop entry: the last constant
/// assigned to it in the only block outside the loop that jumps to the
/// header.
pub open spec fn const_init(blocks: Seq<BasicBlock>, lp: Loop, ind: usize) -> Option<i64> {
    let preds = outside_preds(blocks, index_set_contents(lp.body), lp.header.0, blocks.len());
    if preds.len() == 1 {
        last_const_assign(blocks[preds[0] as int].statements@, ind)
    } else {
        None
    }
}

/// An operand as a constant: a literal, or a local whose only assignment
/// is a constant.
pub open spec fn const_operand(blocks: Seq<BasicBlock>, op: Operand) -> Option<i64> {
    match op {
        Operand::Constant(Constant::Int(v)) => Some(v),
        Operand::Copy(l) | Operand::Move(l) => match single_def(flat(blocks), l.0) {
            Some(Rvalue::Use(Operand::Constant(Constant::Int(v)))) => Some(v),
            _ => None,
        },
        _ => None,
    }
}

/// The number of iterations from `start` while below `end` (or not
/// above, for `<=`), stepping by `step`.
pub open spec fn trip_count(start: i64, end: i64, guard_op: BinOp, step: i64) -> int {
    let span = if guard_op is LtEq {
        end - start + 1
    } else {
        end - start
    };
    if span <= 0 {
        0
    } else {
        (span + step - 1) / (step as int)
    }
}

/// Whether the guard `op` of the loop holds for the counter value `x`
/// against the limit `end`: `x <= end` for `<=`, else `x < end`.
pub open spec fn guard_holds(op: BinOp, x: int, end: int) -> bool {
    if op is LtEq {
        x <= end
    } else {
        x < end
    }
}

/// The trip count is the number of counter values `start + k * step`,
/// counting `k` from 0, that pass the guard: the `k`-th iteration runs
/// exactly when `k` is below the trip count.
pub proof fn lemma_trip_count_iterations(start: i64, end: i64, guard_op: BinOp, step: i64, k: int)
    requires
        step > 0,
        k >= 0,
    ensures
        trip_count(start, end, guard_op, step) >= 0,
        k < trip_count(start, end, guard_op, step) <==> guard_holds(guard_op, start + k * step, end as int),
{
    let span: int = if guard_op is LtEq {
        end - start + 1
    } else {
        end - start
    };
    let st = step as int;
    assert(k * st >= 0) by (nonlinear_arith)
        requires
            k >= 0,
            st > 0,
    ;
    if span > 0 {
        let t = (span + st - 1) / st;
        let m = (span + st - 1) % st;
        assert(span + st - 1 == t * st + m && 0 <= m < st) by (nonlinear_arith)
            requires
                st > 0,
                t == (span + st - 1) / st,
                m == (span + st - 1) % st,
        ;
        assert(t >= 0) by (nonlinear_arith)
            requires
                st > 0,
                span > 0,
                t == (span + st - 1) / st,
        ;
        if k < t {
            assert(k * st <= (t - 1) * st) by (nonlinear_arith)
                requires
                    k <= t - 1,
                    st > 0,
            ;
            assert(k * st < span) by (nonlinear_arith)
                requires
                    k * st <= (t - 1) * st,
                    span + st - 1 == t * st + m,
                    0 <= m,
            ;
        } else {
            assert(k * st >= t * st) by (nonlinear_arith)
                requires
                    k >= t,
                    st > 0,
            ;
            assert(k * st >= span) by (nonlinear_arith)
                requires
                    k * st >= t * st,
                    span + st - 1 == t * st + m,
                    m < st,
            ;
        }
    }
}

/// What the analysis finds of a loop it can unroll.
pub struct Analysis {
    pub induction: usize,
    pub step: i64,
    pub limit: Operand,
    pub cond: usize,
    pub entry: usize,
    pub exit: usize,
    /// The body's statements, the induction update removed.
    pub work: Seq<Statement>,
    /// The trip count, when start, limit and step are constants.
    pub trip: Option<int>,
}

/// The loop as the unroller sees it: one latch and one exit, a header
/// holding only the guard `i < limit` (or `<=`) and a switch on it, a
/// straight-line body, a single update `i += step` with `step > 0`, and
/// a body the copies can share.
pub open spec fn analysis(blocks: Seq<BasicBlock>, lp: Loop) -> Option<Analysis> {
    if lp.latches@.len() != 1 || lp.exits@.len() != 1 {
        None
    } else {
        match header_switch(blocks, lp) {
            Some((cond, entry, exit)) => if exit != lp.exits@[0].0 {
                None
            } else {
                let hs = blocks[lp.header.0 as int].statements@;
                match first_test(hs, cond) {
                    Some((ind, guard_op, limit)) => if !guard_only(hs, cond) {
                        None
                    } else {
                        match linear_chain(blocks, lp, entry, lp.latches@[0].0) {
                            Some(chain) => match extract_step(chain_statements(blocks, chain), ind) {
                                Some((step, work)) => if step <= 0 || work.len() == 0 || !unrollable(work, ind) {
                                    None
                                } else {
                                    Some(
                                        Analysis {
                                            induction: ind,
                                            step,
                                            limit,
                                            cond,
                                            entry,
                                            exit,
                                            work,
                                            trip: match (const_init(blocks, lp, ind), const_operand(blocks, limit)) {
                                                (Some(s), Some(e)) => Some(trip_count(s, e, guard_op, step)),
                                                _ => None,
                                            },
                                        },
                                    )
                                },
                                None => None,
                            },
                            None => None,
                        }
                    },
                    None => None,
                }
            },
            None => None,
        }
    }
}

/// Positions (block, statement) that all exist in `blocks`.
pub open spec fn valid_positions(blocks: Seq<BasicBlock>, pos: Seq<(usize, usize)>) -> bool {
    forall|k: int|
        0 <= k < pos.len() ==> (#[trigger] pos[k]).0 < blocks.len() && pos[k].1 < blocks[pos[k].0 as int].statements@.len()
}

/// The statements at `pos`.
pub open spec fn stmts_at(blocks: Seq<BasicBlock>, pos: Seq<(usize, usize)>) -> Seq<Statement> {
    pos.map_values(|p: (usize, usize)| blocks[p.0 as int].statements@[p.1 as int])
}

proof fn lemma_map_remove(blocks: Seq<BasicBlock>, pos: Seq<(usize, usize)>, i: int)
    requires
        0 <= i < pos.len(),
    ensures
        stmts_at(blocks, pos.remove(i)) == stmts_at(blocks, pos).remove(i),
{
    assert(stmts_at(blocks, pos.remove(i)) =~= stmts_at(blocks, pos).remove(i));
}

proof fn lemma_assigned_somewhere(p: Seq<Statement>, l: usize)
    requires
        statements_assign_count(p, l) > 0,
    ensures
        exists|u: int| 0 <= u < p.len() && #[trigger] assigns_to(p[u], l),
    decreases p.len(),
{
    if assigns_to(p.last(), l) {
        assert(assigns_to(p[p.len() - 1], l));
    } else {
        lemma_assigned_somewhere(p.drop_last(), l);
        let u = choose|u: int| 0 <= u < p.drop_last().len() && #[trigger] assigns_to(p.drop_last()[u], l);
        assert(p[u] == p.drop_last()[u]);
    }
}

proof fn lemma_count_one_unique(p: Seq<Statement>, l: usize, i: int, j: int)
    requires
        statements_assign_count(p, l) == 1,
        0 <= i < p.len(),
        0 <= j < p.len(),
        assigns_to(p[i], l),
        assigns_to(p[j], l),
    ensures
        i == j,
    decreases p.len(),
{
    let q = p.drop_last();
    if i < p.len() - 1 && j < p.len() - 1 {
        assert(q[i] == p[i] && q[j] == p[j]);
        if assigns_to(p.last(), l) {
            super::assigns::lemma_count_positive(q, i, l);
        } else {
            lemma_count_one_unique(q, l, i, j);
        }
    } else if i < p.len() - 1 {
        assert(q[i] == p[i]);
        super::assigns::lemma_count_positive(q, i, l);
    } else if j < p.len() - 1 {
        assert(q[j] == p[j]);
        super::assigns::lemma_count_positive(q, j, l);
    }
}

proof fn lemma_sole_assign(p: Seq<Statement>, l: usize, i: int)
    requires
        statements_assign_count(p, l) == 1,
        0 <= i < p.len(),
        assigns_to(p[i], l),
    ensures
        sole_assign(p, l) == i,
{
    let u = sole_assign(p, l);
    assert(assigns_to(p[i], l));
    lemma_count_one_unique(p, l, u, i);
}

proof fn lemma_split_none(ts: Seq<usize>, body: Set<usize>, k: int, m: int)
    requires
        0 <= k <= m <= ts.len(),
        split_targets(ts.subrange(0, k), body) is None,
    ensures
        split_targets(ts.subrange(0, m), body) is None,
    decreases m - k,
{
    if k < m {
        lemma_split_none(ts, body, k, m - 1);
        assert(ts.subrange(0, m).drop_last() =~= ts.subrange(0, m - 1));
    }
}

/// Places target `t` on its side.
fn place(t: usize, body: &IndexSet, inside: &mut Option<usize>, outside: &mut Option<usize>) -> (ok: bool)
    ensures
        split_step(Some((*old(inside), *old(outside))), t, index_set_contents(*body)) == if ok {
            Some((*final(inside), *final(outside)))
        } else {
            None
        },
{
    if body.contains(t) {
        if let Some(x) = *inside {
            if x != t {
                return false;
            }
        }
        *inside = Some(t);
    } else {
        if let Some(x) = *outside {
            if x != t {
                return false;
            }
        }
        *outside = Some(t);
    }
    true
}

/// `header_switch`, computed.
fn header_switch_of(func: &MirFunction, lp: &Loop) -> (r: Option<(usize, usize, usize)>)
    requires
        loop_in_range(func.basic_blocks@, *lp),
    ensures
        r == header_switch(func.basic_blocks@, *lp),
{
    let h = lp.header.0;
    match &func.basic_blocks[h].terminator {
        Some(t) => match &t.kind {
            TerminatorKind::SwitchInt { discr, targets, otherwise } => match operand_local_of(discr) {
                Some(c) => {
                    let ghost ts = switch_targets(targets@, *otherwise);
                    let ghost body = index_set_contents(lp.body);
                    let mut inside: Option<usize> = None;
                    let mut outside: Option<usize> = None;
                    let mut k: usize = 0;
                    assert(ts.subrange(0, 0) =~= Seq::<usize>::empty());
                    while k < targets.len()
                        invariant
                            ts == switch_targets(targets@, *otherwise),
                            body == index_set_contents(lp.body),
                            0 <= k <= targets@.len(),
                            split_targets(ts.subrange(0, k as int), body) == Some((inside, outside)),
                            header_switch(func.basic_blocks@, *lp) == match split_targets(ts, body) {
                                Some((Some(i), Some(o))) => Some((c.0, i, o)),
                                _ => None,
                            },
                        decreases targets.len() - k,
                    {
                        let t = targets[k].1.0;
                        assert(ts[k as int] == t);
                        assert(ts.subrange(0, k + 1).drop_last() =~= ts.subrange(0, k as int));
                        if !place(t, &lp.body, &mut inside, &mut outside) {
                            proof {
                                lemma_split_none(ts, body, k + 1, ts.len() as int);
                                assert(ts.subrange(0, ts.len() as int) =~= ts);
                            }
                            return None;
                        }
                        k = k + 1;
                    }
                    assert(ts[targets@.len() as int] == otherwise.0);
                    assert(ts.drop_last() =~= ts.subrange(0, k as int));
                    if !place(otherwise.0, &lp.body, &mut inside, &mut outside) {
                        return None;
                    }
                    match (inside, outside) {
                        (Some(i), Some(o)) => Some((c.0, i, o)),
                        _ => None,
                    }
                },
                None => None,
            },
            _ => None,
        },
        None => None,
    }
}

/// `first_test`, computed.
fn header_test_of(stmts: &Vec<Statement>, cond: usize) -> (r: Option<(usize, BinOp, Operand)>)
    ensures
        r == first_test(stmts@, cond),
{
    let mut k: usize = 0;
    assert(stmts@.subrange(0, stmts@.len() as int) =~= stmts@);
    while k < stmts.len()
        invariant
            0 <= k <= stmts@.len(),
            first_test(stmts@, cond) == first_test(stmts@.subrange(k as int, stmts@.len() as int), cond),
        decreases stmts.len() - k,
    {
        let ghost rest = stmts@.subrange(k as int, stmts@.len() as int);
        assert(rest[0] == stmts@[k as int]);
        assert(rest.drop_first() =~= stmts@.subrange(k + 1, stmts@.len() as int));
        if let StatementKind::Assign(l, Rvalue::BinaryOp(op, Operand::Copy(idx), rhs)) = &stmts[k].kind {
            if l.0 == cond && matches!(op, BinOp::Lt | BinOp::LtEq) {
                return Some((idx.0, *op, rhs.clone()));
            }
        }
        k = k + 1;
    }
    None
}

/// `guard_only`, computed.
fn guard_only_of(stmts: &Vec<Statement>, cond: usize) -> (r: bool)
    ensures
        r == guard_only(stmts@, cond),
{
    let mut k: usize = 0;
    while k < stmts.len()
        invariant
            0 <= k <= stmts@.len(),
            forall|j: int|
                0 <= j < k ==> match (#[trigger] stmts@[j]).kind {
                    StatementKind::Assign(l, _) => l.0 == cond,
                    StatementKind::StorageLive(_) | StatementKind::StorageDead(_) => true,
                    _ => false,
                },
        decreases stmts.len() - k,
    {
        let ok = match &stmts[k].kind {
            StatementKind::Assign(l, _) => l.0 == cond,
            StatementKind::StorageLive(_) | StatementKind::StorageDead(_) => true,
            _ => false,
        };
        if !ok {
            return false;
        }
        k = k + 1;
    }
    true
}

/// `linear_chain`, computed.
fn linear_chain_of(func: &MirFunction, lp: &Loop, entry: usize, latch: usize) -> (r: Option<Vec<usize>>)
    requires
        loop_in_range(func.basic_blocks@, *lp),
    ensures
        match r {
            Some(c) => linear_chain(func.basic_blocks@, *lp, entry, latch) == Some(c@),
            None => linear_chain(func.basic_blocks@, *lp, entry, latch) is None,
        },
{
    let ghost blocks = func.basic_blocks@;
    let ghost body = index_set_contents(lp.body);
    let h = lp.header.0;
    let n = func.basic_blocks.len();
    let mut chain: Vec<usize> = Vec::new();
    let mut seen = IndexSet::new();
    let mut cur = entry;
    let mut rem = n;
    assert(Seq::<usize>::empty() + seq![1usize] =~= seq![1usize]);
    loop
        invariant
            blocks == func.basic_blocks@,
            body == index_set_contents(lp.body),
            loop_in_range(blocks, *lp),
            h == lp.header.0,
            n == blocks.len(),
            rem <= n,
            chain_from(blocks, h, body, latch, entry, Set::empty(), blocks.len() + 1) == match chain_from(
                blocks,
                h,
                body,
                latch,
                cur,
                index_set_contents(seen),
                rem as nat + 1,
            ) {
                Some(rest) => Some(chain@ + rest),
                None => None,
            },
        decreases rem,
    {
        if cur == h || !lp.body.contains(cur) || seen.contains(cur) || cur >= n {
            return None;
        }
        let ghost before = chain@;
        let ghost seen0 = index_set_contents(seen);
        chain.push(cur);
        match &func.basic_blocks[cur].terminator {
            Some(t) => match &t.kind {
                TerminatorKind::Goto { target } => {
                    if cur == latch {
                        if target.0 == h {
                            assert(before + seq![cur] =~= chain@);
                            proof {
                                assert(body.remove(h).len() + 1 == body.len());
                            }
                            if chain.len() == lp.body.len() - 1 {
                                return Some(chain);
                            } else {
                                return None;
                            }
                        } else {
                            return None;
                        }
                    }
                    seen.insert(cur);
                    let ghost next = target.0;
                    cur = target.0;
                    proof {
                        match chain_from(blocks, h, body, latch, next, seen0.insert(chain@.last()), rem as nat) {
                            Some(rest) => {
                                assert(before + (seq![chain@.last()] + rest) =~= chain@ + rest);
                            },
                            None => {},
                        }
                    }
                },
                _ => {
                    return None;
                },
            },
            None => {
                return None;
            },
        }
        if rem == 0 {
            return None;
        }
        rem = rem - 1;
    }
}

/// The positions of the statements of the chain's blocks, in order.
fn chain_positions(func: &MirFunction, chain: &Vec<usize>) -> (pos: Vec<(usize, usize)>)
    requires
        forall|k: int| 0 <= k < chain@.len() ==> (#[trigger] chain@[k]) < func.basic_blocks@.len(),
    ensures
        valid_positions(func.basic_blocks@, pos@),
        stmts_at(func.basic_blocks@, pos@) == chain_statements(func.basic_blocks@, chain@),
{
    let ghost blocks = func.basic_blocks@;
    let mut pos: Vec<(usize, usize)> = Vec::new();
    let mut c: usize = 0;
    assert(stmts_at(blocks, pos@) =~= chain_statements(blocks, chain@.subrange(0, 0)));
    while c < chain.len()
        invariant
            blocks == func.basic_blocks@,
            forall|k: int| 0 <= k < chain@.len() ==> (#[trigger] chain@[k]) < blocks.len(),
            0 <= c <= chain@.len(),
            valid_positions(blocks, pos@),
            stmts_at(blocks, pos@) == chain_statements(blocks, chain@.subrange(0, c as int)),
        decreases chain.len() - c,
    {
        let b = chain[c];
        let ghost pre = stmts_at(blocks, pos@);
        let mut j: usize = 0;
        assert(pre + blocks[b as int].statements@.subrange(0, 0) =~= pre);
        while j < func.basic_blocks[b].statements.len()
            invariant
                blocks == func.basic_blocks@,
                b < blocks.len(),
                0 <= j <= blocks[b as int].statements@.len(),
                valid_positions(blocks, pos@),
                stmts_at(blocks, pos@) == pre + blocks[b as int].statements@.subrange(0, j as int),
            decreases blocks[b as int].statements@.len() - j,
        {
            let ghost before = pos@;
            pos.push((b, j));
            assert(stmts_at(blocks, pos@) =~= pre + blocks[b as int].statements@.subrange(0, j + 1)) by {
                assert(stmts_at(blocks, pos@) =~= stmts_at(blocks, before).push(blocks[b as int].statements@[j as int]));
            }
            j = j + 1;
        }
        assert(blocks[b as int].statements@.subrange(0, blocks[b as int].statements@.len() as int) =~= blocks[b as int].statements@);
        assert(chain@.subrange(0, c + 1).drop_last() =~= chain@.subrange(0, c as int));
        c = c + 1;
    }
    assert(chain@.subrange(0, chain@.len() as int) =~= chain@);
    pos
}

/// How many of the statements at `work` assign `l`, and one that does.
fn assigns_in(func: &MirFunction, work: &Vec<(usize, usize)>, l: usize) -> (r: (usize, usize))
    requires
        valid_positions(func.basic_blocks@, work@),
    ensures
        r.0 == statements_assign_count(stmts_at(func.basic_blocks@, work@), l),
        r.0 > 0 ==> r.1 < work@.len() && assigns_to(stmts_at(func.basic_blocks@, work@)[r.1 as int], l),
{
    let ghost ws = stmts_at(func.basic_blocks@, work@);
    let mut count: usize = 0;
    let mut at: usize = 0;
    let mut k: usize = 0;
    while k < work.len()
        invariant
            valid_positions(func.basic_blocks@, work@),
            ws == stmts_at(func.basic_blocks@, work@),
            0 <= k <= work@.len(),
            count == statements_assign_count(ws.subrange(0, k as int), l),
            count > 0 ==> at < k && assigns_to(ws[at as int], l),
        decreases work.len() - k,
    {
        proof {
            assert(ws.subrange(0, k + 1).drop_last() =~= ws.subrange(0, k as int));
            crate::optimizations::copy_prop::lemma_statements_count_bound(ws.subrange(0, k as int), l);
        }
        let (b, j) = work[k];
        assert(ws[k as int] == func.basic_blocks@[b as int].statements@[j as int]);
        if let StatementKind::Assign(d, _) = &func.basic_blocks[b].statements[j].kind {
            if d.0 == l {
                count = count + 1;
                at = k;
            }
        }
        k = k + 1;
    }
    assert(ws.subrange(0, ws.len() as int) =~= ws);
    (count, at)
}

/// Whether some statement at `work`, other than the one at `skip`, from
/// `from` on, reads `l`.
fn reads_from(func: &MirFunction, work: &Vec<(usize, usize)>, from: usize, skip: usize, l: usize) -> (r: bool)
    requires
        valid_positions(func.basic_blocks@, work@),
    ensures
        r == exists|k: int|
            from <= k < work@.len() && k != skip && #[trigger] statement_reads(
                stmts_at(func.basic_blocks@, work@)[k],
                l,
            ),
{
    let ghost ws = stmts_at(func.basic_blocks@, work@);
    let mut k: usize = from;
    while k < work.len()
        invariant
            valid_positions(func.basic_blocks@, work@),
            ws == stmts_at(func.basic_blocks@, work@),
            from <= k,
            forall|q: int| from <= q < k && q != skip ==> !#[trigger] statement_reads(ws[q], l),
        decreases work.len() - k,
    {
        let (b, j) = work[k];
        assert(ws[k as int] == func.basic_blocks@[b as int].statements@[j as int]);
        if k != skip && stmt_reads_local(&func.basic_blocks[b].statements[j], l) {
            assert(statement_reads(ws[k as int], l));
            return true;
        }
        k = k + 1;
    }
    false
}

/// `extract_step`, computed on positions.
fn extract_step_of(func: &MirFunction, work: Vec<(usize, usize)>, ind: usize) -> (r: Option<(i64, Vec<(usize, usize)>)>)
    requires
        valid_positions(func.basic_blocks@, work@),
    ensures
        match r {
            Some((st, rest)) => valid_positions(func.basic_blocks@, rest@) && extract_step(
                stmts_at(func.basic_blocks@, work@),
                ind,
            ) == Some((st, stmts_at(func.basic_blocks@, rest@))),
            None => extract_step(stmts_at(func.basic_blocks@, work@), ind) is None,
        },
{
    let ghost blocks = func.basic_blocks@;
    let ghost ws = stmts_at(blocks, work@);
    let (c, u) = assigns_in(func, &work, ind);
    if c != 1 {
        return None;
    }
    proof {
        lemma_sole_assign(ws, ind, u as int);
    }
    assert(work@.len() == work.len());
    if reads_from(func, &work, u + 1, work.len(), ind) {
        return None;
    }
    let (ub, uj) = work[u];
    assert(ws[u as int] == blocks[ub as int].statements@[uj as int]);
    match &func.basic_blocks[ub].statements[uj].kind {
        StatementKind::Assign(_, Rvalue::BinaryOp(BinOp::Add, a, b)) => match rewrite::step_from_add(a, b, ind) {
            Some(st) => {
                let mut rest = work;
                rest.remove(u);
                proof {
                    lemma_map_remove(blocks, work@, u as int);
                }
                Some((st, rest))
            },
            None => None,
        },
        StatementKind::Assign(_, Rvalue::Use(Operand::Copy(tmp))) => {
            let t = tmp.0;
            if reads_from(func, &work, 0, u, t) {
                return None;
            }
            let (c2, d) = assigns_in(func, &work, t);
            if c2 != 1 {
                return None;
            }
            proof {
                lemma_sole_assign(ws, t, d as int);
            }
            let (db, dj) = work[d];
            assert(ws[d as int] == blocks[db as int].statements@[dj as int]);
            match &func.basic_blocks[db].statements[dj].kind {
                StatementKind::Assign(_, Rvalue::BinaryOp(BinOp::Add, a, b)) => match rewrite::step_from_add(a, b, ind) {
                    Some(st) => {
                        let mut rest = work;
                        if u < d {
                            rest.remove(d);
                            rest.remove(u);
                            proof {
                                lemma_map_remove(blocks, work@, d as int);
                                lemma_map_remove(blocks, work@.remove(d as int), u as int);
                            }
                        } else {
                            rest.remove(u);
                            rest.remove(d);
                            proof {
                                lemma_map_remove(blocks, work@, u as int);
                                lemma_map_remove(blocks, work@.remove(u as int), d as int);
                            }
                        }
                        Some((st, rest))
                    },
                    None => None,
                },
                _ => None,
            }
        },
        _ => None,
    }
}

/// `unrollable`, computed on positions.
fn unrollable_of(func: &MirFunction, work: &Vec<(usize, usize)>, ind: usize) -> (r: bool)
    requires
        valid_positions(func.basic_blocks@, work@),
    ensures
        r == unrollable(stmts_at(func.basic_blocks@, work@), ind),
{
    let ghost ws = stmts_at(func.basic_blocks@, work@);
    let mut k: usize = 0;
    while k < work.len()
        invariant
            valid_positions(func.basic_blocks@, work@),
            ws == stmts_at(func.basic_blocks@, work@),
            0 <= k <= work@.len(),
            forall|j: int|
                0 <= j < k ==> match (#[trigger] ws[j]).kind {
                    StatementKind::Assign(dest, rv) => dest.0 != ind && match rv {
                        Rvalue::Ref(l) => l.0 != ind,
                        Rvalue::MutRef(l) => l.0 != ind,
                        Rvalue::VectorLoad(..) | Rvalue::VectorSplat(..) | Rvalue::VectorFMA(..)
                        | Rvalue::VectorReduce(..) => false,
                        _ => true,
                    },
                    StatementKind::Drop(l) => l.0 != ind,
                    StatementKind::VectorStore(..) => false,
                    _ => true,
                },
        decreases work.len() - k,
    {
        let (b, j) = work[k];
        assert(ws[k as int] == func.basic_blocks@[b as int].statements@[j as int]);
        let ok = match &func.basic_blocks[b].statements[j].kind {
            StatementKind::Assign(dest, rv) => dest.0 != ind && match rv {
                Rvalue::Ref(l) | Rvalue::MutRef(l) => l.0 != ind,
                Rvalue::VectorLoad(..) | Rvalue::VectorSplat(..) | Rvalue::VectorFMA(..) | Rvalue::VectorReduce(
                    ..,
                ) => false,
                _ => true,
            },
            StatementKind::Drop(l) => l.0 != ind,
            StatementKind::VectorStore(..) => false,
            _ => true,
        };
        if !ok {
            return false;
        }
        k = k + 1;
    }
    true
}

/// `enters`, computed.
fn enters_of(b: &BasicBlock, header: usize) -> (r: bool)
    ensures
        r == enters(*b, header),
{
    match &b.terminator {
        Some(t) => match &t.kind {
            TerminatorKind::Goto { target } => {
                assert(seq![target.0].contains(header) == (target.0 == header)) by {
                    if target.0 == header {
                        assert(seq![target.0][0] == header);
                    }
                }
                target.0 == header
            },
            TerminatorKind::SwitchInt { targets, otherwise, .. } => {
                let ghost ts = switch_targets(targets@, *otherwise);
                let mut k: usize = 0;
                while k < targets.len()
                    invariant
                        ts == switch_targets(targets@, *otherwise),
                        enters(*b, header) == ts.contains(header),
                        0 <= k <= targets@.len(),
                        forall|q: int| 0 <= q < k ==> ts[q] != header,
                    decreases targets.len() - k,
                {
                    assert(ts[k as int] == targets@[k as int].1.0);
                    if targets[k].1.0 == header {
                        assert(ts.contains(header));
                        return true;
                    }
                    k = k + 1;
                }
                assert(ts[targets@.len() as int] == otherwise.0);
                if otherwise.0 == header {
                    assert(ts.contains(header));
                    true
                } else {
                    assert(!ts.contains(header)) by {
                        if ts.contains(header) {
                            let q = choose|q: int| 0 <= q < ts.len() && ts[q] == header;
                        }
                    }
                    false
                }
            },
            _ => {
                assert(!Seq::<usize>::empty().contains(header));
                false
            },
        },
        None => false,
    }
}

/// `last_const_assign`, computed.
fn last_const_assign_of(stmts: &Vec<Statement>, ind: usize) -> (r: Option<i64>)
    ensures
        r == last_const_assign(stmts@, ind),
{
    let mut value: Option<i64> = None;
    let mut k: usize = 0;
    assert(stmts@.subrange(0, 0) =~= Seq::<Statement>::empty());
    while k < stmts.len()
        invariant
            0 <= k <= stmts@.len(),
            value == last_const_assign(stmts@.subrange(0, k as int), ind),
        decreases stmts.len() - k,
    {
        assert(stmts@.subrange(0, k + 1).drop_last() =~= stmts@.subrange(0, k as int));
        if let StatementKind::Assign(d, Rvalue::Use(Operand::Constant(Constant::Int(v)))) = &stmts[k].kind {
            if d.0 == ind {
                value = Some(*v);
            }
        }
        k = k + 1;
    }
    assert(stmts@.subrange(0, stmts@.len() as int) =~= stmts@);
    value
}

/// `const_init`, computed.
fn const_init_of(func: &MirFunction, lp: &Loop, ind: usize) -> (r: Option<i64>)
    ensures
        r == const_init(func.basic_blocks@, *lp, ind),
{
    let ghost blocks = func.basic_blocks@;
    let ghost body = index_set_contents(lp.body);
    let h = lp.header.0;
    let mut preds: Vec<usize> = Vec::new();
    let mut b: usize = 0;
    while b < func.basic_blocks.len()
        invariant
            blocks == func.basic_blocks@,
            body == index_set_contents(lp.body),
            h == lp.header.0,
            0 <= b <= blocks.len(),
            preds@ == outside_preds(blocks, body, h, b as nat),
            forall|q: int| 0 <= q < preds@.len() ==> (#[trigger] preds@[q]) < b,
        decreases blocks.len() - b,
    {
        if !lp.body.contains(b) && enters_of(&func.basic_blocks[b], h) {
            preds.push(b);
        }
        b = b + 1;
    }
    if preds.len() == 1 {
        last_const_assign_of(&func.basic_blocks[preds[0]].statements, ind)
    } else {
        None
    }
}

/// `const_operand`, computed.
fn const_operand_of(func: &MirFunction, d: &Defs, op: &Operand) -> (r: Option<i64>)
    requires
        defs_wf(*d, func.basic_blocks@),
    ensures
        r == const_operand(func.basic_blocks@, *op),
{
    match op {
        Operand::Constant(Constant::Int(v)) => Some(*v),
        Operand::Copy(l) | Operand::Move(l) => match single_def_of(func, d, l.0) {
            Some(Rvalue::Use(Operand::Constant(Constant::Int(v)))) => Some(*v),
            _ => None,
        },
        _ => None,
    }
}

/// `trip_count`, computed exactly.
fn trip_count_of(start: i64, end: i64, guard_op: BinOp, step: i64) -> (r: i128)
    requires
        step > 0,
    ensures
        r == trip_count(start, end, guard_op, step),
{
    let span: i128 = if matches!(guard_op, BinOp::LtEq) {
        end as i128 - start as i128 + 1
    } else {
        end as i128 - start as i128
    };
    if span <= 0 {
        0
    } else {
        (span + step as i128 - 1) / (step as i128)
    }
}

/// What `analyze` finds, with the work as statement positions.
struct UnrollPlan {
    induction: usize,
    step: i64,
    limit: Operand,
    cond_local: usize,
    body_entry: usize,
    exit: usize,
    work: Vec<(usize, usize)>,
    const_trip: Option<i128>,
}

spec fn plan_is(p: UnrollPlan, a: Analysis, blocks: Seq<BasicBlock>) -> bool {
    &&& p.induction == a.induction
    &&& p.step == a.step
    &&& p.limit == a.limit
    &&& p.cond_local == a.cond
    &&& p.body_entry == a.entry
    &&& p.exit == a.exit
    &&& valid_positions(blocks, p.work@)
    &&& stmts_at(blocks, p.work@) == a.work
    &&& match p.const_trip {
        Some(n) => a.trip == Some(n as int),
        None => a.trip is None,
    }
}

/// `analysis`, computed.
fn analyze(func: &MirFunction, d: &Defs, lp: &Loop) -> (r: Option<UnrollPlan>)
    requires
        loop_in_range(func.basic_blocks@, *lp),
        defs_wf(*d, func.basic_blocks@),
    ensures
        match r {
            Some(p) => analysis(func.basic_blocks@, *lp) matches Some(a) && plan_is(p, a, func.basic_blocks@),
            None => analysis(func.basic_blocks@, *lp) is None,
        },
{
    let ghost blocks = func.basic_blocks@;
    if lp.latches.len() != 1 || lp.exits.len() != 1 {
        return None;
    }
    let (cond, entry, exit) = match header_switch_of(func, lp) {
        Some(x) => x,
        None => {
            return None;
        },
    };
    if exit != lp.exits[0].0 {
        return None;
    }
    let hs = &func.basic_blocks[lp.header.0].statements;
    let (ind, guard_op, limit) = match header_test_of(hs, cond) {
        Some(x) => x,
        None => {
            return None;
        },
    };
    if !guard_only_of(hs, cond) {
        return None;
    }
    let chain = match linear_chain_of(func, lp, entry, lp.latches[0].0) {
        Some(c) => c,
        None => {
            return None;
        },
    };
    proof {
        assert forall|k: int| 0 <= k < chain@.len() implies (#[trigger] chain@[k]) < blocks.len() by {
            lemma_chain_in_body(blocks, lp.header.0, index_set_contents(lp.body), lp.latches@[0].0, entry, Set::empty(), blocks.len() + 1, k);
        }
    }
    let work = chain_positions(func, &chain);
    let (step, rest) = match extract_step_of(func, work, ind) {
        Some(x) => x,
        None => {
            return None;
        },
    };
    if step <= 0 || rest.len() == 0 || !unrollable_of(func, &rest, ind) {
        return None;
    }
    let const_trip = match (const_init_of(func, lp, ind), const_operand_of(func, d, &limit)) {
        (Some(s), Some(e)) => Some(trip_count_of(s, e, guard_op, step)),
        _ => None,
    };
    Some(UnrollPlan { induction: ind, step, limit, cond_local: cond, body_entry: entry, exit, work: rest, const_trip })
}

/// The blocks of a chain are blocks of the function.
proof fn lemma_chain_in_body(
    blocks: Seq<BasicBlock>,
    header: usize,
    body: Set<usize>,
    latch: usize,
    cur: usize,
    seen: Set<usize>,
    fuel: nat,
    k: int,
)
    ensures
        chain_from(blocks, header, body, latch, cur, seen, fuel) matches Some(c) ==> (0 <= k < c.len() ==> c[k]
            < blocks.len()),
    decreases fuel,
{
    if fuel > 0 && cur != header && body.contains(cur) && !seen.contains(cur) && cur < blocks.len() {
        if let Some(t) = blocks[cur as int].terminator {
            if let TerminatorKind::Goto { target } = t.kind {
                if cur != latch {
                    lemma_chain_in_body(blocks, header, body, latch, target.0, seen.insert(cur), (fuel - 1) as nat, k - 1);
                }
            }
        }
    }
}

/// The span of statements and terminators the unroller creates.
pub open spec fn new_span() -> Span {
    Span { file_id: 0, line: 0, col: 0, start: 0, end: 0 }
}

/// The statements of `work` but the storage markers of `x` and `y`.
pub open spec fn kept(work: Seq<Statement>, x: usize, y: usize) -> Seq<Statement>
    decreases work.len(),
{
    if work.len() == 0 {
        seq![]
    } else {
        let rest = kept(work.drop_last(), x, y);
        if storage_of(work.last(), x) || storage_of(work.last(), y) {
            rest
        } else {
            rest.push(work.last())
        }
    }
}

/// `out` is `src` with the reads of `ind` replaced by `to`.
pub open spec fn copy_block(out: Seq<Statement>, src: Seq<Statement>, ind: usize, to: Operand) -> bool {
    &&& out.len() == src.len()
    &&& forall|k: int| 0 <= k < src.len() ==> substituted(src[k], #[trigger] out[k], ind, to)
}

/// `out` is `trip` copies of `src`, copy `j` reading the constant
/// `start + j * step` (wrapped to 64 bits) for the induction.
pub open spec fn full_copies(out: Seq<Statement>, src: Seq<Statement>, ind: usize, start: i64, step: i64, trip: nat) -> bool
    decreases trip,
{
    if trip == 0 {
        out.len() == 0
    } else {
        let m = out.len() - src.len();
        &&& m >= 0
        &&& full_copies(out.subrange(0, m), src, ind, start, step, (trip - 1) as nat)
        &&& copy_block(
            out.subrange(m, out.len() as int),
            src,
            ind,
            Operand::Constant(Constant::Int((start + (trip - 1) * step) as i64)),
        )
    }
}

/// `new` is `old` with its jumps to `from` sent to `to`.
pub open spec fn retargeted(old: BasicBlock, new: BasicBlock, from: usize, to: usize) -> bool {
    &&& new.statements == old.statements
    &&& remapped_terminator(old.terminator, new.terminator, map![from => to])
}

/// The loop is replaced by one block of straight-line copies, entered
/// wherever the header was entered from outside the loop.
pub open spec fn fully_unrolled(f: MirFunction, lp: Loop, a: Analysis, g: MirFunction) -> bool {
    let n = f.basic_blocks@.len();
    let body = index_set_contents(lp.body);
    let start = const_init(f.basic_blocks@, lp, a.induction)->0;
    let trip = a.trip->0;
    let nb = g.basic_blocks@[n as int];
    &&& same_except_blocks(g, f)
    &&& g.basic_blocks@.len() == n + 1
    &&& forall|b: int|
        0 <= b < n ==> if body.contains(b as usize) {
            #[trigger] g.basic_blocks@[b] == f.basic_blocks@[b]
        } else {
            retargeted(f.basic_blocks@[b], g.basic_blocks@[b], lp.header.0, n as usize)
        }
    &&& nb.terminator == Some(
        Terminator { kind: TerminatorKind::Goto { target: BasicBlockId(a.exit) }, span: new_span() },
    )
    &&& nb.statements@.len() >= 1
    &&& full_copies(
        nb.statements@.drop_last(),
        kept(a.work, a.induction, a.cond),
        a.induction,
        start,
        a.step,
        trip as nat,
    )
    &&& nb.statements@.last() == Statement {
        kind: StatementKind::Assign(
            Local(a.induction),
            Rvalue::Use(Operand::Constant(Constant::Int((start + trip * a.step) as i64))),
        ),
        span: new_span(),
    }
}

/// The positions of `work` the copies keep.
fn kept_positions(func: &MirFunction, work: &Vec<(usize, usize)>, x: usize, y: usize) -> (r: Vec<(usize, usize)>)
    requires
        valid_positions(func.basic_blocks@, work@),
    ensures
        valid_positions(func.basic_blocks@, r@),
        stmts_at(func.basic_blocks@, r@) == kept(stmts_at(func.basic_blocks@, work@), x, y),
{
    let ghost blocks = func.basic_blocks@;
    let ghost ws = stmts_at(blocks, work@);
    let mut out: Vec<(usize, usize)> = Vec::new();
    let mut k: usize = 0;
    assert(stmts_at(blocks, out@) =~= kept(ws.subrange(0, 0), x, y));
    while k < work.len()
        invariant
            blocks == func.basic_blocks@,
            ws == stmts_at(blocks, work@),
            valid_positions(blocks, work@),
            0 <= k <= work@.len(),
            valid_positions(blocks, out@),
            stmts_at(blocks, out@) == kept(ws.subrange(0, k as int), x, y),
        decreases work.len() - k,
    {
        let (b, j) = work[k];
        let s = &func.basic_blocks[b].statements[j];
        assert(ws[k as int] == *s);
        assert(ws.subrange(0, k + 1).drop_last() =~= ws.subrange(0, k as int));
        assert(ws.subrange(0, k + 1).last() == *s);
        if !rewrite::is_storage_of(s, x) && !rewrite::is_storage_of(s, y) {
            let ghost before = out@;
            out.push((b, j));
            assert(stmts_at(blocks, out@) =~= stmts_at(blocks, before).push(*s));
        }
        k = k + 1;
    }
    assert(ws.subrange(0, ws.len() as int) =~= ws);
    out
}

/// Appends a copy of the statements at `pos`, reading `to` for `ind`.
fn push_copy(func: &MirFunction, pos: &Vec<(usize, usize)>, ind: usize, to: &Operand, out: &mut Vec<Statement>)
    requires
        valid_positions(func.basic_blocks@, pos@),
    ensures
        final(out)@.len() == old(out)@.len() + pos@.len(),
        final(out)@.subrange(0, old(out)@.len() as int) == old(out)@,
        copy_block(
            final(out)@.subrange(old(out)@.len() as int, final(out)@.len() as int),
            stmts_at(func.basic_blocks@, pos@),
            ind,
            *to,
        ),
{
    let ghost start = out@;
    let ghost src = stmts_at(func.basic_blocks@, pos@);
    let mut k: usize = 0;
    while k < pos.len()
        invariant
            valid_positions(func.basic_blocks@, pos@),
            src == stmts_at(func.basic_blocks@, pos@),
            0 <= k <= pos@.len(),
            out@.len() == start.len() + k,
            out@.subrange(0, start.len() as int) == start,
            forall|q: int| 0 <= q < k ==> substituted(src[q], #[trigger] out@[start.len() + q], ind, *to),
        decreases pos.len() - k,
    {
        let (b, j) = pos[k];
        assert(src[k as int] == func.basic_blocks@[b as int].statements@[j as int]);
        let ghost before = out@;
        out.push(rewrite::subst_copy(&func.basic_blocks[b].statements[j], ind, to));
        assert(out@.subrange(0, start.len() as int) =~= before.subrange(0, start.len() as int));
        assert forall|q: int| 0 <= q < k + 1 implies substituted(src[q], #[trigger] out@[start.len() + q], ind, *to) by {
            if q < k {
                assert(out@[start.len() + q] == before[start.len() + q]);
            }
        }
        k = k + 1;
    }
    let ghost tail = out@.subrange(start.len() as int, out@.len() as int);
    assert forall|q: int| 0 <= q < src.len() implies substituted(src[q], #[trigger] tail[q], ind, *to) by {
        assert(tail[q] == out@[start.len() + q]);
    }
}

/// Blocks the redirection leaves alone: those of the loop body, those in
/// `lo..hi`, and `extra`.
pub open spec fn kept_in_place(body: Set<usize>, lo: usize, hi: usize, extra: Option<usize>, b: usize) -> bool {
    body.contains(b) || (lo <= b < hi) || extra == Some(b)
}

/// Sends the jumps to `from` of every other block to `to`.
pub(crate) fn redirect(func: &mut MirFunction, body: &IndexSet, from: usize, to: usize, lo: usize, hi: usize, extra: Option<usize>)
    ensures
        same_except_blocks(*final(func), *old(func)),
        final(func).basic_blocks@.len() == old(func).basic_blocks@.len(),
        forall|b: int|
            0 <= b < old(func).basic_blocks@.len() ==> if kept_in_place(index_set_contents(*body), lo, hi, extra, b as usize) {
                #[trigger] final(func).basic_blocks@[b] == old(func).basic_blocks@[b]
            } else {
                retargeted(old(func).basic_blocks@[b], final(func).basic_blocks@[b], from, to)
            },
{
    let ghost orig = func.basic_blocks@;
    let mut m = IndexMap::new();
    m.insert(from, to);
    assert(index_map_contents(m) =~= map![from => to]);
    let mut b: usize = 0;
    while b < func.basic_blocks.len()
        invariant
            same_except_blocks(*func, *old(func)),
            orig == old(func).basic_blocks@,
            func.basic_blocks@.len() == orig.len(),
            index_map_contents(m) == map![from => to],
            0 <= b <= orig.len(),
            forall|q: int| b <= q < orig.len() ==> #[trigger] func.basic_blocks@[q] == orig[q],
            forall|q: int|
                0 <= q < b ==> if kept_in_place(index_set_contents(*body), lo, hi, extra, q as usize) {
                    #[trigger] func.basic_blocks@[q] == orig[q]
                } else {
                    retargeted(orig[q], func.basic_blocks@[q], from, to)
                },
        decreases orig.len() - b,
    {
        let skip = body.contains(b) || (lo <= b && b < hi) || match extra {
            Some(e) => e == b,
            None => false,
        };
        if !skip {
            let mut bb = BasicBlock { statements: Vec::new(), terminator: None };
            func.basic_blocks.set_and_swap(b, &mut bb);
            let t = crate::loop_utils::remap_terminator(&bb.terminator, &m);
            bb.terminator = t;
            func.basic_blocks.set_and_swap(b, &mut bb);
        }
        b = b + 1;
    }
}

/// The loop's header and body blocks are blocks of `blocks`, and the body
/// holds the header.
pub open spec fn loop_in_range(blocks: Seq<BasicBlock>, lp: Loop) -> bool {
    &&& lp.header.0 < blocks.len()
    &&& index_set_contents(lp.body).contains(lp.header.0)
    &&& index_set_contents(lp.body).finite()
    &&& forall|b: usize| #[trigger] index_set_contents(lp.body).contains(b) ==> b < blocks.len()
}

/// Replaces the loop by straight-line copies of its work.
fn full_unroll(func: &mut MirFunction, lp: &Loop, plan: &UnrollPlan, Ghost(a): Ghost<Analysis>, trip: i128) -> (done: bool)
    requires
        loop_in_range(old(func).basic_blocks@, *lp),
        analysis(old(func).basic_blocks@, *lp) == Some(a),
        plan_is(*plan, a, old(func).basic_blocks@),
        a.trip == Some(trip as int),
        1 <= trip <= 32,
    ensures
        done,
        fully_unrolled(*old(func), *lp, a, *final(func)),
{
    let ghost f = *func;
    let ghost blocks = func.basic_blocks@;
    let start = match const_init_of(func, lp, plan.induction) {
        Some(v) => v,
        None => {
            return false;
        },
    };
    let ghost src = kept(a.work, a.induction, a.cond);
    let kept_pos = kept_positions(func, &plan.work, plan.induction, plan.cond_local);
    let mut stmts: Vec<Statement> = Vec::new();
    let mut j: i128 = 0;
    while j < trip
        invariant
            blocks == func.basic_blocks@,
            valid_positions(blocks, kept_pos@),
            stmts_at(blocks, kept_pos@) == src,
            0 <= j <= trip,
            trip <= 32,
            full_copies(stmts@, src, a.induction, start, a.step, j as nat),
            plan.induction == a.induction,
            plan.step == a.step,
        decreases trip - j,
    {
        assert(-32 * 0x8000_0000_0000_0000 <= (j as int) * (plan.step as int) <= 32 * 0x8000_0000_0000_0000)
            by (nonlinear_arith)
            requires
                0 <= j <= 32,
                -0x8000_0000_0000_0000 <= plan.step <= 0x7fff_ffff_ffff_ffff,
        ;
        let value = (start as i128 + j * (plan.step as i128)) as i64;
        let to = Operand::Constant(Constant::Int(value));
        let ghost before = stmts@;
        push_copy(func, &kept_pos, plan.induction, &to, &mut stmts);
        proof {
            let m = stmts@.len() - src.len();
            assert(m == before.len());
            assert(stmts@.subrange(0, m) == before);
        }
        j = j + 1;
    }
    assert(-32 * 0x8000_0000_0000_0000 <= (trip as int) * (plan.step as int) <= 32 * 0x8000_0000_0000_0000)
        by (nonlinear_arith)
        requires
            0 <= trip <= 32,
            -0x8000_0000_0000_0000 <= plan.step <= 0x7fff_ffff_ffff_ffff,
    ;
    let fin = (start as i128 + trip * (plan.step as i128)) as i64;
    let ghost body_stmts = stmts@;
    stmts.push(
        Statement {
            kind: StatementKind::Assign(
                Local(plan.induction),
                Rvalue::Use(Operand::Constant(Constant::Int(fin))),
            ),
            span: Span::default(),
        },
    );
    assert(stmts@.drop_last() =~= body_stmts);
    let unrolled = func.basic_blocks.len();
    func.basic_blocks.push(
        BasicBlock {
            statements: stmts,
            terminator: Some(
                Terminator { kind: TerminatorKind::Goto { target: BasicBlockId(plan.exit) }, span: Span::default() },
            ),
        },
    );
    let ghost mid = func.basic_blocks@;
    redirect(func, &lp.body, lp.header.0, unrolled, 0, 0, None);
    proof {
        let g = *func;
        let n = blocks.len();
        assert(mid[n as int].terminator == Some(
            Terminator { kind: TerminatorKind::Goto { target: BasicBlockId(a.exit) }, span: new_span() },
        ));
        assert(!index_set_contents(lp.body).contains(a.exit)) by {
            lemma_exit_outside(blocks, *lp);
        }
        assert(a.exit != lp.header.0);
        assert(g.basic_blocks@[n as int].statements == mid[n as int].statements);
        assert(g.basic_blocks@[n as int].terminator == mid[n as int].terminator);
        assert forall|b: int| 0 <= b < n implies if index_set_contents(lp.body).contains(b as usize) {
            #[trigger] g.basic_blocks@[b] == f.basic_blocks@[b]
        } else {
            retargeted(f.basic_blocks@[b], g.basic_blocks@[b], lp.header.0, n as usize)
        } by {
            assert(mid[b] == blocks[b]);
        }
    }
    true
}

/// The exit the analysis finds lies outside the loop body.
proof fn lemma_exit_outside(blocks: Seq<BasicBlock>, lp: Loop)
    ensures
        analysis(blocks, lp) matches Some(a) ==> !index_set_contents(lp.body).contains(a.exit),
{
    if let Some(a) = analysis(blocks, lp) {
        if let Some(t) = blocks[lp.header.0 as int].terminator {
            if let TerminatorKind::SwitchInt { discr, targets, otherwise } = t.kind {
                lemma_split_outside(switch_targets(targets@, otherwise), index_set_contents(lp.body));
            }
        }
    }
}

proof fn lemma_split_outside(ts: Seq<usize>, body: Set<usize>)
    ensures
        split_targets(ts, body) matches Some((inside, outside)) ==> (outside matches Some(o) ==> !body.contains(o)),
    decreases ts.len(),
{
    if ts.len() > 0 {
        lemma_split_outside(ts.drop_last(), body);
    }
}

/// A fresh local of the unroller: an immutable, owning integer named `name`.
pub open spec fn fresh_int_local(d: LocalDecl, name: Seq<char>) -> bool {
    &&& d.ty == Type::Int
    &&& d.name matches Some(s) && s@ == name
    &&& d.span == new_span()
    &&& !d.is_mut
    &&& d.is_owning
}

/// `out` is the partial-unroll body up to copy `j`: copy 0 reads the
/// induction itself; copy `k > 0` is preceded by `base + k = i + k * step`
/// and reads that local.
pub open spec fn partial_copies(out: Seq<Statement>, src: Seq<Statement>, ind: usize, base: usize, step: i64, j: nat) -> bool
    decreases j,
{
    if j == 0 {
        out.len() == 0
    } else {
        let k = (j - 1) as nat;
        let m = out.len() - src.len();
        let block = out.subrange(m, out.len() as int);
        if k == 0 {
            m == 0 && copy_block(block, src, ind, Operand::Copy(Local(ind)))
        } else {
            &&& m >= 1
            &&& partial_copies(out.subrange(0, m - 1), src, ind, base, step, k)
            &&& out[m - 1] == Statement {
                kind: StatementKind::Assign(
                    Local((base + k) as usize),
                    Rvalue::BinaryOp(
                        BinOp::Add,
                        Operand::Copy(Local(ind)),
                        Operand::Constant(Constant::Int((k * step) as i64)),
                    ),
                ),
                span: new_span(),
            }
            &&& copy_block(block, src, ind, Operand::Copy(Local((base + k) as usize)))
        }
    }
}

/// The header's guard `cond = op(i, limit)` compares against `adj` instead.
pub open spec fn guard_rewritten(a: Statement, b: Statement, cond: usize, ind: usize, adj: usize) -> bool {
    match a.kind {
        StatementKind::Assign(l, Rvalue::BinaryOp(op, _, _)) => if l.0 == cond {
            b == Statement {
                kind: StatementKind::Assign(
                    l,
                    Rvalue::BinaryOp(op, Operand::Copy(Local(ind)), Operand::Copy(Local(adj))),
                ),
                span: a.span,
            }
        } else {
            b == a
        },
        _ => b == a,
    }
}

/// The loop runs four copies of its work per iteration while `i` is below
/// `limit - 3 * step`; a copy of the original loop (the epilogue, numbered
/// by `m`) runs the remaining iterations.
pub open spec fn partially_unrolled(f: MirFunction, lp: Loop, a: Analysis, g: MirFunction) -> bool {
    let n = f.basic_blocks@.len();
    let body = index_set_contents(lp.body);
    let c = body.len();
    let h = lp.header.0;
    let nl = f.locals@.len();
    let ind = a.induction;
    let pre = n + c;
    let ub = n + c + 1;
    let unrolled = g.basic_blocks@[ub as int];
    &&& g.name == f.name
    &&& g.arg_count == f.arg_count
    &&& g.vararg_idx == f.vararg_idx
    &&& g.kwarg_idx == f.kwarg_idx
    &&& g.param_names@ == f.param_names@
    &&& g.is_async == f.is_async
    &&& g.locals@.len() == nl + 4
    &&& g.locals@.subrange(0, nl as int) == f.locals@
    &&& fresh_int_local(g.locals@[nl as int], "unroll_limit"@)
    &&& forall|k: int| 1 <= k < 4 ==> fresh_int_local(#[trigger] g.locals@[nl + k], "unroll_idx"@)
    &&& g.basic_blocks@.len() == n + c + 2
    &&& exists|m: Map<usize, usize>|
        {
            &&& m.dom() == body
            &&& forall|b: usize|
                #[trigger] body.contains(b) ==> n <= m[b] < n + c && cloned_block(
                    f.basic_blocks@[b as int],
                    g.basic_blocks@[m[b] as int],
                    m,
                )
            &&& forall|x: usize, y: usize| #[trigger] body.contains(x) && #[trigger] body.contains(y) && x != y ==> m[x] != m[y]
            &&& g.basic_blocks@[h as int].statements@.len() == f.basic_blocks@[h as int].statements@.len()
            &&& forall|k: int|
                0 <= k < f.basic_blocks@[h as int].statements@.len() ==> guard_rewritten(
                    f.basic_blocks@[h as int].statements@[k],
                    #[trigger] g.basic_blocks@[h as int].statements@[k],
                    a.cond,
                    ind,
                    nl as usize,
                )
            &&& remapped_terminator(
                f.basic_blocks@[h as int].terminator,
                g.basic_blocks@[h as int].terminator,
                map![a.entry => ub as usize, a.exit => m[h]],
            )
        }
    &&& forall|b: int|
        0 <= b < n && b != h ==> if body.contains(b as usize) {
            #[trigger] g.basic_blocks@[b] == f.basic_blocks@[b]
        } else {
            retargeted(f.basic_blocks@[b], g.basic_blocks@[b], h, pre as usize)
        }
    &&& g.basic_blocks@[pre as int].statements@ == seq![
        Statement {
            kind: StatementKind::Assign(
                Local(nl as usize),
                Rvalue::BinaryOp(BinOp::Sub, a.limit, Operand::Constant(Constant::Int((3 * a.step) as i64))),
            ),
            span: new_span(),
        },
    ]
    &&& g.basic_blocks@[pre as int].terminator == Some(
        Terminator { kind: TerminatorKind::Goto { target: BasicBlockId(h) }, span: new_span() },
    )
    &&& unrolled.terminator == Some(
        Terminator { kind: TerminatorKind::Goto { target: BasicBlockId(pre as usize) }, span: new_span() },
    )
    &&& unrolled.statements@.len() >= 1
    &&& partial_copies(unrolled.statements@.drop_last(), kept(a.work, ind, ind), ind, nl as usize, a.step, 4)
    &&& unrolled.statements@.last() == Statement {
        kind: StatementKind::Assign(
            Local(ind),
            Rvalue::BinaryOp(
                BinOp::Add,
                Operand::Copy(Local(ind)),
                Operand::Constant(Constant::Int((4 * a.step) as i64)),
            ),
        ),
        span: new_span(),
    }
}

/// Declares a fresh local of the unroller.
pub(crate) fn new_int_local(func: &mut MirFunction, name: &str) -> (l: usize)
    requires
        old(func).locals@.len() < usize::MAX,
    ensures
        l == old(func).locals@.len(),
        final(func).locals@ == old(func).locals@.push(final(func).locals@[l as int]),
        fresh_int_local(final(func).locals@[l as int], name@),
        final(func).basic_blocks@ == old(func).basic_blocks@,
        final(func).name == old(func).name,
        final(func).arg_count == old(func).arg_count,
        final(func).vararg_idx == old(func).vararg_idx,
        final(func).kwarg_idx == old(func).kwarg_idx,
        final(func).param_names@ == old(func).param_names@,
        final(func).is_async == old(func).is_async,
{
    let l = func.locals.len();
    func.locals.push(
        LocalDecl {
            ty: Type::Int,
            name: Some(String::from_str(name)),
            span: Span::default(),
            is_mut: false,
            is_owning: true,
        },
    );
    l
}

/// The statements at valid positions of `f` are the same in `g` when `g`
/// keeps the blocks of `f` as its first ones.
proof fn lemma_stmts_at_prefix(f: Seq<BasicBlock>, g: Seq<BasicBlock>, pos: Seq<(usize, usize)>)
    requires
        valid_positions(f, pos),
        f.len() <= g.len(),
        g.subrange(0, f.len() as int) == f,
    ensures
        valid_positions(g, pos),
        stmts_at(g, pos) == stmts_at(f, pos),
{
    assert forall|k: int| 0 <= k < pos.len() implies (#[trigger] pos[k]).0 < g.len() && pos[k].1
        < g[pos[k].0 as int].statements@.len() by {
        assert(g[pos[k].0 as int] == g.subrange(0, f.len() as int)[pos[k].0 as int]);
    }
    assert forall|k: int| 0 <= k < pos.len() implies #[trigger] stmts_at(g, pos)[k] == stmts_at(f, pos)[k] by {
        assert(g[pos[k].0 as int] == g.subrange(0, f.len() as int)[pos[k].0 as int]);
    }
    assert(stmts_at(g, pos) =~= stmts_at(f, pos));
}

/// Rewrites the header's guard to compare against `adj`, and sends its
/// switch to the unrolled body and the epilogue.
fn rewrite_header(func: &mut MirFunction, h: usize, cond: usize, ind: usize, adj: usize, tm: &IndexMap)
    requires
        h < old(func).basic_blocks@.len(),
    ensures
        same_except_blocks(*final(func), *old(func)),
        final(func).basic_blocks@.len() == old(func).basic_blocks@.len(),
        forall|b: int| 0 <= b < old(func).basic_blocks@.len() && b != h ==> #[trigger] final(func).basic_blocks@[b] == old(func).basic_blocks@[b],
        final(func).basic_blocks@[h as int].statements@.len() == old(func).basic_blocks@[h as int].statements@.len(),
        forall|k: int|
            0 <= k < old(func).basic_blocks@[h as int].statements@.len() ==> guard_rewritten(
                old(func).basic_blocks@[h as int].statements@[k],
                #[trigger] final(func).basic_blocks@[h as int].statements@[k],
                cond,
                ind,
                adj,
            ),
        remapped_terminator(
            old(func).basic_blocks@[h as int].terminator,
            final(func).basic_blocks@[h as int].terminator,
            index_map_contents(*tm),
        ),
{
    let mut bb = BasicBlock { statements: Vec::new(), terminator: None };
    func.basic_blocks.set_and_swap(h, &mut bb);
    let ghost orig = bb.statements@;
    let ghost t0 = bb.terminator;
    let mut k: usize = 0;
    while k < bb.statements.len()
        invariant
            bb.terminator == t0,
            bb.statements@.len() == orig.len(),
            0 <= k <= orig.len(),
            forall|q: int| k <= q < orig.len() ==> #[trigger] bb.statements@[q] == orig[q],
            forall|q: int| 0 <= q < k ==> guard_rewritten(orig[q], #[trigger] bb.statements@[q], cond, ind, adj),
        decreases orig.len() - k,
    {
        let rewritten = match &bb.statements[k].kind {
            StatementKind::Assign(l, Rvalue::BinaryOp(op, _, _)) => if l.0 == cond {
                Some(
                    Statement {
                        kind: StatementKind::Assign(
                            *l,
                            Rvalue::BinaryOp(*op, Operand::Copy(Local(ind)), Operand::Copy(Local(adj))),
                        ),
                        span: bb.statements[k].span,
                    },
                )
            } else {
                None
            },
            _ => None,
        };
        if let Some(st) = rewritten {
            bb.statements.set(k, st);
        }
        k = k + 1;
    }
    let t = crate::loop_utils::remap_terminator(&bb.terminator, tm);
    bb.terminator = t;
    func.basic_blocks.set_and_swap(h, &mut bb);
}

/// Runs four copies of the work per iteration, with an epilogue copy of
/// the loop for the remaining iterations.
fn partial_unroll(func: &mut MirFunction, lp: &Loop, plan: &UnrollPlan, Ghost(a): Ghost<Analysis>) -> (done: bool)
    requires
        loop_in_range(old(func).basic_blocks@, *lp),
        analysis(old(func).basic_blocks@, *lp) == Some(a),
        plan_is(*plan, a, old(func).basic_blocks@),
    ensures
        done == !too_large(*old(func), *lp),
        done ==> partially_unrolled(*old(func), *lp, a, *final(func)),
        !done ==> *final(func) == *old(func),
{
    let ghost f = *func;
    let ghost blocks = func.basic_blocks@;
    let ghost body = index_set_contents(lp.body);
    let n = func.basic_blocks.len();
    let c = lp.body.len();
    let nl = func.locals.len();
    proof {
        crate::loop_utils::lemma_bounded_set_len(body, n as nat);
    }
    if n > usize::MAX - 2 || c > usize::MAX - 2 - n || nl > usize::MAX - 4 {
        return false;
    }
    assert(!too_large(f, *lp));
    let h = lp.header.0;
    let ind = plan.induction;
    let ghost src = kept(a.work, ind, ind);
    let kept_pos = kept_positions(func, &plan.work, ind, ind);
    let epi_map = crate::loop_utils::clone_blocks(func, &lp.body);
    let ghost m = index_map_contents(epi_map);
    let epi_header = match epi_map.get(h) {
        Some(x) => x,
        None => {
            return false;
        },
    };
    proof {
        lemma_stmts_at_prefix(blocks, func.basic_blocks@, kept_pos@);
    }
    let ghost cloned = func.basic_blocks@;
    let adj = new_int_local(func, "unroll_limit");
    let pre = func.basic_blocks.len();
    let three = (3i128 * plan.step as i128) as i64;
    let mut pre_stmts: Vec<Statement> = Vec::new();
    pre_stmts.push(
        Statement {
            kind: StatementKind::Assign(
                Local(adj),
                Rvalue::BinaryOp(BinOp::Sub, plan.limit.clone(), Operand::Constant(Constant::Int(three))),
            ),
            span: Span::default(),
        },
    );
    func.basic_blocks.push(
        BasicBlock {
            statements: pre_stmts,
            terminator: Some(Terminator { kind: TerminatorKind::Goto { target: BasicBlockId(h) }, span: Span::default() }),
        },
    );
    let ghost with_pre = func.basic_blocks@;
    proof {
        assert(with_pre.subrange(0, cloned.len() as int) =~= cloned);
        lemma_stmts_at_prefix(cloned, with_pre, kept_pos@);
    }
    let mut body_stmts: Vec<Statement> = Vec::new();
    let mut j: usize = 0;
    while j < 4
        invariant
            func.basic_blocks@ == with_pre,
            valid_positions(with_pre, kept_pos@),
            stmts_at(with_pre, kept_pos@) == src,
            0 <= j <= 4,
            func.locals@.len() == nl + 1 + (if j == 0 { 0 } else { j - 1 }),
            nl <= usize::MAX - 4,
            func.locals@.subrange(0, nl + 1) == f.locals@.push(func.locals@[nl as int]),
            fresh_int_local(func.locals@[nl as int], "unroll_limit"@),
            forall|k: int| 1 <= k < j ==> fresh_int_local(#[trigger] func.locals@[nl + k], "unroll_idx"@),
            partial_copies(body_stmts@, src, ind, nl, plan.step, j as nat),
            func.name == f.name,
            func.arg_count == f.arg_count,
            func.vararg_idx == f.vararg_idx,
            func.kwarg_idx == f.kwarg_idx,
            func.param_names@ == f.param_names@,
            func.is_async == f.is_async,
            -0x8000_0000_0000_0000 <= plan.step <= 0x7fff_ffff_ffff_ffff,
        decreases 4 - j,
    {
        let ghost before = body_stmts@;
        let ghost locals0 = func.locals@;
        let idx_op = if j == 0 {
            Operand::Copy(Local(ind))
        } else {
            let off = new_int_local(func, "unroll_idx");
            assert(off == nl + j);
            assert(-4 * 0x8000_0000_0000_0000 <= (j as int) * (plan.step as int) <= 4 * 0x8000_0000_0000_0000)
                by (nonlinear_arith)
                requires
                    0 <= j <= 4,
                    -0x8000_0000_0000_0000 <= plan.step <= 0x7fff_ffff_ffff_ffff,
            ;
            let v = (j as i128 * plan.step as i128) as i64;
            body_stmts.push(
                Statement {
                    kind: StatementKind::Assign(
                        Local(off),
                        Rvalue::BinaryOp(BinOp::Add, Operand::Copy(Local(ind)), Operand::Constant(Constant::Int(v))),
                    ),
                    span: Span::default(),
                },
            );
            Operand::Copy(Local(off))
        };
        let ghost mid = body_stmts@;
        push_copy(func, &kept_pos, ind, &idx_op, &mut body_stmts);
        proof {
            let mm = body_stmts@.len() - src.len();
            assert(mm == mid.len());
            assert(body_stmts@.subrange(0, mm) == mid);
            if j > 0 {
                assert(mid.subrange(0, mm - 1) =~= before);
                assert(body_stmts@.subrange(0, mm - 1) =~= before);
                assert(body_stmts@[mm - 1] == mid[mm - 1]);
                assert forall|k: int| 1 <= k < j + 1 implies fresh_int_local(#[trigger] func.locals@[nl + k], "unroll_idx"@) by {
                    if k < j {
                        assert(func.locals@[nl + k] == locals0[nl + k]);
                    }
                }
                assert(func.locals@.subrange(0, nl + 1) =~= locals0.subrange(0, nl + 1));
            }
        }
        j = j + 1;
    }
    let four = (4i128 * plan.step as i128) as i64;
    let ghost copies = body_stmts@;
    body_stmts.push(
        Statement {
            kind: StatementKind::Assign(
                Local(ind),
                Rvalue::BinaryOp(BinOp::Add, Operand::Copy(Local(ind)), Operand::Constant(Constant::Int(four))),
            ),
            span: Span::default(),
        },
    );
    assert(body_stmts@.drop_last() =~= copies);
    let ub = func.basic_blocks.len();
    func.basic_blocks.push(
        BasicBlock {
            statements: body_stmts,
            terminator: Some(Terminator { kind: TerminatorKind::Goto { target: BasicBlockId(h) }, span: Span::default() }),
        },
    );
    let mut tm = IndexMap::new();
    tm.insert(plan.body_entry, ub);
    tm.insert(plan.exit, epi_header);
    assert(index_map_contents(tm) =~= map![a.entry => ub, a.exit => m[h]]);
    let ghost before_header = func.basic_blocks@;
    rewrite_header(func, h, plan.cond_local, ind, adj, &tm);
    let ghost before_redirect = func.basic_blocks@;
    redirect(func, &lp.body, h, pre, n, n + c, Some(pre));
    proof {
        let g = *func;
        assert(g.locals@.subrange(0, nl as int) =~= f.locals@) by {
            assert(g.locals@.subrange(0, nl + 1).subrange(0, nl as int) =~= g.locals@.subrange(0, nl as int));
        }
        assert(cloned.subrange(0, n as int) == blocks);
        assert forall|b: int| 0 <= b < n && b != h implies if body.contains(b as usize) {
            #[trigger] g.basic_blocks@[b] == f.basic_blocks@[b]
        } else {
            retargeted(f.basic_blocks@[b], g.basic_blocks@[b], h, pre)
        } by {
            assert(cloned[b] == cloned.subrange(0, n as int)[b]);
            assert(with_pre[b] == cloned[b]);
            assert(before_header[b] == with_pre[b]);
        }
        assert(g.basic_blocks@[h as int] == before_redirect[h as int]);
        assert(before_header[h as int] == blocks[h as int]) by {
            assert(cloned[h as int] == cloned.subrange(0, n as int)[h as int]);
        }
        assert forall|b: usize| #[trigger] body.contains(b) implies n <= m[b] < n + c && cloned_block(
            f.basic_blocks@[b as int],
            g.basic_blocks@[m[b] as int],
            m,
        ) by {
            assert(g.basic_blocks@[m[b] as int] == before_redirect[m[b] as int]);
            assert(before_redirect[m[b] as int] == cloned[m[b] as int]);
        }
        assert(g.basic_blocks@[pre as int] == with_pre[pre as int]);
        assert(with_pre[pre as int].statements@ =~= seq![
            Statement {
                kind: StatementKind::Assign(
                    Local(nl as usize),
                    Rvalue::BinaryOp(BinOp::Sub, a.limit, Operand::Constant(Constant::Int((3 * a.step) as i64))),
                ),
                span: new_span(),
            },
        ]);
        assert(lp.header.0 != pre);
        assert(!body.contains(ub));
    }
    true
}

/// The function could not hold the blocks and locals a partial unroll adds.
pub open spec fn too_large(f: MirFunction, lp: Loop) -> bool {
    f.basic_blocks@.len() + index_set_contents(lp.body).len() + 2 > usize::MAX || f.locals@.len() + 4 > usize::MAX
}

/// What unrolling one loop makes of `f`: nothing when the analysis fails
/// or the copies would exceed `MAX_EXPANSION` statements (or the function
/// could not grow); a full unroll for a constant trip count in
/// `1..=FULL_TRIP_LIMIT`; a partial unroll otherwise. `done` says whether
/// it unrolled.
pub open spec fn unroll_step(f: MirFunction, lp: Loop, g: MirFunction, done: bool) -> bool {
    match analysis(f.basic_blocks@, lp) {
        None => !done && g == f,
        Some(a) => {
            let full = match a.trip {
                Some(t) => 1 <= t <= 32,
                None => false,
            };
            if full {
                if a.work.len() * a.trip->0 > 1024 {
                    !done && g == f
                } else {
                    done && fully_unrolled(f, lp, a, g)
                }
            } else if a.work.len() * 4 > 1024 || too_large(f, lp) {
                !done && g == f
            } else {
                done && partially_unrolled(f, lp, a, g)
            }
        },
    }
}

/// Unrolls the analysed loop, full or partial, within the expansion limit.
fn transform(func: &mut MirFunction, lp: &Loop, plan: &UnrollPlan, Ghost(a): Ghost<Analysis>) -> (done: bool)
    requires
        loop_in_range(old(func).basic_blocks@, *lp),
        analysis(old(func).basic_blocks@, *lp) == Some(a),
        plan_is(*plan, a, old(func).basic_blocks@),
    ensures
        unroll_step(*old(func), *lp, *final(func), done),
{
    let len = plan.work.len() as u128;
    match plan.const_trip {
        Some(n) => if 1 <= n && n <= 32 {
            assert((len as int) * (n as int) <= 0xffff_ffff_ffff_ffff * 32) by (nonlinear_arith)
                requires
                    len <= 0xffff_ffff_ffff_ffff,
                    1 <= n <= 32,
            ;
            if len * (n as u128) > 1024 {
                return false;
            }
            return full_unroll(func, lp, plan, Ghost(a), n);
        },
        None => {},
    }
    if len * 4 > 1024 {
        return false;
    }
    partial_unroll(func, lp, plan, Ghost(a))
}

/// The blocks of the loops among `lps` that were unrolled.
pub open spec fn touched(lps: Seq<Loop>, dones: Seq<bool>) -> Set<usize>
    decreases lps.len(),
{
    if lps.len() == 0 || dones.len() != lps.len() {
        Set::empty()
    } else {
        let rest = touched(lps.drop_last(), dones.drop_last());
        if dones.last() {
            rest.union(index_set_contents(lps.last().body))
        } else {
            rest
        }
    }
}

/// The pass visits the loops `lps` in order; `fs[i]` is the function
/// before loop `i`. A loop sharing a block with one unrolled before is
/// skipped; each other is unrolled as `unroll_step` says.
pub open spec fn unroll_run(f0: MirFunction, fin: MirFunction, fs: Seq<MirFunction>, lps: Seq<Loop>, dones: Seq<bool>) -> bool {
    &&& fs.len() == lps.len() + 1
    &&& dones.len() == lps.len()
    &&& fs[0] == f0
    &&& fs.last() == fin
    &&& found_loops(f0.basic_blocks@, lps)
    &&& forall|i: int| 0 <= i < lps.len() ==> natural_loop(f0.basic_blocks@, #[trigger] lps[i])
    &&& forall|i: int|
        0 <= i < lps.len() ==> if (exists|b: usize|
            index_set_contents(lps[i].body).contains(b) && #[trigger] touched(
                lps.subrange(0, i),
                dones.subrange(0, i),
            ).contains(b)) {
            !dones[i] && fs[i + 1] == fs[i]
        } else {
            unroll_step(fs[i], #[trigger] lps[i], fs[i + 1], dones[i])
        }
}

impl Transform for LoopUnroll {
    open spec fn accepts(&self, func: MirFunction) -> bool {
        true
    }

    /// Visits the function's natural loops in the order `find_loops` gives
    /// them, as `unroll_run` says; true when some loop was unrolled.
    fn run(&self, func: &mut MirFunction) -> (changed: bool)
        ensures
            exists|fs: Seq<MirFunction>, lps: Seq<Loop>, dones: Seq<bool>|
                unroll_run(*old(func), *final(func), fs, lps, dones) && changed == dones.contains(true),
    {
        let ghost f0 = *func;
        let loops = find_loops(func);
        let mut touched_set = IndexSet::new();
        let mut changed = false;
        let ghost mut fs: Seq<MirFunction> = seq![*func];
        let ghost mut dones: Seq<bool> = seq![];
        let mut i: usize = 0;
        while i < loops.len()
            invariant
                forall|q: int| 0 <= q < loops@.len() ==> natural_loop(f0.basic_blocks@, #[trigger] loops@[q]),
                forall|q: int| 0 <= q < loops@.len() ==> loop_in_range(func.basic_blocks@, #[trigger] loops@[q]),
                0 <= i <= loops@.len(),
                fs.len() == i + 1,
                dones.len() == i,
                fs[0] == f0,
                fs.last() == *func,
                index_set_contents(touched_set) == touched(loops@.subrange(0, i as int), dones),
                changed == dones.contains(true),
                forall|k: int|
                    0 <= k < i ==> if (exists|b: usize|
                        index_set_contents(loops@[k].body).contains(b) && #[trigger] touched(
                            loops@.subrange(0, k),
                            dones.subrange(0, k),
                        ).contains(b)) {
                        !dones[k] && fs[k + 1] == fs[k]
                    } else {
                        unroll_step(fs[k], #[trigger] loops@[k], fs[k + 1], dones[k])
                    },
            decreases loops.len() - i,
        {
            let lp = &loops[i];
            let ghost before = *func;
            let ghost lps_i = loops@.subrange(0, i as int);
            let body = lp.body.to_vec();
            let mut hit = false;
            let mut k: usize = 0;
            while k < body.len()
                invariant
                    0 <= k <= body@.len(),
                    hit == exists|q: int| 0 <= q < k && index_set_contents(touched_set).contains(#[trigger] body@[q]),
                decreases body.len() - k,
            {
                if touched_set.contains(body[k]) {
                    hit = true;
                }
                k = k + 1;
            }
            let mut done = false;
            if !hit {
                let d = gather_defs(func);
                match analyze(func, &d, lp) {
                    Some(plan) => {
                        let ghost a = analysis(func.basic_blocks@, *lp)->0;
                        done = transform(func, lp, &plan, Ghost(a));
                    },
                    None => {},
                }
            }
            if done {
                let mut k: usize = 0;
                let ghost t0 = index_set_contents(touched_set);
                while k < body.len()
                    invariant
                        0 <= k <= body@.len(),
                        forall|x: usize|
                            #[trigger] index_set_contents(touched_set).contains(x) == (t0.contains(x)
                                || body@.subrange(0, k as int).contains(x)),
                    decreases body.len() - k,
                {
                    let ghost before = body@.subrange(0, k as int);
                    touched_set.insert(body[k]);
                    assert(body@.subrange(0, k + 1) =~= before.push(body@[k as int]));
                    assert forall|x: usize|
                        #[trigger] index_set_contents(touched_set).contains(x) == (t0.contains(x)
                            || body@.subrange(0, k + 1).contains(x)) by {
                        vstd::seq_lib::lemma_seq_contains_after_push(before, body@[k as int], x);
                    }
                    k = k + 1;
                }
                assert(body@.subrange(0, body@.len() as int) =~= body@);
                assert(index_set_contents(touched_set) =~= t0.union(index_set_contents(lp.body))) by {
                    assert forall|x: usize| index_set_contents(touched_set).contains(x) == t0.union(
                        index_set_contents(lp.body),
                    ).contains(x) by {
                        assert(body@.to_set().contains(x) == body@.contains(x));
                    }
                }
                changed = true;
            }
            proof {
                let overlap = exists|b: usize|
                    index_set_contents(loops@[i as int].body).contains(b) && #[trigger] touched(
                        lps_i,
                        dones,
                    ).contains(b);
                assert(hit == overlap) by {
                    if hit {
                        let q = choose|q: int| 0 <= q < body@.len() && index_set_contents(touched_set).contains(#[trigger] body@[q]);
                        assert(body@.to_set().contains(body@[q]));
                    }
                    if overlap {
                        let b = choose|b: usize|
                            index_set_contents(loops@[i as int].body).contains(b) && #[trigger] touched(lps_i, dones).contains(b);
                        assert(body@.to_set().contains(b));
                        let q = choose|q: int| 0 <= q < body@.len() && body@[q] == b;
                    }
                }
                let old_dones = dones;
                dones = dones.push(done);
                fs = fs.push(*func);
                assert(dones.subrange(0, i as int) =~= old_dones);
                assert(loops@.subrange(0, i + 1).drop_last() =~= lps_i);
                assert(dones.drop_last() =~= old_dones);
                assert forall|q: int| 0 <= q < loops@.len() implies loop_in_range(func.basic_blocks@, #[trigger] loops@[q]) by {
                    assert(loop_in_range(before.basic_blocks@, loops@[q]));
                }
                assert(dones.contains(true) == (old_dones.contains(true) || done)) by {
                    if done {
                        assert(dones[i as int] == true);
                    }
                    if old_dones.contains(true) {
                        let q = choose|q: int| 0 <= q < old_dones.len() && old_dones[q] == true;
                        assert(dones[q] == true);
                    }
                    if dones.contains(true) {
                        let q = choose|q: int| 0 <= q < dones.len() && dones[q] == true;
                        if q < i {
                            assert(old_dones[q] == true);
                        }
                    }
                }
                assert forall|k: int|
                    0 <= k < i + 1 implies if (exists|b: usize|
                        index_set_contents(loops@[k].body).contains(b) && #[trigger] touched(
                            loops@.subrange(0, k),
                            dones.subrange(0, k),
                        ).contains(b)) {
                        !dones[k] && fs[k + 1] == fs[k]
                    } else {
                        unroll_step(fs[k], #[trigger] loops@[k], fs[k + 1], dones[k])
                    } by {
                    if k < i {
                        assert(dones.subrange(0, k) =~= old_dones.subrange(0, k));
                    } else {
                        assert(dones.subrange(0, k) =~= old_dones);
                        assert(loops@.subrange(0, k) =~= lps_i);
                    }
                }
            }
            i = i + 1;
        }
        proof {
            assert(loops@.subrange(0, loops@.len() as int) =~= loops@);
            assert(unroll_run(f0, *func, fs, loops@, dones));
        }
        changed
    }
}

} // verus!
