//! Bounds-check elimination. An indexed read or write is marked as needing
//! no runtime check when one of three arguments proves it in range: a
//! constant index into a list or tuple of known length; a repetition, in the
//! same block, of an access already checked and not invalidated since; or,
//! in a loop guarded by `i < limit`, an access `xs[i]` where `i` starts
//! non-negative, only grows, and `limit` bounds the length of `xs`, which
//! the loop does not change.

use super::const_prop::capped;
use super::copy_prop::{count_of, statements_assign_count};
use super::scalarize::{flat, lemma_flat_all, lemma_flat_index, lemma_flat_prefix, lemma_flat_step};
use super::assigns::{
    count_local, defs_wf, gather_defs, single_def, single_def_of, singles, statement_rvalue, Defs,
};
use super::Transform;
use crate::fx::{index_map_contents, index_set_contents, IndexMap, IndexSet};
use crate::ir::{
    is_named, operand_local, operand_local_of, same_except_blocks, AggregateKind, BasicBlock, BasicBlockId, BinOp, Constant, Local,
    MirFunction, Operand, Rvalue, Statement, StatementKind, TerminatorKind,
};
use crate::loop_utils::{dom_view, dominance, dominators, find_loops, found_loops, natural_loop, Loop};
use vstd::prelude::*;

verus! {

pub struct BoundsCheckElim;

/// What an index is known as: a constant, or the local it resolves to.
#[derive(PartialEq, Eq, Clone, Copy, Structural)]
pub enum IdxKey {
    Const(i64),
    Local(usize),
}

/// A known length: a constant, or an immutable local.
#[derive(PartialEq, Eq, Clone, Copy, Structural)]
pub enum LenKey {
    Const(usize),
    Sym(usize),
}

/// The local a copy chain from `cur` leads to, following single
/// definitions `x = use y` for at most `fuel` steps.
pub open spec fn chase(stmts: Seq<Statement>, cur: usize, fuel: nat) -> usize
    decreases fuel,
{
    if fuel == 0 {
        cur
    } else {
        match single_def(stmts, cur) {
            Some(Rvalue::Use(op)) => match operand_local(op) {
                Some(src) => if src != cur {
                    chase(stmts, src, (fuel - 1) as nat)
                } else {
                    cur
                },
                None => cur,
            },
            _ => cur,
        }
    }
}

/// The local holding the value of `l`, through chains of single copies.
pub open spec fn resolve(stmts: Seq<Statement>, l: usize) -> usize {
    chase(stmts, l, singles(stmts).len() + 1)
}

pub open spec fn idx_key(stmts: Seq<Statement>, idx: Operand) -> Option<IdxKey> {
    match idx {
        Operand::Constant(Constant::Int(c)) => Some(IdxKey::Const(c)),
        Operand::Copy(l) | Operand::Move(l) => Some(IdxKey::Local(resolve(stmts, l.0))),
        _ => None,
    }
}

pub open spec fn is_list_new(f: Operand) -> bool {
    f matches Operand::Constant(Constant::Function(n)) && n@ == "__olive_list_new"@
}

pub open spec fn is_len_call(f: Operand) -> bool {
    f matches Operand::Constant(Constant::Function(n)) && n@ == "__olive_list_len"@
}

/// The length the single definition of `l` gives it.
pub open spec fn defined_length(stmts: Seq<Statement>, l: usize) -> Option<LenKey> {
    match single_def(stmts, l) {
        Some(Rvalue::Aggregate(k, ops)) => if k is List || k is Tuple {
            Some(LenKey::Const(ops@.len() as usize))
        } else {
            None
        },
        Some(Rvalue::Call { func, args }) => if is_list_new(func) && args@.len() == 1 {
            match args@[0] {
                Operand::Constant(Constant::Int(c)) => if c >= 0 {
                    Some(LenKey::Const(c as usize))
                } else {
                    None
                },
                Operand::Copy(x) | Operand::Move(x) => {
                    let s = resolve(stmts, x.0);
                    if statements_assign_count(stmts, s) == 0 {
                        Some(LenKey::Sym(s))
                    } else {
                        None
                    }
                },
                _ => None,
            }
        } else {
            None
        },
        _ => None,
    }
}

/// `s` may change the length of the value `l` resolves to: it passes it to
/// a call (other than a length read or allocation), borrows it, or stores
/// it or into it through an attribute.
pub open spec fn disqualifies(stmts: Seq<Statement>, s: Statement, l: usize) -> bool {
    match s.kind {
        StatementKind::Assign(_, Rvalue::Call { func, args }) => !is_len_call(func) && !is_list_new(func)
            && exists|i: int|
            0 <= i < args@.len() && #[trigger] operand_local(args@[i]) is Some && resolve(
                stmts,
                operand_local(args@[i])->0,
            ) == l,
        StatementKind::Assign(_, Rvalue::Ref(x)) => resolve(stmts, x.0) == l,
        StatementKind::Assign(_, Rvalue::MutRef(x)) => resolve(stmts, x.0) == l,
        StatementKind::SetAttr(o, _, v) => (operand_local(o) is Some && resolve(stmts, operand_local(o)->0)
            == l) || (operand_local(v) is Some && resolve(stmts, operand_local(v)->0) == l),
        _ => false,
    }
}

/// The length of `l` known for the whole function.
pub open spec fn known_length(stmts: Seq<Statement>, l: usize) -> Option<LenKey> {
    if exists|j: int| 0 <= j < stmts.len() && #[trigger] disqualifies(stmts, stmts[j], l) {
        None
    } else {
        defined_length(stmts, l)
    }
}

/// The object, index and flag of an indexed read or write.
pub open spec fn index_access(s: Statement) -> Option<(Operand, Operand, bool)> {
    match s.kind {
        StatementKind::Assign(_, Rvalue::GetIndex(obj, idx, u)) => Some((obj, idx, u)),
        StatementKind::SetIndex(obj, idx, _, u) => Some((obj, idx, u)),
        _ => None,
    }
}

/// The checks `s` may invalidate are dropped from `checked`.
pub open spec fn invalidate(s: Statement, checked: Set<(usize, IdxKey)>) -> Set<(usize, IdxKey)> {
    match s.kind {
        StatementKind::Assign(dst, rv) => if rv is Call || rv is Ref || rv is MutRef {
            Set::empty()
        } else {
            checked.filter(|e: (usize, IdxKey)| e.0 != dst.0 && e.1 != IdxKey::Local(dst.0))
        },
        StatementKind::SetAttr(..) | StatementKind::PtrStore(..) => Set::empty(),
        _ => checked,
    }
}

/// A write to a local forgets every recorded check on that local, as the
/// list or as the index, keeps every other check that the write cannot
/// affect, and never records a new one.
pub proof fn lemma_invalidate_forgets_written(s: Statement, checked: Set<(usize, IdxKey)>, dst: Local, rv: Rvalue)
    requires
        s.kind == StatementKind::Assign(dst, rv),
    ensures
        invalidate(s, checked).subset_of(checked),
        forall|e: (usize, IdxKey)|
            #[trigger] invalidate(s, checked).contains(e) ==> e.0 != dst.0 && e.1 != IdxKey::Local(dst.0),
        !(rv is Call || rv is Ref || rv is MutRef) ==> forall|e: (usize, IdxKey)|
            checked.contains(e) && e.0 != dst.0 && e.1 != IdxKey::Local(dst.0) ==> #[trigger] invalidate(
                s,
                checked,
            ).contains(e),
{
}

/// A constant index in range of a list of known constant length.
pub open spec fn in_fixed(stmts: Seq<Statement>, o: usize, k: IdxKey) -> bool {
    match k {
        IdxKey::Const(c) => match known_length(stmts, o) {
            Some(LenKey::Const(n)) => c >= 0 && (c as usize) < n,
            _ => false,
        },
        IdxKey::Local(_) => false,
    }
}

/// One step of the block scan: whether `s` is marked, and the checked
/// accesses after it.
pub open spec fn local_step(stmts: Seq<Statement>, checked: Set<(usize, IdxKey)>, s: Statement) -> (
    bool,
    Set<(usize, IdxKey)>,
) {
    match index_access(s) {
        Some((obj, idx, already)) => match (operand_local(obj), idx_key(stmts, idx)) {
            (Some(ol), Some(k)) => {
                let o = resolve(stmts, ol);
                (!already && (in_fixed(stmts, o, k) || checked.contains((o, k))), checked.insert((o, k)))
            },
            _ => (false, checked),
        },
        None => (false, invalidate(s, checked)),
    }
}

/// The checked accesses before statement `j` of a block.
pub open spec fn checked_before(stmts: Seq<Statement>, block: Seq<Statement>, j: int) -> Set<(usize, IdxKey)>
    decreases j,
{
    if j <= 0 {
        Set::empty()
    } else {
        local_step(stmts, checked_before(stmts, block, j - 1), block[j - 1]).1
    }
}

/// Statement `j` of a block is proven in range by the block scan (a
/// constant index into a known length, or a repeated check); `stmts` are
/// all the function's statements.
pub open spec fn local_mark(stmts: Seq<Statement>, block: Seq<Statement>, j: int) -> bool {
    local_step(stmts, checked_before(stmts, block, j), block[j]).0
}

/// Statement `j` of block `b` after the pass: unchanged, or with its flag
/// set; set wherever the block scan proves the access in range, and only
/// there or at a `loop_candidate`.
pub open spec fn checks_dropped(old: Seq<BasicBlock>, new: Seq<BasicBlock>, b: int, j: int) -> bool {
    let a = old[b].statements@[j];
    let n = new[b].statements@[j];
    &&& n == a || (flag_set(a, n) && n != a)
    &&& local_mark(flat(old), old[b].statements@, j) ==> n != a
    &&& n != a ==> local_mark(flat(old), old[b].statements@, j) || loop_candidate(old, b, j)
}

/// `s` is an indexed read or write whose flag is not set.
pub open spec fn unflagged_access(s: Statement) -> bool {
    match index_access(s) {
        Some((_, _, u)) => !u,
        None => false,
    }
}

/// `b` is `a` with the flag of an index access set.
pub open spec fn flag_set(a: Statement, b: Statement) -> bool {
    &&& b.span == a.span
    &&& match a.kind {
        StatementKind::Assign(d, Rvalue::GetIndex(o, i, _)) => b.kind == StatementKind::Assign(
            d,
            Rvalue::GetIndex(o, i, true),
        ),
        StatementKind::SetIndex(o, i, v, _) => b.kind == StatementKind::SetIndex(o, i, v, true),
        _ => b == a,
    }
}

/// `resolve`, computed.
fn resolve_local(func: &MirFunction, d: &Defs, l: usize) -> (r: usize)
    requires
        defs_wf(*d, func.basic_blocks@),
    ensures
        r == resolve(flat(func.basic_blocks@), l),
{
    let ghost stmts = flat(func.basic_blocks@);
    let mut cur = l;
    let mut rem = d.singles;
    loop
        invariant
            defs_wf(*d, func.basic_blocks@),
            stmts == flat(func.basic_blocks@),
            rem <= d.singles,
            resolve(stmts, l) == chase(stmts, cur, rem as nat + 1),
        decreases rem,
    {
        let next = match single_def_of(func, d, cur) {
            Some(Rvalue::Use(op)) => match op {
                Operand::Copy(src) | Operand::Move(src) => if src.0 != cur {
                    Some(src.0)
                } else {
                    None
                },
                Operand::Constant(_) => None,
            },
            _ => None,
        };
        proof {
            let f = rem as nat + 1;
            assert(chase(stmts, cur, f) == match single_def(stmts, cur) {
                Some(Rvalue::Use(op)) => match operand_local(op) {
                    Some(src) => if src != cur {
                        chase(stmts, src, (f - 1) as nat)
                    } else {
                        cur
                    },
                    None => cur,
                },
                _ => cur,
            });
        }
        match next {
            Some(n) => {
                cur = n;
            },
            None => {
                return cur;
            },
        }
        if rem == 0 {
            return cur;
        }
        rem = rem - 1;
    }
}

/// `idx_key`, computed.
fn idx_key_of(func: &MirFunction, d: &Defs, idx: &Operand) -> (r: Option<IdxKey>)
    requires
        defs_wf(*d, func.basic_blocks@),
    ensures
        r == idx_key(flat(func.basic_blocks@), *idx),
{
    match idx {
        Operand::Constant(Constant::Int(c)) => Some(IdxKey::Const(*c)),
        Operand::Copy(l) | Operand::Move(l) => Some(IdxKey::Local(resolve_local(func, d, l.0))),
        Operand::Constant(_) => None,
    }
}

fn is_list_new_op(f: &Operand) -> (r: bool)
    ensures
        r == is_list_new(*f),
{
    match f {
        Operand::Constant(Constant::Function(n)) => is_named(n, "__olive_list_new"),
        _ => false,
    }
}

fn is_len_call_op(f: &Operand) -> (r: bool)
    ensures
        r == is_len_call(*f),
{
    match f {
        Operand::Constant(Constant::Function(n)) => is_named(n, "__olive_list_len"),
        _ => false,
    }
}

/// `disq` holds exactly the locals some statement of `stmts` disqualifies.
spec fn disq_wf(disq: IndexSet, stmts: Seq<Statement>) -> bool {
    forall|l: usize|
        #![trigger index_set_contents(disq).contains(l)]
        index_set_contents(disq).contains(l) == exists|j: int|
            0 <= j < stmts.len() && #[trigger] disqualifies(stmts, stmts[j], l)
}

/// Adds the local `op` resolves to, if it reads one.
fn insert_resolved(func: &MirFunction, d: &Defs, op: &Operand, disq: &mut IndexSet)
    requires
        defs_wf(*d, func.basic_blocks@),
    ensures
        forall|l: usize|
            #[trigger] index_set_contents(*final(disq)).contains(l) == (index_set_contents(
                *old(disq),
            ).contains(l) || (operand_local(*op) is Some && resolve(
                flat(func.basic_blocks@),
                operand_local(*op)->0,
            ) == l)),
{
    if let Some(x) = operand_local_of(op) {
        let r = resolve_local(func, d, x.0);
        disq.insert(r);
    }
}

/// Adds the locals whose length `s` may change.
fn add_disqualified(func: &MirFunction, d: &Defs, s: &Statement, disq: &mut IndexSet)
    requires
        defs_wf(*d, func.basic_blocks@),
    ensures
        forall|l: usize|
            #[trigger] index_set_contents(*final(disq)).contains(l) == (index_set_contents(
                *old(disq),
            ).contains(l) || disqualifies(flat(func.basic_blocks@), *s, l)),
{
    let ghost stmts = flat(func.basic_blocks@);
    match &s.kind {
        StatementKind::Assign(_, Rvalue::Call { func: f, args }) => {
            if !is_len_call_op(f) && !is_list_new_op(f) {
                let ghost start = index_set_contents(*disq);
                let mut k: usize = 0;
                while k < args.len()
                    invariant
                        defs_wf(*d, func.basic_blocks@),
                        stmts == flat(func.basic_blocks@),
                        0 <= k <= args@.len(),
                        forall|l: usize|
                            #[trigger] index_set_contents(*disq).contains(l) == (start.contains(l)
                                || exists|i: int|
                                0 <= i < k && #[trigger] operand_local(args@[i]) is Some && resolve(
                                    stmts,
                                    operand_local(args@[i])->0,
                                ) == l),
                    decreases args.len() - k,
                {
                    let ghost before = index_set_contents(*disq);
                    insert_resolved(func, d, &args[k], disq);
                    proof {
                        assert forall|l: usize| #[trigger]
                            index_set_contents(*disq).contains(l) == (start.contains(l) || exists|i: int|
                                0 <= i < k + 1 && #[trigger] operand_local(args@[i]) is Some
                                    && resolve(stmts, operand_local(args@[i])->0) == l) by {
                            assert(before.contains(l) == (start.contains(l) || exists|i: int|
                                0 <= i < k && #[trigger] operand_local(args@[i]) is Some && resolve(
                                    stmts,
                                    operand_local(args@[i])->0,
                                ) == l));
                        }
                    }
                    k = k + 1;
                }
            }
        },
        StatementKind::Assign(_, Rvalue::Ref(x)) => {
            let r = resolve_local(func, d, x.0);
            disq.insert(r);
        },
        StatementKind::Assign(_, Rvalue::MutRef(x)) => {
            let r = resolve_local(func, d, x.0);
            disq.insert(r);
        },
        StatementKind::SetAttr(o, _, v) => {
            insert_resolved(func, d, o, disq);
            insert_resolved(func, d, v, disq);
        },
        _ => {},
    }
}

/// The locals whose length some statement of `func` may change.
fn gather_disqualified(func: &MirFunction, d: &Defs) -> (disq: IndexSet)
    requires
        defs_wf(*d, func.basic_blocks@),
    ensures
        disq_wf(disq, flat(func.basic_blocks@)),
{
    let ghost blocks = func.basic_blocks@;
    let ghost all = flat(blocks);
    let mut disq = IndexSet::new();
    let mut i: usize = 0;
    assert(flat(blocks.subrange(0, 0)) =~= Seq::<Statement>::empty());
    while i < func.basic_blocks.len()
        invariant
            blocks == func.basic_blocks@,
            all == flat(blocks),
            defs_wf(*d, blocks),
            0 <= i <= blocks.len(),
            forall|l: usize|
                #![trigger index_set_contents(disq).contains(l)]
                index_set_contents(disq).contains(l) == exists|j: int|
                    0 <= j < flat(blocks.subrange(0, i as int)).len() && #[trigger] disqualifies(
                        all,
                        flat(blocks.subrange(0, i as int))[j],
                        l,
                    ),
        decreases blocks.len() - i,
    {
        let ghost pre = flat(blocks.subrange(0, i as int));
        let stmts = &func.basic_blocks[i].statements;
        let mut j: usize = 0;
        assert(pre + stmts@.subrange(0, 0) =~= pre);
        while j < stmts.len()
            invariant
                blocks == func.basic_blocks@,
                all == flat(blocks),
                defs_wf(*d, blocks),
                0 <= i < blocks.len(),
                stmts@ == blocks[i as int].statements@,
                0 <= j <= stmts@.len(),
                forall|l: usize|
                    #![trigger index_set_contents(disq).contains(l)]
                    index_set_contents(disq).contains(l) == exists|q: int|
                        0 <= q < (pre + stmts@.subrange(0, j as int)).len() && #[trigger] disqualifies(
                            all,
                            (pre + stmts@.subrange(0, j as int))[q],
                            l,
                        ),
            decreases stmts.len() - j,
        {
            let ghost seen = pre + stmts@.subrange(0, j as int);
            let ghost before = index_set_contents(disq);
            let ghost s = stmts@[j as int];
            assert(pre + stmts@.subrange(0, j + 1) =~= seen.push(s));
            add_disqualified(func, d, &stmts[j], &mut disq);
            proof {
                let next = seen.push(s);
                assert forall|l: usize| #[trigger]
                    index_set_contents(disq).contains(l) == exists|q: int|
                        0 <= q < next.len() && #[trigger] disqualifies(all, next[q], l) by {
                    if before.contains(l) {
                        let q = choose|q: int| 0 <= q < seen.len() && #[trigger] disqualifies(all, seen[q], l);
                        assert(next[q] == seen[q]);
                    }
                    if disqualifies(all, s, l) {
                        assert(next[seen.len() as int] == s);
                    }
                    if exists|q: int| 0 <= q < next.len() && #[trigger] disqualifies(all, next[q], l) {
                        let q = choose|q: int| 0 <= q < next.len() && #[trigger] disqualifies(all, next[q], l);
                        if q < seen.len() {
                            assert(next[q] == seen[q]);
                        }
                    }
                }
            }
            j = j + 1;
        }
        proof {
            lemma_flat_step(blocks, i as int);
            assert(stmts@.subrange(0, stmts@.len() as int) =~= stmts@);
        }
        i = i + 1;
    }
    proof {
        lemma_flat_all(blocks);
    }
    disq
}

/// `defined_length`, computed.
fn defined_length_of(func: &MirFunction, d: &Defs, l: usize) -> (r: Option<LenKey>)
    requires
        defs_wf(*d, func.basic_blocks@),
    ensures
        r == defined_length(flat(func.basic_blocks@), l),
{
    let ghost stmts = flat(func.basic_blocks@);
    match single_def_of(func, d, l) {
        Some(Rvalue::Aggregate(k, ops)) => if matches!(k, AggregateKind::List | AggregateKind::Tuple) {
            Some(LenKey::Const(ops.len()))
        } else {
            None
        },
        Some(Rvalue::Call { func: f, args }) => if is_list_new_op(f) && args.len() == 1 {
            match &args[0] {
                Operand::Constant(Constant::Int(c)) => if *c >= 0 {
                    Some(LenKey::Const(*c as usize))
                } else {
                    None
                },
                Operand::Copy(x) | Operand::Move(x) => {
                    let s = resolve_local(func, d, x.0);
                    let c = count_local(d, s);
                    proof {
                        assert(count_of(index_map_contents(d.counts), s) == capped(
                            statements_assign_count(stmts, s),
                        ));
                    }
                    if c == 0 {
                        Some(LenKey::Sym(s))
                    } else {
                        None
                    }
                },
                _ => None,
            }
        } else {
            None
        },
        _ => None,
    }
}

/// `known_length`, computed.
fn known_length_of(func: &MirFunction, d: &Defs, disq: &IndexSet, l: usize) -> (r: Option<LenKey>)
    requires
        defs_wf(*d, func.basic_blocks@),
        disq_wf(*disq, flat(func.basic_blocks@)),
    ensures
        r == known_length(flat(func.basic_blocks@), l),
{
    assert(index_set_contents(*disq).contains(l) == exists|j: int|
        0 <= j < flat(func.basic_blocks@).len() && #[trigger] disqualifies(
            flat(func.basic_blocks@),
            flat(func.basic_blocks@)[j],
            l,
        ));
    if disq.contains(l) {
        None
    } else {
        defined_length_of(func, d, l)
    }
}

/// `in_fixed`, computed.
fn in_fixed_of(func: &MirFunction, d: &Defs, disq: &IndexSet, o: usize, k: IdxKey) -> (r: bool)
    requires
        defs_wf(*d, func.basic_blocks@),
        disq_wf(*disq, flat(func.basic_blocks@)),
    ensures
        r == in_fixed(flat(func.basic_blocks@), o, k),
{
    match k {
        IdxKey::Const(c) => match known_length_of(func, d, disq, o) {
            Some(LenKey::Const(n)) => c >= 0 && (c as usize) < n,
            _ => false,
        },
        IdxKey::Local(_) => false,
    }
}

/// The object, index and flag of an indexed read or write.
fn index_access_of(s: &Statement) -> (r: Option<(&Operand, &Operand, bool)>)
    ensures
        (match r {
            Some((o, i, u)) => Some((*o, *i, u)),
            None => None,
        }) == index_access(*s),
{
    match &s.kind {
        StatementKind::Assign(_, Rvalue::GetIndex(obj, idx, u)) => Some((obj, idx, *u)),
        StatementKind::SetIndex(obj, idx, _, u) => Some((obj, idx, *u)),
        _ => None,
    }
}

fn holds_check(checked: &Vec<(usize, IdxKey)>, o: usize, k: IdxKey) -> (r: bool)
    ensures
        r == checked@.contains((o, k)),
{
    let mut q: usize = 0;
    while q < checked.len()
        invariant
            0 <= q <= checked@.len(),
            forall|p: int| 0 <= p < q ==> checked@[p] != (o, k),
        decreases checked.len() - q,
    {
        if checked[q].0 == o && checked[q].1 == k {
            assert(checked@[q as int] == (o, k));
            return true;
        }
        q = q + 1;
    }
    false
}

/// `invalidate`, on the checks listed in `checked`.
fn invalidate_checks(s: &Statement, checked: Vec<(usize, IdxKey)>) -> (r: Vec<(usize, IdxKey)>)
    ensures
        r@.to_set() == invalidate(*s, checked@.to_set()),
{
    match &s.kind {
        StatementKind::Assign(dst, rv) => {
            if matches!(rv, Rvalue::Call { .. } | Rvalue::Ref(_) | Rvalue::MutRef(_)) {
                let r: Vec<(usize, IdxKey)> = Vec::new();
                assert(r@.to_set() =~= Set::<(usize, IdxKey)>::empty());
                r
            } else {
                let ghost keep = |e: (usize, IdxKey)| e.0 != dst.0 && e.1 != IdxKey::Local(dst.0);
                let mut out: Vec<(usize, IdxKey)> = Vec::new();
                let mut q: usize = 0;
                while q < checked.len()
                    invariant
                        0 <= q <= checked@.len(),
                        keep == (|e: (usize, IdxKey)| e.0 != dst.0 && e.1 != IdxKey::Local(dst.0)),
                        forall|e: (usize, IdxKey)|
                            out@.contains(e) <==> (checked@.subrange(0, q as int).contains(e) && keep(e)),
                    decreases checked.len() - q,
                {
                    let e = checked[q];
                    let ghost before = out@;
                    assert(checked@.subrange(0, q + 1) =~= checked@.subrange(0, q as int).push(e));
                    if e.0 != dst.0 && e.1 != IdxKey::Local(dst.0) {
                        out.push(e);
                    }
                    proof {
                        assert forall|x: (usize, IdxKey)|
                            out@.contains(x) <==> (checked@.subrange(0, q + 1).contains(x) && keep(x)) by {
                            vstd::seq_lib::lemma_seq_contains_after_push(before, e, x);
                            vstd::seq_lib::lemma_seq_contains_after_push(
                                checked@.subrange(0, q as int),
                                e,
                                x,
                            );
                        }
                    }
                    q = q + 1;
                }
                assert(checked@.subrange(0, checked@.len() as int) =~= checked@);
                assert(out@.to_set() =~= invalidate(*s, checked@.to_set()));
                out
            }
        },
        StatementKind::SetAttr(..) | StatementKind::PtrStore(..) => {
            let r: Vec<(usize, IdxKey)> = Vec::new();
            assert(r@.to_set() =~= Set::<(usize, IdxKey)>::empty());
            r
        },
        _ => checked,
    }
}

/// The marks the block scan puts on the statements of block `b`.
fn block_marks(func: &MirFunction, d: &Defs, disq: &IndexSet, b: usize) -> (row: Vec<bool>)
    requires
        defs_wf(*d, func.basic_blocks@),
        disq_wf(*disq, flat(func.basic_blocks@)),
        b < func.basic_blocks@.len(),
    ensures
        row@.len() == func.basic_blocks@[b as int].statements@.len(),
        forall|j: int|
            0 <= j < row@.len() ==> row@[j] == local_mark(
                flat(func.basic_blocks@),
                func.basic_blocks@[b as int].statements@,
                j,
            ),
{
    let ghost all = flat(func.basic_blocks@);
    let stmts = &func.basic_blocks[b].statements;
    let mut checked: Vec<(usize, IdxKey)> = Vec::new();
    let mut row: Vec<bool> = Vec::new();
    let mut j: usize = 0;
    assert(checked@.to_set() =~= Set::<(usize, IdxKey)>::empty());
    while j < stmts.len()
        invariant
            defs_wf(*d, func.basic_blocks@),
            disq_wf(*disq, all),
            all == flat(func.basic_blocks@),
            stmts@ == func.basic_blocks@[b as int].statements@,
            0 <= j <= stmts@.len(),
            row@.len() == j,
            checked@.to_set() == checked_before(all, stmts@, j as int),
            forall|q: int| 0 <= q < j ==> row@[q] == local_mark(all, stmts@, q),
        decreases stmts.len() - j,
    {
        let ghost before = checked@.to_set();
        let mut mark = false;
        match index_access_of(&stmts[j]) {
            Some((obj, idx, already)) => {
                match (operand_local_of(obj), idx_key_of(func, d, idx)) {
                    (Some(ol), Some(k)) => {
                        let o = resolve_local(func, d, ol.0);
                        let seen = holds_check(&checked, o, k);
                        mark = !already && (in_fixed_of(func, d, disq, o, k) || seen);
                        if !seen {
                            let ghost prev = checked@;
                            checked.push((o, k));
                            proof {
                                assert forall|x: (usize, IdxKey)|
                                    checked@.contains(x) <==> prev.contains(x) || x == (o, k) by {
                                    vstd::seq_lib::lemma_seq_contains_after_push(prev, (o, k), x);
                                }
                            }
                        }
                        assert(checked@.to_set() =~= before.insert((o, k)));
                    },
                    _ => {},
                }
            },
            None => {
                checked = invalidate_checks(&stmts[j], checked);
            },
        }
        row.push(mark);
        proof {
            assert(local_step(all, before, stmts@[j as int]) == (mark, checked@.to_set()));
            assert(checked_before(all, stmts@, j + 1) == checked@.to_set());
        }
        j = j + 1;
    }
    row
}

/// Each row has one entry per statement of the matching block.
pub open spec fn shaped(marks: Seq<Vec<bool>>, blocks: Seq<BasicBlock>) -> bool {
    &&& marks.len() == blocks.len()
    &&& forall|b: int| 0 <= b < blocks.len() ==> (#[trigger] marks[b])@.len() == blocks[b].statements@.len()
}

/// The marks of the block scans of all blocks.
fn local_marks(func: &MirFunction, d: &Defs, disq: &IndexSet) -> (marks: Vec<Vec<bool>>)
    requires
        defs_wf(*d, func.basic_blocks@),
        disq_wf(*disq, flat(func.basic_blocks@)),
    ensures
        shaped(marks@, func.basic_blocks@),
        forall|b: int, j: int|
            0 <= b < marks@.len() && 0 <= j < marks@[b]@.len() ==> (#[trigger] marks@[b]@[j]) == local_mark(
                flat(func.basic_blocks@),
                func.basic_blocks@[b].statements@,
                j,
            ),
{
    let mut marks: Vec<Vec<bool>> = Vec::new();
    let mut b: usize = 0;
    while b < func.basic_blocks.len()
        invariant
            defs_wf(*d, func.basic_blocks@),
            disq_wf(*disq, flat(func.basic_blocks@)),
            0 <= b <= func.basic_blocks@.len(),
            marks@.len() == b,
            forall|q: int| 0 <= q < b ==> (#[trigger] marks@[q])@.len() == func.basic_blocks@[q].statements@.len(),
            forall|q: int, j: int|
                0 <= q < b && 0 <= j < marks@[q]@.len() ==> (#[trigger] marks@[q]@[j]) == local_mark(
                    flat(func.basic_blocks@),
                    func.basic_blocks@[q].statements@,
                    j,
                ),
        decreases func.basic_blocks.len() - b,
    {
        let row = block_marks(func, d, disq, b);
        marks.push(row);
        b = b + 1;
    }
    marks
}

/// The local `i` of the last `_ = i < limit` in `stmts`.
pub open spec fn guard_local(stmts: Seq<Statement>) -> Option<usize>
    decreases stmts.len(),
{
    if stmts.len() == 0 {
        None
    } else {
        match stmts.last().kind {
            StatementKind::Assign(_, Rvalue::BinaryOp(BinOp::Lt, Operand::Copy(i), _)) => Some(i.0),
            _ => guard_local(stmts.drop_last()),
        }
    }
}

/// The local a loop header compares against its limit, when the header
/// ends in a switch.
pub open spec fn header_guard_local(b: BasicBlock) -> Option<usize> {
    match b.terminator {
        Some(t) => if t.kind is SwitchInt {
            guard_local(b.statements@)
        } else {
            None
        },
        None => None,
    }
}

/// Statement `j` of block `b` is an unflagged access `xs[i]` in the body
/// of a natural loop whose header is guarded by `i < limit`: the only
/// accesses the induction argument may mark.
pub open spec fn loop_candidate(blocks: Seq<BasicBlock>, b: int, j: int) -> bool {
    exists|lp: Loop|
        #![trigger natural_loop(blocks, lp)]
        {
            &&& natural_loop(blocks, lp)
            &&& index_set_contents(lp.body).contains(b as usize)
            &&& header_guard_local(blocks[lp.header.0 as int]) is Some
            &&& index_access(blocks[b].statements@[j]) matches Some((obj, idx, already))
            &&& !already
            &&& operand_local(obj) is Some
            &&& operand_local(idx) == header_guard_local(blocks[lp.header.0 as int])
        }
}

/// The guard `i < limit` of the last such comparison in `stmts`: `i` and
/// `limit`.
pub open spec fn guard_pair(stmts: Seq<Statement>) -> Option<(usize, Operand)>
    decreases stmts.len(),
{
    if stmts.len() == 0 {
        None
    } else {
        match stmts.last().kind {
            StatementKind::Assign(_, Rvalue::BinaryOp(BinOp::Lt, Operand::Copy(i), lim)) => Some((i.0, lim)),
            _ => guard_pair(stmts.drop_last()),
        }
    }
}

/// The guard of a loop header that ends in a switch.
pub open spec fn header_guard_pair(b: BasicBlock) -> Option<(usize, Operand)> {
    match b.terminator {
        Some(t) => if t.kind is SwitchInt {
            guard_pair(b.statements@)
        } else {
            None
        },
        None => None,
    }
}

proof fn lemma_guard_pair_local(stmts: Seq<Statement>)
    ensures
        (match guard_pair(stmts) {
            Some((i, _)) => Some(i),
            None => None,
        }) == guard_local(stmts),
    decreases stmts.len(),
{
    if stmts.len() > 0 {
        lemma_guard_pair_local(stmts.drop_last());
    }
}

fn header_guard(block: &BasicBlock) -> (r: Option<(usize, Operand)>)
    ensures
        (match r {
            Some((i, _)) => Some(i),
            None => None,
        }) == header_guard_local(*block),
        r == header_guard_pair(*block),
{
    proof {
        lemma_guard_pair_local(block.statements@);
    }
    let is_switch = match &block.terminator {
        Some(t) => matches!(t.kind, TerminatorKind::SwitchInt { .. }),
        None => false,
    };
    if !is_switch {
        return None;
    }
    assert(header_guard_pair(*block) == guard_pair(block.statements@));
    assert(header_guard_local(*block) == guard_local(block.statements@));
    let stmts = &block.statements;
    let mut k: usize = stmts.len();
    assert(stmts@.subrange(0, k as int) =~= stmts@);
    while k > 0
        invariant
            0 <= k <= stmts@.len(),
            guard_pair(stmts@) == guard_pair(stmts@.subrange(0, k as int)),
            header_guard_pair(*block) == guard_pair(stmts@),
            header_guard_local(*block) == guard_local(stmts@),
            (match guard_pair(stmts@) {
                Some((i, _)) => Some(i),
                None => None,
            }) == guard_local(stmts@),
            stmts@ == block.statements@,
        decreases k,
    {
        k = k - 1;
        let ghost sub = stmts@.subrange(0, k + 1);
        assert(sub.drop_last() =~= stmts@.subrange(0, k as int));
        assert(sub.last() == stmts@[k as int]);
        if let StatementKind::Assign(_, Rvalue::BinaryOp(BinOp::Lt, Operand::Copy(i), lim)) = &stmts[k].kind {
            return Some((i.0, lim.clone()));
        }
    }
    None
}

/// Where some locals are assigned: a block and a statement index for each.
pub struct Sites {
    block: IndexMap,
    stmt: IndexMap,
}

/// The block recorded for each local of `s`.
pub closed spec fn site_blocks(s: Sites) -> Map<usize, usize> {
    index_map_contents(s.block)
}

/// The statement index recorded for each local of `s`.
pub closed spec fn site_stmts(s: Sites) -> Map<usize, usize> {
    index_map_contents(s.stmt)
}

impl Sites {
    fn new() -> (r: Sites)
        ensures
            site_blocks(r) == Map::<usize, usize>::empty(),
            site_stmts(r) == Map::<usize, usize>::empty(),
    {
        let r = Sites { block: IndexMap::new(), stmt: IndexMap::new() };
        assert(site_blocks(r) =~= Map::<usize, usize>::empty());
        assert(site_stmts(r) =~= Map::<usize, usize>::empty());
        r
    }

    fn record(&mut self, l: usize, b: usize, s: usize)
        ensures
            site_blocks(*final(self)) == site_blocks(*old(self)).insert(l, b),
            site_stmts(*final(self)) == site_stmts(*old(self)).insert(l, s),
    {
        self.block.insert(l, b);
        self.stmt.insert(l, s);
    }

    fn forget(&mut self, l: usize)
        ensures
            site_blocks(*final(self)) == site_blocks(*old(self)).remove(l),
            site_stmts(*final(self)) == site_stmts(*old(self)).remove(l),
    {
        self.block.remove(l);
        self.stmt.remove(l);
    }

    fn len(&self) -> (n: usize)
        ensures
            n == site_blocks(*self).dom().len(),
    {
        self.block.len()
    }
}

/// The rvalue assigned at the site `bm`, `sm` record for `l`, when that
/// site is an assignment of `f`.
pub open spec fn site_rv(f: MirFunction, bm: Map<usize, usize>, sm: Map<usize, usize>, l: usize) -> Option<Rvalue> {
    if bm.contains_key(l) && sm.contains_key(l) && bm[l] < f.basic_blocks@.len() && sm[l]
        < f.basic_blocks@[bm[l] as int].statements@.len() {
        statement_rvalue(f.basic_blocks@[bm[l] as int].statements@[sm[l] as int])
    } else {
        None
    }
}

/// The rvalue recorded for `l`: the sites come from the function's own
/// assignments, so the lookup finds one for each recorded local.
fn site_rvalue<'a>(func: &'a MirFunction, sites: &Sites, l: usize) -> (r: Option<&'a Rvalue>)
    ensures
        (match r {
            Some(x) => Some(*x),
            None => None,
        }) == site_rv(*func, site_blocks(*sites), site_stmts(*sites), l),
{
    match (sites.block.get(l), sites.stmt.get(l)) {
        (Some(b), Some(s)) => if b < func.basic_blocks.len() && s < func.basic_blocks[b].statements.len() {
            match &func.basic_blocks[b].statements[s].kind {
                StatementKind::Assign(_, rv) => Some(rv),
                _ => None,
            }
        } else {
            None
        },
        _ => None,
    }
}

/// The local `x = use y` names as its source, when it names another.
pub open spec fn copy_source(f: MirFunction, bm: Map<usize, usize>, sm: Map<usize, usize>, l: usize) -> Option<usize> {
    match site_rv(f, bm, sm, l) {
        Some(Rvalue::Use(Operand::Copy(src))) => if src.0 != l { Some(src.0) } else { None },
        Some(Rvalue::Use(Operand::Move(src))) => if src.0 != l { Some(src.0) } else { None },
        _ => None,
    }
}

/// Where the copy chain from `l` leads, following at most `rem + 1` links.
pub open spec fn chain_end(f: MirFunction, bm: Map<usize, usize>, sm: Map<usize, usize>, l: usize, rem: nat) -> usize
    decreases rem,
{
    match copy_source(f, bm, sm, l) {
        None => l,
        Some(n) => if rem == 0 {
            n
        } else {
            chain_end(f, bm, sm, n, (rem - 1) as nat)
        },
    }
}

/// `chain_end` with as many links as `s` records sites.
pub open spec fn resolved(f: MirFunction, s: Sites, l: usize) -> usize {
    chain_end(f, site_blocks(s), site_stmts(s), l, site_blocks(s).dom().len())
}

/// The rvalue recorded for `l` in `s`.
pub open spec fn site_of(f: MirFunction, s: Sites, l: usize) -> Option<Rvalue> {
    site_rv(f, site_blocks(s), site_stmts(s), l)
}

/// The length of `obj` at loop entry, as `length_at_entry` finds it.
pub open spec fn entry_length(f: MirFunction, s: Sites, obj: usize) -> Option<LenKey> {
    match site_of(f, s, resolved(f, s, obj)) {
        Some(Rvalue::Aggregate(k, ops)) => if k is List || k is Tuple {
            Some(LenKey::Const(ops@.len() as usize))
        } else {
            None
        },
        Some(Rvalue::Call { func: g, args }) => if is_list_new(g) && args@.len() == 1 {
            match args@[0] {
                Operand::Constant(Constant::Int(c)) => if c >= 0 {
                    Some(LenKey::Const(c as usize))
                } else {
                    None
                },
                Operand::Copy(l) => Some(LenKey::Sym(resolved(f, s, l.0))),
                Operand::Move(l) => Some(LenKey::Sym(resolved(f, s, l.0))),
                _ => None,
            }
        } else {
            None
        },
        _ => None,
    }
}

/// The object whose length `limit` holds at loop entry: `limit` resolves to
/// `len(x)`, and `x` resolves to it.
pub open spec fn entry_len_source(f: MirFunction, s: Sites, limit: usize) -> Option<usize> {
    match site_of(f, s, resolved(f, s, limit)) {
        Some(Rvalue::Call { func: g, args }) => if args@.len() == 1 && is_len_call(g) {
            match operand_local(args@[0]) {
                Some(l) => Some(resolved(f, s, l)),
                None => None,
            }
        } else {
            None
        },
        _ => None,
    }
}

/// `i < limit` implies `i < len(obj)` by the entry state `s`, as
/// `limit_bounds_object` decides it.
pub open spec fn limit_bounds(f: MirFunction, s: Sites, counts: Map<usize, usize>, limit: Operand, obj: usize) -> bool {
    ||| (operand_local(limit) matches Some(l) && entry_len_source(f, s, l) == Some(resolved(f, s, obj)))
    ||| match entry_length(f, s, obj) {
        Some(LenKey::Const(n)) => match limit {
            Operand::Constant(Constant::Int(m)) => m >= 0 && (m as usize) <= n,
            _ => false,
        },
        Some(LenKey::Sym(x)) => count_of(counts, x) == 0 && match operand_local(limit) {
            Some(l) => resolved(f, s, l) == x,
            None => false,
        },
        None => false,
    }
}

/// Statement `k` of block `b` assigns `l`.
pub open spec fn writes_at(f: MirFunction, b: usize, k: int, l: usize) -> bool {
    &&& b < f.basic_blocks@.len()
    &&& 0 <= k < f.basic_blocks@[b as int].statements@.len()
    &&& f.basic_blocks@[b as int].statements@[k].kind matches StatementKind::Assign(dst, _) && dst.0 == l
}

/// The number of dominators of block `m`.
pub open spec fn dom_count(doms: Seq<IndexSet>, m: usize) -> nat {
    index_set_contents(doms[m as int]).len()
}

/// `s` holds, for each local assigned in a dominator of `header`, its last
/// assignment in one such dominator, chosen among those with the most
/// dominators of their own (the innermost).
pub open spec fn entry_ok(f: MirFunction, doms: Seq<IndexSet>, header: int, s: Sites) -> bool {
    let dset = index_set_contents(doms[header]);
    let bm = site_blocks(s);
    let sm = site_stmts(s);
    &&& forall|l: usize| #[trigger] sm.contains_key(l) == bm.contains_key(l)
    &&& forall|l: usize|
        #[trigger] bm.contains_key(l) == exists|b: usize, k: int| dset.contains(b) && #[trigger] writes_at(f, b, k, l)
    &&& forall|l: usize|
        #[trigger] bm.contains_key(l) ==> {
            &&& dset.contains(bm[l])
            &&& writes_at(f, bm[l], sm[l] as int, l)
            &&& forall|k: int| sm[l] < k ==> !#[trigger] writes_at(f, bm[l], k, l)
            &&& forall|b: usize, k: int|
                dset.contains(b) && #[trigger] writes_at(f, b, k, l) ==> dom_count(doms, b) <= dom_count(doms, bm[l])
        }
}

/// Some statement before `(q, s)` in the blocks `p` lists assigns `l`.
spec fn wrote_upto(f: MirFunction, p: Seq<(usize, usize)>, l: usize, q: int, s: int) -> bool {
    exists|q2: int, k2: int| pos_before(q2, k2, q, s) && 0 <= q2 < p.len() && #[trigger] writes_at(f, p[q2].1, k2, l)
}

/// What `entry_state` keeps while it records up to `(q, s)`: each local
/// written so far maps to its last write so far.
spec fn rec_state(f: MirFunction, p: Seq<(usize, usize)>, bm: Map<usize, usize>, sm: Map<usize, usize>, q: int, s: int) -> bool {
    &&& forall|l: usize| #[trigger] bm.contains_key(l) == wrote_upto(f, p, l, q, s)
    &&& forall|l: usize| #[trigger] sm.contains_key(l) == bm.contains_key(l)
    &&& forall|l: usize|
        #[trigger] bm.contains_key(l) ==> exists|qq: int|
            {
                &&& 0 <= qq < p.len()
                &&& pos_before(qq, sm[l] as int, q, s)
                &&& #[trigger] p[qq].1 == bm[l]
                &&& writes_at(f, bm[l], sm[l] as int, l)
                &&& forall|q2: int, k2: int|
                    pos_before(q2, k2, q, s) && 0 <= q2 < p.len() && #[trigger] writes_at(f, p[q2].1, k2, l) ==> q2
                        < qq || (q2 == qq && k2 <= sm[l])
            }
}

proof fn lemma_rec_write(
    f: MirFunction,
    p: Seq<(usize, usize)>,
    bm: Map<usize, usize>,
    sm: Map<usize, usize>,
    q: int,
    s: int,
    d: usize,
)
    requires
        rec_state(f, p, bm, sm, q, s),
        0 <= q < p.len(),
        0 <= s <= usize::MAX,
        writes_at(f, p[q].1, s, d),
    ensures
        rec_state(f, p, bm.insert(d, p[q].1), sm.insert(d, s as usize), q, s + 1),
{
    let bm1 = bm.insert(d, p[q].1);
    let sm1 = sm.insert(d, s as usize);
    assert forall|l: usize| #[trigger] bm1.contains_key(l) == wrote_upto(f, p, l, q, s + 1) by {
        if wrote_upto(f, p, l, q, s + 1) && l != d {
            let (q2, k2) = choose|q2: int, k2: int|
                pos_before(q2, k2, q, s + 1) && 0 <= q2 < p.len() && #[trigger] writes_at(f, p[q2].1, k2, l);
            if q2 == q && k2 == s {
                assert(false);
            }
            assert(pos_before(q2, k2, q, s));
        }
        if bm.contains_key(l) {
            let (q2, k2) = choose|q2: int, k2: int|
                pos_before(q2, k2, q, s) && 0 <= q2 < p.len() && #[trigger] writes_at(f, p[q2].1, k2, l);
            assert(pos_before(q2, k2, q, s + 1));
        }
        if l == d {
            assert(pos_before(q, s, q, s + 1));
        }
    }
    assert forall|l: usize| #[trigger] bm1.contains_key(l) implies exists|qq: int|
        {
            &&& 0 <= qq < p.len()
            &&& pos_before(qq, sm1[l] as int, q, s + 1)
            &&& #[trigger] p[qq].1 == bm1[l]
            &&& writes_at(f, bm1[l], sm1[l] as int, l)
            &&& forall|q2: int, k2: int|
                pos_before(q2, k2, q, s + 1) && 0 <= q2 < p.len() && #[trigger] writes_at(f, p[q2].1, k2, l) ==> q2
                    < qq || (q2 == qq && k2 <= sm1[l])
        } by {
        if l == d {
            assert forall|q2: int, k2: int|
                pos_before(q2, k2, q, s + 1) && 0 <= q2 < p.len() && #[trigger] writes_at(f, p[q2].1, k2, l) implies q2
                < q || (q2 == q && k2 <= sm1[l]) by {}
            assert(p[q].1 == bm1[l]);
        } else {
            let qq = choose|qq: int|
                {
                    &&& 0 <= qq < p.len()
                    &&& pos_before(qq, sm[l] as int, q, s)
                    &&& #[trigger] p[qq].1 == bm[l]
                    &&& writes_at(f, bm[l], sm[l] as int, l)
                    &&& forall|q2: int, k2: int|
                        pos_before(q2, k2, q, s) && 0 <= q2 < p.len() && #[trigger] writes_at(f, p[q2].1, k2, l) ==> q2
                            < qq || (q2 == qq && k2 <= sm[l])
                };
            assert forall|q2: int, k2: int|
                pos_before(q2, k2, q, s + 1) && 0 <= q2 < p.len() && #[trigger] writes_at(f, p[q2].1, k2, l) implies q2
                < qq || (q2 == qq && k2 <= sm1[l]) by {
                if q2 == q && k2 == s {
                    assert(false);
                }
                assert(pos_before(q2, k2, q, s));
            }
            assert(pos_before(qq, sm1[l] as int, q, s + 1));
            assert(p[qq].1 == bm1[l]);
        }
    }
}

proof fn lemma_rec_skip(f: MirFunction, p: Seq<(usize, usize)>, bm: Map<usize, usize>, sm: Map<usize, usize>, q: int, s: int)
    requires
        rec_state(f, p, bm, sm, q, s),
        0 <= q < p.len(),
        forall|l: usize| !writes_at(f, p[q].1, s, l),
    ensures
        rec_state(f, p, bm, sm, q, s + 1),
{
    assert forall|l: usize| #[trigger] bm.contains_key(l) == wrote_upto(f, p, l, q, s + 1) by {
        if wrote_upto(f, p, l, q, s + 1) {
            let (q2, k2) = choose|q2: int, k2: int|
                pos_before(q2, k2, q, s + 1) && 0 <= q2 < p.len() && #[trigger] writes_at(f, p[q2].1, k2, l);
            assert(pos_before(q2, k2, q, s));
        }
        if bm.contains_key(l) {
            let (q2, k2) = choose|q2: int, k2: int|
                pos_before(q2, k2, q, s) && 0 <= q2 < p.len() && #[trigger] writes_at(f, p[q2].1, k2, l);
            assert(pos_before(q2, k2, q, s + 1));
        }
    }
    assert forall|l: usize| #[trigger] bm.contains_key(l) implies exists|qq: int|
        {
            &&& 0 <= qq < p.len()
            &&& pos_before(qq, sm[l] as int, q, s + 1)
            &&& #[trigger] p[qq].1 == bm[l]
            &&& writes_at(f, bm[l], sm[l] as int, l)
            &&& forall|q2: int, k2: int|
                pos_before(q2, k2, q, s + 1) && 0 <= q2 < p.len() && #[trigger] writes_at(f, p[q2].1, k2, l) ==> q2
                    < qq || (q2 == qq && k2 <= sm[l])
        } by {
        let qq = choose|qq: int|
            {
                &&& 0 <= qq < p.len()
                &&& pos_before(qq, sm[l] as int, q, s)
                &&& #[trigger] p[qq].1 == bm[l]
                &&& writes_at(f, bm[l], sm[l] as int, l)
                &&& forall|q2: int, k2: int|
                    pos_before(q2, k2, q, s) && 0 <= q2 < p.len() && #[trigger] writes_at(f, p[q2].1, k2, l) ==> q2
                        < qq || (q2 == qq && k2 <= sm[l])
            };
        assert forall|q2: int, k2: int|
            pos_before(q2, k2, q, s + 1) && 0 <= q2 < p.len() && #[trigger] writes_at(f, p[q2].1, k2, l) implies q2
            < qq || (q2 == qq && k2 <= sm[l]) by {
            assert(pos_before(q2, k2, q, s));
        }
        assert(pos_before(qq, sm[l] as int, q, s + 1));
    }
}

proof fn lemma_rec_block(f: MirFunction, p: Seq<(usize, usize)>, bm: Map<usize, usize>, sm: Map<usize, usize>, q: int)
    requires
        0 <= q < p.len(),
        p[q].1 < f.basic_blocks@.len(),
        rec_state(f, p, bm, sm, q, f.basic_blocks@[p[q].1 as int].statements@.len() as int),
    ensures
        rec_state(f, p, bm, sm, q + 1, 0),
{
    let n = f.basic_blocks@[p[q].1 as int].statements@.len() as int;
    assert forall|l: usize| #[trigger] bm.contains_key(l) == wrote_upto(f, p, l, q + 1, 0) by {
        if wrote_upto(f, p, l, q + 1, 0) {
            let (q2, k2) = choose|q2: int, k2: int|
                pos_before(q2, k2, q + 1, 0) && 0 <= q2 < p.len() && #[trigger] writes_at(f, p[q2].1, k2, l);
            assert(pos_before(q2, k2, q, n));
        }
        if bm.contains_key(l) {
            let (q2, k2) = choose|q2: int, k2: int|
                pos_before(q2, k2, q, n) && 0 <= q2 < p.len() && #[trigger] writes_at(f, p[q2].1, k2, l);
            assert(pos_before(q2, k2, q + 1, 0));
        }
    }
    assert forall|l: usize| #[trigger] bm.contains_key(l) implies exists|qq: int|
        {
            &&& 0 <= qq < p.len()
            &&& pos_before(qq, sm[l] as int, q + 1, 0)
            &&& #[trigger] p[qq].1 == bm[l]
            &&& writes_at(f, bm[l], sm[l] as int, l)
            &&& forall|q2: int, k2: int|
                pos_before(q2, k2, q + 1, 0) && 0 <= q2 < p.len() && #[trigger] writes_at(f, p[q2].1, k2, l) ==> q2
                    < qq || (q2 == qq && k2 <= sm[l])
        } by {
        let qq = choose|qq: int|
            {
                &&& 0 <= qq < p.len()
                &&& pos_before(qq, sm[l] as int, q, n)
                &&& #[trigger] p[qq].1 == bm[l]
                &&& writes_at(f, bm[l], sm[l] as int, l)
                &&& forall|q2: int, k2: int|
                    pos_before(q2, k2, q, n) && 0 <= q2 < p.len() && #[trigger] writes_at(f, p[q2].1, k2, l) ==> q2
                        < qq || (q2 == qq && k2 <= sm[l])
            };
        assert forall|q2: int, k2: int|
            pos_before(q2, k2, q + 1, 0) && 0 <= q2 < p.len() && #[trigger] writes_at(f, p[q2].1, k2, l) implies q2
            < qq || (q2 == qq && k2 <= sm[l]) by {
            assert(pos_before(q2, k2, q, n));
        }
        assert(pos_before(qq, sm[l] as int, q + 1, 0));
    }
}

/// The blocks `p` lists: each paired with its dominator count, each a
/// dominator of the header, every dominator listed.
spec fn prelude_ok(doms: Seq<IndexSet>, dset: Set<usize>, n: nat, p: Seq<(usize, usize)>) -> bool {
    &&& forall|q: int| 0 <= q < p.len() ==> (#[trigger] p[q]).1 < n && p[q].0 == dom_count(doms, p[q].1) && dset.contains(p[q].1)
    &&& forall|m: usize| dset.contains(m) ==> exists|q: int| 0 <= q < p.len() && #[trigger] p[q].1 == m
}

/// The last write to each local across the dominators of `header`, taken
/// outermost first (fewest dominators first).
fn entry_state(func: &MirFunction, doms: &Vec<IndexSet>, header: usize) -> (r: Sites)
    requires
        header < doms@.len(),
        doms@.len() == func.basic_blocks@.len(),
        forall|b: int, m: usize|
            0 <= b < doms@.len() && #[trigger] index_set_contents(doms@[b]).contains(m) ==> m < doms@.len(),
    ensures
        entry_ok(*func, doms@, header as int, r),
{
    let ghost f = *func;
    let ghost dset = index_set_contents(doms@[header as int]);
    let n = func.basic_blocks.len();
    let members = doms[header].to_vec();
    let mut prelude: Vec<(usize, usize)> = Vec::new();
    let mut k: usize = 0;
    while k < members.len()
        invariant
            header < doms@.len(),
            doms@.len() == n,
            n == func.basic_blocks@.len(),
            dset == index_set_contents(doms@[header as int]),
            members@.to_set() == dset,
            forall|b: int, m: usize|
                0 <= b < doms@.len() && #[trigger] index_set_contents(doms@[b]).contains(m) ==> m < doms@.len(),
            0 <= k <= members@.len(),
            prelude@.len() == k,
            forall|q: int| 0 <= q < k ==> (#[trigger] prelude@[q]).1 == members@[q] && prelude@[q].0 == dom_count(doms@, members@[q]),
            forall|q: int| 0 <= q < prelude@.len() ==> (#[trigger] prelude@[q]).1 < n,
        decreases members.len() - k,
    {
        let m = members[k];
        assert(members@.to_set().contains(m));
        prelude.push((doms[m].len(), m));
        k = k + 1;
    }
    proof {
        assert forall|q: int| 0 <= q < prelude@.len() implies (#[trigger] prelude@[q]).1 < n && prelude@[q].0
            == dom_count(doms@, prelude@[q].1) && dset.contains(prelude@[q].1) by {
            assert(members@.to_set().contains(members@[q]));
        }
        assert forall|m: usize| dset.contains(m) implies exists|q: int| 0 <= q < prelude@.len() && #[trigger] prelude@[q].1
            == m by {
            let q = choose|q: int| 0 <= q < members@.len() && members@[q] == m;
            assert(prelude@[q].1 == m);
        }
    }
    // Stable insertion sort by dominator count.
    let ghost count = prelude@.len();
    let mut i: usize = 1;
    while i < prelude.len()
        invariant
            prelude@.len() == count,
            prelude_ok(doms@, dset, n as nat, prelude@),
            1 <= i,
            forall|a: int, b: int| 0 <= a < b < i && b < prelude@.len() ==> (#[trigger] prelude@[a]).0 <= (#[trigger] prelude@[b]).0,
        decreases prelude.len() - i,
    {
        let mut j: usize = i;
        while j > 0 && prelude[j - 1].0 > prelude[j].0
            invariant
                prelude@.len() == count,
                prelude_ok(doms@, dset, n as nat, prelude@),
                0 <= j <= i < prelude@.len(),
                forall|a: int, b: int|
                    0 <= a < b <= i && a != j && b != j ==> (#[trigger] prelude@[a]).0 <= (#[trigger] prelude@[b]).0,
                forall|b: int| j < b <= i ==> prelude@[j as int].0 < (#[trigger] prelude@[b]).0,
            decreases j,
        {
            let ghost p0 = prelude@;
            let a = prelude[j - 1];
            let b = prelude[j];
            prelude.set(j - 1, b);
            prelude.set(j, a);
            proof {
                assert(prelude@ == p0.update(j - 1, p0[j as int]).update(j as int, p0[j - 1]));
                assert forall|q: int| 0 <= q < prelude@.len() implies (#[trigger] prelude@[q]).1 < n && prelude@[q].0
                    == dom_count(doms@, prelude@[q].1) && dset.contains(prelude@[q].1) by {
                    if q == j - 1 {
                        assert(p0[j as int].1 < n);
                    } else if q == j {
                        assert(p0[j - 1].1 < n);
                    } else {
                        assert(p0[q].1 < n);
                    }
                }
                assert forall|m: usize| dset.contains(m) implies exists|q: int| 0 <= q < prelude@.len() && #[trigger] prelude@[q].1
                    == m by {
                    let q = choose|q: int| 0 <= q < p0.len() && #[trigger] p0[q].1 == m;
                    if q == j - 1 {
                        assert(prelude@[j as int].1 == m);
                    } else if q == j {
                        assert(prelude@[j - 1].1 == m);
                    } else {
                        assert(prelude@[q].1 == m);
                    }
                }
                assert forall|x: int, y: int|
                    0 <= x < y <= i && x != j - 1 && y != j - 1 implies (#[trigger] prelude@[x]).0 <= (#[trigger] prelude@[y]).0 by {
                    if y == j {
                        assert(p0[x].0 <= p0[j - 1].0);
                    } else if x == j {
                        assert(p0[j - 1].0 <= p0[y].0);
                    } else {
                        assert(p0[x].0 <= p0[y].0);
                    }
                }
                assert forall|y: int| j - 1 < y <= i implies prelude@[j - 1].0 < (#[trigger] prelude@[y]).0 by {
                    if y > j {
                        assert(p0[j as int].0 < p0[y].0);
                    }
                }
            }
            j = j - 1;
        }
        proof {
            assert forall|x: int, y: int| 0 <= x < y < i + 1 && y < prelude@.len() implies (#[trigger] prelude@[x]).0
                <= (#[trigger] prelude@[y]).0 by {
                if y == j {
                    if x < j - 1 {
                        assert(prelude@[x].0 <= prelude@[j - 1].0);
                    }
                } else if x == j {
                } else {
                }
            }
        }
        i = i + 1;
    }
    proof {
        if prelude@.len() <= 1 {
            assert forall|a: int, b: int| 0 <= a < b < prelude@.len() implies (#[trigger] prelude@[a]).0 <= (#[trigger] prelude@[b]).0 by {}
        }
    }
    let ghost pv = prelude@;
    let mut state = Sites::new();
    proof {
        assert forall|l: usize| #[trigger] site_blocks(state).contains_key(l) == wrote_upto(f, pv, l, 0, 0) by {
            if wrote_upto(f, pv, l, 0, 0) {
                let (q2, k2) = choose|q2: int, k2: int|
                    pos_before(q2, k2, 0, 0) && 0 <= q2 < pv.len() && #[trigger] writes_at(f, pv[q2].1, k2, l);
            }
        }
    }
    let mut q: usize = 0;
    while q < prelude.len()
        invariant
            f == *func,
            n == func.basic_blocks@.len(),
            pv == prelude@,
            prelude_ok(doms@, dset, n as nat, pv),
            forall|a: int, b: int| 0 <= a < b < pv.len() ==> (#[trigger] pv[a]).0 <= (#[trigger] pv[b]).0,
            0 <= q <= pv.len(),
            rec_state(f, pv, site_blocks(state), site_stmts(state), q as int, 0),
        decreases prelude.len() - q,
    {
        let b = prelude[q].1;
        let stmts = &func.basic_blocks[b].statements;
        let mut s: usize = 0;
        while s < stmts.len()
            invariant
                f == *func,
                n == func.basic_blocks@.len(),
                pv == prelude@,
                prelude_ok(doms@, dset, n as nat, pv),
                0 <= q < pv.len(),
                b == pv[q as int].1,
                b < n,
                stmts@ == f.basic_blocks@[b as int].statements@,
                0 <= s <= stmts@.len(),
                rec_state(f, pv, site_blocks(state), site_stmts(state), q as int, s as int),
            decreases stmts.len() - s,
        {
            let ghost bm0 = site_blocks(state);
            let ghost sm0 = site_stmts(state);
            if let StatementKind::Assign(dst, _) = &stmts[s].kind {
                state.record(dst.0, b, s);
                proof {
                    assert(writes_at(f, pv[q as int].1, s as int, dst.0));
                    lemma_rec_write(f, pv, bm0, sm0, q as int, s as int, dst.0);
                }
            } else {
                proof {
                    assert forall|l: usize| !writes_at(f, pv[q as int].1, s as int, l) by {}
                    lemma_rec_skip(f, pv, bm0, sm0, q as int, s as int);
                }
            }
            s = s + 1;
        }
        proof {
            lemma_rec_block(f, pv, site_blocks(state), site_stmts(state), q as int);
        }
        q = q + 1;
    }
    proof {
        let bm = site_blocks(state);
        let sm = site_stmts(state);
        let len = pv.len() as int;
        assert forall|l: usize| #[trigger] bm.contains_key(l) == exists|b: usize, k: int|
            dset.contains(b) && #[trigger] writes_at(f, b, k, l) by {
            if bm.contains_key(l) {
                let (q2, k2) = choose|q2: int, k2: int|
                    pos_before(q2, k2, len, 0) && 0 <= q2 < pv.len() && #[trigger] writes_at(f, pv[q2].1, k2, l);
                assert(dset.contains(pv[q2].1));
            }
            if exists|b: usize, k: int| dset.contains(b) && #[trigger] writes_at(f, b, k, l) {
                let (b, k) = choose|b: usize, k: int| dset.contains(b) && #[trigger] writes_at(f, b, k, l);
                let q2 = choose|q2: int| 0 <= q2 < pv.len() && #[trigger] pv[q2].1 == b;
                assert(pos_before(q2, k, len, 0));
                assert(writes_at(f, pv[q2].1, k, l));
            }
        }
        assert forall|l: usize| #[trigger] bm.contains_key(l) implies {
            &&& dset.contains(bm[l])
            &&& writes_at(f, bm[l], sm[l] as int, l)
            &&& forall|k: int| sm[l] < k ==> !#[trigger] writes_at(f, bm[l], k, l)
            &&& forall|b: usize, k: int|
                dset.contains(b) && #[trigger] writes_at(f, b, k, l) ==> dom_count(doms@, b) <= dom_count(doms@, bm[l])
        } by {
            let qq = choose|qq: int|
                {
                    &&& 0 <= qq < pv.len()
                    &&& pos_before(qq, sm[l] as int, len, 0)
                    &&& #[trigger] pv[qq].1 == bm[l]
                    &&& writes_at(f, bm[l], sm[l] as int, l)
                    &&& forall|q2: int, k2: int|
                        pos_before(q2, k2, len, 0) && 0 <= q2 < pv.len() && #[trigger] writes_at(f, pv[q2].1, k2, l) ==> q2
                            < qq || (q2 == qq && k2 <= sm[l])
                };
            assert(pv[qq].1 == bm[l]);
            assert forall|k: int| sm[l] < k implies !#[trigger] writes_at(f, bm[l], k, l) by {
                if writes_at(f, bm[l], k, l) {
                    assert(writes_at(f, pv[qq].1, k, l));
                    assert(pos_before(qq, k, len, 0));
                }
            }
            assert forall|b: usize, k: int|
                dset.contains(b) && #[trigger] writes_at(f, b, k, l) implies dom_count(doms@, b) <= dom_count(doms@, bm[l]) by {
                let q2 = choose|q2: int| 0 <= q2 < pv.len() && #[trigger] pv[q2].1 == b;
                assert(writes_at(f, pv[q2].1, k, l));
                assert(pos_before(q2, k, len, 0));
                if q2 < qq {
                    assert(pv[q2].0 <= pv[qq].0);
                }
            }
        }
    }
    state
}

/// Follows `x = use y` chains through the loop-entry state.
fn resolve_entry(func: &MirFunction, entry: &Sites, local: usize) -> (r: usize)
    ensures
        r == resolved(*func, *entry, local),
{
    let ghost bm = site_blocks(*entry);
    let ghost sm = site_stmts(*entry);
    let mut cur = local;
    let mut rem = entry.len();
    loop
        invariant
            bm == site_blocks(*entry),
            sm == site_stmts(*entry),
            chain_end(*func, bm, sm, cur, rem as nat) == resolved(*func, *entry, local),
        decreases rem,
    {
        let next = match site_rvalue(func, entry, cur) {
            Some(Rvalue::Use(Operand::Copy(src))) | Some(Rvalue::Use(Operand::Move(src))) => if src.0 != cur {
                Some(src.0)
            } else {
                None
            },
            _ => None,
        };
        assert(next == copy_source(*func, bm, sm, cur));
        match next {
            Some(n) => {
                cur = n;
            },
            None => {
                return cur;
            },
        }
        if rem == 0 {
            return cur;
        }
        rem = rem - 1;
    }
}

/// The length of `obj` at loop entry: that of a literal list or tuple, or
/// of `list_new` of a constant or of a local.
fn length_at_entry(func: &MirFunction, entry: &Sites, obj: usize) -> (r: Option<LenKey>)
    ensures
        r == entry_length(*func, *entry, obj),
{
    let root = resolve_entry(func, entry, obj);
    match site_rvalue(func, entry, root) {
        Some(Rvalue::Aggregate(k, ops)) => if matches!(k, AggregateKind::List | AggregateKind::Tuple) {
            Some(LenKey::Const(ops.len()))
        } else {
            None
        },
        Some(Rvalue::Call { func: f, args }) => if is_list_new_op(f) && args.len() == 1 {
            match &args[0] {
                Operand::Constant(Constant::Int(c)) => if *c >= 0 {
                    Some(LenKey::Const(*c as usize))
                } else {
                    None
                },
                Operand::Copy(l) | Operand::Move(l) => Some(LenKey::Sym(resolve_entry(func, entry, l.0))),
                _ => None,
            }
        } else {
            None
        },
        _ => None,
    }
}

/// The object whose length `limit` holds at loop entry, if it holds one.
fn len_source_at_entry(func: &MirFunction, entry: &Sites, limit: usize) -> (r: Option<usize>)
    ensures
        r == entry_len_source(*func, *entry, limit),
{
    let root = resolve_entry(func, entry, limit);
    match site_rvalue(func, entry, root) {
        Some(Rvalue::Call { func: f, args }) => if args.len() == 1 && is_len_call_op(f) {
            match operand_local_of(&args[0]) {
                Some(l) => Some(resolve_entry(func, entry, l.0)),
                None => None,
            }
        } else {
            None
        },
        _ => None,
    }
}

/// `i < limit` implies `i < len(obj)`: `limit` is `len(obj)`, the local
/// `obj` was allocated with (assigned nowhere), or a constant no larger
/// than its constant length.
fn limit_bounds_object(func: &MirFunction, entry: &Sites, d: &Defs, limit: &Operand, obj: usize) -> (r: bool)
    ensures
        r == limit_bounds(*func, *entry, index_map_contents(d.counts), *limit, obj),
{
    if let Some(l) = operand_local_of(limit) {
        let src = len_source_at_entry(func, entry, l.0);
        let root = resolve_entry(func, entry, obj);
        if src == Some(root) {
            return true;
        }
    }
    match length_at_entry(func, entry, obj) {
        Some(LenKey::Const(n)) => match limit {
            Operand::Constant(Constant::Int(m)) => *m >= 0 && (*m as usize) <= n,
            _ => false,
        },
        Some(LenKey::Sym(s)) => {
            count_local(d, s) == 0 && match operand_local_of(limit) {
                Some(l) => resolve_entry(func, entry, l.0) == s,
                None => false,
            }
        },
        None => false,
    }
}

/// Statement `s` of block `body[q]` assigns `l`.
pub open spec fn assigns_at(f: MirFunction, body: Seq<usize>, q: int, s: int, l: usize) -> bool {
    &&& 0 <= q < body.len()
    &&& body[q] < f.basic_blocks@.len()
    &&& 0 <= s < f.basic_blocks@[body[q] as int].statements@.len()
    &&& f.basic_blocks@[body[q] as int].statements@[s].kind matches StatementKind::Assign(dst, _) && dst.0 == l
}

/// Position `(q, s)` comes before `(k, t)`, block by block.
pub open spec fn pos_before(q: int, s: int, k: int, t: int) -> bool {
    q < k || (q == k && s < t)
}

/// Some statement before `(k, t)` assigns `l`.
pub open spec fn some_upto(f: MirFunction, body: Seq<usize>, l: usize, k: int, t: int) -> bool {
    exists|q: int, s: int| pos_before(q, s, k, t) && #[trigger] assigns_at(f, body, q, s, l)
}

/// Exactly one statement before `(k, t)` assigns `l`.
pub open spec fn once_upto(f: MirFunction, body: Seq<usize>, l: usize, k: int, t: int) -> bool {
    exists|q: int, s: int|
        #![trigger assigns_at(f, body, q, s, l)]
        pos_before(q, s, k, t) && assigns_at(f, body, q, s, l) && forall|q2: int, s2: int|
            pos_before(q2, s2, k, t) && #[trigger] assigns_at(f, body, q2, s2, l) ==> q2 == q && s2 == s
}

/// Exactly one statement of the blocks `body` assigns `l`.
pub open spec fn once_in(f: MirFunction, body: Seq<usize>, l: usize) -> bool {
    once_upto(f, body, l, body.len() as int, 0)
}

/// A statement of the blocks `body` that assigns `l`.
pub open spec fn assign_pos(f: MirFunction, body: Seq<usize>, l: usize) -> (int, int) {
    choose|p: (int, int)| assigns_at(f, body, p.0, p.1, l)
}

/// The block of the only assignment of each local assigned once in `body`.
pub open spec fn once_blocks(f: MirFunction, body: Seq<usize>) -> Map<usize, usize> {
    Map::new(|l: usize| once_in(f, body, l), |l: usize| body[assign_pos(f, body, l).0] as usize)
}

/// The statement index of the only assignment of each local assigned once
/// in `body`.
pub open spec fn once_stmts(f: MirFunction, body: Seq<usize>) -> Map<usize, usize> {
    Map::new(|l: usize| once_in(f, body, l), |l: usize| assign_pos(f, body, l).1 as usize)
}

proof fn lemma_upto_next(f: MirFunction, body: Seq<usize>, l: usize, k: int, t: int)
    ensures
        some_upto(f, body, l, k, t + 1) == (some_upto(f, body, l, k, t) || assigns_at(f, body, k, t, l)),
        assigns_at(f, body, k, t, l) ==> once_upto(f, body, l, k, t + 1) == !some_upto(f, body, l, k, t),
        !assigns_at(f, body, k, t, l) ==> once_upto(f, body, l, k, t + 1) == once_upto(f, body, l, k, t),
{
    if some_upto(f, body, l, k, t + 1) {
        let (q, s) = choose|q: int, s: int| pos_before(q, s, k, t + 1) && #[trigger] assigns_at(f, body, q, s, l);
        if !(q == k && s == t) {
            assert(pos_before(q, s, k, t));
        }
    }
    if some_upto(f, body, l, k, t) {
        let (q, s) = choose|q: int, s: int| pos_before(q, s, k, t) && #[trigger] assigns_at(f, body, q, s, l);
        assert(pos_before(q, s, k, t + 1));
    }
    if assigns_at(f, body, k, t, l) {
        assert(pos_before(k, t, k, t + 1));
        if some_upto(f, body, l, k, t) {
            let (q, s) = choose|q: int, s: int| pos_before(q, s, k, t) && #[trigger] assigns_at(f, body, q, s, l);
            assert(pos_before(q, s, k, t + 1));
        } else {
            assert forall|q2: int, s2: int|
                pos_before(q2, s2, k, t + 1) && #[trigger] assigns_at(f, body, q2, s2, l) implies q2 == k && s2 == t by {
                if !(q2 == k && s2 == t) {
                    assert(pos_before(q2, s2, k, t));
                }
            }
        }
    } else {
        if once_upto(f, body, l, k, t + 1) {
            let (q, s) = choose|q: int, s: int|
                #![trigger assigns_at(f, body, q, s, l)]
                pos_before(q, s, k, t + 1) && assigns_at(f, body, q, s, l) && forall|q2: int, s2: int|
                    pos_before(q2, s2, k, t + 1) && #[trigger] assigns_at(f, body, q2, s2, l) ==> q2 == q && s2 == s;
            assert(pos_before(q, s, k, t));
        }
        if once_upto(f, body, l, k, t) {
            let (q, s) = choose|q: int, s: int|
                #![trigger assigns_at(f, body, q, s, l)]
                pos_before(q, s, k, t) && assigns_at(f, body, q, s, l) && forall|q2: int, s2: int|
                    pos_before(q2, s2, k, t) && #[trigger] assigns_at(f, body, q2, s2, l) ==> q2 == q && s2 == s;
            assert(pos_before(q, s, k, t + 1));
            assert forall|q2: int, s2: int|
                pos_before(q2, s2, k, t + 1) && #[trigger] assigns_at(f, body, q2, s2, l) implies q2 == q && s2 == s by {
                if !(q2 == k && s2 == t) {
                    assert(pos_before(q2, s2, k, t));
                }
            }
        }
    }
}

proof fn lemma_upto_block(f: MirFunction, body: Seq<usize>, l: usize, k: int)
    requires
        0 <= k < body.len(),
        body[k] < f.basic_blocks@.len(),
    ensures
        some_upto(f, body, l, k + 1, 0) == some_upto(
            f,
            body,
            l,
            k,
            f.basic_blocks@[body[k] as int].statements@.len() as int,
        ),
        once_upto(f, body, l, k + 1, 0) == once_upto(
            f,
            body,
            l,
            k,
            f.basic_blocks@[body[k] as int].statements@.len() as int,
        ),
{
    let n = f.basic_blocks@[body[k] as int].statements@.len() as int;
    assert forall|q: int, s: int| #[trigger] assigns_at(f, body, q, s, l) implies pos_before(q, s, k + 1, 0)
        == pos_before(q, s, k, n) by {}
    if some_upto(f, body, l, k + 1, 0) {
        let (q, s) = choose|q: int, s: int| pos_before(q, s, k + 1, 0) && #[trigger] assigns_at(f, body, q, s, l);
        assert(pos_before(q, s, k, n));
    }
    if some_upto(f, body, l, k, n) {
        let (q, s) = choose|q: int, s: int| pos_before(q, s, k, n) && #[trigger] assigns_at(f, body, q, s, l);
        assert(pos_before(q, s, k + 1, 0));
    }
    if once_upto(f, body, l, k + 1, 0) {
        let (q, s) = choose|q: int, s: int|
            #![trigger assigns_at(f, body, q, s, l)]
            pos_before(q, s, k + 1, 0) && assigns_at(f, body, q, s, l) && forall|q2: int, s2: int|
                pos_before(q2, s2, k + 1, 0) && #[trigger] assigns_at(f, body, q2, s2, l) ==> q2 == q && s2 == s;
        assert(pos_before(q, s, k, n));
    }
    if once_upto(f, body, l, k, n) {
        let (q, s) = choose|q: int, s: int|
            #![trigger assigns_at(f, body, q, s, l)]
            pos_before(q, s, k, n) && assigns_at(f, body, q, s, l) && forall|q2: int, s2: int|
                pos_before(q2, s2, k, n) && #[trigger] assigns_at(f, body, q2, s2, l) ==> q2 == q && s2 == s;
        assert(pos_before(q, s, k + 1, 0));
    }
}

/// What `body_defs` keeps while it scans up to `(k, t)`.
spec fn scan_state(f: MirFunction, body: Seq<usize>, cm: Map<usize, usize>, bm: Map<usize, usize>, sm: Map<usize, usize>, k: int, t: int) -> bool {
    &&& forall|l: usize| #[trigger] cm.contains_key(l) == some_upto(f, body, l, k, t)
    &&& forall|l: usize| #[trigger] cm.contains_key(l) ==> cm[l] >= 1 && (cm[l] == 1) == once_upto(f, body, l, k, t)
    &&& forall|l: usize| #[trigger] bm.contains_key(l) == cm.contains_key(l)
    &&& forall|l: usize| #[trigger] sm.contains_key(l) == cm.contains_key(l)
    &&& forall|l: usize, q: int, s: int|
        #![trigger assigns_at(f, body, q, s, l)]
        once_upto(f, body, l, k, t) && pos_before(q, s, k, t) && assigns_at(f, body, q, s, l) ==> bm[l] == body[q]
            && sm[l] == s
}

proof fn lemma_scan_assign(
    f: MirFunction,
    bv: Seq<usize>,
    cm0: Map<usize, usize>,
    bm0: Map<usize, usize>,
    sm0: Map<usize, usize>,
    k: int,
    s: int,
    d: usize,
)
    requires
        scan_state(f, bv, cm0, bm0, sm0, k, s),
        assigns_at(f, bv, k, s, d),
        0 <= s <= usize::MAX,
    ensures
        ({
            let c: usize = if cm0.contains_key(d) { cm0[d] } else { 0 };
            let c1: usize = if c + 1 > usize::MAX { usize::MAX } else { (c + 1) as usize };
            scan_state(f, bv, cm0.insert(d, c1), bm0.insert(d, bv[k]), sm0.insert(d, s as usize), k, s + 1)
        }),
{
    let c: usize = if cm0.contains_key(d) { cm0[d] } else { 0 };
    let c1: usize = if c + 1 > usize::MAX { usize::MAX } else { (c + 1) as usize };
    let cm = cm0.insert(d, c1);
    let bm = bm0.insert(d, bv[k]);
    let sm = sm0.insert(d, s as usize);
    assert forall|l: usize| #[trigger] cm.contains_key(l) == some_upto(f, bv, l, k, s + 1) by {
        lemma_upto_next(f, bv, l, k, s);
    }
    assert forall|l: usize| #[trigger] cm.contains_key(l) implies cm[l] >= 1 && (cm[l] == 1) == once_upto(
        f,
        bv,
        l,
        k,
        s + 1,
    ) by {
        lemma_upto_next(f, bv, l, k, s);
        if l == d {
            if cm0.contains_key(d) {
                assert(some_upto(f, bv, l, k, s));
            }
        } else {
            assert(!assigns_at(f, bv, k, s, l));
        }
    }
    assert forall|l: usize, q: int, s2: int|
        #![trigger assigns_at(f, bv, q, s2, l)]
        once_upto(f, bv, l, k, s + 1) && pos_before(q, s2, k, s + 1) && assigns_at(f, bv, q, s2, l) implies bm[l]
        == bv[q] && sm[l] == s2 by {
        lemma_upto_next(f, bv, l, k, s);
        if l == d {
            assert(!some_upto(f, bv, l, k, s));
            if !(q == k && s2 == s) {
                assert(pos_before(q, s2, k, s));
                assert(some_upto(f, bv, l, k, s));
            }
        } else {
            assert(!assigns_at(f, bv, k, s, l));
            assert(pos_before(q, s2, k, s));
        }
    }
}

proof fn lemma_scan_skip(
    f: MirFunction,
    bv: Seq<usize>,
    cm0: Map<usize, usize>,
    bm0: Map<usize, usize>,
    sm0: Map<usize, usize>,
    k: int,
    s: int,
)
    requires
        scan_state(f, bv, cm0, bm0, sm0, k, s),
        forall|l: usize| !assigns_at(f, bv, k, s, l),
    ensures
        scan_state(f, bv, cm0, bm0, sm0, k, s + 1),
{
    assert forall|l: usize| true implies {
        &&& some_upto(f, bv, l, k, s + 1) == some_upto(f, bv, l, k, s)
        &&& once_upto(f, bv, l, k, s + 1) == once_upto(f, bv, l, k, s)
    } by {
        lemma_upto_next(f, bv, l, k, s);
    }
    assert forall|l: usize, q: int, s2: int|
        #![trigger assigns_at(f, bv, q, s2, l)]
        once_upto(f, bv, l, k, s + 1) && pos_before(q, s2, k, s + 1) && assigns_at(f, bv, q, s2, l) implies bm0[l]
        == bv[q] && sm0[l] == s2 by {
        assert(pos_before(q, s2, k, s));
    }
}

/// The locals assigned exactly once in the loop body, with their sites.
fn body_defs(func: &MirFunction, body: &Vec<usize>) -> (r: Sites)
    requires
        forall|q: int| 0 <= q < body@.len() ==> (#[trigger] body@[q]) < func.basic_blocks@.len(),
    ensures
        site_blocks(r) == once_blocks(*func, body@),
        site_stmts(r) == once_stmts(*func, body@),
{
    let ghost f = *func;
    let ghost bv = body@;
    let mut counts = IndexMap::new();
    let mut sites = Sites::new();
    let mut k: usize = 0;
    while k < body.len()
        invariant
            f == *func,
            bv == body@,
            forall|q: int| 0 <= q < body@.len() ==> (#[trigger] body@[q]) < func.basic_blocks@.len(),
            0 <= k <= bv.len(),
            scan_state(f, bv, index_map_contents(counts), site_blocks(sites), site_stmts(sites), k as int, 0),
        decreases body.len() - k,
    {
        let b = body[k];
        let stmts = &func.basic_blocks[b].statements;
        let mut s: usize = 0;
        while s < stmts.len()
            invariant
                f == *func,
                bv == body@,
                forall|q: int| 0 <= q < body@.len() ==> (#[trigger] body@[q]) < func.basic_blocks@.len(),
                0 <= k < bv.len(),
                b == bv[k as int],
                stmts@ == f.basic_blocks@[b as int].statements@,
                0 <= s <= stmts@.len(),
                scan_state(f, bv, index_map_contents(counts), site_blocks(sites), site_stmts(sites), k as int, s as int),
            decreases stmts.len() - s,
        {
            let ghost cm0 = index_map_contents(counts);
            let ghost bm0 = site_blocks(sites);
            let ghost sm0 = site_stmts(sites);
            if let StatementKind::Assign(dst, _) = &stmts[s].kind {
                let c = match counts.get(dst.0) {
                    Some(c) => c,
                    None => 0,
                };
                counts.insert(dst.0, c.saturating_add(1));
                sites.record(dst.0, b, s);
                proof {
                    lemma_scan_assign(f, bv, cm0, bm0, sm0, k as int, s as int, dst.0);
                }
            } else {
                proof {
                    lemma_scan_skip(f, bv, cm0, bm0, sm0, k as int, s as int);
                }
            }
            s = s + 1;
        }
        proof {
            assert forall|l: usize| true implies {
                &&& some_upto(f, bv, l, k + 1, 0) == some_upto(f, bv, l, k as int, stmts@.len() as int)
                &&& once_upto(f, bv, l, k + 1, 0) == once_upto(f, bv, l, k as int, stmts@.len() as int)
            } by {
                lemma_upto_block(f, bv, l, k as int);
            }
            let cm = index_map_contents(counts);
            let bm = site_blocks(sites);
            let sm = site_stmts(sites);
            assert forall|l: usize, q: int, s2: int|
                #![trigger assigns_at(f, bv, q, s2, l)]
                once_upto(f, bv, l, k + 1, 0) && pos_before(q, s2, k + 1, 0) && assigns_at(f, bv, q, s2, l) implies bm[l]
                == bv[q] && sm[l] == s2 by {
                assert(pos_before(q, s2, k as int, stmts@.len() as int));
            }
        }
        k = k + 1;
    }
    let ghost cm_all = index_map_contents(counts);
    let keys = counts.keys();
    let mut q: usize = 0;
    while q < keys.len()
        invariant
            f == *func,
            bv == body@,
            keys@.to_set() == cm_all.dom(),
            keys@.no_duplicates(),
            cm_all == index_map_contents(counts),
            0 <= q <= keys@.len(),
            forall|l: usize| #[trigger] site_blocks(sites).contains_key(l) == (cm_all.contains_key(l) && (cm_all[l] == 1
                || !exists|j: int| 0 <= j < q && keys@[j] == l)),
            forall|l: usize| #[trigger] site_stmts(sites).contains_key(l) == site_blocks(sites).contains_key(l),
            forall|l: usize, q2: int, s2: int|
                #![trigger assigns_at(f, bv, q2, s2, l)]
                once_in(f, bv, l) && pos_before(q2, s2, bv.len() as int, 0) && assigns_at(f, bv, q2, s2, l) ==> site_blocks(
                    sites,
                )[l] == bv[q2] && site_stmts(sites)[l] == s2,
            forall|l: usize| #[trigger] cm_all.contains_key(l) ==> cm_all[l] >= 1 && (cm_all[l] == 1) == once_in(f, bv, l),
            forall|l: usize| #[trigger] cm_all.contains_key(l) == some_upto(f, bv, l, bv.len() as int, 0),
        decreases keys.len() - q,
    {
        let key = keys[q];
        if counts.get(key) != Some(1) {
            sites.forget(key);
        }
        proof {
            assert forall|l: usize| #[trigger] site_blocks(sites).contains_key(l) == (cm_all.contains_key(l) && (cm_all[l]
                == 1 || !exists|j: int| 0 <= j < q + 1 && keys@[j] == l)) by {
                if l == key {
                    assert(keys@[q as int] == l);
                } else {
                    if exists|j: int| 0 <= j < q + 1 && keys@[j] == l {
                        let j = choose|j: int| 0 <= j < q + 1 && keys@[j] == l;
                        assert(j < q);
                    }
                }
            }
        }
        q = q + 1;
    }
    proof {
        let bm = site_blocks(sites);
        let sm = site_stmts(sites);
        assert forall|l: usize| #[trigger] bm.contains_key(l) == once_in(f, bv, l) by {
            if cm_all.contains_key(l) {
                assert(keys@.to_set().contains(l));
                let j = choose|j: int| 0 <= j < keys@.len() && keys@[j] == l;
            } else {
                if once_in(f, bv, l) {
                    let (q0, s0) = choose|q0: int, s0: int|
                        #![trigger assigns_at(f, bv, q0, s0, l)]
                        pos_before(q0, s0, bv.len() as int, 0) && assigns_at(f, bv, q0, s0, l) && forall|q2: int, s2: int|
                            pos_before(q2, s2, bv.len() as int, 0) && #[trigger] assigns_at(f, bv, q2, s2, l) ==> q2
                                == q0 && s2 == s0;
                    assert(some_upto(f, bv, l, bv.len() as int, 0));
                }
            }
        }
        assert forall|l: usize| bm.contains_key(l) implies bm[l] == once_blocks(f, bv)[l] && sm[l] == once_stmts(
            f,
            bv,
        )[l] by {
            let p = assign_pos(f, bv, l);
            let (q0, s0) = choose|q0: int, s0: int|
                #![trigger assigns_at(f, bv, q0, s0, l)]
                pos_before(q0, s0, bv.len() as int, 0) && assigns_at(f, bv, q0, s0, l) && forall|q2: int, s2: int|
                    pos_before(q2, s2, bv.len() as int, 0) && #[trigger] assigns_at(f, bv, q2, s2, l) ==> q2 == q0
                        && s2 == s0;
            assert(assigns_at(f, bv, p.0, p.1, l));
            assert(pos_before(p.0, p.1, bv.len() as int, 0));
        }
        assert(bm =~= once_blocks(f, bv));
        assert(sm =~= once_stmts(f, bv));
    }
    sites
}

/// `rv` is `i + k` for a constant `k >= 0`, through at most `rem + 1`
/// single-assignment temporaries whose sites `bm`, `sm` record.
pub open spec fn nonneg_step(f: MirFunction, bm: Map<usize, usize>, sm: Map<usize, usize>, i: usize, rv: Rvalue, rem: nat) -> bool
    decreases rem,
{
    match rv {
        Rvalue::BinaryOp(BinOp::Add, Operand::Copy(x), Operand::Constant(Constant::Int(k))) => x.0 == i && k >= 0,
        Rvalue::Use(Operand::Copy(t)) => match site_rv(f, bm, sm, t.0) {
            Some(next) => rem > 0 && nonneg_step(f, bm, sm, i, next, (rem - 1) as nat),
            None => false,
        },
        Rvalue::Use(Operand::Move(t)) => match site_rv(f, bm, sm, t.0) {
            Some(next) => rem > 0 && nonneg_step(f, bm, sm, i, next, (rem - 1) as nat),
            None => false,
        },
        _ => false,
    }
}

/// `k` does not write `i`, or writes it `i + k` for a constant `k >= 0`.
pub open spec fn write_nonneg(f: MirFunction, bm: Map<usize, usize>, sm: Map<usize, usize>, i: usize, k: StatementKind) -> bool {
    match k {
        StatementKind::Assign(dst, rval) => dst.0 != i || nonneg_step(f, bm, sm, i, rval, bm.dom().len()),
        _ => true,
    }
}

/// `i` starts at a constant `>= 0` at loop entry (by `entry`) and every
/// write to it in the blocks `body` adds a constant `>= 0`.
pub open spec fn nonneg_ind(f: MirFunction, body: Seq<usize>, entry: Sites, i: usize) -> bool {
    &&& forall|q: int, s: int|
        0 <= q < body.len() && 0 <= s < f.basic_blocks@[body[q] as int].statements@.len() ==> #[trigger] write_nonneg(
            f,
            once_blocks(f, body),
            once_stmts(f, body),
            i,
            f.basic_blocks@[body[q] as int].statements@[s].kind,
        )
    &&& site_of(f, entry, resolved(f, entry, i)) matches Some(Rvalue::Use(Operand::Constant(Constant::Int(c)))) && c >= 0
}

/// `rval` is `i + k` for a constant `k >= 0`, through single-assignment
/// temporaries of the loop body.
fn is_nonneg_step(func: &MirFunction, defs: &Sites, i: usize, rval: &Rvalue) -> (r: bool)
    ensures
        r == nonneg_step(*func, site_blocks(*defs), site_stmts(*defs), i, *rval, site_blocks(*defs).dom().len()),
{
    let mut cur = rval;
    let mut rem = defs.len();
    loop
        invariant
            nonneg_step(*func, site_blocks(*defs), site_stmts(*defs), i, *cur, rem as nat) == nonneg_step(
                *func,
                site_blocks(*defs),
                site_stmts(*defs),
                i,
                *rval,
                site_blocks(*defs).dom().len(),
            ),
        decreases rem,
    {
        match cur {
            Rvalue::BinaryOp(BinOp::Add, Operand::Copy(s), Operand::Constant(Constant::Int(k))) => {
                return s.0 == i && *k >= 0;
            },
            Rvalue::Use(Operand::Copy(t)) | Rvalue::Use(Operand::Move(t)) => match site_rvalue(func, defs, t.0) {
                Some(next) => {
                    if rem == 0 {
                        return false;
                    }
                    cur = next;
                },
                None => {
                    return false;
                },
            },
            _ => {
                return false;
            },
        }
        rem = rem - 1;
    }
}

/// `i` starts at a constant `>= 0` at loop entry and every write to it in
/// the body adds a constant `>= 0`.
fn nonneg_induction(func: &MirFunction, body: &Vec<usize>, entry: &Sites, i: usize) -> (r: bool)
    requires
        forall|q: int| 0 <= q < body@.len() ==> (#[trigger] body@[q]) < func.basic_blocks@.len(),
    ensures
        r == nonneg_ind(*func, body@, *entry, i),
{
    let ghost f = *func;
    let defs = body_defs(func, body);
    let ghost bm = once_blocks(f, body@);
    let ghost sm = once_stmts(f, body@);
    let mut k: usize = 0;
    while k < body.len()
        invariant
            f == *func,
            forall|q: int| 0 <= q < body@.len() ==> (#[trigger] body@[q]) < func.basic_blocks@.len(),
            site_blocks(defs) == bm,
            site_stmts(defs) == sm,
            bm == once_blocks(f, body@),
            sm == once_stmts(f, body@),
            0 <= k <= body@.len(),
            forall|q: int, s: int|
                0 <= q < k && 0 <= s < f.basic_blocks@[body@[q] as int].statements@.len() ==> #[trigger] write_nonneg(
                    f,
                    bm,
                    sm,
                    i,
                    f.basic_blocks@[body@[q] as int].statements@[s].kind,
                ),
        decreases body.len() - k,
    {
        let stmts = &func.basic_blocks[body[k]].statements;
        let mut s: usize = 0;
        while s < stmts.len()
            invariant
                f == *func,
                forall|q: int| 0 <= q < body@.len() ==> (#[trigger] body@[q]) < func.basic_blocks@.len(),
                site_blocks(defs) == bm,
                site_stmts(defs) == sm,
                bm == once_blocks(f, body@),
                sm == once_stmts(f, body@),
                0 <= k < body@.len(),
                stmts@ == f.basic_blocks@[body@[k as int] as int].statements@,
                0 <= s <= stmts@.len(),
                forall|q: int, s2: int|
                    (0 <= q < k && 0 <= s2 < f.basic_blocks@[body@[q] as int].statements@.len()) || (q == k && 0 <= s2
                        < s) ==> #[trigger] write_nonneg(
                        f,
                        bm,
                        sm,
                        i,
                        f.basic_blocks@[body@[q] as int].statements@[s2].kind,
                    ),
            decreases stmts.len() - s,
        {
            if let StatementKind::Assign(dst, rval) = &stmts[s].kind {
                if dst.0 == i && !is_nonneg_step(func, &defs, i, rval) {
                    assert(!write_nonneg(f, bm, sm, i, f.basic_blocks@[body@[k as int] as int].statements@[s as int].kind));
                    return false;
                }
            }
            assert(write_nonneg(f, bm, sm, i, f.basic_blocks@[body@[k as int] as int].statements@[s as int].kind));
            s = s + 1;
        }
        k = k + 1;
    }
    let root = resolve_entry(func, entry, i);
    match site_rvalue(func, entry, root) {
        Some(Rvalue::Use(Operand::Constant(Constant::Int(c)))) => *c >= 0,
        _ => false,
    }
}

/// `k` reassigns `obj`, passes it to a call other than a length read,
/// borrows it, or stores an attribute of it.
pub open spec fn mutates(k: StatementKind, obj: usize) -> bool {
    match k {
        StatementKind::Assign(dst, rval) => dst.0 == obj || match rval {
            Rvalue::Call { func: g, args } => !is_len_call(g) && exists|a: int|
                0 <= a < args@.len() && operand_local(#[trigger] args@[a]) == Some(obj),
            Rvalue::Ref(l) => l.0 == obj,
            Rvalue::MutRef(l) => l.0 == obj,
            _ => false,
        },
        StatementKind::SetAttr(o, _, _) => operand_local(o) == Some(obj),
        _ => false,
    }
}

/// Some statement of a block of `body` mutates `obj`.
pub open spec fn mutated_in(f: MirFunction, body: Seq<usize>, obj: usize) -> bool {
    exists|q: int, s: int|
        0 <= q < body.len() && 0 <= s < f.basic_blocks@[body[q] as int].statements@.len() && #[trigger] mutates(
            f.basic_blocks@[body[q] as int].statements@[s].kind,
            obj,
        )
}

/// `obj` is reassigned, passed to a call other than a length read,
/// borrowed, or has an attribute stored in the loop body.
fn mutated_in_loop(func: &MirFunction, body: &Vec<usize>, obj: usize) -> (r: bool)
    requires
        forall|q: int| 0 <= q < body@.len() ==> (#[trigger] body@[q]) < func.basic_blocks@.len(),
    ensures
        r == mutated_in(*func, body@, obj),
{
    let mut k: usize = 0;
    while k < body.len()
        invariant
            forall|q: int| 0 <= q < body@.len() ==> (#[trigger] body@[q]) < func.basic_blocks@.len(),
            0 <= k <= body@.len(),
            forall|q: int, s: int|
                0 <= q < k && 0 <= s < func.basic_blocks@[body@[q] as int].statements@.len() ==> !#[trigger] mutates(
                    func.basic_blocks@[body@[q] as int].statements@[s].kind,
                    obj,
                ),
        decreases body.len() - k,
    {
        let stmts = &func.basic_blocks[body[k]].statements;
        let mut s: usize = 0;
        while s < stmts.len()
            invariant
                forall|q: int| 0 <= q < body@.len() ==> (#[trigger] body@[q]) < func.basic_blocks@.len(),
                0 <= k < body@.len(),
                stmts@ == func.basic_blocks@[body@[k as int] as int].statements@,
                0 <= s <= stmts@.len(),
                forall|q: int, s2: int|
                    (0 <= q < k && 0 <= s2 < func.basic_blocks@[body@[q] as int].statements@.len()) || (q == k && 0
                        <= s2 < s) ==> !#[trigger] mutates(func.basic_blocks@[body@[q] as int].statements@[s2].kind, obj),
            decreases stmts.len() - s,
        {
            let ghost kd = stmts@[s as int].kind;
            match &stmts[s].kind {
                StatementKind::Assign(dst, rval) => {
                    if dst.0 == obj {
                        assert(mutates(kd, obj));
                        return true;
                    }
                    match rval {
                        Rvalue::Call { func: f, args } => if !is_len_call_op(f) {
                            let mut a: usize = 0;
                            while a < args.len()
                                invariant
                                    0 <= a <= args@.len(),
                                    forall|a2: int| 0 <= a2 < a ==> operand_local(#[trigger] args@[a2]) != Some(obj),
                                    kd == StatementKind::Assign(*dst, Rvalue::Call { func: *f, args: *args }),
                                    !is_len_call(*f),
                                    dst.0 != obj,
                                    0 <= k < body@.len(),
                                    stmts@ == func.basic_blocks@[body@[k as int] as int].statements@,
                                    s < stmts@.len(),
                                    kd == stmts@[s as int].kind,
                                decreases args.len() - a,
                            {
                                if let Some(l) = operand_local_of(&args[a]) {
                                    if l.0 == obj {
                                        assert(operand_local(args@[a as int]) == Some(obj));
                                        assert(mutates(kd, obj));
                                        return true;
                                    }
                                }
                                a = a + 1;
                            }
                        },
                        Rvalue::Ref(l) | Rvalue::MutRef(l) => if l.0 == obj {
                            assert(mutates(kd, obj));
                            return true;
                        },
                        _ => {},
                    }
                },
                StatementKind::SetAttr(o, _, _) => {
                    if let Some(l) = operand_local_of(o) {
                        if l.0 == obj {
                            assert(mutates(kd, obj));
                            return true;
                        }
                    }
                },
                _ => {},
            }
            assert(!mutates(kd, obj));
            s = s + 1;
        }
        k = k + 1;
    }
    false
}

/// Sets mark `j` of row `b`.
fn set_mark(marks: &mut Vec<Vec<bool>>, b: usize, j: usize)
    requires
        b < old(marks)@.len(),
        j < old(marks)@[b as int]@.len(),
    ensures
        final(marks)@.len() == old(marks)@.len(),
        forall|q: int| 0 <= q < old(marks)@.len() && q != b ==> #[trigger] final(marks)@[q] == old(marks)@[q],
        final(marks)@[b as int]@ == old(marks)@[b as int]@.update(j as int, true),
{
    let mut row: Vec<bool> = Vec::new();
    marks.set_and_swap(b, &mut row);
    row.set(j, true);
    marks.set_and_swap(b, &mut row);
}

/// Statement `j` of block `b` is an unflagged access `obj[i]` in the body of
/// loop `lp`, whose header guards `i < limit`; `i` is a non-negative
/// induction variable (by the entry state `entry` and the body blocks
/// `body`), `obj` is not mutated in the body, and `limit` bounds its length
/// at entry.
pub open spec fn loop_mark(f: MirFunction, counts: Map<usize, usize>, lp: Loop, entry: Sites, body: Seq<usize>, b: int, j: int) -> bool {
    match header_guard_pair(f.basic_blocks@[lp.header.0 as int]) {
        Some((i, limit)) => {
            &&& nonneg_ind(f, body, entry, i)
            &&& index_set_contents(lp.body).contains(b as usize)
            &&& match index_access(f.basic_blocks@[b].statements@[j]) {
                Some((obj, idx, already)) => {
                    &&& !already
                    &&& operand_local(idx) == Some(i)
                    &&& match operand_local(obj) {
                        Some(o) => !mutated_in(f, body, o) && limit_bounds(f, entry, counts, limit, o),
                        None => false,
                    }
                },
                None => false,
            }
        },
        None => false,
    }
}

/// `entry` and `body` are what `add_loop_marks` uses for loop `lp`: the
/// entry state `entry_state` gives under `doms`, and the body's blocks, each
/// once.
pub open spec fn loop_inputs(f: MirFunction, doms: Seq<IndexSet>, lp: Loop, entry: Sites, body: Seq<usize>) -> bool {
    header_guard_pair(f.basic_blocks@[lp.header.0 as int]) is Some ==> {
        &&& entry_ok(f, doms, lp.header.0 as int, entry)
        &&& body.to_set() == index_set_contents(lp.body)
        &&& body.no_duplicates()
    }
}

/// Some loop among the first `n` of `loops` marks statement `j` of block `b`.
pub open spec fn marked_by(
    f: MirFunction,
    counts: Map<usize, usize>,
    loops: Seq<Loop>,
    entries: Seq<Sites>,
    bodies: Seq<Seq<usize>>,
    n: int,
    b: int,
    j: int,
) -> bool {
    exists|q: int| 0 <= q < n && #[trigger] loop_mark(f, counts, loops[q], entries[q], bodies[q], b, j)
}

/// `marks` is `orig` with every statement marked that one of `loops` marks,
/// given the dominator sets `doms`, entry states `entries` and body orders
/// `bodies` that `add_loop_marks` works with.
pub open spec fn loops_marked(
    f: MirFunction,
    counts: Map<usize, usize>,
    orig: Seq<Vec<bool>>,
    marks: Seq<Vec<bool>>,
    doms: Seq<IndexSet>,
    loops: Seq<Loop>,
    entries: Seq<Sites>,
    bodies: Seq<Seq<usize>>,
) -> bool {
    &&& found_loops(f.basic_blocks@, loops)
    &&& dominance(f.basic_blocks@, dom_view(doms))
    &&& entries.len() == loops.len()
    &&& bodies.len() == loops.len()
    &&& forall|q: int| 0 <= q < loops.len() ==> loop_inputs(f, doms, #[trigger] loops[q], entries[q], bodies[q])
    &&& forall|b: int, j: int|
        0 <= b < f.basic_blocks@.len() && 0 <= j < f.basic_blocks@[b].statements@.len() ==> (#[trigger] marks[b]@[j]
            == (orig[b]@[j] || marked_by(f, counts, loops, entries, bodies, loops.len() as int, b, j)))
}

/// Marks the accesses `xs[i]` the induction argument proves in range, in
/// each natural loop whose header is guarded by `i < limit`.
fn add_loop_marks(func: &MirFunction, d: &Defs, marks: &mut Vec<Vec<bool>>)
    requires
        shaped(old(marks)@, func.basic_blocks@),
    ensures
        shaped(final(marks)@, func.basic_blocks@),
        forall|b: int, j: int|
            0 <= b < func.basic_blocks@.len() && 0 <= j < func.basic_blocks@[b].statements@.len() ==> {
                &&& old(marks)@[b]@[j] ==> #[trigger] final(marks)@[b]@[j]
                &&& final(marks)@[b]@[j] ==> old(marks)@[b]@[j] || loop_candidate(func.basic_blocks@, b, j)
            },
        exists|doms: Seq<IndexSet>, loops: Seq<Loop>, entries: Seq<Sites>, bodies: Seq<Seq<usize>>|
            #[trigger] loops_marked(
                *func,
                index_map_contents(d.counts),
                old(marks)@,
                final(marks)@,
                doms,
                loops,
                entries,
                bodies,
            ),
{
    let ghost f = *func;
    let ghost blocks = func.basic_blocks@;
    let ghost orig = marks@;
    let ghost counts = index_map_contents(d.counts);
    let doms = dominators(func);
    let loops = find_loops(func);
    let ghost mut entries: Seq<Sites> = seq![];
    let ghost mut bodies: Seq<Seq<usize>> = seq![];
    let mut li: usize = 0;
    while li < loops.len()
        invariant
            f == *func,
            blocks == func.basic_blocks@,
            counts == index_map_contents(d.counts),
            dominance(blocks, dom_view(doms@)),
            found_loops(blocks, loops@),
            doms@.len() == blocks.len(),
            forall|b: int, m: usize|
                0 <= b < doms@.len() && #[trigger] index_set_contents(doms@[b]).contains(m) ==> m < doms@.len(),
            forall|q: int| 0 <= q < loops@.len() ==> natural_loop(blocks, #[trigger] loops@[q]),
            0 <= li <= loops@.len(),
            entries.len() == li,
            bodies.len() == li,
            forall|q: int| 0 <= q < li ==> loop_inputs(f, doms@, #[trigger] loops@[q], entries[q], bodies[q]),
            shaped(marks@, blocks),
            shaped(orig, blocks),
            forall|b: int, j: int|
                0 <= b < blocks.len() && 0 <= j < blocks[b].statements@.len() ==> {
                    &&& orig[b]@[j] ==> #[trigger] marks@[b]@[j]
                    &&& marks@[b]@[j] ==> orig[b]@[j] || loop_candidate(blocks, b, j)
                    &&& marks@[b]@[j] == (orig[b]@[j] || marked_by(f, counts, loops@, entries, bodies, li as int, b, j))
                },
        decreases loops.len() - li,
    {
        let h = loops[li].header.0;
        assert(natural_loop(blocks, loops@[li as int]));
        let ghost e_cur: Sites = arbitrary();
        let ghost b_cur: Seq<usize> = arbitrary();
        match header_guard(&func.basic_blocks[h]) {
            Some((i, limit)) => {
                let entry = entry_state(func, &doms, h);
                let body = loops[li].body.to_vec();
                proof {
                    e_cur = entry;
                    b_cur = body@;
                }
                assert forall|q: int| 0 <= q < body@.len() implies (#[trigger] body@[q]) < blocks.len() by {
                    assert(body@.to_set().contains(body@[q]));
                }
                if nonneg_induction(func, &body, &entry, i) {
                    let mut bounded = IndexMap::new();
                    let mut k: usize = 0;
                    while k < body.len()
                        invariant
                            f == *func,
                            blocks == func.basic_blocks@,
                            counts == index_map_contents(d.counts),
                            li < loops@.len(),
                            natural_loop(blocks, loops@[li as int]),
                            h == loops@[li as int].header.0,
                            header_guard_local(blocks[h as int]) == Some(i),
                            header_guard_pair(blocks[h as int]) == Some((i, limit)),
                            nonneg_ind(f, body@, entry, i),
                            e_cur == entry,
                            b_cur == body@,
                            body@.to_set() == index_set_contents(loops@[li as int].body),
                            body@.no_duplicates(),
                            forall|q: int| 0 <= q < body@.len() ==> (#[trigger] body@[q]) < blocks.len(),
                            entries.len() == li,
                            bodies.len() == li,
                            0 <= k <= body@.len(),
                            forall|o: usize|
                                #[trigger] index_map_contents(bounded).contains_key(o) ==> index_map_contents(bounded)[o]
                                    == (if !mutated_in(f, body@, o) && limit_bounds(f, entry, counts, limit, o) {
                                    1usize
                                } else {
                                    0usize
                                }),
                            shaped(marks@, blocks),
                            shaped(orig, blocks),
                            forall|b: int, j: int|
                                0 <= b < blocks.len() && 0 <= j < blocks[b].statements@.len() ==> {
                                    &&& orig[b]@[j] ==> #[trigger] marks@[b]@[j]
                                    &&& marks@[b]@[j] ==> orig[b]@[j] || loop_candidate(blocks, b, j)
                                    &&& marks@[b]@[j] == (orig[b]@[j] || marked_by(
                                        f,
                                        counts,
                                        loops@,
                                        entries,
                                        bodies,
                                        li as int,
                                        b,
                                        j,
                                    ) || ((exists|k2: int| 0 <= k2 < k && body@[k2] == b) && loop_mark(
                                        f,
                                        counts,
                                        loops@[li as int],
                                        entry,
                                        body@,
                                        b,
                                        j,
                                    )))
                                },
                        decreases body.len() - k,
                    {
                        let b = body[k];
                        assert(body@.to_set().contains(b)) by {
                            assert(body@[k as int] == b);
                        }
                        let mut s: usize = 0;
                        while s < func.basic_blocks[b].statements.len()
                            invariant
                                f == *func,
                                blocks == func.basic_blocks@,
                                counts == index_map_contents(d.counts),
                                li < loops@.len(),
                                natural_loop(blocks, loops@[li as int]),
                                h == loops@[li as int].header.0,
                                header_guard_local(blocks[h as int]) == Some(i),
                                header_guard_pair(blocks[h as int]) == Some((i, limit)),
                                nonneg_ind(f, body@, entry, i),
                                body@.to_set() == index_set_contents(loops@[li as int].body),
                                body@.no_duplicates(),
                                0 <= k < body@.len(),
                                b == body@[k as int],
                                b < blocks.len(),
                                index_set_contents(loops@[li as int].body).contains(b),
                                forall|q: int| 0 <= q < body@.len() ==> (#[trigger] body@[q]) < blocks.len(),
                                entries.len() == li,
                                bodies.len() == li,
                                forall|o: usize|
                                    #[trigger] index_map_contents(bounded).contains_key(o) ==> index_map_contents(
                                        bounded,
                                    )[o] == (if !mutated_in(f, body@, o) && limit_bounds(f, entry, counts, limit, o) {
                                        1usize
                                    } else {
                                        0usize
                                    }),
                                shaped(marks@, blocks),
                                shaped(orig, blocks),
                                0 <= s <= blocks[b as int].statements@.len(),
                                forall|b2: int, j: int|
                                    0 <= b2 < blocks.len() && 0 <= j < blocks[b2].statements@.len() ==> {
                                        &&& orig[b2]@[j] ==> #[trigger] marks@[b2]@[j]
                                        &&& marks@[b2]@[j] ==> orig[b2]@[j] || loop_candidate(blocks, b2, j)
                                        &&& marks@[b2]@[j] == (orig[b2]@[j] || marked_by(
                                            f,
                                            counts,
                                            loops@,
                                            entries,
                                            bodies,
                                            li as int,
                                            b2,
                                            j,
                                        ) || (((exists|k2: int| 0 <= k2 < k && body@[k2] == b2) || (b2 == b && j < s))
                                            && loop_mark(f, counts, loops@[li as int], entry, body@, b2, j)))
                                    },
                            decreases blocks[b as int].statements@.len() - s,
                        {
                            let stmts = &func.basic_blocks[b].statements;
                            let mut ok = false;
                            if let Some((obj, idx, already)) = index_access_of(&stmts[s]) {
                                let reads_i = match operand_local_of(idx) {
                                    Some(x) => x.0 == i,
                                    None => false,
                                };
                                if !already && reads_i {
                                    if let Some(o) = operand_local_of(obj) {
                                        ok = match bounded.get(o.0) {
                                            Some(v) => v == 1,
                                            None => {
                                                let v = !mutated_in_loop(func, &body, o.0)
                                                    && limit_bounds_object(func, &entry, d, &limit, o.0);
                                                bounded.insert(o.0, if v { 1 } else { 0 });
                                                v
                                            },
                                        };
                                    }
                                }
                            }
                            let ghost lm = loop_mark(f, counts, loops@[li as int], entry, body@, b as int, s as int);
                            assert(ok == lm);
                            let ghost before = marks@;
                            if ok {
                                proof {
                                    let lp = loops@[li as int];
                                    assert(loop_candidate(blocks, b as int, s as int)) by {
                                        assert(natural_loop(blocks, lp));
                                    }
                                }
                                set_mark(marks, b, s);
                            }
                            proof {
                                assert forall|q: int| 0 <= q < blocks.len() implies (#[trigger] marks@[q])@.len()
                                    == blocks[q].statements@.len() by {
                                    if q != b {
                                        assert(marks@[q] == before[q]);
                                    }
                                }
                                assert forall|q: int, j: int|
                                    0 <= q < blocks.len() && 0 <= j < blocks[q].statements@.len() implies {
                                        &&& orig[q]@[j] ==> #[trigger] marks@[q]@[j]
                                        &&& marks@[q]@[j] ==> orig[q]@[j] || loop_candidate(blocks, q, j)
                                        &&& marks@[q]@[j] == (orig[q]@[j] || marked_by(
                                            f,
                                            counts,
                                            loops@,
                                            entries,
                                            bodies,
                                            li as int,
                                            q,
                                            j,
                                        ) || (((exists|k2: int| 0 <= k2 < k && body@[k2] == q) || (q == b && j < s + 1))
                                            && loop_mark(f, counts, loops@[li as int], entry, body@, q, j)))
                                    } by {
                                    if q != b || j != s {
                                        if ok && q == b {
                                            assert(marks@[q]@[j] == before[q]@[j]);
                                        } else if q != b {
                                            assert(marks@[q] == before[q]);
                                        }
                                    }
                                    if q == b && (exists|k2: int| 0 <= k2 < k && body@[k2] == q) {
                                        let k2 = choose|k2: int| 0 <= k2 < k && body@[k2] == q;
                                        assert(body@[k2] == body@[k as int]);
                                        assert(false);
                                    }
                                    assert(orig[q]@[j] ==> before[q]@[j]);
                                }
                            }
                            s = s + 1;
                        }
                        proof {
                            assert forall|b2: int, j: int|
                                0 <= b2 < blocks.len() && 0 <= j < blocks[b2].statements@.len() implies (
                                #[trigger] marks@[b2]@[j] == (orig[b2]@[j] || marked_by(
                                    f,
                                    counts,
                                    loops@,
                                    entries,
                                    bodies,
                                    li as int,
                                    b2,
                                    j,
                                ) || ((exists|k2: int| 0 <= k2 < k + 1 && body@[k2] == b2) && loop_mark(
                                    f,
                                    counts,
                                    loops@[li as int],
                                    entry,
                                    body@,
                                    b2,
                                    j,
                                )))) by {
                                if b2 == b {
                                    assert(0 <= k < k + 1 && body@[k as int] == b2);
                                } else if exists|k2: int| 0 <= k2 < k + 1 && body@[k2] == b2 {
                                    let k2 = choose|k2: int| 0 <= k2 < k + 1 && body@[k2] == b2;
                                    assert(k2 < k);
                                }
                            }
                        }
                        k = k + 1;
                    }
                    proof {
                        assert forall|b2: int, j: int|
                            0 <= b2 < blocks.len() && 0 <= j < blocks[b2].statements@.len() && loop_mark(
                                f,
                                counts,
                                loops@[li as int],
                                entry,
                                body@,
                                b2,
                                j,
                            ) implies exists|k2: int| 0 <= k2 < body@.len() && body@[k2] == b2 by {
                            assert(body@.to_set().contains(b2 as usize));
                        }
                    }
                } else {
                    proof {
                        assert forall|b2: int, j: int|
                            0 <= b2 < blocks.len() && 0 <= j < blocks[b2].statements@.len() implies !loop_mark(
                                f,
                                counts,
                                loops@[li as int],
                                entry,
                                body@,
                                b2,
                                j,
                            ) by {}
                    }
                }
            },
            None => {},
        }
        proof {
            let entries0 = entries;
            let bodies0 = bodies;
            entries = entries.push(e_cur);
            bodies = bodies.push(b_cur);
            assert forall|q: int| 0 <= q < li + 1 implies loop_inputs(f, doms@, #[trigger] loops@[q], entries[q], bodies[q]) by {
                if q < li {
                    assert(entries[q] == entries0[q] && bodies[q] == bodies0[q]);
                }
            }
            assert forall|b2: int, j: int|
                0 <= b2 < blocks.len() && 0 <= j < blocks[b2].statements@.len() implies (#[trigger] marks@[b2]@[j]
                == (orig[b2]@[j] || marked_by(f, counts, loops@, entries, bodies, li + 1, b2, j))) by {
                if marked_by(f, counts, loops@, entries, bodies, li + 1, b2, j) {
                    let q = choose|q: int| 0 <= q < li + 1 && #[trigger] loop_mark(f, counts, loops@[q], entries[q], bodies[q], b2, j);
                    if q < li {
                        assert(entries[q] == entries0[q] && bodies[q] == bodies0[q]);
                        assert(marked_by(f, counts, loops@, entries0, bodies0, li as int, b2, j));
                    }
                }
                if marked_by(f, counts, loops@, entries0, bodies0, li as int, b2, j) {
                    let q = choose|q: int| 0 <= q < li && #[trigger] loop_mark(f, counts, loops@[q], entries0[q], bodies0[q], b2, j);
                    assert(entries[q] == entries0[q] && bodies[q] == bodies0[q]);
                }
                if loop_mark(f, counts, loops@[li as int], e_cur, b_cur, b2, j) {
                    assert(entries[li as int] == e_cur && bodies[li as int] == b_cur);
                }
            }
        }
        li = li + 1;
    }
    proof {
        assert(loops_marked(f, counts, orig, marks@, doms@, loops@, entries, bodies));
    }
}

/// Sets the flag of every marked statement.
fn apply_marks(blocks: &mut Vec<BasicBlock>, marks: &Vec<Vec<bool>>) -> (changed: bool)
    requires
        shaped(marks@, old(blocks)@),
        forall|b: int, j: int|
            0 <= b < old(blocks)@.len() && 0 <= j < old(blocks)@[b].statements@.len() && #[trigger] marks@[b]@[j]
                ==> unflagged_access(old(blocks)@[b].statements@[j]),
    ensures
        final(blocks)@.len() == old(blocks)@.len(),
        forall|b: int|
            0 <= b < old(blocks)@.len() ==> {
                &&& (#[trigger] final(blocks)@[b]).terminator == old(blocks)@[b].terminator
                &&& final(blocks)@[b].statements@.len() == old(blocks)@[b].statements@.len()
            },
        forall|b: int, j: int|
            0 <= b < old(blocks)@.len() && 0 <= j < old(blocks)@[b].statements@.len() ==> if #[trigger] marks@[b]@[j] {
                &&& flag_set(old(blocks)@[b].statements@[j], final(blocks)@[b].statements@[j])
                &&& final(blocks)@[b].statements@[j] != old(blocks)@[b].statements@[j]
            } else {
                final(blocks)@[b].statements@[j] == old(blocks)@[b].statements@[j]
            },
        changed == exists|b: int, j: int|
            0 <= b < old(blocks)@.len() && 0 <= j < old(blocks)@[b].statements@.len() && #[trigger] marks@[b]@[j],
{
    let ghost orig = blocks@;
    let mut changed = false;
    let mut b: usize = 0;
    while b < blocks.len()
        invariant
            blocks@.len() == orig.len(),
            shaped(marks@, orig),
            forall|q: int, j: int|
                0 <= q < orig.len() && 0 <= j < orig[q].statements@.len() && #[trigger] marks@[q]@[j]
                    ==> unflagged_access(orig[q].statements@[j]),
            0 <= b <= orig.len(),
            forall|q: int| b <= q < orig.len() ==> #[trigger] blocks@[q] == orig[q],
            forall|q: int|
                0 <= q < b ==> {
                    &&& (#[trigger] blocks@[q]).terminator == orig[q].terminator
                    &&& blocks@[q].statements@.len() == orig[q].statements@.len()
                },
            forall|q: int, j: int|
                0 <= q < b && 0 <= j < orig[q].statements@.len() ==> if #[trigger] marks@[q]@[j] {
                    &&& flag_set(orig[q].statements@[j], blocks@[q].statements@[j])
                    &&& blocks@[q].statements@[j] != orig[q].statements@[j]
                } else {
                    blocks@[q].statements@[j] == orig[q].statements@[j]
                },
            changed == exists|q: int, j: int|
                0 <= q < b && 0 <= j < orig[q].statements@.len() && #[trigger] marks@[q]@[j],
        decreases orig.len() - b,
    {
        let mut bb = BasicBlock { statements: Vec::new(), terminator: None };
        blocks.set_and_swap(b, &mut bb);
        let ghost start = bb.statements@;
        let row = &marks[b];
        let mut any = false;
        let mut j: usize = 0;
        while j < bb.statements.len()
            invariant
                b < orig.len(),
                bb.terminator == orig[b as int].terminator,
                start == orig[b as int].statements@,
                row@.len() == start.len(),
                row@ == marks@[b as int]@,
                forall|q: int| 0 <= q < start.len() && #[trigger] row@[q]
                    ==> unflagged_access(start[q]),
                bb.statements@.len() == start.len(),
                0 <= j <= start.len(),
                forall|q: int| j <= q < start.len() ==> #[trigger] bb.statements@[q] == start[q],
                forall|q: int|
                    0 <= q < j ==> if #[trigger] row@[q] {
                        &&& flag_set(start[q], bb.statements@[q])
                        &&& bb.statements@[q] != start[q]
                    } else {
                        bb.statements@[q] == start[q]
                    },
                any == exists|q: int| 0 <= q < j && #[trigger] row@[q],
            decreases start.len() - j,
        {
            if row[j] {
                let span = bb.statements[j].span;
                let mut st = Statement { kind: StatementKind::StorageLive(Local(0)), span };
                bb.statements.set_and_swap(j, &mut st);
                let kind = match st.kind {
                    StatementKind::Assign(dst, Rvalue::GetIndex(o, i, _)) => StatementKind::Assign(
                        dst,
                        Rvalue::GetIndex(o, i, true),
                    ),
                    StatementKind::SetIndex(o, i, v, _) => StatementKind::SetIndex(o, i, v, true),
                    other => other,
                };
                bb.statements.set(j, Statement { kind, span });
                any = true;
            }
            j = j + 1;
        }
        blocks.set_and_swap(b, &mut bb);
        changed = changed || any;
        b = b + 1;
    }
    changed
}

/// `new` flags exactly the accesses of `old` that the block scan proves in
/// range (`local_mark`) or that one of `loops` proves in range
/// (`marked_by`), for the assignment counts `counts` of `old`, dominator sets
/// `doms` of the shape `dominators` gives, and the entry states and body
/// orders `add_loop_marks` works with.
pub open spec fn bce_exact(
    old: MirFunction,
    new: MirFunction,
    counts: Map<usize, usize>,
    doms: Seq<IndexSet>,
    loops: Seq<Loop>,
    entries: Seq<Sites>,
    bodies: Seq<Seq<usize>>,
) -> bool {
    let blocks = old.basic_blocks@;
    &&& forall|l: usize| #[trigger] count_of(counts, l) == capped(statements_assign_count(flat(blocks), l))
    &&& found_loops(blocks, loops)
    &&& dominance(blocks, dom_view(doms))
    &&& entries.len() == loops.len()
    &&& bodies.len() == loops.len()
    &&& forall|q: int| 0 <= q < loops.len() ==> loop_inputs(old, doms, #[trigger] loops[q], entries[q], bodies[q])
    &&& forall|b: int, j: int|
        0 <= b < blocks.len() && 0 <= j < blocks[b].statements@.len() ==> (
        #[trigger] new.basic_blocks@[b].statements@[j] != blocks[b].statements@[j]) == (local_mark(
            flat(blocks),
            blocks[b].statements@,
            j,
        ) || marked_by(old, counts, loops, entries, bodies, loops.len() as int, b, j))
}

impl Transform for BoundsCheckElim {
    open spec fn accepts(&self, func: MirFunction) -> bool {
        true
    }

    /// Sets the flag of every access the block scan proves in range
    /// (`local_mark`) and of accesses the induction argument proves in
    /// range (`bce_exact`), which lie among the `loop_candidate`s; nothing
    /// else changes.
    fn run(&self, func: &mut MirFunction) -> (changed: bool)
        ensures
            same_except_blocks(*final(func), *old(func)),
            final(func).basic_blocks@.len() == old(func).basic_blocks@.len(),
            forall|b: int|
                0 <= b < old(func).basic_blocks@.len() ==> {
                    &&& (#[trigger] final(func).basic_blocks@[b]).terminator
                        == old(func).basic_blocks@[b].terminator
                    &&& final(func).basic_blocks@[b].statements@.len()
                        == old(func).basic_blocks@[b].statements@.len()
                },
            forall|b: int, j: int|
                0 <= b < old(func).basic_blocks@.len() && 0 <= j
                    < old(func).basic_blocks@[b].statements@.len() ==> #[trigger] checks_dropped(
                    old(func).basic_blocks@,
                    final(func).basic_blocks@,
                    b,
                    j,
                ),
            changed == exists|b: int, j: int|
                0 <= b < old(func).basic_blocks@.len() && 0 <= j
                    < old(func).basic_blocks@[b].statements@.len()
                    && #[trigger] final(func).basic_blocks@[b].statements@[j]
                    != old(func).basic_blocks@[b].statements@[j],
            exists|counts: Map<usize, usize>, doms: Seq<IndexSet>, loops: Seq<Loop>, entries: Seq<Sites>, bodies: Seq<
                Seq<usize>,
            >| #[trigger] bce_exact(*old(func), *final(func), counts, doms, loops, entries, bodies),
    {
        let ghost f0 = *func;
        let ghost blocks = func.basic_blocks@;
        let d = gather_defs(func);
        let disq = gather_disqualified(func, &d);
        let mut marks = local_marks(func, &d, &disq);
        let ghost first = marks@;
        add_loop_marks(func, &d, &mut marks);
        let ghost counts = index_map_contents(d.counts);
        let ghost (doms, loops, entries, bodies) = choose|doms: Seq<IndexSet>, loops: Seq<Loop>, entries: Seq<Sites>, bodies: Seq<Seq<usize>>|
            #[trigger] loops_marked(f0, counts, first, marks@, doms, loops, entries, bodies);
        proof {
            assert forall|b: int, j: int|
                0 <= b < blocks.len() && 0 <= j < blocks[b].statements@.len() && #[trigger] marks@[b]@[j]
                    implies unflagged_access(blocks[b].statements@[j]) by {
                if first[b]@[j] {
                    assert(local_mark(flat(blocks), blocks[b].statements@, j));
                }
            }
        }
        let changed = apply_marks(&mut func.basic_blocks, &marks);
        proof {
            assert forall|b: int, j: int|
                0 <= b < blocks.len() && 0 <= j < blocks[b].statements@.len() implies #[trigger] checks_dropped(
                    blocks,
                    func.basic_blocks@,
                    b,
                    j,
                ) by {
                assert(first[b]@[j] == local_mark(flat(blocks), blocks[b].statements@, j));
                assert(marks@[b]@[j] ==> first[b]@[j] || loop_candidate(blocks, b, j));
                assert(first[b]@[j] ==> marks@[b]@[j]);
            }
            if changed {
                let (b, j) = choose|b: int, j: int|
                    0 <= b < blocks.len() && 0 <= j < blocks[b].statements@.len() && #[trigger] marks@[b]@[j];
                assert(func.basic_blocks@[b].statements@[j] != blocks[b].statements@[j]);
            }
            if exists|b: int, j: int|
                0 <= b < blocks.len() && 0 <= j < blocks[b].statements@.len()
                    && #[trigger] func.basic_blocks@[b].statements@[j] != blocks[b].statements@[j] {
                let (b, j) = choose|b: int, j: int|
                    0 <= b < blocks.len() && 0 <= j < blocks[b].statements@.len()
                        && #[trigger] func.basic_blocks@[b].statements@[j] != blocks[b].statements@[j];
                assert(marks@[b]@[j]);
            }
            assert forall|l: usize| #[trigger] count_of(counts, l) == capped(statements_assign_count(flat(blocks), l)) by {
                assert(count_of(index_map_contents(d.counts), l) == capped(statements_assign_count(flat(blocks), l)));
            }
            assert forall|b: int, j: int|
                0 <= b < blocks.len() && 0 <= j < blocks[b].statements@.len() implies (
                #[trigger] func.basic_blocks@[b].statements@[j] != blocks[b].statements@[j]) == (local_mark(
                    flat(blocks),
                    blocks[b].statements@,
                    j,
                ) || marked_by(f0, counts, loops, entries, bodies, loops.len() as int, b, j)) by {
                assert(first[b]@[j] == local_mark(flat(blocks), blocks[b].statements@, j));
                assert(marks@[b]@[j] == (first[b]@[j] || marked_by(f0, counts, loops, entries, bodies, loops.len() as int, b, j)));
            }
            assert(bce_exact(f0, *func, counts, doms, loops, entries, bodies));
        }
        changed
    }
}

} // verus!
