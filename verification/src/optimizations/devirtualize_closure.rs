//! Closure-call devirtualization: an indirect call through a closure value
//! whose thunk is a known function, stored once on a record allocated once,
//! is rewritten into a direct call of that thunk with the record appended
//! as its trailing environment argument.

use super::copy_prop::count_of;
use super::scalarize::{flat, lemma_flat_all, lemma_flat_index, lemma_flat_step};
use super::{op_locals, rvalue_locals, rvalue_operand_locals, Transform};
use crate::fx::{index_map_contents, index_set_contents, IndexMap, IndexSet};
use crate::ir::{clone_operands, is_named, operand_local, operand_local_of, same_except_blocks, BasicBlock, Constant, Local, MirFunction, Operand, Rvalue, Statement, StatementKind, Type};
use vstd::prelude::*;

verus! {

pub struct DevirtualizeClosures;

/// The locals a statement reads, in order; a drop reads its local.
pub open spec fn statement_read_locals(kind: StatementKind) -> Seq<Local> {
    match kind {
        StatementKind::Assign(_, rv) => rvalue_locals(rv),
        StatementKind::SetAttr(o, _, v) | StatementKind::PtrStore(o, v) => op_locals(o) + op_locals(v),
        StatementKind::SetIndex(o, i, v, _) | StatementKind::VectorStore(o, i, v) => op_locals(o) + op_locals(i)
            + op_locals(v),
        StatementKind::Drop(l) => seq![l],
        StatementKind::GenCheck { value, generation } => seq![value, generation],
        StatementKind::StorageLive(_) | StatementKind::StorageDead(_) => seq![],
    }
}

/// The statement reads local `d`.
pub open spec fn reads_at(s: Statement, d: usize) -> bool {
    statement_read_locals(s.kind).contains(Local(d))
}

/// The local the statement assigns.
pub open spec fn assign_dest(s: Statement) -> Option<usize> {
    match s.kind {
        StatementKind::Assign(l, _) => Some(l.0),
        _ => None,
    }
}

/// `d` is assigned at `k` and neither read nor assigned again before `m`.
pub open spec fn open_def(stmts: Seq<Statement>, d: usize, k: int, m: int) -> bool {
    &&& 0 <= k < m
    &&& assign_dest(stmts[k]) == Some(d)
    &&& forall|x: int| k < x < m ==> !reads_at(#[trigger] stmts[x], d) && assign_dest(stmts[x]) != Some(d)
}

/// The assignment at `k` is overwritten, before position `m`, by an
/// assignment that does not read its local, nothing reading the local in
/// between.
pub open spec fn dead_before(stmts: Seq<Statement>, k: int, m: int) -> bool {
    assign_dest(stmts[k]) matches Some(d) && exists|j: int|
        k < j < m && #[trigger] open_def(stmts, d, k, j) && assign_dest(stmts[j]) == Some(d) && !reads_at(stmts[j], d)
}

/// The assignment at `k` can reach no use: it is overwritten in its block
/// before anything reads it.
pub open spec fn dead_def(stmts: Seq<Statement>, k: int) -> bool {
    dead_before(stmts, k, stmts.len() as int)
}

/// How many of the first `m` statements assign `l` and are not dead.
pub open spec fn live_upto(stmts: Seq<Statement>, l: usize, m: int) -> nat
    decreases m,
{
    if m <= 0 {
        0
    } else {
        live_upto(stmts, l, m - 1) + if assign_dest(stmts[m - 1]) == Some(l) && !dead_def(stmts, m - 1) {
            1nat
        } else {
            0nat
        }
    }
}

/// How many assignments of `l` in `blocks` are not dead.
pub open spec fn def_count(blocks: Seq<BasicBlock>, l: usize) -> nat
    decreases blocks.len(),
{
    if blocks.len() == 0 {
        0
    } else {
        def_count(blocks.drop_last(), l) + live_upto(
            blocks.last().statements@,
            l,
            blocks.last().statements@.len() as int,
        )
    }
}

/// `x` capped at the largest `usize`.
pub open spec fn capped(x: nat) -> nat {
    if x < usize::MAX {
        x
    } else {
        usize::MAX as nat
    }
}

/// Appends the locals a statement reads to `out`, as
/// `statement_read_locals` lists them.
fn statement_reads(kind: &StatementKind, out: &mut Vec<Local>)
    ensures
        final(out)@ == old(out)@ + statement_read_locals(*kind),
{
    match kind {
        StatementKind::Assign(_, rval) => rvalue_operand_locals(rval, out),
        StatementKind::SetAttr(o, _, v) | StatementKind::PtrStore(o, v) => {
            push_local_of(o, out);
            push_local_of(v, out);
            assert(out@ =~= old(out)@ + statement_read_locals(*kind));
        },
        StatementKind::SetIndex(o, i, v, _) | StatementKind::VectorStore(o, i, v) => {
            push_local_of(o, out);
            push_local_of(i, out);
            push_local_of(v, out);
            assert(out@ =~= old(out)@ + statement_read_locals(*kind));
        },
        StatementKind::Drop(l) => {
            out.push(*l);
            assert(out@ =~= old(out)@ + statement_read_locals(*kind));
        },
        StatementKind::GenCheck { value, generation } => {
            out.push(*value);
            out.push(*generation);
            assert(out@ =~= old(out)@ + statement_read_locals(*kind));
        },
        StatementKind::StorageLive(_) | StatementKind::StorageDead(_) => {
            assert(out@ =~= old(out)@ + statement_read_locals(*kind));
        },
    }
}

fn push_local_of(op: &crate::ir::Operand, out: &mut Vec<Local>)
    ensures
        final(out)@ == old(out)@ + op_locals(*op),
{
    match op {
        crate::ir::Operand::Copy(l) | crate::ir::Operand::Move(l) => {
            out.push(*l);
        },
        crate::ir::Operand::Constant(_) => {},
    }
    assert(out@ =~= old(out)@ + op_locals(*op));
}

/// Which assignments of a block are dead, as `dead_def` says.
fn dead_flags(stmts: &Vec<Statement>) -> (dead: Vec<bool>)
    ensures
        dead@.len() == stmts@.len(),
        forall|k: int| 0 <= k < stmts@.len() ==> #[trigger] dead@[k] == dead_def(stmts@, k),
{
    let ghost ss = stmts@;
    let n = stmts.len();
    let mut dead: Vec<bool> = Vec::new();
    let mut i: usize = 0;
    while i < n
        invariant
            0 <= i <= n,
            n == ss.len(),
            dead@.len() == i,
            forall|k: int| 0 <= k < i ==> !#[trigger] dead@[k],
        decreases n - i,
    {
        dead.push(false);
        i = i + 1;
    }
    let mut pending = IndexMap::new();
    let mut m: usize = 0;
    while m < n
        invariant
            0 <= m <= n,
            n == ss.len(),
            ss == stmts@,
            dead@.len() == n,
            forall|d: usize|
                #![trigger index_map_contents(pending).contains_key(d)]
                index_map_contents(pending).contains_key(d) ==> open_def(ss, d, index_map_contents(pending)[d] as int, m as int),
            forall|d: usize, k: int|
                #[trigger] open_def(ss, d, k, m as int) ==> index_map_contents(pending).contains_key(d),
            forall|k: int| 0 <= k < n ==> #[trigger] dead@[k] == (k < m && dead_before(ss, k, m as int)),
        decreases n - m,
    {
        let ghost p0 = index_map_contents(pending);
        let mut reads: Vec<Local> = Vec::new();
        statement_reads(&stmts[m].kind, &mut reads);
        let ghost rl = reads@;
        assert(rl == statement_read_locals(ss[m as int].kind));
        let mut q: usize = 0;
        while q < reads.len()
            invariant
                0 <= q <= reads@.len(),
                reads@ == rl,
                forall|d: usize|
                    #![trigger index_map_contents(pending).contains_key(d)]
                    index_map_contents(pending).contains_key(d) == (p0.contains_key(d) && !rl.subrange(0, q as int).contains(Local(d))),
                forall|d: usize| #[trigger] index_map_contents(pending).contains_key(d) ==> index_map_contents(pending)[d] == p0[d],
            decreases reads.len() - q,
        {
            pending.remove(reads[q].0);
            proof {
                let sub = rl.subrange(0, q as int);
                let sub1 = rl.subrange(0, q + 1);
                assert forall|d: usize| #![trigger index_map_contents(pending).contains_key(d)]
                    index_map_contents(pending).contains_key(d) == (p0.contains_key(d) && !sub1.contains(Local(d))) by {
                    if sub.contains(Local(d)) {
                        let i = choose|i: int| 0 <= i < sub.len() && sub[i] == Local(d);
                        assert(sub1[i] == Local(d));
                    }
                    if rl[q as int] == Local(d) {
                        assert(sub1[q as int] == Local(d));
                    }
                    if sub1.contains(Local(d)) {
                        let i = choose|i: int| 0 <= i < sub1.len() && sub1[i] == Local(d);
                        if i < q {
                            assert(sub[i] == sub1[i]);
                        }
                    }
                }
            }
            q = q + 1;
        }
        proof {
            assert(rl.subrange(0, rl.len() as int) =~= rl);
        }
        let ghost p1 = index_map_contents(pending);
        match &stmts[m].kind {
            StatementKind::Assign(dest, _) => {
                match pending.get(dest.0) {
                    Some(prev) => {
                        proof {
                            assert(open_def(ss, dest.0, prev as int, m as int));
                        }
                        dead.set(prev, true);
                    },
                    None => {},
                }
                pending.insert(dest.0, m);
            },
            _ => {},
        }
        proof {
            let s = ss[m as int];
            assert forall|d: usize, k: int| open_def(ss, d, k, m + 1) implies (k == m && assign_dest(s) == Some(d)) || (open_def(ss, d, k, m as int)
                && !reads_at(s, d) && assign_dest(s) != Some(d)) by {
                if k < m {
                    assert(!reads_at(ss[m as int], d) && assign_dest(ss[m as int]) != Some(d));
                }
            }
            assert forall|d: usize|
                #![trigger index_map_contents(pending).contains_key(d)]
                index_map_contents(pending).contains_key(d) implies open_def(ss, d, index_map_contents(pending)[d] as int, m + 1) by {
                if assign_dest(s) == Some(d) {
                } else {
                    assert(p1.contains_key(d));
                    assert(!reads_at(s, d));
                }
            }
            assert forall|d: usize, k: int| #[trigger] open_def(ss, d, k, m + 1) implies index_map_contents(pending).contains_key(d) by {
                if k < m {
                    assert(open_def(ss, d, k, m as int));
                    assert(p0.contains_key(d));
                    assert(!reads_at(s, d));
                    assert(!rl.contains(Local(d)));
                }
            }
            assert forall|k: int| 0 <= k < n implies #[trigger] dead@[k] == (k < m + 1 && dead_before(ss, k, m + 1)) by {
                if k < m {
                    if dead_before(ss, k, m + 1) && !dead_before(ss, k, m as int) {
                        let d = assign_dest(ss[k])->0;
                        let j = choose|j: int| k < j < m + 1 && #[trigger] open_def(ss, d, k, j) && assign_dest(ss[j]) == Some(d) && !reads_at(ss[j], d);
                        assert(j == m);
                        assert(p0.contains_key(d));
                        assert(open_def(ss, d, p0[d] as int, m as int));
                        if p0[d] < k {
                            assert(!(assign_dest(ss[k]) != Some(d)));
                        }
                        if p0[d] > k {
                            assert(!(assign_dest(ss[p0[d] as int]) != Some(d)));
                        }
                        assert(p0[d] == k);
                        assert(!rl.contains(Local(d)));
                        assert(p1.contains_key(d));
                    }
                    if dead@[k] && !dead_before(ss, k, m as int) {
                        let d = assign_dest(s)->0;
                        assert(p1.contains_key(d) && p1[d] == k);
                        assert(open_def(ss, d, k, m as int));
                        assert(dead_before(ss, k, m + 1));
                    }
                }
            }
        }
        m = m + 1;
    }
    dead
}

/// Adds one to the count of `l`, staying at the largest `usize`.
fn bump(counts: &mut IndexMap, l: usize)
    ensures
        forall|x: usize|
            #![trigger count_of(index_map_contents(*final(counts)), x)]
            count_of(index_map_contents(*final(counts)), x) == if x == l {
                if count_of(index_map_contents(*old(counts)), x) < usize::MAX {
                    count_of(index_map_contents(*old(counts)), x) + 1
                } else {
                    usize::MAX as nat
                }
            } else {
                count_of(index_map_contents(*old(counts)), x)
            },
{
    match counts.get(l) {
        Some(c) => {
            if c < usize::MAX {
                counts.insert(l, c + 1);
            }
        },
        None => {
            counts.insert(l, 1);
        },
    }
}

/// How many assignments of each local are not dead, capped, as
/// `def_count` says.
fn effective_def_counts(func: &MirFunction) -> (counts: IndexMap)
    ensures
        forall|l: usize|
            #![trigger count_of(index_map_contents(counts), l)]
            count_of(index_map_contents(counts), l) == capped(def_count(func.basic_blocks@, l)),
{
    let ghost blocks = func.basic_blocks@;
    let mut counts = IndexMap::new();
    let mut b: usize = 0;
    while b < func.basic_blocks.len()
        invariant
            0 <= b <= blocks.len(),
            blocks == func.basic_blocks@,
            forall|l: usize|
                #![trigger count_of(index_map_contents(counts), l)]
                count_of(index_map_contents(counts), l) == capped(def_count(blocks.subrange(0, b as int), l)),
        decreases blocks.len() - b,
    {
        let stmts = &func.basic_blocks[b].statements;
        let dead = dead_flags(stmts);
        let mut k: usize = 0;
        while k < stmts.len()
            invariant
                0 <= k <= stmts@.len(),
                b < blocks.len(),
                stmts@ == blocks[b as int].statements@,
                dead@.len() == stmts@.len(),
                forall|x: int| 0 <= x < stmts@.len() ==> #[trigger] dead@[x] == dead_def(stmts@, x),
                forall|l: usize|
                    #![trigger count_of(index_map_contents(counts), l)]
                    count_of(index_map_contents(counts), l) == capped(
                        def_count(blocks.subrange(0, b as int), l) + live_upto(stmts@, l, k as int),
                    ),
            decreases stmts.len() - k,
        {
            match &stmts[k].kind {
                StatementKind::Assign(dest, _) => {
                    if !dead[k] {
                        bump(&mut counts, dest.0);
                    }
                },
                _ => {},
            }
            k = k + 1;
        }
        proof {
            assert(blocks.subrange(0, b + 1).drop_last() =~= blocks.subrange(0, b as int));
            assert(blocks.subrange(0, b + 1).last() == blocks[b as int]);
        }
        b = b + 1;
    }
    assert(blocks.subrange(0, blocks.len() as int) =~= blocks);
    counts
}

/// Local `l` has exactly one assignment that is not dead, and is not a
/// parameter.
pub open spec fn single_def(f: MirFunction, l: usize) -> bool {
    def_count(f.basic_blocks@, l) == 1 && l > f.arg_count
}

/// `dest = __olive_struct_alloc(..)`: the destination.
pub open spec fn alloc_dest(s: Statement) -> Option<usize> {
    match s.kind {
        StatementKind::Assign(d, Rvalue::Call { func: Operand::Constant(Constant::Function(n)), .. }) => if n@
            == "__olive_struct_alloc"@ {
            Some(d.0)
        } else {
            None
        },
        _ => None,
    }
}

/// A closure record: a single-def local some statement allocates.
pub open spec fn alloc_record(f: MirFunction, r: usize) -> bool {
    &&& single_def(f, r)
    &&& exists|j: int| 0 <= j < flat(f.basic_blocks@).len() && alloc_dest(#[trigger] flat(f.basic_blocks@)[j]) == Some(r)
}

/// `rec.__thunk = val`: the record and the value stored.
pub open spec fn thunk_store(s: Statement) -> Option<(usize, Operand)> {
    match s.kind {
        StatementKind::SetAttr(target, attr, val) => if attr@ == "__thunk"@ {
            match operand_local(target) {
                Some(r) => Some((r, val)),
                None => None,
            }
        } else {
            None
        },
        _ => None,
    }
}

/// After scanning `ss`: for each record, the function its last thunk
/// store put (absent when that store put something else), and how many
/// thunk stores it has.
pub open spec fn thunk_scan(ss: Seq<Statement>) -> (Map<usize, Seq<char>>, Map<usize, nat>)
    decreases ss.len(),
{
    if ss.len() == 0 {
        (Map::empty(), Map::empty())
    } else {
        let t = thunk_scan(ss.drop_last());
        match thunk_store(ss.last()) {
            Some((r, val)) => {
                let c = if t.1.contains_key(r) {
                    t.1[r]
                } else {
                    0
                };
                let counts = t.1.insert(r, c + 1);
                match val {
                    Operand::Constant(Constant::Function(n)) => (t.0.insert(r, n@), counts),
                    _ => (t.0.remove(r), counts),
                }
            },
            None => t,
        }
    }
}

/// The function a closure record's thunk is, when the record's only thunk
/// store puts a function.
pub open spec fn thunk_of(f: MirFunction, r: usize) -> Option<Seq<char>> {
    let t = thunk_scan(flat(f.basic_blocks@));
    if alloc_record(f, r) && t.1.contains_key(r) && t.1[r] == 1 && t.0.contains_key(r) {
        Some(t.0[r])
    } else {
        None
    }
}

/// `dest = op as Fn(..)` with `op` a local: the destination and that local.
pub open spec fn fn_cast(s: Statement) -> Option<(usize, usize)> {
    match s.kind {
        StatementKind::Assign(d, Rvalue::Cast(op, ty)) => if ty is Fn {
            match operand_local(op) {
                Some(r) => Some((d.0, r)),
                None => None,
            }
        } else {
            None
        },
        _ => None,
    }
}

/// After scanning `ss`: the closure values, each a single-def local cast
/// from a record whose thunk is known, mapped to that record (a later cast
/// of the same local replacing an earlier).
pub open spec fn root_scan(f: MirFunction, ss: Seq<Statement>) -> Map<usize, usize>
    decreases ss.len(),
{
    if ss.len() == 0 {
        Map::empty()
    } else {
        let m = root_scan(f, ss.drop_last());
        match fn_cast(ss.last()) {
            Some((d, r)) => if single_def(f, d) && thunk_of(f, r) is Some {
                m.insert(d, r)
            } else {
                m
            },
            None => m,
        }
    }
}

/// `dest = src` for a local `src`: the destination and the source.
pub open spec fn use_copy(s: Statement) -> Option<(usize, usize)> {
    match s.kind {
        StatementKind::Assign(d, Rvalue::Use(op)) => match operand_local(op) {
            Some(src) => Some((d.0, src)),
            None => None,
        },
        _ => None,
    }
}

/// One pass over `ss` extending the alias map `g`: a single-def local not
/// yet in it, copied from a local in it, joins its source's closure value.
pub open spec fn alias_scan(f: MirFunction, ss: Seq<Statement>, g: Map<usize, usize>) -> Map<usize, usize>
    decreases ss.len(),
{
    if ss.len() == 0 {
        g
    } else {
        let m = alias_scan(f, ss.drop_last(), g);
        match use_copy(ss.last()) {
            Some((d, src)) => if m.contains_key(src) && single_def(f, d) && !m.contains_key(d) {
                m.insert(d, m[src])
            } else {
                m
            },
            None => m,
        }
    }
}

/// Passes of `alias_scan` repeated until one changes nothing, at most `fuel`.
pub open spec fn alias_fix(f: MirFunction, ss: Seq<Statement>, g: Map<usize, usize>, fuel: nat) -> Map<usize, usize>
    decreases fuel,
{
    if fuel == 0 {
        g
    } else {
        let g2 = alias_scan(f, ss, g);
        if g2 == g {
            g
        } else {
            alias_fix(f, ss, g2, (fuel - 1) as nat)
        }
    }
}

/// Each local holding a closure value, mapped to the closure value it
/// copies: the closure values map to themselves, and aliases join by
/// passes of `alias_scan` until one changes nothing (there are at most as
/// many changing passes as statements).
pub open spec fn closure_groups(f: MirFunction) -> Map<usize, usize> {
    let ss = flat(f.basic_blocks@);
    let roots = root_scan(f, ss);
    alias_fix(f, ss, Map::new(|r: usize| roots.contains_key(r), |r: usize| r), (ss.len() + 1) as nat)
}

/// `t` is `s`, or, when `s` calls through a local holding a closure value
/// whose record is `rec` with thunk `name`, the same assignment calling
/// `name` directly with `rec` appended to the arguments.
pub open spec fn closure_call_rewritten(f: MirFunction, s: Statement, t: Statement) -> bool {
    let gs = closure_groups(f);
    let roots = root_scan(f, flat(f.basic_blocks@));
    match s.kind {
        StatementKind::Assign(d, Rvalue::Call { func: callee, args }) => match operand_local(callee) {
            Some(l) => if gs.contains_key(l) {
                let rec = roots[gs[l]];
                &&& t.span == s.span
                &&& t.kind matches StatementKind::Assign(d2, Rvalue::Call { func: Operand::Constant(Constant::Function(n)), args: a2 })
                &&& d2 == d
                &&& n@ == thunk_of(f, rec)->0
                &&& a2@ == args@.push(Operand::Copy(Local(rec)))
            } else {
                t == s
            },
            None => t == s,
        },
        _ => t == s,
    }
}

/// `s` is a call through a local holding a closure value.
pub open spec fn closure_call(f: MirFunction, s: Statement) -> bool {
    s.kind matches StatementKind::Assign(_, Rvalue::Call { func: callee, .. }) && operand_local(callee) matches Some(l)
        && closure_groups(f).contains_key(l)
}

/// The statement at position `p` (block, index).
pub open spec fn stmt_at(blocks: Seq<BasicBlock>, p: (usize, usize)) -> Statement {
    blocks[p.0 as int].statements@[p.1 as int]
}

/// The positions of the function's statements, in block order.
fn all_positions(func: &MirFunction) -> (pos: Vec<(usize, usize)>)
    ensures
        pos@.len() == flat(func.basic_blocks@).len(),
        forall|j: int|
            0 <= j < pos@.len() ==> (#[trigger] pos@[j]).0 < func.basic_blocks@.len() && pos@[j].1
                < func.basic_blocks@[pos@[j].0 as int].statements@.len() && stmt_at(func.basic_blocks@, pos@[j])
                == flat(func.basic_blocks@)[j],
{
    let ghost blocks = func.basic_blocks@;
    let mut pos: Vec<(usize, usize)> = Vec::new();
    let mut b: usize = 0;
    while b < func.basic_blocks.len()
        invariant
            0 <= b <= blocks.len(),
            blocks == func.basic_blocks@,
            pos@.len() == flat(blocks.subrange(0, b as int)).len(),
            forall|j: int|
                0 <= j < pos@.len() ==> (#[trigger] pos@[j]).0 < blocks.len() && pos@[j].1 < blocks[pos@[j].0 as int].statements@.len()
                    && stmt_at(blocks, pos@[j]) == flat(blocks)[j],
        decreases blocks.len() - b,
    {
        let n = func.basic_blocks[b].statements.len();
        let mut k: usize = 0;
        while k < n
            invariant
                0 <= k <= n,
                b < blocks.len(),
                blocks == func.basic_blocks@,
                n == blocks[b as int].statements@.len(),
                pos@.len() == flat(blocks.subrange(0, b as int)).len() + k,
                forall|j: int|
                    0 <= j < pos@.len() ==> (#[trigger] pos@[j]).0 < blocks.len() && pos@[j].1 < blocks[pos@[j].0 as int].statements@.len()
                        && stmt_at(blocks, pos@[j]) == flat(blocks)[j],
            decreases n - k,
        {
            proof {
                lemma_flat_index(blocks, b as int, k as int);
            }
            pos.push((b, k));
            k = k + 1;
        }
        proof {
            lemma_flat_step(blocks, b as int);
        }
        b = b + 1;
    }
    proof {
        lemma_flat_all(blocks);
    }
    pos
}

/// The closure records, as `alloc_record` says.
fn alloc_records(func: &MirFunction, pos: &Vec<(usize, usize)>, counts: &IndexMap) -> (r: IndexSet)
    requires
        pos@.len() == flat(func.basic_blocks@).len(),
        forall|j: int|
            0 <= j < pos@.len() ==> (#[trigger] pos@[j]).0 < func.basic_blocks@.len() && pos@[j].1
                < func.basic_blocks@[pos@[j].0 as int].statements@.len() && stmt_at(func.basic_blocks@, pos@[j])
                == flat(func.basic_blocks@)[j],
        forall|l: usize|
            #![trigger count_of(index_map_contents(*counts), l)]
            count_of(index_map_contents(*counts), l) == capped(def_count(func.basic_blocks@, l)),
    ensures
        forall|x: usize| #[trigger] index_set_contents(r).contains(x) == alloc_record(*func, x),
{
    let ghost ss = flat(func.basic_blocks@);
    let mut recs = IndexSet::new();
    let mut j: usize = 0;
    while j < pos.len()
        invariant
            0 <= j <= pos@.len(),
            pos@.len() == ss.len(),
            ss == flat(func.basic_blocks@),
            forall|q: int|
                0 <= q < pos@.len() ==> (#[trigger] pos@[q]).0 < func.basic_blocks@.len() && pos@[q].1
                    < func.basic_blocks@[pos@[q].0 as int].statements@.len() && stmt_at(func.basic_blocks@, pos@[q])
                    == ss[q],
            forall|l: usize|
                #![trigger count_of(index_map_contents(*counts), l)]
                count_of(index_map_contents(*counts), l) == capped(def_count(func.basic_blocks@, l)),
            forall|x: usize|
                #[trigger] index_set_contents(recs).contains(x) == (single_def(*func, x) && exists|q: int|
                    0 <= q < j && alloc_dest(#[trigger] ss[q]) == Some(x)),
        decreases pos.len() - j,
    {
        let (b, k) = pos[j];
        let s = &func.basic_blocks[b].statements[k];
        let hit: Option<usize> = match &s.kind {
            StatementKind::Assign(d, Rvalue::Call { func: Operand::Constant(Constant::Function(n)), .. }) => {
                if is_named(n, "__olive_struct_alloc") {
                    Some(d.0)
                } else {
                    None
                }
            },
            _ => None,
        };
        assert(hit == alloc_dest(ss[j as int]));
        match hit {
            Some(d) => {
                let single = match counts.get(d) {
                    Some(c) => c == 1,
                    None => false,
                };
                assert(single == (def_count(func.basic_blocks@, d) == 1)) by {
                    assert(count_of(index_map_contents(*counts), d) == capped(def_count(func.basic_blocks@, d)));
                }
                if single && d > func.arg_count {
                    recs.insert(d);
                }
            },
            None => {},
        }
        j = j + 1;
    }
    recs
}

/// The count `m` records for `x`, zero when absent.
pub open spec fn count_in(m: Map<usize, nat>, x: usize) -> nat {
    if m.contains_key(x) {
        m[x]
    } else {
        0
    }
}

/// `idx` maps each record with a known thunk function to the position of
/// that function's name in `pool`.
pub open spec fn names_in_pool(idx: Map<usize, usize>, pool: Seq<String>, names: Map<usize, Seq<char>>) -> bool {
    forall|x: usize|
        #![trigger idx.contains_key(x)]
        #![trigger names.contains_key(x)]
        (idx.contains_key(x) == names.contains_key(x)) && (idx.contains_key(x) ==> idx[x] < pool.len() && pool[idx[x] as int]@
            == names[x])
}

/// The thunk stores of the function, as `thunk_scan` says: the function
/// names (by position in the returned pool) and the store counts (capped).
fn thunk_table(func: &MirFunction, pos: &Vec<(usize, usize)>) -> (r: (IndexMap, Vec<String>, IndexMap))
    requires
        pos@.len() == flat(func.basic_blocks@).len(),
        forall|j: int|
            0 <= j < pos@.len() ==> (#[trigger] pos@[j]).0 < func.basic_blocks@.len() && pos@[j].1
                < func.basic_blocks@[pos@[j].0 as int].statements@.len() && stmt_at(func.basic_blocks@, pos@[j])
                == flat(func.basic_blocks@)[j],
    ensures
        names_in_pool(index_map_contents(r.0), r.1@, thunk_scan(flat(func.basic_blocks@)).0),
        forall|x: usize|
            #![trigger count_of(index_map_contents(r.2), x)]
            count_of(index_map_contents(r.2), x) == capped(count_in(thunk_scan(flat(func.basic_blocks@)).1, x)),
{
    let ghost ss = flat(func.basic_blocks@);
    let mut idx = IndexMap::new();
    let mut pool: Vec<String> = Vec::new();
    let mut counts = IndexMap::new();
    let mut j: usize = 0;
    proof {
        assert(ss.subrange(0, 0) =~= Seq::<Statement>::empty());
        assert(names_in_pool(index_map_contents(idx), pool@, Map::empty()));
    }
    while j < pos.len()
        invariant
            0 <= j <= pos@.len(),
            pos@.len() == ss.len(),
            ss == flat(func.basic_blocks@),
            forall|q: int|
                0 <= q < pos@.len() ==> (#[trigger] pos@[q]).0 < func.basic_blocks@.len() && pos@[q].1
                    < func.basic_blocks@[pos@[q].0 as int].statements@.len() && stmt_at(func.basic_blocks@, pos@[q])
                    == ss[q],
            names_in_pool(index_map_contents(idx), pool@, thunk_scan(ss.subrange(0, j as int)).0),
            forall|x: usize|
                #![trigger count_of(index_map_contents(counts), x)]
                count_of(index_map_contents(counts), x) == capped(count_in(thunk_scan(ss.subrange(0, j as int)).1, x)),
        decreases pos.len() - j,
    {
        let (b, k) = pos[j];
        let s = &func.basic_blocks[b].statements[k];
        proof {
            assert(ss.subrange(0, j + 1).drop_last() =~= ss.subrange(0, j as int));
            assert(ss.subrange(0, j + 1).last() == ss[j as int]);
        }
        let ghost t0 = thunk_scan(ss.subrange(0, j as int));
        match &s.kind {
            StatementKind::SetAttr(target, attr, val) => {
                if is_named(attr, "__thunk") {
                    match operand_local_of(target) {
                        Some(rec) => {
                            bump(&mut counts, rec.0);
                            match val {
                                Operand::Constant(Constant::Function(name)) => {
                                    pool.push(name.clone());
                                    idx.insert(rec.0, pool.len() - 1);
                                    proof {
                                        let names = thunk_scan(ss.subrange(0, j + 1)).0;
                                        assert forall|x: usize|
                                            #![trigger index_map_contents(idx).contains_key(x)]
                                            #![trigger names.contains_key(x)]
                                            (index_map_contents(idx).contains_key(x) == names.contains_key(x)) && (
                                            index_map_contents(idx).contains_key(x) ==> index_map_contents(idx)[x] < pool@.len()
                                                && pool@[index_map_contents(idx)[x] as int]@ == names[x]) by {
                                            if x != rec.0 && t0.0.contains_key(x) {
                                                assert(t0.0.contains_key(x));
                                            }
                                        }
                                    }
                                },
                                _ => {
                                    idx.remove(rec.0);
                                    proof {
                                        let names = thunk_scan(ss.subrange(0, j + 1)).0;
                                        assert forall|x: usize|
                                            #![trigger index_map_contents(idx).contains_key(x)]
                                            #![trigger names.contains_key(x)]
                                            (index_map_contents(idx).contains_key(x) == names.contains_key(x)) && (
                                            index_map_contents(idx).contains_key(x) ==> index_map_contents(idx)[x] < pool@.len()
                                                && pool@[index_map_contents(idx)[x] as int]@ == names[x]) by {
                                            if x != rec.0 && t0.0.contains_key(x) {
                                                assert(t0.0.contains_key(x));
                                            }
                                        }
                                    }
                                },
                            }
                        },
                        None => {},
                    }
                }
            },
            _ => {},
        }
        j = j + 1;
    }
    proof {
        assert(ss.subrange(0, ss.len() as int) =~= ss);
    }
    (idx, pool, counts)
}

/// Whether the thunk of record `rec` is known, as `thunk_of` says.
fn thunk_known(
    func: &MirFunction,
    recs: &IndexSet,
    idx: &IndexMap,
    pool: &Vec<String>,
    counts: &IndexMap,
    rec: usize,
) -> (r: bool)
    requires
        forall|x: usize| #[trigger] index_set_contents(*recs).contains(x) == alloc_record(*func, x),
        names_in_pool(index_map_contents(*idx), pool@, thunk_scan(flat(func.basic_blocks@)).0),
        forall|x: usize|
            #![trigger count_of(index_map_contents(*counts), x)]
            count_of(index_map_contents(*counts), x) == capped(count_in(thunk_scan(flat(func.basic_blocks@)).1, x)),
    ensures
        r == thunk_of(*func, rec) is Some,
{
    let once = match counts.get(rec) {
        Some(c) => c == 1,
        None => false,
    };
    assert(count_of(index_map_contents(*counts), rec) == capped(count_in(thunk_scan(flat(func.basic_blocks@)).1, rec)));
    let named = idx.get(rec).is_some();
    assert(index_map_contents(*idx).contains_key(rec) == thunk_scan(flat(func.basic_blocks@)).0.contains_key(rec));
    recs.contains(rec) && once && named
}

/// The closure values and their records, as `root_scan` says.
fn root_table(
    func: &MirFunction,
    pos: &Vec<(usize, usize)>,
    counts: &IndexMap,
    recs: &IndexSet,
    idx: &IndexMap,
    pool: &Vec<String>,
    tcounts: &IndexMap,
) -> (roots: IndexMap)
    requires
        pos@.len() == flat(func.basic_blocks@).len(),
        forall|j: int|
            0 <= j < pos@.len() ==> (#[trigger] pos@[j]).0 < func.basic_blocks@.len() && pos@[j].1
                < func.basic_blocks@[pos@[j].0 as int].statements@.len() && stmt_at(func.basic_blocks@, pos@[j])
                == flat(func.basic_blocks@)[j],
        forall|l: usize|
            #![trigger count_of(index_map_contents(*counts), l)]
            count_of(index_map_contents(*counts), l) == capped(def_count(func.basic_blocks@, l)),
        forall|x: usize| #[trigger] index_set_contents(*recs).contains(x) == alloc_record(*func, x),
        names_in_pool(index_map_contents(*idx), pool@, thunk_scan(flat(func.basic_blocks@)).0),
        forall|x: usize|
            #![trigger count_of(index_map_contents(*tcounts), x)]
            count_of(index_map_contents(*tcounts), x) == capped(count_in(thunk_scan(flat(func.basic_blocks@)).1, x)),
    ensures
        index_map_contents(roots) == root_scan(*func, flat(func.basic_blocks@)),
{
    let ghost ss = flat(func.basic_blocks@);
    let mut roots = IndexMap::new();
    let mut j: usize = 0;
    assert(index_map_contents(roots) =~= root_scan(*func, ss.subrange(0, 0)));
    while j < pos.len()
        invariant
            0 <= j <= pos@.len(),
            pos@.len() == ss.len(),
            ss == flat(func.basic_blocks@),
            forall|q: int|
                0 <= q < pos@.len() ==> (#[trigger] pos@[q]).0 < func.basic_blocks@.len() && pos@[q].1
                    < func.basic_blocks@[pos@[q].0 as int].statements@.len() && stmt_at(func.basic_blocks@, pos@[q])
                    == ss[q],
            forall|l: usize|
                #![trigger count_of(index_map_contents(*counts), l)]
                count_of(index_map_contents(*counts), l) == capped(def_count(func.basic_blocks@, l)),
            forall|x: usize| #[trigger] index_set_contents(*recs).contains(x) == alloc_record(*func, x),
            names_in_pool(index_map_contents(*idx), pool@, thunk_scan(ss).0),
            forall|x: usize|
                #![trigger count_of(index_map_contents(*tcounts), x)]
                count_of(index_map_contents(*tcounts), x) == capped(count_in(thunk_scan(ss).1, x)),
            index_map_contents(roots) == root_scan(*func, ss.subrange(0, j as int)),
        decreases pos.len() - j,
    {
        let (b, k) = pos[j];
        let s = &func.basic_blocks[b].statements[k];
        proof {
            assert(ss.subrange(0, j + 1).drop_last() =~= ss.subrange(0, j as int));
            assert(ss.subrange(0, j + 1).last() == ss[j as int]);
        }
        let cast: Option<(usize, usize)> = match &s.kind {
            StatementKind::Assign(d, Rvalue::Cast(op, ty)) => {
                if matches!(ty, Type::Fn(..)) {
                    match operand_local_of(op) {
                        Some(r) => Some((d.0, r.0)),
                        None => None,
                    }
                } else {
                    None
                }
            },
            _ => None,
        };
        assert(cast == fn_cast(ss[j as int]));
        match cast {
            Some((d, r)) => {
                let single = match counts.get(d) {
                    Some(c) => c == 1,
                    None => false,
                };
                assert(count_of(index_map_contents(*counts), d) == capped(def_count(func.basic_blocks@, d)));
                if single && d > func.arg_count && thunk_known(func, recs, idx, pool, tcounts, r) {
                    roots.insert(d, r);
                }
            },
            None => {},
        }
        j = j + 1;
    }
    assert(ss.subrange(0, ss.len() as int) =~= ss);
    roots
}

/// The locals some statement of `ss` copies a local into.
pub open spec fn copy_dests(ss: Seq<Statement>) -> Set<usize>
    decreases ss.len(),
{
    if ss.len() == 0 {
        Set::empty()
    } else {
        let r = copy_dests(ss.drop_last());
        match use_copy(ss.last()) {
            Some(p) => r.insert(p.0),
            None => r,
        }
    }
}

proof fn lemma_copy_dests_len(ss: Seq<Statement>)
    ensures
        copy_dests(ss).finite(),
        copy_dests(ss).len() <= ss.len(),
    decreases ss.len(),
{
    if ss.len() > 0 {
        lemma_copy_dests_len(ss.drop_last());
    }
}

/// A pass keeps the entries it finds and adds only locals `ss` copies into,
/// each mapped to a value already in the map.
proof fn lemma_alias_scan(f: MirFunction, ss: Seq<Statement>, g: Map<usize, usize>)
    ensures
        forall|x: usize| #[trigger] g.contains_key(x) ==> alias_scan(f, ss, g).contains_key(x) && alias_scan(f, ss, g)[x] == g[x],
        forall|x: usize|
            #[trigger] alias_scan(f, ss, g).contains_key(x) ==> g.contains_key(x) || copy_dests(ss).contains(x),
        forall|x: usize|
            #[trigger] alias_scan(f, ss, g).contains_key(x) ==> exists|y: usize| g.contains_key(y) && g[y] == alias_scan(f, ss, g)[x],
    decreases ss.len(),
{
    if ss.len() > 0 {
        let pre = ss.drop_last();
        lemma_alias_scan(f, pre, g);
        let m = alias_scan(f, pre, g);
        let n = alias_scan(f, ss, g);
        assert forall|x: usize| #[trigger] n.contains_key(x) implies (g.contains_key(x) || copy_dests(ss).contains(x))
            && exists|y: usize| g.contains_key(y) && g[y] == n[x] by {
            if m.contains_key(x) {
                assert(m.contains_key(x));
                assert(n[x] == m[x]);
            } else {
                let p = use_copy(ss.last())->0;
                assert(x == p.0);
                assert(m.contains_key(p.1));
                assert(n[x] == m[p.1]);
            }
        }
    } else {
        assert forall|x: usize| #[trigger] alias_scan(f, ss, g).contains_key(x) implies exists|y: usize|
            g.contains_key(y) && g[y] == alias_scan(f, ss, g)[x] by {
            assert(g.contains_key(x) && g[x] == alias_scan(f, ss, g)[x]);
        }
    }
}

/// The closure value each local holds, as `closure_groups` says.
fn group_table(func: &MirFunction, pos: &Vec<(usize, usize)>, counts: &IndexMap, roots: &IndexMap) -> (g: IndexMap)
    requires
        pos@.len() == flat(func.basic_blocks@).len(),
        forall|j: int|
            0 <= j < pos@.len() ==> (#[trigger] pos@[j]).0 < func.basic_blocks@.len() && pos@[j].1
                < func.basic_blocks@[pos@[j].0 as int].statements@.len() && stmt_at(func.basic_blocks@, pos@[j])
                == flat(func.basic_blocks@)[j],
        forall|l: usize|
            #![trigger count_of(index_map_contents(*counts), l)]
            count_of(index_map_contents(*counts), l) == capped(def_count(func.basic_blocks@, l)),
        index_map_contents(*roots) == root_scan(*func, flat(func.basic_blocks@)),
    ensures
        index_map_contents(g) == closure_groups(*func),
{
    let ghost ss = flat(func.basic_blocks@);
    let ghost rm = index_map_contents(*roots);
    let keys = roots.keys();
    let mut g = IndexMap::new();
    let mut i: usize = 0;
    while i < keys.len()
        invariant
            0 <= i <= keys@.len(),
            keys@.to_set() == rm.dom(),
            forall|x: usize|
                #![trigger index_map_contents(g).contains_key(x)]
                index_map_contents(g).contains_key(x) == keys@.subrange(0, i as int).contains(x),
            forall|x: usize| #[trigger] index_map_contents(g).contains_key(x) ==> index_map_contents(g)[x] == x,
        decreases keys.len() - i,
    {
        g.insert(keys[i], keys[i]);
        proof {
            let sub = keys@.subrange(0, i as int);
            let sub1 = keys@.subrange(0, i + 1);
            assert forall|x: usize| #![trigger index_map_contents(g).contains_key(x)]
                index_map_contents(g).contains_key(x) == sub1.contains(x) by {
                if sub.contains(x) {
                    let q = choose|q: int| 0 <= q < sub.len() && sub[q] == x;
                    assert(sub1[q] == x);
                }
                if x == keys@[i as int] {
                    assert(sub1[i as int] == x);
                }
                if sub1.contains(x) {
                    let q = choose|q: int| 0 <= q < sub1.len() && sub1[q] == x;
                    if q < i {
                        assert(sub[q] == x);
                    }
                }
            }
        }
        i = i + 1;
    }
    let ghost g0 = Map::new(|r: usize| rm.contains_key(r), |r: usize| r);
    proof {
        assert(keys@.subrange(0, keys@.len() as int) =~= keys@);
        assert forall|x: usize| index_map_contents(g).contains_key(x) == g0.contains_key(x) by {
            assert(keys@.to_set().contains(x) == keys@.contains(x));
        }
        assert(index_map_contents(g) =~= g0);
    }
    let ghost dests = copy_dests(ss);
    let ghost mut fuel: nat = (ss.len() + 1) as nat;
    proof {
        lemma_copy_dests_len(ss);
        vstd::set_lib::lemma_len_subset(dests.difference(index_map_contents(g).dom()), dests);
    }
    let mut changed_alias = true;
    while changed_alias
        invariant
            pos@.len() == ss.len(),
            ss == flat(func.basic_blocks@),
            forall|q: int|
                0 <= q < pos@.len() ==> (#[trigger] pos@[q]).0 < func.basic_blocks@.len() && pos@[q].1
                    < func.basic_blocks@[pos@[q].0 as int].statements@.len() && stmt_at(func.basic_blocks@, pos@[q])
                    == ss[q],
            forall|l: usize|
                #![trigger count_of(index_map_contents(*counts), l)]
                count_of(index_map_contents(*counts), l) == capped(def_count(func.basic_blocks@, l)),
            dests == copy_dests(ss),
            dests.finite(),
            changed_alias ==> closure_groups(*func) == alias_fix(*func, ss, index_map_contents(g), fuel),
            !changed_alias ==> closure_groups(*func) == index_map_contents(g),
            changed_alias ==> fuel >= dests.difference(index_map_contents(g).dom()).len() + 1,
        decreases dests.difference(index_map_contents(g).dom()).len() + if changed_alias {
            1int
        } else {
            0int
        },
    {
        let ghost gs = index_map_contents(g);
        changed_alias = false;
        let mut j: usize = 0;
        proof {
            assert(ss.subrange(0, 0) =~= Seq::<Statement>::empty());
        }
        while j < pos.len()
            invariant
                0 <= j <= pos@.len(),
                pos@.len() == ss.len(),
                ss == flat(func.basic_blocks@),
                forall|q: int|
                    0 <= q < pos@.len() ==> (#[trigger] pos@[q]).0 < func.basic_blocks@.len() && pos@[q].1
                        < func.basic_blocks@[pos@[q].0 as int].statements@.len() && stmt_at(func.basic_blocks@, pos@[q])
                        == ss[q],
                forall|l: usize|
                    #![trigger count_of(index_map_contents(*counts), l)]
                    count_of(index_map_contents(*counts), l) == capped(def_count(func.basic_blocks@, l)),
                index_map_contents(g) == alias_scan(*func, ss.subrange(0, j as int), gs),
                !changed_alias ==> index_map_contents(g) == gs,
                changed_alias ==> exists|x: usize| #[trigger] index_map_contents(g).contains_key(x) && !gs.contains_key(x),
            decreases pos.len() - j,
        {
            let (b, k) = pos[j];
            let s = &func.basic_blocks[b].statements[k];
            proof {
                assert(ss.subrange(0, j + 1).drop_last() =~= ss.subrange(0, j as int));
                assert(ss.subrange(0, j + 1).last() == ss[j as int]);
                lemma_alias_scan(*func, ss.subrange(0, j as int), gs);
            }
            let copy: Option<(usize, usize)> = match &s.kind {
                StatementKind::Assign(d, Rvalue::Use(op)) => match operand_local_of(op) {
                    Some(src) => Some((d.0, src.0)),
                    None => None,
                },
                _ => None,
            };
            assert(copy == use_copy(ss[j as int]));
            match copy {
                Some((d, src)) => match g.get(src) {
                    Some(root) => {
                        let single = match counts.get(d) {
                            Some(c) => c == 1,
                            None => false,
                        };
                        assert(count_of(index_map_contents(*counts), d) == capped(def_count(func.basic_blocks@, d)));
                        if single && d > func.arg_count && g.get(d).is_none() {
                            g.insert(d, root);
                            changed_alias = true;
                            assert(index_map_contents(g).contains_key(d) && !gs.contains_key(d));
                        }
                    },
                    None => {},
                },
                None => {},
            }
            j = j + 1;
        }
        proof {
            assert(ss.subrange(0, ss.len() as int) =~= ss);
            lemma_alias_scan(*func, ss, gs);
            let gn = index_map_contents(g);
            if changed_alias {
                let x = choose|x: usize| #[trigger] gn.contains_key(x) && !gs.contains_key(x);
                assert(dests.contains(x));
                assert(gn != gs);
                assert(dests.difference(gn.dom()).subset_of(dests.difference(gs.dom()).remove(x)));
                vstd::set_lib::lemma_len_subset(dests.difference(gs.dom()), dests);
                vstd::set_lib::lemma_len_subset(dests.difference(gn.dom()), dests.difference(gs.dom()).remove(x));
                fuel = (fuel - 1) as nat;
                vstd::set_lib::lemma_len_subset(dests.difference(gn.dom()), dests);
            }
        }
    }
    g
}

/// Every closure value found maps to a record whose thunk is known.
proof fn lemma_root_scan_thunks(f: MirFunction, ss: Seq<Statement>)
    ensures
        forall|d: usize| #[trigger] root_scan(f, ss).contains_key(d) ==> thunk_of(f, root_scan(f, ss)[d]) is Some,
    decreases ss.len(),
{
    if ss.len() > 0 {
        lemma_root_scan_thunks(f, ss.drop_last());
    }
}

/// Repeated passes map locals only to values the start map has.
proof fn lemma_alias_fix_values(f: MirFunction, ss: Seq<Statement>, g: Map<usize, usize>, fuel: nat, roots: Map<usize, usize>)
    requires
        forall|x: usize| #[trigger] g.contains_key(x) ==> roots.contains_key(g[x]),
    ensures
        forall|x: usize| #[trigger] alias_fix(f, ss, g, fuel).contains_key(x) ==> roots.contains_key(alias_fix(f, ss, g, fuel)[x]),
    decreases fuel,
{
    if fuel > 0 {
        let g2 = alias_scan(f, ss, g);
        lemma_alias_scan(f, ss, g);
        assert forall|x: usize| #[trigger] g2.contains_key(x) implies roots.contains_key(g2[x]) by {
            let y = choose|y: usize| g.contains_key(y) && g[y] == g2[x];
        }
        if g2 != g {
            lemma_alias_fix_values(f, ss, g2, (fuel - 1) as nat, roots);
            assert(alias_fix(f, ss, g, fuel) == alias_fix(f, ss, g2, (fuel - 1) as nat));
        } else {
            assert(alias_fix(f, ss, g, fuel) == g);
        }
    } else {
        assert(alias_fix(f, ss, g, fuel) == g);
    }
}

/// Every local of `closure_groups` maps to a closure value.
proof fn lemma_groups_in_roots(f: MirFunction)
    ensures
        forall|x: usize|
            #[trigger] closure_groups(f).contains_key(x) ==> root_scan(f, flat(f.basic_blocks@)).contains_key(
                closure_groups(f)[x],
            ),
{
    let ss = flat(f.basic_blocks@);
    let roots = root_scan(f, ss);
    let g0 = Map::new(|r: usize| roots.contains_key(r), |r: usize| r);
    lemma_alias_fix_values(f, ss, g0, (ss.len() + 1) as nat, roots);
}

impl Transform for DevirtualizeClosures {
    open spec fn accepts(&self, func: MirFunction) -> bool {
        true
    }

    /// Each statement becomes what `closure_call_rewritten` says; true when
    /// some call through a closure value was rewritten.
    fn run(&self, func: &mut MirFunction) -> (changed: bool)
        ensures
            same_except_blocks(*final(func), *old(func)),
            final(func).basic_blocks@.len() == old(func).basic_blocks@.len(),
            forall|b: int|
                0 <= b < old(func).basic_blocks@.len() ==> {
                    &&& (#[trigger] final(func).basic_blocks@[b]).terminator == old(func).basic_blocks@[b].terminator
                    &&& final(func).basic_blocks@[b].statements@.len() == old(func).basic_blocks@[b].statements@.len()
                    &&& forall|k: int|
                        0 <= k < old(func).basic_blocks@[b].statements@.len() ==> closure_call_rewritten(
                            *old(func),
                            old(func).basic_blocks@[b].statements@[k],
                            #[trigger] final(func).basic_blocks@[b].statements@[k],
                        )
                },
            changed == exists|b: int, k: int|
                0 <= b < old(func).basic_blocks@.len() && 0 <= k < old(func).basic_blocks@[b].statements@.len()
                    && closure_call(*old(func), #[trigger] old(func).basic_blocks@[b].statements@[k]),
    {
        let ghost f = *func;
        let counts = effective_def_counts(func);
        let pos = all_positions(func);
        let recs = alloc_records(func, &pos, &counts);
        let (idx, pool, tcounts) = thunk_table(func, &pos);
        let roots = root_table(func, &pos, &counts, &recs, &idx, &pool, &tcounts);
        let groups = group_table(func, &pos, &counts, &roots);
        proof {
            lemma_groups_in_roots(f);
            lemma_root_scan_thunks(f, flat(f.basic_blocks@));
        }
        let ghost gm = closure_groups(f);
        let ghost rm = root_scan(f, flat(f.basic_blocks@));
        let ghost names = thunk_scan(flat(f.basic_blocks@)).0;
        let mut changed = false;
        let mut b: usize = 0;
        while b < func.basic_blocks.len()
            invariant
                0 <= b <= f.basic_blocks@.len(),
                same_except_blocks(*func, f),
                func.basic_blocks@.len() == f.basic_blocks@.len(),
                index_map_contents(groups) == gm,
                gm == closure_groups(f),
                index_map_contents(roots) == rm,
                rm == root_scan(f, flat(f.basic_blocks@)),
                names == thunk_scan(flat(f.basic_blocks@)).0,
                names_in_pool(index_map_contents(idx), pool@, names),
                forall|x: usize| #[trigger] gm.contains_key(x) ==> rm.contains_key(gm[x]),
                forall|d: usize| #[trigger] rm.contains_key(d) ==> thunk_of(f, rm[d]) is Some,
                forall|x: int| b <= x < f.basic_blocks@.len() ==> #[trigger] func.basic_blocks@[x] == f.basic_blocks@[x],
                forall|x: int|
                    0 <= x < b ==> {
                        &&& (#[trigger] func.basic_blocks@[x]).terminator == f.basic_blocks@[x].terminator
                        &&& func.basic_blocks@[x].statements@.len() == f.basic_blocks@[x].statements@.len()
                        &&& forall|k: int|
                            0 <= k < f.basic_blocks@[x].statements@.len() ==> closure_call_rewritten(
                                f,
                                f.basic_blocks@[x].statements@[k],
                                #[trigger] func.basic_blocks@[x].statements@[k],
                            )
                    },
                changed == exists|x: int, k: int|
                    0 <= x < b && 0 <= k < f.basic_blocks@[x].statements@.len() && closure_call(
                        f,
                        #[trigger] f.basic_blocks@[x].statements@[k],
                    ),
            decreases f.basic_blocks@.len() - b,
        {
            let ghost fb0 = func.basic_blocks@;
            let mut bb = BasicBlock { statements: Vec::new(), terminator: None };
            func.basic_blocks.set_and_swap(b, &mut bb);
            let ghost orig = bb.statements@;
            let ghost changed0 = changed;
            let mut k: usize = 0;
            while k < bb.statements.len()
                invariant
                    0 <= k <= orig.len(),
                    bb.statements@.len() == orig.len(),
                    b < f.basic_blocks@.len(),
                    orig == f.basic_blocks@[b as int].statements@,
                    bb.terminator == f.basic_blocks@[b as int].terminator,
                    index_map_contents(groups) == gm,
                    gm == closure_groups(f),
                    index_map_contents(roots) == rm,
                    rm == root_scan(f, flat(f.basic_blocks@)),
                    names == thunk_scan(flat(f.basic_blocks@)).0,
                    names_in_pool(index_map_contents(idx), pool@, names),
                    forall|x: usize| #[trigger] gm.contains_key(x) ==> rm.contains_key(gm[x]),
                    forall|d: usize| #[trigger] rm.contains_key(d) ==> thunk_of(f, rm[d]) is Some,
                    forall|q: int| k <= q < orig.len() ==> #[trigger] bb.statements@[q] == orig[q],
                    forall|q: int| 0 <= q < k ==> closure_call_rewritten(f, orig[q], #[trigger] bb.statements@[q]),
                    changed == (changed0 || exists|q: int| 0 <= q < k && closure_call(f, #[trigger] orig[q])),
                decreases orig.len() - k,
            {
                let s = &bb.statements[k];
                let rewritten: Option<Statement> = match &s.kind {
                    StatementKind::Assign(d, Rvalue::Call { func: callee, args }) => match operand_local_of(callee) {
                        Some(l) => match groups.get(l.0) {
                            Some(root) => match roots.get(root) {
                                Some(rec) => match idx.get(rec) {
                                    Some(pi) => {
                                        let mut new_args = clone_operands(args);
                                        new_args.push(Operand::Copy(Local(rec)));
                                        Some(
                                            Statement {
                                                kind: StatementKind::Assign(
                                                    *d,
                                                    Rvalue::Call {
                                                        func: Operand::Constant(Constant::Function(pool[pi].clone())),
                                                        args: new_args,
                                                    },
                                                ),
                                                span: s.span,
                                            },
                                        )
                                    },
                                    None => None,
                                },
                                None => None,
                            },
                            None => None,
                        },
                        None => None,
                    },
                    _ => None,
                };
                proof {
                    let st = orig[k as int];
                    if closure_call(f, st) {
                        let l = operand_local(st.kind->Assign_1->func)->0;
                        assert(gm.contains_key(l));
                        assert(rm.contains_key(gm[l]));
                        assert(thunk_of(f, rm[gm[l]]) is Some);
                        assert(names.contains_key(rm[gm[l]]));
                        assert(rewritten is Some);
                    }
                }
                match rewritten {
                    Some(st) => {
                        bb.statements.set(k, st);
                        changed = true;
                    },
                    None => {},
                }
                k = k + 1;
            }
            func.basic_blocks.set_and_swap(b, &mut bb);
            proof {
                assert forall|x: int| 0 <= x < b + 1 implies {
                    &&& (#[trigger] func.basic_blocks@[x]).terminator == f.basic_blocks@[x].terminator
                    &&& func.basic_blocks@[x].statements@.len() == f.basic_blocks@[x].statements@.len()
                    &&& forall|k: int|
                        0 <= k < f.basic_blocks@[x].statements@.len() ==> closure_call_rewritten(
                            f,
                            f.basic_blocks@[x].statements@[k],
                            #[trigger] func.basic_blocks@[x].statements@[k],
                        )
                } by {
                    if x < b {
                        assert(func.basic_blocks@[x] == fb0[x]);
                    }
                }
            }
            b = b + 1;
        }
        changed
    }
}

} // verus!
