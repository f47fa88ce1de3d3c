//! Rewrites `xs = xs + [a, b, ...]` into direct appends.
//!
//! Ownership already turns that concat into `__olive_list_concat_move`, so
//! the deep copy is gone, but the right operand is still a freshly built list
//! that exists only to be drained and freed one statement later. Pushing the
//! literal's elements straight onto the left list drops both the allocation
//! and the free.
//!
//! The literal and the concat rarely share a block, so the match spans
//! blocks, guarded by dominance plus an interference walk over everything that
//! can run in between.

use super::{rvalue_locals, rvalue_operand_locals, Transform};
use crate::fx::{index_set_contents, IndexSet};
use crate::ir::{
    is_named, operand_local, same_except_blocks, AggregateKind, BasicBlock, Constant, Local, MirFunction, Operand,
    Rvalue, Span, Statement, StatementKind, TerminatorKind,
};
use crate::liveness::targets_in_range;
use crate::loop_utils::{dom_view, dominance, dominators, lemma_bounded_set_len, raw_successors, raw_successors_of};
use vstd::prelude::*;
use vstd::string::StringExecFns;

verus! {

/// Folds list literals into the concat that consumes them.
pub struct ListAppend;

/// `k` is `dst = __olive_list_concat_move(move left, copy temp)`; its
/// `(dst, left, temp)`.
pub open spec fn concat_parts(k: StatementKind) -> Option<(Local, Local, Local)> {
    match k {
        StatementKind::Assign(dst, Rvalue::Call { func, args }) => {
            if func matches Operand::Constant(Constant::Function(n)) && n@ == "__olive_list_concat_move"@
                && args@.len() == 2 && args@[0] is Move && args@[1] is Copy {
                Some((dst, args@[0]->Move_0, args@[1]->Copy_0))
            } else {
                None
            }
        },
        _ => None,
    }
}

/// `k` builds a list literal into `t`; its elements.
pub open spec fn literal_ops(k: StatementKind, t: Local) -> Option<Seq<Operand>> {
    match k {
        StatementKind::Assign(d, Rvalue::Aggregate(AggregateKind::List, ops)) => if d == t {
            Some(ops@)
        } else {
            None
        },
        _ => None,
    }
}

/// `k` builds a list literal.
pub open spec fn is_list_literal(k: StatementKind) -> bool {
    k matches StatementKind::Assign(_, Rvalue::Aggregate(AggregateKind::List, _))
}

/// `k` reads local `t`, or assigns it.
pub open spec fn reads_temp(k: StatementKind, t: Local) -> bool {
    match k {
        StatementKind::Assign(dst, rv) => dst == t || rvalue_locals(rv).contains(t),
        StatementKind::SetAttr(o, _, v) | StatementKind::PtrStore(o, v) => operand_local(o) == Some(t.0)
            || operand_local(v) == Some(t.0),
        StatementKind::SetIndex(o, i, v, _) | StatementKind::VectorStore(o, i, v) => operand_local(o) == Some(
            t.0,
        ) || operand_local(i) == Some(t.0) || operand_local(v) == Some(t.0),
        StatementKind::GenCheck { value, generation } => value == t || generation == t,
        _ => false,
    }
}

/// `k` can change what a local of `w` holds.
pub open spec fn clobbers(k: StatementKind, w: Set<usize>) -> bool {
    match k {
        StatementKind::Assign(dst, _) => w.contains(dst.0),
        StatementKind::Drop(l) | StatementKind::StorageDead(l) => w.contains(l.0),
        StatementKind::SetAttr(o, _, _) | StatementKind::PtrStore(o, _) | StatementKind::SetIndex(o, _, _, _)
        | StatementKind::VectorStore(o, _, _) => match operand_local(o) {
            Some(l) => w.contains(l),
            None => false,
        },
        _ => false,
    }
}

/// `k` is a storage or drop marker of `t`.
pub open spec fn is_marker_for(k: StatementKind, t: Local) -> bool {
    match k {
        StatementKind::StorageLive(x) | StatementKind::StorageDead(x) | StatementKind::Drop(x) => x == t,
        _ => false,
    }
}

/// The block's terminator switches on `t`.
pub open spec fn switches_on(bb: BasicBlock, t: Local) -> bool {
    bb.terminator matches Some(term) && term.kind matches TerminatorKind::SwitchInt { discr, .. }
        && operand_local(discr) == Some(t.0)
}

/// `(b, k)` is a statement of `f`.
pub open spec fn valid_pos(f: MirFunction, b: int, k: int) -> bool {
    0 <= b < f.basic_blocks@.len() && 0 <= k < f.basic_blocks@[b].statements@.len()
}

/// The statement at `(b, k)`.
pub open spec fn kind_at(f: MirFunction, b: int, k: int) -> StatementKind {
    f.basic_blocks@[b].statements@[k].kind
}

/// `(b, k)` builds a list literal into `t`.
pub open spec fn literal_at(f: MirFunction, b: int, k: int, t: Local) -> bool {
    valid_pos(f, b, k) && literal_ops(kind_at(f, b, k), t) is Some
}

/// `(b, k)` is the only statement of `f` that builds a list literal into `t`.
pub open spec fn unique_literal(f: MirFunction, t: Local, b: int, k: int) -> bool {
    &&& literal_at(f, b, k, t)
    &&& forall|b2: int, k2: int| #[trigger] literal_at(f, b2, k2, t) ==> b2 == b && k2 == k
}

/// Exactly one statement of `f` builds a list literal into `t`.
pub open spec fn has_unique_literal(f: MirFunction, t: Local) -> bool {
    exists|b: int, k: int| unique_literal(f, t, b, k)
}

/// A position of a list literal built into `t`.
pub open spec fn literal_pos(f: MirFunction, t: Local) -> (int, int) {
    choose|p: (int, int)| literal_at(f, p.0, p.1, t)
}

/// No statement of `f` but the literal at `(db, di)` and the concat at
/// `(ub, ui)` reads `t`, storage and drop markers of `t` aside, and no
/// terminator switches on it.
pub open spec fn temp_private(f: MirFunction, t: Local, db: int, di: int, ub: int, ui: int) -> bool {
    &&& forall|b: int, k: int|
        #![trigger kind_at(f, b, k)]
        valid_pos(f, b, k) && !(b == db && k == di) && !(b == ub && k == ui) && !is_marker_for(
            kind_at(f, b, k),
            t,
        ) ==> !reads_temp(kind_at(f, b, k), t)
    &&& forall|b: int| 0 <= b < f.basic_blocks@.len() ==> !switches_on(#[trigger] f.basic_blocks@[b], t)
}

/// The locals whose values the appends read later than the literal did: the
/// left list and the literal's elements.
pub open spec fn watched(left: Local, ops: Seq<Operand>) -> Set<usize> {
    Set::new(
        |l: usize| l == left.0 || exists|i: int| 0 <= i < ops.len() && operand_local(ops[i]) == Some(l),
    )
}

/// No statement of `ss` in `[lo, hi)` clobbers a local of `w`.
pub open spec fn span_clean(ss: Seq<Statement>, lo: int, hi: int, w: Set<usize>) -> bool {
    forall|k: int| lo <= k < hi ==> !clobbers(#[trigger] ss[k].kind, w)
}

/// `s` holds every block reached from `db` by edges that do not enter `ub`.
pub open spec fn region_closed(f: MirFunction, db: int, ub: int, s: Set<usize>) -> bool {
    &&& forall|c: usize| #[trigger] raw_successors(f.basic_blocks@[db]).contains(c) && c != ub ==> s.contains(c)
    &&& forall|b: usize, c: usize|
        #![trigger s.contains(b), raw_successors(f.basic_blocks@[b as int]).contains(c)]
        s.contains(b) && b < f.basic_blocks@.len() && raw_successors(f.basic_blocks@[b as int]).contains(c)
            && c != ub ==> s.contains(c)
}

/// Block `b` can run between leaving `db` and entering `ub`: it lies in every
/// set `region_closed` describes.
pub open spec fn in_region(f: MirFunction, db: int, ub: int, b: usize) -> bool {
    forall|s: Set<usize>| #[trigger] region_closed(f, db, ub, s) ==> s.contains(b)
}

/// Nothing that can run after the literal at `(db, di)` and before the
/// concat at `(ub, ui)` clobbers a local of `w`.
pub open spec fn path_clear(f: MirFunction, w: Set<usize>, db: int, di: int, ub: int, ui: int) -> bool {
    let sd = f.basic_blocks@[db].statements@;
    let su = f.basic_blocks@[ub].statements@;
    if db == ub {
        span_clean(sd, di + 1, ui, w)
    } else {
        &&& span_clean(sd, di + 1, sd.len() as int, w)
        &&& span_clean(su, 0, ui, w)
        &&& forall|b: usize|
            #[trigger] in_region(f, db, ub, b) ==> span_clean(
                f.basic_blocks@[b as int].statements@,
                0,
                f.basic_blocks@[b as int].statements@.len() as int,
                w,
            )
    }
}

/// The concat at `(ub, ui)` can take the elements of its right list's
/// literal: that literal is the only one built into the list, in a block
/// `doms` says dominates the concat's, nothing else reads the list, and
/// nothing between them clobbers what the appends read.
pub open spec fn site_ok(f: MirFunction, doms: Seq<IndexSet>, ub: int, ui: int) -> bool {
    &&& valid_pos(f, ub, ui)
    &&& match concat_parts(kind_at(f, ub, ui)) {
        Some((_dst, left, temp)) => {
            let p = literal_pos(f, temp);
            &&& has_unique_literal(f, temp)
            &&& index_set_contents(doms[ub]).contains(p.0 as usize)
            &&& temp_private(f, temp, p.0, p.1, ub, ui)
            &&& path_clear(f, watched(left, literal_ops(kind_at(f, p.0, p.1), temp)->0), p.0, p.1, ub, ui)
        },
        None => false,
    }
}

/// `(ub, ui)` is the first position, block by block, where `site_ok` holds.
pub open spec fn first_site(f: MirFunction, doms: Seq<IndexSet>, ub: int, ui: int) -> bool {
    &&& site_ok(f, doms, ub, ui)
    &&& forall|b: int, k: int| (b < ub || (b == ub && k < ui)) ==> !#[trigger] site_ok(f, doms, b, k)
}

/// `doms` is what `dominators` gives: the dominator relation of `f`, with
/// its shape spelled out.
pub open spec fn dom_shape(f: MirFunction, doms: Seq<IndexSet>) -> bool {
    &&& doms.len() == f.basic_blocks@.len()
    &&& dominance(f.basic_blocks@, dom_view(doms))
    &&& forall|b: int| 0 <= b < doms.len() ==> (#[trigger] index_set_contents(doms[b])).contains(b as usize)
    &&& forall|b: int, d: usize|
        0 <= b < doms.len() && #[trigger] index_set_contents(doms[b]).contains(d) ==> d < doms.len()
    &&& doms.len() > 0 ==> index_set_contents(doms[0]) == set![0usize]
}

/// No block has a list literal after a concat of the same list: a literal
/// that defines the concat's right list comes first in a shared block.
pub open spec fn literals_lead(f: MirFunction) -> bool {
    forall|b: int, i: int, j: int|
        #![trigger kind_at(f, b, i), kind_at(f, b, j)]
        valid_pos(f, b, i) && valid_pos(f, b, j) && i < j ==> !(concat_parts(kind_at(f, b, i)) matches Some(
            p,
        ) && literal_ops(kind_at(f, b, j), p.2) is Some)
}

/// What the pass needs of a function: every jump lands on a block, and no
/// list literal follows a concat of its list in one block.
pub open spec fn append_accepts(f: MirFunction) -> bool {
    targets_in_range(f.basic_blocks@) && literals_lead(f)
}

fn op_reads(op: &Operand, t: Local) -> (r: bool)
    ensures
        r == (operand_local(*op) == Some(t.0)),
{
    match op {
        Operand::Copy(l) | Operand::Move(l) => l.0 == t.0,
        Operand::Constant(_) => false,
    }
}

fn contains_local(v: &Vec<Local>, t: Local) -> (r: bool)
    ensures
        r == v@.contains(t),
{
    let mut i: usize = 0;
    while i < v.len()
        invariant
            0 <= i <= v@.len(),
            forall|j: int| 0 <= j < i ==> v@[j] != t,
        decreases v.len() - i,
    {
        if v[i].0 == t.0 {
            return true;
        }
        i = i + 1;
    }
    false
}

fn reads(k: &StatementKind, t: Local) -> (r: bool)
    ensures
        r == reads_temp(*k, t),
{
    match k {
        StatementKind::Assign(dst, rv) => {
            if dst.0 == t.0 {
                return true;
            }
            let mut locals: Vec<Local> = Vec::new();
            rvalue_operand_locals(rv, &mut locals);
            assert(locals@ =~= rvalue_locals(*rv));
            contains_local(&locals, t)
        },
        StatementKind::SetAttr(o, _, v) | StatementKind::PtrStore(o, v) => op_reads(o, t) || op_reads(v, t),
        StatementKind::SetIndex(o, i, v, _) | StatementKind::VectorStore(o, i, v) => op_reads(o, t) || op_reads(
            i,
            t,
        ) || op_reads(v, t),
        StatementKind::GenCheck { value, generation } => value.0 == t.0 || generation.0 == t.0,
        _ => false,
    }
}

fn op_watched(op: &Operand, w: &IndexSet) -> (r: bool)
    ensures
        r == match operand_local(*op) {
            Some(l) => index_set_contents(*w).contains(l),
            None => false,
        },
{
    match op {
        Operand::Copy(l) | Operand::Move(l) => w.contains(l.0),
        Operand::Constant(_) => false,
    }
}

/// Whether `k` can change what a local of `w` holds.
fn clobbers_any(k: &StatementKind, w: &IndexSet) -> (r: bool)
    ensures
        r == clobbers(*k, index_set_contents(*w)),
{
    match k {
        StatementKind::Assign(dst, _) => w.contains(dst.0),
        StatementKind::Drop(l) | StatementKind::StorageDead(l) => w.contains(l.0),
        StatementKind::SetAttr(o, _, _) | StatementKind::PtrStore(o, _) | StatementKind::SetIndex(o, _, _, _)
        | StatementKind::VectorStore(o, _, _) => op_watched(o, w),
        _ => false,
    }
}

fn marker_for(k: &StatementKind, t: Local) -> (r: bool)
    ensures
        r == is_marker_for(*k, t),
{
    match k {
        StatementKind::StorageLive(x) | StatementKind::StorageDead(x) | StatementKind::Drop(x) => x.0 == t.0,
        _ => false,
    }
}

/// A concat and the literal it can take the elements of.
struct Site {
    def_bb: usize,
    def_idx: usize,
    use_bb: usize,
    use_idx: usize,
    dst: Local,
    left: Local,
    temp: Local,
    ops: Vec<Operand>,
}

/// `s` names the concat at its use position and the only literal of its
/// right list.
spec fn site_of(f: MirFunction, s: Site) -> bool {
    &&& valid_pos(f, s.use_bb as int, s.use_idx as int)
    &&& concat_parts(kind_at(f, s.use_bb as int, s.use_idx as int)) == Some((s.dst, s.left, s.temp))
    &&& unique_literal(f, s.temp, s.def_bb as int, s.def_idx as int)
    &&& literal_ops(kind_at(f, s.def_bb as int, s.def_idx as int), s.temp) == Some(s.ops@)
}

proof fn lemma_unique_pos(f: MirFunction, t: Local, b: int, k: int)
    requires
        unique_literal(f, t, b, k),
    ensures
        has_unique_literal(f, t),
        literal_pos(f, t) == (b, k),
{
    let w: (int, int) = (b, k);
    assert(literal_at(f, w.0, w.1, t));
    let p = literal_pos(f, t);
    assert(literal_at(f, p.0, p.1, t));
    assert(unique_literal(f, t, b, k));
}

impl ListAppend {
    /// The only list literal built into `temp`, when its block is among the
    /// dominators of `use_bb`.
    fn find_literal(func: &MirFunction, doms: &Vec<IndexSet>, temp: Local, use_bb: usize) -> (r: Option<
        (usize, usize, Vec<Operand>),
    >)
        requires
            doms@.len() == func.basic_blocks@.len(),
            use_bb < func.basic_blocks@.len(),
        ensures
            match r {
                Some((b, k, ops)) => {
                    &&& unique_literal(*func, temp, b as int, k as int)
                    &&& index_set_contents(doms@[use_bb as int]).contains(b)
                    &&& literal_ops(kind_at(*func, b as int, k as int), temp) == Some(ops@)
                },
                None => !(has_unique_literal(*func, temp) && index_set_contents(doms@[use_bb as int]).contains(
                    literal_pos(*func, temp).0 as usize,
                )),
            },
    {
        let ghost f = *func;
        let mut found: Option<(usize, usize, Vec<Operand>)> = None;
        let mut bi: usize = 0;
        while bi < func.basic_blocks.len()
            invariant
                0 <= bi <= f.basic_blocks@.len(),
                *func == f,
                forall|b: int, k: int| #[trigger] literal_at(f, b, k, temp) && b < bi ==> (found matches Some(x) && x.0
                    == b && x.1 == k),
                found matches Some(x) ==> literal_at(f, x.0 as int, x.1 as int, temp) && x.0 < bi && literal_ops(
                    kind_at(f, x.0 as int, x.1 as int),
                    temp,
                ) == Some(x.2@),
            decreases f.basic_blocks@.len() - bi,
        {
            let block = &func.basic_blocks[bi];
            let mut si: usize = 0;
            while si < block.statements.len()
                invariant
                    0 <= bi < f.basic_blocks@.len(),
                    0 <= si <= block.statements@.len(),
                    *func == f,
                    *block == f.basic_blocks@[bi as int],
                    forall|b: int, k: int|
                        #[trigger] literal_at(f, b, k, temp) && (b < bi || (b == bi && k < si)) ==> (found matches Some(
                            x,
                        ) && x.0 == b && x.1 == k),
                    found matches Some(x) ==> literal_at(f, x.0 as int, x.1 as int, temp) && (x.0 < bi || (x.0
                        == bi && x.1 < si)) && literal_ops(kind_at(f, x.0 as int, x.1 as int), temp) == Some(x.2@),
                decreases block.statements@.len() - si,
            {
                if let StatementKind::Assign(d, Rvalue::Aggregate(AggregateKind::List, ops)) = &block.statements[si].kind {
                    if d.0 == temp.0 {
                        assert(literal_at(f, bi as int, si as int, temp));
                        if found.is_some() {
                            proof {
                                let x = found->0;
                                if has_unique_literal(f, temp) {
                                    let (ub2, uk2) = choose|b: int, k: int| unique_literal(f, temp, b, k);
                                    assert(unique_literal(f, temp, ub2, uk2));
                                    assert(literal_at(f, x.0 as int, x.1 as int, temp));
                                    assert(x.0 == ub2 && x.1 == uk2);
                                    assert(bi == ub2 && si == uk2);
                                    assert(false);
                                }
                            }
                            return None;
                        }
                        found = Some((bi, si, crate::ir::clone_operands(ops)));
                    }
                }
                si = si + 1;
            }
            bi = bi + 1;
        }
        match found {
            Some((b, k, ops)) => {
                proof {
                    assert forall|b2: int, k2: int| #[trigger] literal_at(f, b2, k2, temp) implies b2 == b && k2 == k by {
                        assert(b2 < bi);
                    }
                    lemma_unique_pos(f, temp, b as int, k as int);
                }
                if doms[use_bb].contains(b) {
                    Some((b, k, ops))
                } else {
                    None
                }
            },
            None => {
                proof {
                    if has_unique_literal(f, temp) {
                        let (b2, k2) = choose|b: int, k: int| unique_literal(f, temp, b, k);
                        assert(literal_at(f, b2, k2, temp));
                    }
                }
                None
            },
        }
    }

    /// Whether nothing but the literal and the concat of `s` reads its list,
    /// storage and drop markers aside.
    fn temp_is_private(func: &MirFunction, s: &Site) -> (r: bool)
        ensures
            r == temp_private(*func, s.temp, s.def_bb as int, s.def_idx as int, s.use_bb as int, s.use_idx as int),
    {
        let ghost f = *func;
        let ghost (t, db, di, ub, ui) = (s.temp, s.def_bb as int, s.def_idx as int, s.use_bb as int, s.use_idx as int);
        let mut bi: usize = 0;
        while bi < func.basic_blocks.len()
            invariant
                0 <= bi <= f.basic_blocks@.len(),
                *func == f,
                t == s.temp && db == s.def_bb && di == s.def_idx && ub == s.use_bb && ui == s.use_idx,
                forall|b: int, k: int|
                    #![trigger kind_at(f, b, k)]
                    valid_pos(f, b, k) && b < bi && !(b == db && k == di) && !(b == ub && k == ui) && !is_marker_for(
                        kind_at(f, b, k),
                        t,
                    ) ==> !reads_temp(kind_at(f, b, k), t),
                forall|b: int| 0 <= b < bi ==> !switches_on(#[trigger] f.basic_blocks@[b], t),
            decreases f.basic_blocks@.len() - bi,
        {
            let block = &func.basic_blocks[bi];
            let mut si: usize = 0;
            while si < block.statements.len()
                invariant
                    0 <= bi < f.basic_blocks@.len(),
                    0 <= si <= block.statements@.len(),
                    *func == f,
                    *block == f.basic_blocks@[bi as int],
                    t == s.temp && db == s.def_bb && di == s.def_idx && ub == s.use_bb && ui == s.use_idx,
                    forall|b: int, k: int|
                        #![trigger kind_at(f, b, k)]
                        valid_pos(f, b, k) && (b < bi || (b == bi && k < si)) && !(b == db && k == di) && !(b == ub
                            && k == ui) && !is_marker_for(kind_at(f, b, k), t) ==> !reads_temp(kind_at(f, b, k), t),
                decreases block.statements@.len() - si,
            {
                let skip = (bi == s.def_bb && si == s.def_idx) || (bi == s.use_bb && si == s.use_idx);
                if !skip && !marker_for(&block.statements[si].kind, s.temp) && reads(&block.statements[si].kind, s.temp) {
                    proof {
                        let kk = kind_at(f, bi as int, si as int);
                        assert(kk == block.statements@[si as int].kind);
                        assert(valid_pos(f, bi as int, si as int));
                        assert(!(bi as int == db && si as int == di) && !(bi as int == ub && si as int == ui));
                        assert(!is_marker_for(kk, t));
                        assert(reads_temp(kk, t));
                        assert(!temp_private(f, t, db, di, ub, ui));
                    }
                    return false;
                }
                si = si + 1;
            }
            match &block.terminator {
                Some(term) => match &term.kind {
                    TerminatorKind::SwitchInt { discr, .. } => {
                        if op_reads(discr, s.temp) {
                            assert(switches_on(f.basic_blocks@[bi as int], t));
                            return false;
                        }
                    },
                    _ => {},
                },
                None => {},
            }
            bi = bi + 1;
        }
        true
    }
}

/// `ss[lo..hi]` has a statement that clobbers a local of `w`.
fn span_clobbered(ss: &Vec<Statement>, lo: usize, hi: usize, w: &IndexSet) -> (r: bool)
    requires
        lo <= hi <= ss@.len(),
    ensures
        r == !span_clean(ss@, lo as int, hi as int, index_set_contents(*w)),
{
    let mut k = lo;
    while k < hi
        invariant
            lo <= k <= hi,
            hi <= ss@.len(),
            forall|j: int| lo <= j < k ==> !clobbers(#[trigger] ss@[j].kind, index_set_contents(*w)),
        decreases hi - k,
    {
        if clobbers_any(&ss[k].kind, w) {
            return true;
        }
        k = k + 1;
    }
    false
}

/// The set `watched` describes.
fn watched_set(left: Local, ops: &Vec<Operand>) -> (w: IndexSet)
    ensures
        index_set_contents(w) == watched(left, ops@),
{
    let mut w = IndexSet::new();
    w.insert(left.0);
    let mut i: usize = 0;
    assert(index_set_contents(w) =~= Set::new(
        |l: usize| l == left.0 || exists|j: int| 0 <= j < 0 && operand_local(ops@[j]) == Some(l),
    ));
    while i < ops.len()
        invariant
            0 <= i <= ops@.len(),
            index_set_contents(w) == Set::new(
                |l: usize| l == left.0 || exists|j: int| 0 <= j < i && operand_local(ops@[j]) == Some(l),
            ),
        decreases ops.len() - i,
    {
        let ghost before = index_set_contents(w);
        match &ops[i] {
            Operand::Copy(l) | Operand::Move(l) => {
                w.insert(l.0);
            },
            Operand::Constant(_) => {},
        }
        let ghost next = Set::new(
            |l: usize| l == left.0 || exists|j: int| 0 <= j < i + 1 && operand_local(ops@[j]) == Some(l),
        );
        assert forall|l: usize| next.contains(l) implies index_set_contents(w).contains(l) by {
            if l != left.0 {
                let j = choose|j: int| 0 <= j < i + 1 && operand_local(ops@[j]) == Some(l);
                if j < i {
                    assert(before.contains(l));
                }
            }
        }
        assert forall|l: usize| index_set_contents(w).contains(l) implies next.contains(l) by {
            if before.contains(l) && l != left.0 {
                let j = choose|j: int| 0 <= j < i && operand_local(ops@[j]) == Some(l);
                assert(0 <= j < i + 1 && operand_local(ops@[j]) == Some(l));
            } else if l != left.0 {
                assert(operand_local(ops@[i as int]) == Some(l));
            }
        }
        assert(index_set_contents(w) =~= next);
        i = i + 1;
    }
    assert(index_set_contents(w) =~= watched(left, ops@));
    w
}

proof fn lemma_succ_in_region(f: MirFunction, db: int, ub: int, b: usize, c: usize)
    requires
        in_region(f, db, ub, b),
        b < f.basic_blocks@.len(),
        raw_successors(f.basic_blocks@[b as int]).contains(c),
        c != ub,
    ensures
        in_region(f, db, ub, c),
{
    assert forall|s: Set<usize>| #[trigger] region_closed(f, db, ub, s) implies s.contains(c) by {
        assert(s.contains(b));
    }
}

proof fn lemma_def_succ_in_region(f: MirFunction, db: int, ub: int, c: usize)
    requires
        raw_successors(f.basic_blocks@[db]).contains(c),
        c != ub,
    ensures
        in_region(f, db, ub, c),
{
    assert forall|s: Set<usize>| #[trigger] region_closed(f, db, ub, s) implies s.contains(c) by {}
}

/// The successors of block `b` lie in the function.
proof fn lemma_succ_bound(f: MirFunction, b: int, c: usize)
    requires
        targets_in_range(f.basic_blocks@),
        0 <= b < f.basic_blocks@.len(),
        raw_successors(f.basic_blocks@[b]).contains(c),
    ensures
        c < f.basic_blocks@.len(),
{
    let k = choose|k: int| 0 <= k < raw_successors(f.basic_blocks@[b]).len() && raw_successors(f.basic_blocks@[b])[k] == c;
    assert(raw_successors(f.basic_blocks@[b])[k] < f.basic_blocks@.len());
}

impl ListAppend {
    /// Whether nothing that can run between the literal and the concat of `s`
    /// clobbers the left list or an element the appends read.
    fn path_is_clear(func: &MirFunction, s: &Site) -> (r: bool)
        requires
            site_of(*func, *s),
            targets_in_range(func.basic_blocks@),
            s.def_bb == s.use_bb ==> s.def_idx < s.use_idx,
        ensures
            r == path_clear(
                *func,
                watched(s.left, s.ops@),
                s.def_bb as int,
                s.def_idx as int,
                s.use_bb as int,
                s.use_idx as int,
            ),
    {
        let ghost f = *func;
        let ghost ws = watched(s.left, s.ops@);
        let ghost db = s.def_bb as int;
        let ghost ub = s.use_bb as int;
        let w = watched_set(s.left, &s.ops);
        if s.def_bb == s.use_bb {
            return !span_clobbered(&func.basic_blocks[s.def_bb].statements, s.def_idx + 1, s.use_idx, &w);
        }
        let sd = &func.basic_blocks[s.def_bb].statements;
        let sl = sd.len();
        assert(literal_at(f, s.def_bb as int, s.def_idx as int, s.temp));
        assert(s.def_idx < sl);
        if span_clobbered(sd, s.def_idx + 1, sl, &w) {
            return false;
        }
        if span_clobbered(&func.basic_blocks[s.use_bb].statements, 0, s.use_idx, &w) {
            return false;
        }
        let n = func.basic_blocks.len();
        let mut seen = IndexSet::new();
        let mut stack = raw_successors_of(&func.basic_blocks[s.def_bb]);
        proof {
            assert forall|j: int| 0 <= j < stack@.len() implies stack@[j] < n && (stack@[j] == s.use_bb || in_region(
                f,
                db,
                ub,
                #[trigger] stack@[j],
            )) by {
                let c = stack@[j];
                assert(raw_successors(f.basic_blocks@[db]).contains(c));
                lemma_succ_bound(f, db, c);
                if c != s.use_bb {
                    lemma_def_succ_in_region(f, db, ub, c);
                }
            }
        }
        while stack.len() > 0
            invariant
                *func == f,
                n == f.basic_blocks@.len(),
                db == s.def_bb && ub == s.use_bb && db != ub,
                0 <= db < n && 0 <= ub < n,
                targets_in_range(f.basic_blocks@),
                index_set_contents(w) == ws,
                ws == watched(s.left, s.ops@),
                index_set_contents(seen).finite(),
                forall|x: usize| #[trigger]
                    index_set_contents(seen).contains(x) ==> x < n && in_region(f, db, ub, x) && span_clean(
                        f.basic_blocks@[x as int].statements@,
                        0,
                        f.basic_blocks@[x as int].statements@.len() as int,
                        ws,
                    ),
                forall|j: int|
                    0 <= j < stack@.len() ==> stack@[j] < n && (stack@[j] == s.use_bb || in_region(
                        f,
                        db,
                        ub,
                        #[trigger] stack@[j],
                    )),
                forall|c: usize|
                    #[trigger] raw_successors(f.basic_blocks@[db]).contains(c) && c != s.use_bb ==> index_set_contents(
                        seen,
                    ).contains(c) || stack@.contains(c),
                forall|b: usize, c: usize|
                    #![trigger index_set_contents(seen).contains(b), raw_successors(f.basic_blocks@[b as int]).contains(c)]
                    index_set_contents(seen).contains(b) && raw_successors(f.basic_blocks@[b as int]).contains(c)
                        && c != s.use_bb ==> index_set_contents(seen).contains(c) || stack@.contains(c),
            decreases n - index_set_contents(seen).len(), stack@.len(),
        {
            proof {
                lemma_bounded_set_len(index_set_contents(seen), n as nat);
            }
            let ghost old_stack = stack@;
            let ghost old_seen = index_set_contents(seen);
            let bb = stack.pop().unwrap();
            proof {
                assert forall|c: usize| old_stack.contains(c) implies c == bb || stack@.contains(c) by {
                    let j = choose|j: int| 0 <= j < old_stack.len() && old_stack[j] == c;
                    if j < old_stack.len() - 1 {
                        assert(stack@[j] == c);
                    }
                }
                assert(old_stack[old_stack.len() - 1] == bb);
            }
            if bb == s.use_bb || seen.contains(bb) {
                continue;
            }
            seen.insert(bb);
            proof {
                assert(in_region(f, db, ub, bb));
                lemma_bounded_set_len(index_set_contents(seen), n as nat);
            }
            if span_clobbered(&func.basic_blocks[bb].statements, 0, func.basic_blocks[bb].statements.len(), &w) {
                proof {
                    let sb = f.basic_blocks@[bb as int].statements@;
                    assert(!span_clean(sb, 0, sb.len() as int, ws));
                    assert(in_region(f, db, ub, bb));
                    assert(!path_clear(f, ws, db, s.def_idx as int, ub, s.use_idx as int));
                }
                return false;
            }
            let mut succ = raw_successors_of(&func.basic_blocks[bb]);
            let ghost mid = stack@;
            stack.append(&mut succ);
            proof {
                assert forall|j: int| 0 <= j < stack@.len() implies stack@[j] < n && (stack@[j] == s.use_bb || in_region(
                    f,
                    db,
                    ub,
                    #[trigger] stack@[j],
                )) by {
                    if j >= mid.len() {
                        let c = stack@[j];
                        assert(raw_successors(f.basic_blocks@[bb as int])[j - mid.len()] == c);
                        assert(raw_successors(f.basic_blocks@[bb as int]).contains(c));
                        lemma_succ_bound(f, bb as int, c);
                        if c != s.use_bb {
                            lemma_succ_in_region(f, db, ub, bb, c);
                        }
                    } else {
                        assert(stack@[j] == mid[j]);
                    }
                }
                assert forall|c: usize| #[trigger] mid.contains(c) implies stack@.contains(c) by {
                    let j = choose|j: int| 0 <= j < mid.len() && mid[j] == c;
                    assert(stack@[j] == c);
                }
                assert forall|b: usize, c: usize|
                    #![trigger index_set_contents(seen).contains(b), raw_successors(f.basic_blocks@[b as int]).contains(c)]
                    index_set_contents(seen).contains(b) && raw_successors(f.basic_blocks@[b as int]).contains(c)
                        && c != s.use_bb implies index_set_contents(seen).contains(c) || stack@.contains(c) by {
                    if b == bb {
                        let k = choose|k: int|
                            0 <= k < raw_successors(f.basic_blocks@[b as int]).len() && raw_successors(
                                f.basic_blocks@[b as int],
                            )[k] == c;
                        assert(stack@[mid.len() + k] == c);
                    } else {
                        assert(old_seen.contains(b));
                        if old_stack.contains(c) {
                            if c != bb {
                                assert(mid.contains(c));
                            }
                        }
                    }
                }
                assert forall|c: usize|
                    #[trigger] raw_successors(f.basic_blocks@[db]).contains(c) && c != s.use_bb implies index_set_contents(
                        seen,
                    ).contains(c) || stack@.contains(c) by {
                    if old_stack.contains(c) {
                        if c != bb {
                            assert(mid.contains(c));
                        }
                    }
                }
            }
        }
        proof {
            let sn = index_set_contents(seen);
            assert(region_closed(f, db, ub, sn));
            assert forall|b: usize| #[trigger] in_region(f, db, ub, b) implies span_clean(
                f.basic_blocks@[b as int].statements@,
                0,
                f.basic_blocks@[b as int].statements@.len() as int,
                ws,
            ) by {
                assert(sn.contains(b));
            }
        }
        true
    }
}

fn concat_of(k: &StatementKind) -> (r: Option<(Local, Local, Local)>)
    ensures
        r == concat_parts(*k),
{
    match k {
        StatementKind::Assign(dst, Rvalue::Call { func, args }) => {
            let named = match func {
                Operand::Constant(Constant::Function(n)) => is_named(n, "__olive_list_concat_move"),
                _ => false,
            };
            if named && args.len() == 2 {
                match &args[0] {
                    Operand::Move(left) => match &args[1] {
                        Operand::Copy(temp) => Some((*dst, *left, *temp)),
                        _ => None,
                    },
                    _ => None,
                }
            } else {
                None
            }
        },
        _ => None,
    }
}

impl ListAppend {
    /// The first concat, block by block, that `site_ok` accepts, with its
    /// literal.
    fn find_site(func: &MirFunction, doms: &Vec<IndexSet>) -> (r: Option<Site>)
        requires
            dom_shape(*func, doms@),
            append_accepts(*func),
        ensures
            match r {
                Some(s) => {
                    &&& site_of(*func, s)
                    &&& first_site(*func, doms@, s.use_bb as int, s.use_idx as int)
                    &&& (s.def_bb == s.use_bb ==> s.def_idx < s.use_idx)
                },
                None => forall|b: int, k: int| !#[trigger] site_ok(*func, doms@, b, k),
            },
    {
        let ghost f = *func;
        let mut ub: usize = 0;
        while ub < func.basic_blocks.len()
            invariant
                *func == f,
                dom_shape(f, doms@),
                append_accepts(f),
                0 <= ub <= f.basic_blocks@.len(),
                forall|b: int, k: int| b < ub ==> !#[trigger] site_ok(f, doms@, b, k),
            decreases f.basic_blocks@.len() - ub,
        {
            let block = &func.basic_blocks[ub];
            let mut ui: usize = 0;
            while ui < block.statements.len()
                invariant
                    *func == f,
                    dom_shape(f, doms@),
                    append_accepts(f),
                    0 <= ub < f.basic_blocks@.len(),
                    *block == f.basic_blocks@[ub as int],
                    0 <= ui <= block.statements@.len(),
                    forall|b: int, k: int| (b < ub || (b == ub && k < ui)) ==> !#[trigger] site_ok(f, doms@, b, k),
                decreases block.statements@.len() - ui,
            {
                assert(kind_at(f, ub as int, ui as int) == block.statements@[ui as int].kind);
                match concat_of(&block.statements[ui].kind) {
                    Some((dst, left, temp)) => {
                        match Self::find_literal(func, doms, temp, ub) {
                            Some((db, di, ops)) => {
                                proof {
                                    lemma_unique_pos(f, temp, db as int, di as int);
                                    assert(literal_at(f, db as int, di as int, temp));
                                    if db == ub {
                                        assert(di != ui);
                                        if di > ui {
                                            assert(valid_pos(f, ub as int, di as int));
                                            assert(kind_at(f, ub as int, di as int) == kind_at(f, ub as int, di as int));
                                            assert(false);
                                        }
                                    }
                                }
                                let site = Site {
                                    def_bb: db,
                                    def_idx: di,
                                    use_bb: ub,
                                    use_idx: ui,
                                    dst,
                                    left,
                                    temp,
                                    ops,
                                };
                                if Self::temp_is_private(func, &site) && Self::path_is_clear(func, &site) {
                                    return Some(site);
                                }
                            },
                            None => {},
                        }
                    },
                    None => {},
                }
                ui = ui + 1;
            }
            ub = ub + 1;
        }
        None
    }
}

/// `st` is `dst = __olive_list_push(move src, op)` at `span`.
pub open spec fn push_stmt(st: Statement, dst: Local, src: Local, op: Operand, span: Span) -> bool {
    &&& st.span == span
    &&& match st.kind {
        StatementKind::Assign(d, Rvalue::Call { func, args }) => {
            &&& d == dst
            &&& args@ == seq![Operand::Move(src), op]
            &&& match func {
                Operand::Constant(Constant::Function(n)) => n@ == "__olive_list_push"@,
                _ => false,
            }
        },
        _ => false,
    }
}

/// What replaces the concat: one push per element, the first onto `left`
/// and the rest onto `dst`, or `dst = move left` for an empty literal.
pub open spec fn appends_ok(app: Seq<Statement>, dst: Local, left: Local, ops: Seq<Operand>, span: Span) -> bool {
    if ops.len() == 0 {
        app == seq![Statement { kind: StatementKind::Assign(dst, Rvalue::Use(Operand::Move(left))), span }]
    } else {
        &&& app.len() == ops.len()
        &&& forall|i: int|
            0 <= i < ops.len() ==> push_stmt(#[trigger] app[i], dst, if i == 0 { left } else { dst }, ops[i], span)
    }
}

/// `ss` without the storage and drop markers of `t`.
pub open spec fn unmarked(ss: Seq<Statement>, t: Local) -> Seq<Statement>
    decreases ss.len(),
{
    if ss.len() == 0 {
        ss
    } else if is_marker_for(ss.last().kind, t) {
        unmarked(ss.drop_last(), t)
    } else {
        unmarked(ss.drop_last(), t).push(ss.last())
    }
}

/// `ss` with the statement at `ui` replaced by `app`.
pub open spec fn spliced(ss: Seq<Statement>, ui: int, app: Seq<Statement>) -> Seq<Statement> {
    ss.subrange(0, ui) + app + ss.subrange(ui + 1, ss.len() as int)
}

/// Block `b` after the rewrite: the concat replaced by `app`, the literal
/// removed, and the markers of the list dropped.
pub open spec fn rewritten_block(
    ss: Seq<Statement>,
    b: int,
    db: int,
    di: int,
    ub: int,
    ui: int,
    app: Seq<Statement>,
    t: Local,
) -> Seq<Statement> {
    let s1 = if b == ub { spliced(ss, ui, app) } else { ss };
    let s2 = if b == db { s1.remove(di) } else { s1 };
    unmarked(s2, t)
}

/// `g` is `f` with the concat at `(ub, ui)` turned into the appends `app`.
pub open spec fn applied_with(f: MirFunction, g: MirFunction, ub: int, ui: int, app: Seq<Statement>) -> bool {
    match concat_parts(kind_at(f, ub, ui)) {
        Some((dst, left, temp)) => {
            let p = literal_pos(f, temp);
            &&& appends_ok(
                app,
                dst,
                left,
                literal_ops(kind_at(f, p.0, p.1), temp)->0,
                f.basic_blocks@[ub].statements@[ui].span,
            )
            &&& same_except_blocks(g, f)
            &&& g.basic_blocks@.len() == f.basic_blocks@.len()
            &&& forall|b: int|
                0 <= b < f.basic_blocks@.len() ==> {
                    &&& (#[trigger] g.basic_blocks@[b]).terminator == f.basic_blocks@[b].terminator
                    &&& g.basic_blocks@[b].statements@ == rewritten_block(
                        f.basic_blocks@[b].statements@,
                        b,
                        p.0,
                        p.1,
                        ub,
                        ui,
                        app,
                        temp,
                    )
                }
        },
        None => false,
    }
}

/// `g` is `f` with the concat at `(ub, ui)` folded with its literal.
pub open spec fn applied(f: MirFunction, g: MirFunction, ub: int, ui: int) -> bool {
    exists|app: Seq<Statement>| applied_with(f, g, ub, ui, app)
}

/// `g` is `f` with the first site folded that some dominator sets of
/// `dominators`' shape allow.
pub open spec fn fold_step(f: MirFunction, g: MirFunction, site: (int, int)) -> bool {
    exists|doms: Seq<IndexSet>| dom_shape(f, doms) && first_site(f, doms, site.0, site.1) && applied(f, g, site.0, site.1)
}

/// Some dominator sets of `dominators`' shape allow no site in `f`.
pub open spec fn fold_done(f: MirFunction) -> bool {
    exists|doms: Seq<IndexSet>| dom_shape(f, doms) && forall|b: int, k: int| !#[trigger] site_ok(f, doms, b, k)
}

/// The pass took `fs[0] = f0` to `fs.last() = f1` by folding, at each step,
/// the first site that some dominator sets of `dominators`' shape allow, and
/// stopped where such sets allow none.
pub open spec fn append_run(f0: MirFunction, f1: MirFunction, fs: Seq<MirFunction>, sites: Seq<(int, int)>) -> bool {
    &&& fs.len() == sites.len() + 1
    &&& fs[0] == f0
    &&& fs.last() == f1
    &&& forall|i: int| 0 <= i < sites.len() ==> #[trigger] fold_step(fs[i], fs[i + 1], sites[i])
    &&& fold_done(f1)
}

/// Neither a concat nor a list literal.
spec fn neutral(st: Statement) -> bool {
    concat_parts(st.kind) is None && !is_list_literal(st.kind)
}

/// The number of list literals in `ss`.
spec fn lit_count(ss: Seq<Statement>) -> nat
    decreases ss.len(),
{
    if ss.len() == 0 {
        0
    } else {
        lit_count(ss.drop_last()) + if is_list_literal(ss.last().kind) { 1nat } else { 0nat }
    }
}

/// The number of list literals in `blocks`.
spec fn total_lits(blocks: Seq<BasicBlock>) -> nat
    decreases blocks.len(),
{
    if blocks.len() == 0 {
        0
    } else {
        total_lits(blocks.drop_last()) + lit_count(blocks.last().statements@)
    }
}

proof fn lemma_appends_neutral(app: Seq<Statement>, dst: Local, left: Local, ops: Seq<Operand>, span: Span)
    requires
        appends_ok(app, dst, left, ops, span),
    ensures
        app.len() >= 1,
        forall|i: int| 0 <= i < app.len() ==> neutral(#[trigger] app[i]),
{
    reveal_strlit("__olive_list_push");
    reveal_strlit("__olive_list_concat_move");
    assert("__olive_list_push"@.len() != "__olive_list_concat_move"@.len());
    assert forall|i: int| 0 <= i < app.len() implies neutral(#[trigger] app[i]) by {
        if ops.len() > 0 {
            assert(push_stmt(app[i], dst, if i == 0 { left } else { dst }, ops[i], span));
        }
    }
}

proof fn lemma_lit_count_add(a: Seq<Statement>, b: Seq<Statement>)
    ensures
        lit_count(a + b) == lit_count(a) + lit_count(b),
    decreases b.len(),
{
    if b.len() > 0 {
        assert((a + b).drop_last() =~= a + b.drop_last());
        lemma_lit_count_add(a, b.drop_last());
    } else {
        assert(a + b =~= a);
    }
}

proof fn lemma_lit_count_neutral(a: Seq<Statement>)
    requires
        forall|i: int| 0 <= i < a.len() ==> neutral(#[trigger] a[i]),
    ensures
        lit_count(a) == 0,
    decreases a.len(),
{
    if a.len() > 0 {
        assert(neutral(a[a.len() - 1]));
        lemma_lit_count_neutral(a.drop_last());
    }
}

proof fn lemma_lit_count_unmarked(ss: Seq<Statement>, t: Local)
    ensures
        lit_count(unmarked(ss, t)) == lit_count(ss),
    decreases ss.len(),
{
    if ss.len() > 0 {
        lemma_lit_count_unmarked(ss.drop_last(), t);
        let u = unmarked(ss.drop_last(), t);
        if !is_marker_for(ss.last().kind, t) {
            assert(u.push(ss.last()).drop_last() =~= u);
        }
    }
}

/// The three-way split of `ss` around `i`.
proof fn lemma_split(ss: Seq<Statement>, i: int)
    requires
        0 <= i < ss.len(),
    ensures
        lit_count(ss) == lit_count(ss.subrange(0, i)) + lit_count(seq![ss[i]]) + lit_count(
            ss.subrange(i + 1, ss.len() as int),
        ),
{
    assert(ss =~= ss.subrange(0, i) + seq![ss[i]] + ss.subrange(i + 1, ss.len() as int));
    lemma_lit_count_add(ss.subrange(0, i) + seq![ss[i]], ss.subrange(i + 1, ss.len() as int));
    lemma_lit_count_add(ss.subrange(0, i), seq![ss[i]]);
    assert(seq![ss[i]].drop_last() =~= Seq::<Statement>::empty());
}

proof fn lemma_total_lits_less(a: Seq<BasicBlock>, b: Seq<BasicBlock>, d: int)
    requires
        a.len() == b.len(),
        0 <= d < a.len(),
        forall|x: int| 0 <= x < a.len() ==> lit_count(#[trigger] b[x].statements@) <= lit_count(a[x].statements@),
        lit_count(b[d].statements@) < lit_count(a[d].statements@),
    ensures
        total_lits(b) < total_lits(a),
    decreases a.len(),
{
    let n = a.len() - 1;
    assert(lit_count(b[n].statements@) <= lit_count(a[n].statements@));
    assert forall|x: int| 0 <= x < n implies lit_count(#[trigger] b.drop_last()[x].statements@) <= lit_count(
        a.drop_last()[x].statements@,
    ) by {
        assert(b.drop_last()[x] == b[x] && a.drop_last()[x] == a[x]);
        assert(lit_count(b[x].statements@) <= lit_count(a[x].statements@));
    }
    if d < n {
        assert(b.drop_last()[d] == b[d] && a.drop_last()[d] == a[d]);
        lemma_total_lits_less(a.drop_last(), b.drop_last(), d);
    } else {
        lemma_total_lits_le(a.drop_last(), b.drop_last());
    }
}

proof fn lemma_total_lits_le(a: Seq<BasicBlock>, b: Seq<BasicBlock>)
    requires
        a.len() == b.len(),
        forall|x: int| 0 <= x < a.len() ==> lit_count(#[trigger] b[x].statements@) <= lit_count(a[x].statements@),
    ensures
        total_lits(b) <= total_lits(a),
    decreases a.len(),
{
    if a.len() > 0 {
        let n = a.len() - 1;
        assert(lit_count(b[n].statements@) <= lit_count(a[n].statements@));
        assert forall|x: int| 0 <= x < n implies lit_count(#[trigger] b.drop_last()[x].statements@) <= lit_count(
            a.drop_last()[x].statements@,
        ) by {
            assert(b.drop_last()[x] == b[x] && a.drop_last()[x] == a[x]);
            assert(lit_count(b[x].statements@) <= lit_count(a[x].statements@));
        }
        lemma_total_lits_le(a.drop_last(), b.drop_last());
    }
}

/// No list literal in `ss` follows a concat of its list.
spec fn seq_lead(ss: Seq<Statement>) -> bool {
    forall|i: int, j: int|
        #![trigger ss[i], ss[j]]
        0 <= i < j < ss.len() ==> !(concat_parts(ss[i].kind) matches Some(p) && literal_ops(ss[j].kind, p.2) is Some)
}

proof fn lemma_lead_blocks(f: MirFunction, b: int)
    requires
        literals_lead(f),
        0 <= b < f.basic_blocks@.len(),
    ensures
        seq_lead(f.basic_blocks@[b].statements@),
{
    let ss = f.basic_blocks@[b].statements@;
    assert forall|i: int, j: int| #![trigger ss[i], ss[j]] 0 <= i < j < ss.len() implies !(concat_parts(
        ss[i].kind,
    ) matches Some(p) && literal_ops(ss[j].kind, p.2) is Some) by {
        assert(kind_at(f, b, i) == ss[i].kind && kind_at(f, b, j) == ss[j].kind);
    }
}

proof fn lemma_lead_splice(ss: Seq<Statement>, ui: int, app: Seq<Statement>)
    requires
        seq_lead(ss),
        0 <= ui < ss.len(),
        forall|i: int| 0 <= i < app.len() ==> neutral(#[trigger] app[i]),
    ensures
        seq_lead(spliced(ss, ui, app)),
{
    let r = spliced(ss, ui, app);
    let m = app.len() as int;
    assert forall|i: int, j: int| #![trigger r[i], r[j]] 0 <= i < j < r.len() implies !(concat_parts(
        r[i].kind,
    ) matches Some(p) && literal_ops(r[j].kind, p.2) is Some) by {
        let oi = if i < ui { i } else { i - m + 1 };
        let oj = if j < ui { j } else { j - m + 1 };
        if ui <= i < ui + m {
            assert(r[i] == app[i - ui]);
            assert(neutral(app[i - ui]));
        } else if ui <= j < ui + m {
            assert(r[j] == app[j - ui]);
            assert(neutral(app[j - ui]));
        } else {
            assert(r[i] == ss[oi]);
            assert(r[j] == ss[oj]);
            assert(oi < oj);
        }
    }
}

proof fn lemma_lead_remove(ss: Seq<Statement>, d: int)
    requires
        seq_lead(ss),
        0 <= d < ss.len(),
    ensures
        seq_lead(ss.remove(d)),
{
    let r = ss.remove(d);
    assert forall|i: int, j: int| #![trigger r[i], r[j]] 0 <= i < j < r.len() implies !(concat_parts(
        r[i].kind,
    ) matches Some(p) && literal_ops(r[j].kind, p.2) is Some) by {
        let oi = if i < d { i } else { i + 1 };
        let oj = if j < d { j } else { j + 1 };
        assert(r[i] == ss[oi]);
        assert(r[j] == ss[oj]);
    }
}

proof fn lemma_lead_unmarked(ss: Seq<Statement>, t: Local)
    requires
        seq_lead(ss),
    ensures
        seq_lead(unmarked(ss, t)),
        forall|k: int|
            0 <= k < unmarked(ss, t).len() ==> exists|m: int| 0 <= m < ss.len() && #[trigger] unmarked(ss, t)[k] == ss[m],
    decreases ss.len(),
{
    if ss.len() > 0 {
        let s0 = ss.drop_last();
        assert forall|i: int, j: int| #![trigger s0[i], s0[j]] 0 <= i < j < s0.len() implies !(concat_parts(
            s0[i].kind,
        ) matches Some(p) && literal_ops(s0[j].kind, p.2) is Some) by {
            assert(s0[i] == ss[i] && s0[j] == ss[j]);
        }
        lemma_lead_unmarked(s0, t);
        let u0 = unmarked(s0, t);
        let u = unmarked(ss, t);
        assert forall|k: int| 0 <= k < u0.len() implies exists|m: int| 0 <= m < ss.len() - 1 && #[trigger] u0[k]
            == ss[m] by {
            let m = choose|m: int| 0 <= m < s0.len() && #[trigger] u0[k] == s0[m];
            assert(u0[k] == ss[m]);
        }
        if !is_marker_for(ss.last().kind, t) {
            let l = ss.len() - 1;
            assert forall|i: int, j: int| #![trigger u[i], u[j]] 0 <= i < j < u.len() implies !(concat_parts(
                u[i].kind,
            ) matches Some(p) && literal_ops(u[j].kind, p.2) is Some) by {
                if j == u.len() - 1 {
                    let m = choose|m: int| 0 <= m < ss.len() - 1 && #[trigger] u0[i] == ss[m];
                    assert(u[i] == ss[m]);
                    assert(u[j] == ss[l]);
                } else {
                    assert(u[i] == u0[i] && u[j] == u0[j]);
                }
            }
            assert forall|k: int| 0 <= k < u.len() implies exists|m: int| 0 <= m < ss.len() && #[trigger] u[k]
                == ss[m] by {
                if k == u.len() - 1 {
                    assert(u[k] == ss[l]);
                } else {
                    let m = choose|m: int| 0 <= m < ss.len() - 1 && #[trigger] u0[k] == ss[m];
                    assert(u[k] == ss[m]);
                }
            }
        } else {
            assert forall|k: int| 0 <= k < u.len() implies exists|m: int| 0 <= m < ss.len() && #[trigger] u[k]
                == ss[m] by {
                let m = choose|m: int| 0 <= m < ss.len() - 1 && #[trigger] u0[k] == ss[m];
            }
        }
    }
}

fn build_appends(dst: Local, left: Local, ops: &Vec<Operand>, span: Span) -> (app: Vec<Statement>)
    ensures
        appends_ok(app@, dst, left, ops@, span),
{
    let mut app: Vec<Statement> = Vec::new();
    if ops.len() == 0 {
        app.push(Statement { kind: StatementKind::Assign(dst, Rvalue::Use(Operand::Move(left))), span });
        assert(app@ =~= seq![Statement { kind: StatementKind::Assign(dst, Rvalue::Use(Operand::Move(left))), span }]);
        return app;
    }
    let mut i: usize = 0;
    while i < ops.len()
        invariant
            0 <= i <= ops@.len(),
            ops@.len() > 0,
            app@.len() == i,
            forall|j: int|
                0 <= j < i ==> push_stmt(#[trigger] app@[j], dst, if j == 0 { left } else { dst }, ops@[j], span),
        decreases ops.len() - i,
    {
        let src = if i == 0 {
            left
        } else {
            dst
        };
        let mut args: Vec<Operand> = Vec::new();
        args.push(Operand::Move(src));
        args.push(ops[i].clone());
        assert(args@ =~= seq![Operand::Move(src), ops@[i as int]]);
        let name = String::from_str("__olive_list_push");
        let st = Statement {
            kind: StatementKind::Assign(dst, Rvalue::Call { func: Operand::Constant(Constant::Function(name)), args }),
            span,
        };
        assert(push_stmt(st, dst, src, ops@[i as int], span));
        app.push(st);
        i = i + 1;
    }
    app
}

/// Removes the storage and drop markers of `t` from `ss`.
fn drop_markers(ss: &mut Vec<Statement>, t: Local)
    ensures
        final(ss)@ == unmarked(old(ss)@, t),
{
    let ghost orig = ss@;
    let n = ss.len();
    let mut k: usize = 0;
    let mut c: usize = 0;
    assert(orig.subrange(0, 0) =~= Seq::<Statement>::empty());
    assert(orig.subrange(0, n as int) =~= orig);
    while c < n
        invariant
            n == orig.len(),
            0 <= c <= n,
            k <= c,
            ss@ == unmarked(orig.subrange(0, c as int), t) + orig.subrange(c as int, n as int),
            k == unmarked(orig.subrange(0, c as int), t).len(),
        decreases n - c,
    {
        let ghost u = unmarked(orig.subrange(0, c as int), t);
        assert(orig.subrange(0, c + 1).drop_last() =~= orig.subrange(0, c as int));
        assert(ss@[k as int] == orig[c as int]);
        if marker_for(&ss[k].kind, t) {
            ss.remove(k);
            assert(ss@ =~= u + orig.subrange(c + 1, n as int));
        } else {
            assert(ss@ =~= u.push(orig[c as int]) + orig.subrange(c + 1, n as int));
            k = k + 1;
        }
        c = c + 1;
    }
    assert(orig.subrange(c as int, n as int) =~= Seq::<Statement>::empty());
    assert(ss@ =~= unmarked(orig.subrange(0, n as int), t));
}

impl ListAppend {
    /// Replaces the concat of `s` by its appends, removes the literal, and
    /// drops the markers of the list.
    fn apply(func: &mut MirFunction, s: Site)
        requires
            site_of(*old(func), s),
            s.def_bb == s.use_bb ==> s.def_idx < s.use_idx,
        ensures
            applied(*old(func), *final(func), s.use_bb as int, s.use_idx as int),
    {
        let ghost f = *func;
        proof {
            lemma_unique_pos(f, s.temp, s.def_bb as int, s.def_idx as int);
            assert(literal_at(f, s.def_bb as int, s.def_idx as int, s.temp));
        }
        let span = func.basic_blocks[s.use_bb].statements[s.use_idx].span;
        let ul = func.basic_blocks[s.use_bb].statements.len();
        assert(s.use_idx < ul);
        let mut app = build_appends(s.dst, s.left, &s.ops, span);
        let ghost appv = app@;
        proof {
            lemma_appends_neutral(appv, s.dst, s.left, s.ops@, span);
        }
        let mut bb = BasicBlock { statements: Vec::new(), terminator: None };
        func.basic_blocks.set_and_swap(s.use_bb, &mut bb);
        let mut tail = bb.statements.split_off(s.use_idx + 1);
        let _ = bb.statements.pop();
        bb.statements.append(&mut app);
        bb.statements.append(&mut tail);
        proof {
            let old_ss = f.basic_blocks@[s.use_bb as int].statements@;
            assert(bb.statements@ =~= spliced(old_ss, s.use_idx as int, appv));
        }
        func.basic_blocks.set_and_swap(s.use_bb, &mut bb);
        let ghost f1 = *func;
        let mut bd = BasicBlock { statements: Vec::new(), terminator: None };
        func.basic_blocks.set_and_swap(s.def_bb, &mut bd);
        let _ = bd.statements.remove(s.def_idx);
        func.basic_blocks.set_and_swap(s.def_bb, &mut bd);
        let ghost f2 = *func;
        let mut b: usize = 0;
        while b < func.basic_blocks.len()
            invariant
                func.basic_blocks@.len() == f2.basic_blocks@.len(),
                same_except_blocks(*func, f2),
                0 <= b <= f2.basic_blocks@.len(),
                forall|x: int|
                    0 <= x < b ==> {
                        &&& (#[trigger] func.basic_blocks@[x]).terminator == f2.basic_blocks@[x].terminator
                        &&& func.basic_blocks@[x].statements@ == unmarked(f2.basic_blocks@[x].statements@, s.temp)
                    },
                forall|x: int| b <= x < f2.basic_blocks@.len() ==> #[trigger] func.basic_blocks@[x] == f2.basic_blocks@[x],
            decreases f2.basic_blocks@.len() - b,
        {
            let ghost fb = func.basic_blocks@;
            let mut blk = BasicBlock { statements: Vec::new(), terminator: None };
            func.basic_blocks.set_and_swap(b, &mut blk);
            drop_markers(&mut blk.statements, s.temp);
            func.basic_blocks.set_and_swap(b, &mut blk);
            proof {
                assert forall|x: int| 0 <= x < b + 1 implies {
                    &&& (#[trigger] func.basic_blocks@[x]).terminator == f2.basic_blocks@[x].terminator
                    &&& func.basic_blocks@[x].statements@ == unmarked(f2.basic_blocks@[x].statements@, s.temp)
                } by {
                    if x < b {
                        assert(func.basic_blocks@[x] == fb[x]);
                    }
                }
            }
            b = b + 1;
        }
        proof {
            let p = literal_pos(f, s.temp);
            assert(p == (s.def_bb as int, s.def_idx as int));
            assert forall|x: int| 0 <= x < f.basic_blocks@.len() implies {
                &&& (#[trigger] func.basic_blocks@[x]).terminator == f.basic_blocks@[x].terminator
                &&& func.basic_blocks@[x].statements@ == rewritten_block(
                    f.basic_blocks@[x].statements@,
                    x,
                    p.0,
                    p.1,
                    s.use_bb as int,
                    s.use_idx as int,
                    appv,
                    s.temp,
                )
            } by {
                if x == s.def_bb {
                    assert(f2.basic_blocks@[x].statements@ == f1.basic_blocks@[x].statements@.remove(s.def_idx as int));
                } else {
                    assert(f2.basic_blocks@[x] == f1.basic_blocks@[x]);
                }
                if x != s.use_bb {
                    assert(f1.basic_blocks@[x] == f.basic_blocks@[x]);
                }
            }
            assert(applied_with(f, *func, s.use_bb as int, s.use_idx as int, appv));
        }
    }
}

/// The right list of a concat.
spec fn concat_temp(k: StatementKind) -> Local {
    let p = concat_parts(k)->0;
    p.2
}

proof fn lemma_singleton_count(st: Statement)
    ensures
        lit_count(seq![st]) == if is_list_literal(st.kind) { 1nat } else { 0nat },
{
    reveal_with_fuel(lit_count, 2);
    assert(seq![st].drop_last() =~= Seq::<Statement>::empty());
    assert(seq![st].last() == st);
}

/// One fold keeps what the pass needs of a function and removes one list
/// literal.
proof fn lemma_step(f: MirFunction, g: MirFunction, ub: int, ui: int)
    requires
        append_accepts(f),
        valid_pos(f, ub, ui),
        concat_parts(kind_at(f, ub, ui)) is Some,
        has_unique_literal(f, concat_temp(kind_at(f, ub, ui))),
        applied(f, g, ub, ui),
    ensures
        append_accepts(g),
        total_lits(g.basic_blocks@) < total_lits(f.basic_blocks@),
{
    let temp = concat_temp(kind_at(f, ub, ui));
    let app = choose|app: Seq<Statement>| applied_with(f, g, ub, ui, app);
    let (db, di) = choose|b: int, k: int| unique_literal(f, temp, b, k);
    lemma_unique_pos(f, temp, db, di);
    let p = literal_pos(f, temp);
    assert(literal_at(f, db, di, temp));
    let lops = literal_ops(kind_at(f, db, di), temp)->0;
    let cp = concat_parts(kind_at(f, ub, ui))->0;
    assert(appends_ok(app, cp.0, cp.1, lops, f.basic_blocks@[ub].statements@[ui].span));
    lemma_appends_neutral(app, cp.0, cp.1, lops, f.basic_blocks@[ub].statements@[ui].span);
    lemma_lit_count_neutral(app);
    if db == ub {
        assert(di != ui);
        if di > ui {
            lemma_lead_blocks(f, ub);
            let ss = f.basic_blocks@[ub].statements@;
            assert(ss[ui].kind == kind_at(f, ub, ui) && ss[di].kind == kind_at(f, db, di));
            assert(false);
        }
    }
    let fb = f.basic_blocks@;
    let gb = g.basic_blocks@;
    assert forall|x: int| 0 <= x < fb.len() implies {
        &&& seq_lead(#[trigger] gb[x].statements@)
        &&& lit_count(gb[x].statements@) + (if x == db { 1nat } else { 0nat }) == lit_count(fb[x].statements@)
    } by {
        let ss = fb[x].statements@;
        let s1 = if x == ub { spliced(ss, ui, app) } else { ss };
        let s2 = if x == db { s1.remove(di) } else { s1 };
        assert(gb[x].statements@ == unmarked(s2, temp));
        lemma_lead_blocks(f, x);
        if x == ub {
            lemma_lead_splice(ss, ui, app);
            lemma_split(ss, ui);
            lemma_singleton_count(ss[ui]);
            assert(ss[ui].kind == kind_at(f, ub, ui));
            lemma_lit_count_add(ss.subrange(0, ui) + app, ss.subrange(ui + 1, ss.len() as int));
            lemma_lit_count_add(ss.subrange(0, ui), app);
        }
        assert(seq_lead(s1));
        assert(lit_count(s1) == lit_count(ss));
        if x == db {
            assert(s1[di] == ss[di]);
            assert(ss[di].kind == kind_at(f, db, di));
            lemma_lead_remove(s1, di);
            lemma_split(s1, di);
            lemma_singleton_count(s1[di]);
            lemma_lit_count_add(s1.subrange(0, di), s1.subrange(di + 1, s1.len() as int));
            assert(s1.remove(di) =~= s1.subrange(0, di) + s1.subrange(di + 1, s1.len() as int));
        }
        lemma_lead_unmarked(s2, temp);
        lemma_lit_count_unmarked(s2, temp);
    }
    assert forall|x: int| 0 <= x < fb.len() implies lit_count(#[trigger] gb[x].statements@) <= lit_count(
        fb[x].statements@,
    ) by {
        assert(seq_lead(gb[x].statements@));
    }
    assert(seq_lead(gb[db].statements@));
    lemma_total_lits_less(fb, gb, db);
    assert forall|b: int, i: int, j: int|
        #![trigger kind_at(g, b, i), kind_at(g, b, j)]
        valid_pos(g, b, i) && valid_pos(g, b, j) && i < j implies !(concat_parts(kind_at(g, b, i)) matches Some(p)
            && literal_ops(kind_at(g, b, j), p.2) is Some) by {
        let ss = gb[b].statements@;
        assert(seq_lead(ss));
        assert(ss[i].kind == kind_at(g, b, i) && ss[j].kind == kind_at(g, b, j));
    }
    assert forall|b: int| 0 <= b < gb.len() implies raw_successors(#[trigger] gb[b]) == raw_successors(fb[b]) by {
        assert(gb[b].terminator == fb[b].terminator);
    }
    assert forall|b: int, k: int|
        0 <= b < gb.len() && 0 <= k < raw_successors(gb[b]).len() implies #[trigger] raw_successors(gb[b])[k]
        < gb.len() by {
        assert(raw_successors(gb[b]) == raw_successors(fb[b]));
        assert(raw_successors(fb[b])[k] < fb.len());
    }
}

impl Transform for ListAppend {
    open spec fn accepts(&self, func: MirFunction) -> bool {
        append_accepts(func)
    }

    /// Folds the first site `find_site` finds under the current dominator
    /// sets, again and again, until none is left, as `append_run` says;
    /// true when it folded one.
    fn run(&self, func: &mut MirFunction) -> (changed: bool)
        ensures
            exists|fs: Seq<MirFunction>, sites: Seq<(int, int)>|
                append_run(*old(func), *final(func), fs, sites) && changed == (sites.len() > 0),
    {
        let ghost f0 = *func;
        let ghost mut fs: Seq<MirFunction> = seq![*func];
        let ghost mut sites: Seq<(int, int)> = seq![];
        let mut changed = false;
        let mut done = false;
        while !done
            invariant
                append_accepts(*func),
                fs.len() == sites.len() + 1,
                fs[0] == f0,
                fs.last() == *func,
                forall|i: int| 0 <= i < sites.len() ==> #[trigger] fold_step(fs[i], fs[i + 1], sites[i]),
                changed == (sites.len() > 0),
                done ==> fold_done(*func),
            decreases total_lits(func.basic_blocks@) + if done { 0nat } else { 1nat },
        {
            let doms = dominators(func);
            match Self::find_site(func, &doms) {
                None => {
                    assert(dom_shape(*func, doms@));
                    done = true;
                },
                Some(site) => {
                    let ghost before = *func;
                    let ghost ub = site.use_bb as int;
                    let ghost ui = site.use_idx as int;
                    proof {
                        lemma_unique_pos(before, site.temp, site.def_bb as int, site.def_idx as int);
                    }
                    Self::apply(func, site);
                    proof {
                        lemma_step(before, *func, ub, ui);
                        let fs0 = fs;
                        let sites0 = sites;
                        fs = fs.push(*func);
                        sites = sites.push((ub, ui));
                        assert forall|i: int| 0 <= i < sites.len() implies #[trigger] fold_step(
                            fs[i],
                            fs[i + 1],
                            sites[i],
                        ) by {
                            if i < sites0.len() {
                                assert(fs[i] == fs0[i] && fs[i + 1] == fs0[i + 1] && sites[i] == sites0[i]);
                                assert(fold_step(fs0[i], fs0[i + 1], sites0[i]));
                            } else {
                                assert(fs[i] == before && fs[i + 1] == *func && sites[i] == (ub, ui));
                                assert(dom_shape(before, doms@));
                                assert(first_site(before, doms@, ub, ui));
                                assert(applied(before, *func, ub, ui));
                            }
                        }
                    }
                    changed = true;
                },
            }
        }
        proof {
            assert(append_run(f0, *func, fs, sites));
        }
        changed
    }
}

} // verus!
