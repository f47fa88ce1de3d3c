//! Control-flow helpers: the successor and predecessor lists of a function's
//! blocks, dominator sets, natural loops, and block cloning.

use crate::fx::{index_map_contents, index_set_contents, IndexMap, IndexSet};
use crate::ir::{copy_statements, same_statement, same_except_blocks, BasicBlock, BasicBlockId, MirFunction, Terminator, TerminatorKind};
use vstd::prelude::*;

verus! {

/// A natural loop: its header, the blocks of its body (header included),
/// the latch whose edge back to the header forms it, and the targets of
/// edges leaving the body.
pub struct Loop {
    pub header: BasicBlockId,
    pub body: IndexSet,
    pub latches: Vec<BasicBlockId>,
    pub exits: Vec<BasicBlockId>,
}

/// The targets of a block's terminator, in order, duplicates kept.
pub open spec fn raw_successors(b: BasicBlock) -> Seq<usize> {
    match b.terminator {
        Some(t) => match t.kind {
            TerminatorKind::Goto { target } => seq![target.0],
            TerminatorKind::SwitchInt { targets, otherwise, .. } => targets@.map_values(
                |p: (i64, BasicBlockId)| p.1.0,
            ).push(otherwise.0),
            _ => seq![],
        },
        None => seq![],
    }
}

pub open spec fn successor_set(b: BasicBlock) -> Set<usize> {
    raw_successors(b).to_set()
}

/// There is an edge from block `from` to block `to`.
pub open spec fn is_edge(blocks: Seq<BasicBlock>, from: int, to: usize) -> bool {
    0 <= from < blocks.len() && successor_set(blocks[from]).contains(to)
}

pub open spec fn sorted_strict(s: Seq<usize>) -> bool {
    forall|i: int, j: int| 0 <= i < j < s.len() ==> s[i] < s[j]
}

struct Cfg {
    succs: Vec<Vec<usize>>,
    preds: Vec<Vec<usize>>,
}

/// `cfg` holds, for each block, its successors (sorted, once each) and its
/// predecessors (sorted, once each).
spec fn cfg_of(cfg: Cfg, blocks: Seq<BasicBlock>) -> bool {
    let n = blocks.len();
    &&& cfg.succs@.len() == n
    &&& cfg.preds@.len() == n
    &&& forall|i: int|
        0 <= i < n ==> {
            &&& sorted_strict(#[trigger] cfg.succs@[i]@)
            &&& cfg.succs@[i]@.to_set() == successor_set(blocks[i])
        }
    &&& forall|s: int|
        0 <= s < n ==> {
            &&& sorted_strict(#[trigger] cfg.preds@[s]@)
            &&& forall|k: int|
                0 <= k < cfg.preds@[s]@.len() ==> #[trigger] cfg.preds@[s]@[k] < n && is_edge(
                    blocks,
                    cfg.preds@[s]@[k] as int,
                    s as usize,
                )
            &&& forall|i: int| #[trigger] is_edge(blocks, i, s as usize) ==> cfg.preds@[s]@.contains(i as usize)
        }
}

pub(crate) fn raw_successors_of(b: &BasicBlock) -> (r: Vec<usize>)
    ensures
        r@ == raw_successors(*b),
{
    let mut out: Vec<usize> = Vec::new();
    match &b.terminator {
        Some(t) => match &t.kind {
            TerminatorKind::Goto { target } => {
                out.push(target.0);
            },
            TerminatorKind::SwitchInt { targets, otherwise, .. } => {
                let mut i: usize = 0;
                while i < targets.len()
                    invariant
                        0 <= i <= targets@.len(),
                        out@ == targets@.subrange(0, i as int).map_values(
                            |p: (i64, BasicBlockId)| p.1.0,
                        ),
                    decreases targets.len() - i,
                {
                    out.push(targets[i].1.0);
                    i = i + 1;
                    assert(out@ =~= targets@.subrange(0, i as int).map_values(
                        |p: (i64, BasicBlockId)| p.1.0,
                    ));
                }
                assert(targets@.subrange(0, targets@.len() as int) =~= targets@);
                out.push(otherwise.0);
            },
            _ => {},
        },
        None => {},
    }
    assert(out@ =~= raw_successors(*b));
    out
}

/// Adds `x` to a strictly sorted list unless it is already there.
fn insert_sorted(v: &mut Vec<usize>, x: usize)
    requires
        sorted_strict(old(v)@),
    ensures
        sorted_strict(final(v)@),
        final(v)@.to_set() == old(v)@.to_set().insert(x),
{
    let mut k: usize = 0;
    while k < v.len() && v[k] < x
        invariant
            0 <= k <= v@.len(),
            sorted_strict(v@),
            forall|q: int| 0 <= q < k ==> v@[q] < x,
        decreases v.len() - k,
    {
        k = k + 1;
    }
    if k < v.len() && v[k] == x {
        assert(v@.to_set() =~= v@.to_set().insert(x)) by {
            assert(v@.to_set().contains(v@[k as int]));
        }
        return;
    }
    let ghost before = v@;
    v.insert(k, x);
    assert(v@ == before.insert(k as int, x));
    assert(v@.to_set() =~= before.to_set().insert(x)) by {
        assert forall|y: usize| v@.to_set().contains(y) implies before.to_set().insert(x).contains(y) by {
            let q = choose|q: int| 0 <= q < v@.len() && v@[q] == y;
            if q < k {
                assert(before[q] == y);
            } else if q > k {
                assert(before[q - 1] == y);
            }
        }
        assert forall|y: usize| before.to_set().insert(x).contains(y) implies v@.to_set().contains(y) by {
            if y == x {
                assert(v@[k as int] == x);
            } else {
                let q = choose|q: int| 0 <= q < before.len() && before[q] == y;
                if q < k {
                    assert(v@[q] == y);
                } else {
                    assert(v@[q + 1] == y);
                }
            }
        }
    }
}

/// The successors of a block, sorted, once each.
fn successors_of(b: &BasicBlock) -> (r: Vec<usize>)
    ensures
        sorted_strict(r@),
        r@.to_set() == successor_set(*b),
{
    let raw = raw_successors_of(b);
    let mut out: Vec<usize> = Vec::new();
    let mut i: usize = 0;
    assert(out@.to_set() =~= raw@.subrange(0, 0).to_set());
    while i < raw.len()
        invariant
            0 <= i <= raw@.len(),
            sorted_strict(out@),
            out@.to_set() == raw@.subrange(0, i as int).to_set(),
        decreases raw.len() - i,
    {
        insert_sorted(&mut out, raw[i]);
        assert(raw@.subrange(0, i + 1).to_set() =~= raw@.subrange(0, i as int).to_set().insert(
            raw@[i as int],
        )) by {
            assert(raw@.subrange(0, i + 1) =~= raw@.subrange(0, i as int).push(raw@[i as int]));
            raw@.subrange(0, i as int).lemma_push_to_set_commute(raw@[i as int]);
        }
        i = i + 1;
    }
    assert(raw@.subrange(0, raw@.len() as int) =~= raw@);
    out
}

fn build_cfg(func: &MirFunction) -> (cfg: Cfg)
    ensures
        cfg_of(cfg, func.basic_blocks@),
{
    let n = func.basic_blocks.len();
    let ghost blocks = func.basic_blocks@;
    let mut succs: Vec<Vec<usize>> = Vec::new();
    let mut preds: Vec<Vec<usize>> = Vec::new();
    let mut s: usize = 0;
    while s < n
        invariant
            0 <= s <= n,
            preds@.len() == s,
            forall|q: int| 0 <= q < s ==> #[trigger] preds@[q]@.len() == 0,
        decreases n - s,
    {
        preds.push(Vec::new());
        s = s + 1;
    }
    let mut i: usize = 0;
    while i < n
        invariant
            n == blocks.len(),
            blocks == func.basic_blocks@,
            0 <= i <= n,
            succs@.len() == i,
            preds@.len() == n,
            forall|q: int|
                0 <= q < i ==> {
                    &&& sorted_strict(#[trigger] succs@[q]@)
                    &&& succs@[q]@.to_set() == successor_set(blocks[q])
                },
            forall|t: int|
                0 <= t < n ==> {
                    &&& sorted_strict(#[trigger] preds@[t]@)
                    &&& forall|k: int|
                        0 <= k < preds@[t]@.len() ==> #[trigger] preds@[t]@[k] < i && is_edge(
                            blocks,
                            preds@[t]@[k] as int,
                            t as usize,
                        )
                    &&& forall|q: int| 0 <= q < i && #[trigger] is_edge(blocks, q, t as usize) ==> preds@[t]@.contains(q as usize)
                },
        decreases n - i,
    {
        let out = successors_of(&func.basic_blocks[i]);
        let mut k: usize = 0;
        while k < out.len()
            invariant
                n == blocks.len(),
                0 <= i < n,
                0 <= k <= out@.len(),
                sorted_strict(out@),
                out@.to_set() == successor_set(blocks[i as int]),
                preds@.len() == n,
                forall|t: int| 0 <= t < n ==> sorted_strict(#[trigger] preds@[t]@),
                forall|t: int, k2: int|
                    0 <= t < n && 0 <= k2 < preds@[t]@.len() ==> #[trigger] preds@[t]@[k2] <= i
                        && is_edge(blocks, preds@[t]@[k2] as int, t as usize),
                forall|t: int, q: int|
                    0 <= t < n && 0 <= q < i && #[trigger] is_edge(blocks, q, t as usize)
                        ==> preds@[t]@.contains(q as usize),
                forall|t: int|
                    0 <= t < n ==> ((#[trigger] preds@[t]@.len() > 0 && preds@[t]@.last() == i) <==> exists|k2: int|
                        0 <= k2 < k && out@[k2] == t),
            decreases out.len() - k,
        {
            let t = out[k];
            assert(successor_set(blocks[i as int]).contains(t)) by {
                assert(out@.to_set().contains(t));
            }
            if t < n {
                let mut p: Vec<usize> = Vec::new();
                preds.set_and_swap(t, &mut p);
                assert(!(p@.len() > 0 && p@.last() == i)) by {
                    if p@.len() > 0 && p@.last() == i {
                        let k2 = choose|k2: int| 0 <= k2 < k && out@[k2] == t;
                        assert(out@[k2] < out@[k as int]);
                    }
                }
                let ghost pold = p@;
                p.push(i);
                assert(sorted_strict(p@)) by {
                    if pold.len() > 0 {
                        assert(pold.last() <= i);
                    }
                }
                assert forall|q: usize| pold.contains(q) implies p@.contains(q) by {
                    let j = choose|j: int| 0 <= j < pold.len() && pold[j] == q;
                    assert(p@[j] == q);
                }
                preds.set_and_swap(t, &mut p);
            }
            k = k + 1;
        }
        proof {
            assert forall|t: int| 0 <= t < n && #[trigger] is_edge(blocks, i as int, t as usize) implies preds@[t]@.contains(i) by {
                assert(out@.to_set().contains(t as usize));
                let k2 = choose|k2: int| 0 <= k2 < out@.len() && out@[k2] == t as usize;
                assert(preds@[t]@[preds@[t]@.len() - 1] == i);
            }
        }
        succs.push(out);
        i = i + 1;
    }
    Cfg { succs, preds }
}

/// How many entries of `v` are false.
spec fn false_count(v: Seq<bool>) -> nat
    decreases v.len(),
{
    if v.len() == 0 {
        0
    } else {
        false_count(v.drop_last()) + if !v.last() {
            1nat
        } else {
            0nat
        }
    }
}

proof fn lemma_false_count_set(v: Seq<bool>, i: int)
    requires
        0 <= i < v.len(),
        !v[i],
    ensures
        false_count(v.update(i, true)) + 1 == false_count(v),
    decreases v.len(),
{
    if i < v.len() - 1 {
        lemma_false_count_set(v.drop_last(), i);
        assert(v.update(i, true).drop_last() =~= v.drop_last().update(i, true));
    } else {
        assert(v.update(i, true).drop_last() =~= v.drop_last());
    }
}

/// `s` holds the entry and every block an edge leads to from a block of `s`.
pub open spec fn reach_closed(blocks: Seq<BasicBlock>, s: Set<usize>) -> bool {
    &&& s.contains(0)
    &&& forall|b: usize, c: usize|
        #![trigger s.contains(b), is_edge(blocks, b as int, c)]
        s.contains(b) && is_edge(blocks, b as int, c) && c < blocks.len() ==> s.contains(c)
}

/// Block `b` is reachable from the entry: it lies in every set that
/// `reach_closed` describes.
pub open spec fn reachable(blocks: Seq<BasicBlock>, b: usize) -> bool {
    forall|s: Set<usize>| #[trigger] reach_closed(blocks, s) ==> s.contains(b)
}

/// Which blocks are reachable from the entry.
fn reachable_blocks(cfg: &Cfg, blocks: Ghost<Seq<BasicBlock>>) -> (reach: Vec<bool>)
    requires
        cfg_of(*cfg, blocks@),
        blocks@.len() > 0,
    ensures
        reach@.len() == blocks@.len(),
        forall|b: int| 0 <= b < blocks@.len() ==> #[trigger] reach@[b] == reachable(blocks@, b as usize),
{
    let n = cfg.succs.len();
    let mut visited: Vec<bool> = Vec::new();
    while visited.len() < n
        invariant
            visited@.len() <= n,
            forall|i: int| 0 <= i < visited@.len() ==> !visited@[i],
        decreases n - visited@.len(),
    {
        visited.push(false);
    }
    proof {
        lemma_false_count_set(visited@, 0);
    }
    visited.set(0, true);
    let mut stack: Vec<usize> = Vec::new();
    stack.push(0);
    assert(stack@[0] == 0);
    assert forall|b: int| 0 <= b < n && #[trigger] visited@[b] implies b == 0 && stack@.contains(0usize) by {}
    assert forall|s: Set<usize>| #[trigger] reach_closed(blocks@, s) implies s.contains(0usize) by {}
    while stack.len() > 0
        invariant
            n == blocks@.len(),
            n > 0,
            cfg_of(*cfg, blocks@),
            visited@.len() == n,
            visited@[0],
            forall|b: int| 0 <= b < n && #[trigger] visited@[b] ==> reachable(blocks@, b as usize),
            forall|j: int| 0 <= j < stack@.len() ==> #[trigger] stack@[j] < n && visited@[stack@[j] as int],
            forall|b: int, c: usize|
                0 <= b < n && #[trigger] visited@[b] && !stack@.contains(b as usize) && #[trigger] is_edge(
                    blocks@,
                    b,
                    c,
                ) && c < n ==> visited@[c as int],
        decreases false_count(visited@), stack@.len(),
    {
        let ghost old_st = stack@;
        let v = stack.pop().unwrap();
        let ghost st0 = stack@;
        proof {
            assert forall|x: usize| old_st.contains(x) implies x == v || st0.contains(x) by {
                let j = choose|j: int| 0 <= j < old_st.len() && old_st[j] == x;
                if j < old_st.len() - 1 {
                    assert(st0[j] == x);
                }
            }
            assert(stack@.subrange(0, st0.len() as int) =~= st0);
        }
        let outs = &cfg.succs[v];
        let ghost fc0 = false_count(visited@);
        let mut k: usize = 0;
        while k < outs.len()
            invariant
                n == blocks@.len(),
                n > 0,
                cfg_of(*cfg, blocks@),
                v < n,
                visited@[v as int],
                outs@ == cfg.succs@[v as int]@,
                visited@.len() == n,
                visited@[0],
                0 <= k <= outs@.len(),
                false_count(visited@) <= fc0,
                st0.len() <= stack@.len(),
                stack@.subrange(0, st0.len() as int) == st0,
                (stack@.len() > st0.len()) ==> false_count(visited@) < fc0,
                forall|b: int| 0 <= b < n && #[trigger] visited@[b] ==> reachable(blocks@, b as usize),
                forall|j: int| 0 <= j < stack@.len() ==> #[trigger] stack@[j] < n && visited@[stack@[j] as int],
                forall|j: int| 0 <= j < k ==> outs@[j] < n ==> #[trigger] visited@[outs@[j] as int],
                forall|b: int, c: usize|
                    0 <= b < n && #[trigger] visited@[b] && !stack@.contains(b as usize) && b != v && #[trigger] is_edge(
                        blocks@,
                        b,
                        c,
                    ) && c < n ==> visited@[c as int],
            decreases outs.len() - k,
        {
            let c = outs[k];
            if c < n && !visited[c] {
                proof {
                    assert(outs@.to_set().contains(c));
                    assert(is_edge(blocks@, v as int, c));
                    assert forall|s: Set<usize>| #[trigger] reach_closed(blocks@, s) implies s.contains(c) by {
                        assert(s.contains(v));
                    }
                    lemma_false_count_set(visited@, c as int);
                }
                let ghost sb = stack@;
                visited.set(c, true);
                stack.push(c);
                proof {
                    assert(stack@.subrange(0, st0.len() as int) =~= sb.subrange(0, st0.len() as int));
                    assert forall|b: int, c2: usize|
                        0 <= b < n && #[trigger] visited@[b] && !stack@.contains(b as usize) && b != v
                            && #[trigger] is_edge(blocks@, b, c2) && c2 < n implies visited@[c2 as int] by {
                        if b != c {
                            assert(!sb.contains(b as usize)) by {
                                if sb.contains(b as usize) {
                                    let j = choose|j: int| 0 <= j < sb.len() && sb[j] == b as usize;
                                    assert(stack@[j] == b as usize);
                                }
                            }
                        } else {
                            assert(stack@[stack@.len() - 1] == c);
                        }
                    }
                }
            }
            k = k + 1;
        }
        proof {
            assert forall|b: int, c: usize|
                0 <= b < n && #[trigger] visited@[b] && !stack@.contains(b as usize) && #[trigger] is_edge(
                    blocks@,
                    b,
                    c,
                ) && c < n implies visited@[c as int] by {
                if b == v {
                    assert(successor_set(blocks@[b]).contains(c));
                    assert(outs@.to_set().contains(c));
                    let j = choose|j: int| 0 <= j < outs@.len() && outs@[j] == c;
                }
            }
        }
    }
    proof {
        let s = Set::new(|b: usize| b < n && visited@[b as int]);
        assert(reach_closed(blocks@, s)) by {
            assert forall|b: usize, c: usize|
                s.contains(b) && is_edge(blocks@, b as int, c) && c < n implies s.contains(c) by {
                assert(visited@[b as int]);
            }
        }
        assert forall|b: int| 0 <= b < n implies #[trigger] visited@[b] == reachable(blocks@, b as usize) by {
            if reachable(blocks@, b as usize) {
                assert(s.contains(b as usize));
            }
        }
    }
    visited
}

/// The sets of `sets`, block by block.
pub open spec fn dom_view(sets: Seq<IndexSet>) -> Seq<Set<usize>> {
    Seq::new(sets.len(), |i: int| index_set_contents(sets[i]))
}

/// What the dominance equation gives block `b` from the sets `d`: `b`
/// itself, and each block of the function that the set of every reachable
/// predecessor of `b` holds.
pub open spec fn dom_step(blocks: Seq<BasicBlock>, d: Seq<Set<usize>>, b: usize) -> Set<usize> {
    Set::new(
        |x: usize|
            x < blocks.len() && (x == b || forall|p: usize|
                #[trigger] is_edge(blocks, p as int, b) && reachable(blocks, p) ==> d[p as int].contains(x)),
    )
}

/// `d` solves the dominance equations: the entry is dominated by itself
/// alone, and every other reachable block by what `dom_step` gives it.
pub open spec fn dom_solution(blocks: Seq<BasicBlock>, d: Seq<Set<usize>>) -> bool {
    &&& d.len() == blocks.len()
    &&& blocks.len() > 0 ==> d[0] == set![0usize]
    &&& forall|b: usize|
        0 < b < blocks.len() && reachable(blocks, b) ==> #[trigger] d[b as int] == dom_step(blocks, d, b)
}

/// `d` falls short of the dominance equations nowhere: the entry's set holds
/// at most the entry, and every other reachable block's set lies within what
/// `dom_step` gives it (every solution is such).
pub open spec fn dom_post(blocks: Seq<BasicBlock>, d: Seq<Set<usize>>) -> bool {
    &&& d.len() == blocks.len()
    &&& blocks.len() > 0 ==> d[0].subset_of(set![0usize])
    &&& forall|b: usize|
        0 < b < blocks.len() && reachable(blocks, b) ==> (#[trigger] d[b as int]).subset_of(dom_step(blocks, d, b))
}

/// `d` is the dominator relation of `blocks`: for reachable blocks the
/// greatest solution of the dominance equations (it holds every `dom_post`
/// assignment), and for a block the entry does not reach, that block alone.
pub open spec fn dominance(blocks: Seq<BasicBlock>, d: Seq<Set<usize>>) -> bool {
    &&& dom_solution(blocks, d)
    &&& forall|d2: Seq<Set<usize>>, b: usize|
        #![trigger dom_post(blocks, d2), d2[b as int]]
        dom_post(blocks, d2) && b < blocks.len() && reachable(blocks, b) ==> d2[b as int].subset_of(d[b as int])
    &&& forall|b: usize| b < blocks.len() && !reachable(blocks, b) ==> #[trigger] d[b as int] == set![b]
}

/// The total size of the sets of `d`.
spec fn dom_total(d: Seq<Set<usize>>) -> nat
    decreases d.len(),
{
    if d.len() == 0 {
        0
    } else {
        dom_total(d.drop_last()) + d.last().len()
    }
}

proof fn lemma_dom_total_update(d: Seq<Set<usize>>, b: int, s: Set<usize>)
    requires
        0 <= b < d.len(),
        d[b].finite(),
        s.subset_of(d[b]),
        s != d[b],
    ensures
        dom_total(d.update(b, s)) < dom_total(d),
    decreases d.len(),
{
    let u = d.update(b, s);
    if b < d.len() - 1 {
        assert(u.drop_last() =~= d.drop_last().update(b, s));
        lemma_dom_total_update(d.drop_last(), b, s);
    } else {
        assert(u.drop_last() =~= d.drop_last());
        let x = choose|x: usize| d[b].contains(x) && !s.contains(x);
        assert(!(d[b] =~= s));
        vstd::set_lib::lemma_len_subset(s, d[b].remove(x));
    }
}

proof fn lemma_step_mono(blocks: Seq<BasicBlock>, d1: Seq<Set<usize>>, d2: Seq<Set<usize>>, b: usize)
    requires
        forall|p: usize| p < blocks.len() && reachable(blocks, p) ==> #[trigger] d1[p as int].subset_of(d2[p as int]),
    ensures
        dom_step(blocks, d1, b).subset_of(dom_step(blocks, d2, b)),
{
    assert forall|x: usize| dom_step(blocks, d1, b).contains(x) implies dom_step(blocks, d2, b).contains(x) by {
        if x != b {
            assert forall|p: usize| #[trigger] is_edge(blocks, p as int, b) && reachable(blocks, p) implies d2[
                p as int
            ].contains(x) by {
                assert(d1[p as int].subset_of(d2[p as int]));
            }
        }
    }
}

/// What `dominance_fixpoint` keeps between updates.
spec fn dom_inv(blocks: Seq<BasicBlock>, d: Seq<Set<usize>>) -> bool {
    let n = blocks.len();
    &&& d.len() == n
    &&& n > 0 ==> d[0] == set![0usize]
    &&& forall|b: usize| b < n && !reachable(blocks, b) ==> #[trigger] d[b as int] == set![b]
    &&& forall|b: int| 0 <= b < n ==> (#[trigger] d[b]).finite()
    &&& forall|b: int, x: usize| 0 <= b < n && #[trigger] d[b].contains(x) ==> x < n
    &&& forall|b: usize| 0 < b < n && reachable(blocks, b) ==> dom_step(blocks, d, b).subset_of(#[trigger] d[b as int])
    &&& forall|d2: Seq<Set<usize>>, b: usize|
        #![trigger dom_post(blocks, d2), d2[b as int]]
        dom_post(blocks, d2) && b < n && reachable(blocks, b) ==> d2[b as int].subset_of(d[b as int])
}

/// The set `dom_step` gives block `b` from `sets`.
fn dom_step_of(cfg: &Cfg, blocks: Ghost<Seq<BasicBlock>>, sets: &Vec<IndexSet>, reach: &Vec<bool>, b: usize) -> (s: IndexSet)
    requires
        cfg_of(*cfg, blocks@),
        sets@.len() == blocks@.len(),
        reach@.len() == blocks@.len(),
        forall|q: int| 0 <= q < blocks@.len() ==> #[trigger] reach@[q] == reachable(blocks@, q as usize),
        b < blocks@.len(),
    ensures
        index_set_contents(s) == dom_step(blocks@, dom_view(sets@), b),
        index_set_contents(s).finite(),
{
    let ghost d = dom_view(sets@);
    let n = cfg.succs.len();
    let preds = &cfg.preds[b];
    let mut out = IndexSet::new();
    let mut x: usize = 0;
    while x < n
        invariant
            n == blocks@.len(),
            cfg_of(*cfg, blocks@),
            b < n,
            preds@ == cfg.preds@[b as int]@,
            d == dom_view(sets@),
            sets@.len() == n,
            reach@.len() == n,
            forall|q: int| 0 <= q < n ==> #[trigger] reach@[q] == reachable(blocks@, q as usize),
            0 <= x <= n,
            index_set_contents(out).finite(),
            forall|y: usize|
                #[trigger] index_set_contents(out).contains(y) == (y < x && dom_step(blocks@, d, b).contains(y)),
        decreases n - x,
    {
        let mut all = true;
        let mut k: usize = 0;
        while k < preds.len()
            invariant
                n == blocks@.len(),
                cfg_of(*cfg, blocks@),
                b < n,
                preds@ == cfg.preds@[b as int]@,
                d == dom_view(sets@),
                sets@.len() == n,
                reach@.len() == n,
                0 <= k <= preds@.len(),
                all == forall|j: int| 0 <= j < k ==> #[trigger] reach@[preds@[j] as int] ==> d[preds@[j] as int].contains(x),
            decreases preds.len() - k,
        {
            let p = preds[k];
            assert(p < n);
            if reach[p] && !sets[p].contains(x) {
                all = false;
            }
            k = k + 1;
        }
        proof {
            assert(all == forall|p: usize| #[trigger] is_edge(blocks@, p as int, b) && reachable(blocks@, p) ==> d[
                p as int
            ].contains(x)) by {
                if all {
                    assert forall|p: usize| #[trigger] is_edge(blocks@, p as int, b) && reachable(blocks@, p) implies d[
                        p as int
                    ].contains(x) by {
                        assert(is_edge(blocks@, p as int, (b as int) as usize));
                        assert(cfg.preds@[b as int]@.contains(p));
                        assert(preds@.contains(p));
                        let j = choose|j: int| 0 <= j < preds@.len() && preds@[j] == p;
                        assert(reach@[preds@[j] as int]);
                    }
                } else {
                    let j = choose|j: int| 0 <= j < preds@.len() && !(#[trigger] reach@[preds@[j] as int] ==> d[preds@[j] as int].contains(x));
                    let p = preds@[j];
                    assert(is_edge(blocks@, p as int, b));
                }
            }
        }
        if x == b || all {
            out.insert(x);
        }
        x = x + 1;
    }
    assert(index_set_contents(out) =~= dom_step(blocks@, d, b));
    out
}

/// The dominator sets: for each reachable block, the greatest solution of
/// the dominance equations, found by shrinking every set from all blocks
/// until none changes; an unreachable block keeps only itself.
fn dominance_fixpoint(cfg: &Cfg, blocks: Ghost<Seq<BasicBlock>>) -> (sets: Vec<IndexSet>)
    requires
        cfg_of(*cfg, blocks@),
        blocks@.len() > 0,
    ensures
        sets@.len() == blocks@.len(),
        dominance(blocks@, dom_view(sets@)),
        forall|b: int| 0 <= b < sets@.len() ==> (#[trigger] index_set_contents(sets@[b])).finite(),
{
    let n = cfg.succs.len();
    let reach = reachable_blocks(cfg, blocks);
    let mut sets: Vec<IndexSet> = Vec::new();
    let mut b: usize = 0;
    while b < n
        invariant
            n == blocks@.len(),
            reach@.len() == n,
            forall|q: int| 0 <= q < n ==> #[trigger] reach@[q] == reachable(blocks@, q as usize),
            0 <= b <= n,
            sets@.len() == b,
            forall|q: int|
                0 <= q < b ==> (#[trigger] index_set_contents(sets@[q])) == if q == 0 || !reachable(blocks@, q as usize) {
                    set![q as usize]
                } else {
                    Set::new(|x: usize| x < n)
                },
            forall|q: int| 0 <= q < b ==> (#[trigger] index_set_contents(sets@[q])).finite(),
        decreases n - b,
    {
        let mut s = IndexSet::new();
        if b == 0 || !reach[b] {
            s.insert(b);
            assert(index_set_contents(s) =~= set![b]);
        } else {
            let mut x: usize = 0;
            while x < n
                invariant
                    0 <= x <= n,
                    index_set_contents(s).finite(),
                    forall|y: usize| #[trigger] index_set_contents(s).contains(y) == (y < x),
                decreases n - x,
            {
                s.insert(x);
                x = x + 1;
            }
            assert(index_set_contents(s) =~= Set::new(|y: usize| y < n));
        }
        sets.push(s);
        b = b + 1;
    }
    proof {
        let d = dom_view(sets@);
        assert forall|q: int| 0 <= q < n implies (#[trigger] d[q]) == if q == 0 || !reachable(blocks@, q as usize) {
            set![q as usize]
        } else {
            Set::new(|x: usize| x < n)
        } by {}
        assert forall|d2: Seq<Set<usize>>, q: usize|
            #![trigger dom_post(blocks@, d2), d2[q as int]]
            dom_post(blocks@, d2) && q < n && reachable(blocks@, q) implies d2[q as int].subset_of(d[q as int]) by {
            if q != 0 {
                assert(d2[q as int].subset_of(dom_step(blocks@, d2, q)));
            }
        }
        assert forall|q: usize| 0 < q < n && reachable(blocks@, q) implies dom_step(blocks@, d, q).subset_of(
            #[trigger] d[q as int],
        ) by {}
        assert(dom_inv(blocks@, d));
    }
    let mut changed = true;
    while changed
        invariant
            n == blocks@.len(),
            n > 0,
            cfg_of(*cfg, blocks@),
            reach@.len() == n,
            forall|q: int| 0 <= q < n ==> #[trigger] reach@[q] == reachable(blocks@, q as usize),
            sets@.len() == n,
            dom_inv(blocks@, dom_view(sets@)),
            !changed ==> forall|q: usize|
                0 < q < n && reachable(blocks@, q) ==> #[trigger] dom_view(sets@)[q as int] == dom_step(
                    blocks@,
                    dom_view(sets@),
                    q,
                ),
        decreases dom_total(dom_view(sets@)) + if changed { 1nat } else { 0nat },
    {
        changed = false;
        let ghost start = dom_view(sets@);
        let mut b: usize = 1;
        while b < n
            invariant
                n == blocks@.len(),
                cfg_of(*cfg, blocks@),
                reach@.len() == n,
                forall|q: int| 0 <= q < n ==> #[trigger] reach@[q] == reachable(blocks@, q as usize),
                sets@.len() == n,
                1 <= b <= n,
                dom_inv(blocks@, dom_view(sets@)),
                !changed ==> dom_view(sets@) == start,
                changed ==> dom_total(dom_view(sets@)) < dom_total(start),
                !changed ==> forall|q: usize|
                    0 < q < b && reachable(blocks@, q) ==> #[trigger] dom_view(sets@)[q as int] == dom_step(
                        blocks@,
                        dom_view(sets@),
                        q,
                    ),
            decreases n - b,
        {
            if reach[b] {
                let new = dom_step_of(cfg, blocks, &sets, &reach, b);
                if !new.equals(&sets[b]) {
                    let ghost d0 = dom_view(sets@);
                    let ghost ns = index_set_contents(new);
                    proof {
                        assert(ns.subset_of(d0[b as int]));
                        lemma_dom_total_update(d0, b as int, ns);
                    }
                    sets.set(b, new);
                    proof {
                        let d1 = dom_view(sets@);
                        assert(d1 =~= d0.update(b as int, ns));
                        assert forall|p: usize| p < n && reachable(blocks@, p) implies #[trigger] d1[p as int].subset_of(
                            d0[p as int],
                        ) by {}
                        assert forall|q: usize| 0 < q < n && reachable(blocks@, q) implies dom_step(blocks@, d1, q).subset_of(
                            #[trigger] d1[q as int],
                        ) by {
                            lemma_step_mono(blocks@, d1, d0, q);
                        }
                        assert forall|d2: Seq<Set<usize>>, q: usize|
                            #![trigger dom_post(blocks@, d2), d2[q as int]]
                            dom_post(blocks@, d2) && q < n && reachable(blocks@, q) implies d2[q as int].subset_of(
                            d1[q as int],
                        ) by {
                            if q == b {
                                assert forall|p: usize| p < n && reachable(blocks@, p) implies #[trigger] d2[p as int].subset_of(
                                    d0[p as int],
                                ) by {
                                    assert(dom_post(blocks@, d2));
                                }
                                lemma_step_mono(blocks@, d2, d0, q);
                                assert(d2[q as int].subset_of(dom_step(blocks@, d2, q)));
                            }
                        }
                        assert forall|q: int, x: usize| 0 <= q < n && #[trigger] d1[q].contains(x) implies x < n by {
                            if q == b {
                                assert(d0[q].contains(x));
                            }
                        }
                        assert(dom_inv(blocks@, d1));
                    }
                    changed = true;
                } else {
                    proof {
                        assert(index_set_contents(new) == dom_view(sets@)[b as int]);
                    }
                }
            }
            b = b + 1;
        }
    }
    proof {
        assert forall|q: int| 0 <= q < sets@.len() implies (#[trigger] index_set_contents(sets@[q])).finite() by {
            assert(index_set_contents(sets@[q]) == dom_view(sets@)[q]);
        }
    }
    sets
}

/// For each block, the set of blocks that dominate it (itself included); a
/// block the entry does not reach keeps only itself.
pub fn dominators(func: &MirFunction) -> (sets: Vec<IndexSet>)
    ensures
        sets@.len() == func.basic_blocks@.len(),
        dominance(func.basic_blocks@, dom_view(sets@)),
        forall|b: int|
            0 <= b < sets@.len() ==> (#[trigger] index_set_contents(sets@[b])).contains(b as usize),
        forall|b: int, d: usize|
            0 <= b < sets@.len() && #[trigger] index_set_contents(sets@[b]).contains(d) ==> d
                < sets@.len(),
        sets@.len() > 0 ==> index_set_contents(sets@[0]) == set![0usize],
{
    let num_blocks = func.basic_blocks.len();
    if num_blocks == 0 {
        let e: Vec<IndexSet> = Vec::new();
        proof {
            assert(dom_view(e@) =~= Seq::<Set<usize>>::empty());
        }
        return e;
    }
    let cfg = build_cfg(func);
    let sets = dominance_fixpoint(&cfg, Ghost(func.basic_blocks@));
    proof {
        assert(func.basic_blocks@.len() == num_blocks);
        lemma_dominance_shape(func.basic_blocks@, sets@);
    }
    sets
}

/// The dominator relation has the shape every dominator relation has: each
/// block among its own dominators, only blocks of the function in a set,
/// and the entry dominated by itself alone.
pub proof fn lemma_dominance_shape(blocks: Seq<BasicBlock>, sets: Seq<IndexSet>)
    requires
        dominance(blocks, dom_view(sets)),
        blocks.len() <= usize::MAX,
    ensures
        forall|b: int| 0 <= b < sets.len() ==> (#[trigger] index_set_contents(sets[b])).contains(b as usize),
        forall|b: int, d: usize| 0 <= b < sets.len() && #[trigger] index_set_contents(sets[b]).contains(d) ==> d < sets.len(),
        sets.len() > 0 ==> index_set_contents(sets[0]) == set![0usize],
{
    let d = dom_view(sets);
    assert forall|b: int| 0 <= b < sets.len() implies (#[trigger] index_set_contents(sets[b])).contains(b as usize) by {
        assert(index_set_contents(sets[b]) == d[b]);
        let bu = b as usize;
        if b != 0 && reachable(blocks, bu) {
            assert(d[bu as int] == dom_step(blocks, d, bu));
        } else if b != 0 {
            assert(d[bu as int] == set![bu]);
        }
    }
    assert forall|b: int, x: usize| 0 <= b < sets.len() && #[trigger] index_set_contents(sets[b]).contains(x) implies x
        < sets.len() by {
        assert(index_set_contents(sets[b]) == d[b]);
        let bu = b as usize;
        if b != 0 && reachable(blocks, bu) {
            assert(d[bu as int] == dom_step(blocks, d, bu));
        } else if b != 0 {
            assert(d[bu as int] == set![bu]);
        }
    }
    if sets.len() > 0 {
        assert(index_set_contents(sets[0]) == d[0]);
    }
}

pub(crate) proof fn lemma_bounded_set_len(s: Set<usize>, n: nat)
    requires
        s.finite(),
        forall|x: usize| s.contains(x) ==> x < n,
    ensures
        s.len() <= n,
    decreases n,
{
    if n == 0 {
        assert(s =~= Set::empty());
    } else {
        let s2 = s.remove((n - 1) as usize);
        lemma_bounded_set_len(s2, (n - 1) as nat);
    }
}

/// Block `e` is the target of an edge leaving a block of `body`.
pub open spec fn reached_from(blocks: Seq<BasicBlock>, body: Set<usize>, e: usize) -> bool {
    exists|b: usize| body.contains(b) && #[trigger] is_edge(blocks, b as int, e)
}

/// Block `e` occurs among `ids`.
pub open spec fn lists_block(ids: Seq<BasicBlockId>, e: usize) -> bool {
    exists|k: int| 0 <= k < ids.len() && (#[trigger] ids[k]).0 == e
}

proof fn lemma_lists_block_push(ids: Seq<BasicBlockId>, x: BasicBlockId)
    ensures
        lists_block(ids.push(x), x.0),
        forall|e: usize| lists_block(ids, e) ==> #[trigger] lists_block(ids.push(x), e),
{
    assert(ids.push(x)[ids.len() as int] == x);
    assert forall|e: usize| lists_block(ids, e) implies #[trigger] lists_block(ids.push(x), e) by {
        let k = choose|k: int| 0 <= k < ids.len() && (#[trigger] ids[k]).0 == e;
        assert(ids.push(x)[k] == ids[k]);
    }
}

/// `s` holds the header and the latch, and every predecessor of each of its
/// blocks but the header (of the header too when it is the latch).
pub open spec fn body_closed(blocks: Seq<BasicBlock>, header: usize, latch: usize, s: Set<usize>) -> bool {
    &&& s.contains(header)
    &&& s.contains(latch)
    &&& forall|m: usize, p: int|
        #![trigger s.contains(m), is_edge(blocks, p, m)]
        s.contains(m) && (m != header || m == latch) && is_edge(blocks, p, m) ==> s.contains(p as usize)
}

/// Block `b` belongs to the natural loop of the edge `latch -> header`: it
/// lies in every set `body_closed` describes.
pub open spec fn in_natural_body(blocks: Seq<BasicBlock>, header: usize, latch: usize, b: usize) -> bool {
    forall|s: Set<usize>| #[trigger] body_closed(blocks, header, latch, s) ==> s.contains(b)
}

/// What `find_loops` promises of one loop of `blocks`: `latch -> header` is
/// an edge; the body holds the header and the latch, only blocks of the
/// function, and every predecessor of each of its blocks (the header's only
/// when it is also the latch); the exits are exactly the targets outside the
/// body of edges leaving it.
pub open spec fn natural_loop(blocks: Seq<BasicBlock>, lp: Loop) -> bool {
    let n = blocks.len();
    let header = lp.header.0;
    let body = index_set_contents(lp.body);
    &&& lp.latches@.len() == 1
    &&& header < n
    &&& lp.latches@[0].0 < n
    &&& is_edge(blocks, lp.latches@[0].0 as int, header)
    &&& body.finite()
    &&& body.contains(header)
    &&& body.contains(lp.latches@[0].0)
    &&& forall|m: usize| #[trigger] body.contains(m) ==> m < n
    &&& forall|m: usize, p: int|
        body.contains(m) && (m != header || m == lp.latches@[0].0) && #[trigger] is_edge(blocks, p, m)
            ==> body.contains(p as usize)
    &&& forall|m: usize| #[trigger] body.contains(m) ==> in_natural_body(blocks, header, lp.latches@[0].0, m)
    &&& forall|k: int|
        0 <= k < lp.exits@.len() ==> !body.contains(#[trigger] lp.exits@[k].0) && reached_from(
            blocks,
            body,
            lp.exits@[k].0,
        )
    &&& forall|e: usize|
        #[trigger] reached_from(blocks, body, e) && !body.contains(e) ==> lists_block(lp.exits@, e)
}

/// The natural loop of the back edge `latch -> header`.
fn natural_loop_of(cfg: &Cfg, blocks: Ghost<Seq<BasicBlock>>, header: usize, latch: usize) -> (lp: Loop)
    requires
        cfg_of(*cfg, blocks@),
        header < blocks@.len(),
        latch < blocks@.len(),
        is_edge(blocks@, latch as int, header),
    ensures
        natural_loop(blocks@, lp),
        lp.header.0 == header,
        lp.latches@ == seq![BasicBlockId(latch)],
{
    broadcast use vstd::seq_lib::lemma_seq_contains_after_push;

    let n = cfg.succs.len();
    let mut body = IndexSet::new();
    body.insert(header);
    body.insert(latch);
    let mut stack: Vec<usize> = Vec::new();
    stack.push(latch);
    assert(stack@[0] == latch);
    assert forall|x: usize| #[trigger] body@.contains(x) implies in_natural_body(blocks@, header, latch, x) by {
        assert forall|s: Set<usize>| #[trigger] body_closed(blocks@, header, latch, s) implies s.contains(x) by {}
    }
    while stack.len() > 0
        invariant
            n == blocks@.len(),
            cfg_of(*cfg, blocks@),
            header < n,
            latch < n,
            body@.finite(),
            body@.contains(header),
            body@.contains(latch),
            forall|m: usize| #[trigger] body@.contains(m) ==> m < n,
            stack@.no_duplicates(),
            forall|k: int| 0 <= k < stack@.len() ==> #[trigger] body@.contains(stack@[k]),
            forall|k: int| 0 <= k < stack@.len() ==> #[trigger] stack@[k] != header || stack@[k] == latch,
            forall|x: usize| #[trigger] body@.contains(x) ==> in_natural_body(blocks@, header, latch, x),
            forall|m: usize, p: int|
                body@.contains(m) && !stack@.contains(m) && (m != header || m == latch) && #[trigger] is_edge(
                    blocks@,
                    p,
                    m,
                ) ==> body@.contains(p as usize),
        decreases n - body@.len(), stack@.len(),
    {
        proof {
            lemma_bounded_set_len(body@, n as nat);
        }
        let ghost body_before = body@;
        let ghost stack_before = stack@;
        assert(body@.contains(stack_before[stack_before.len() - 1]));
        let m = match stack.pop() {
            Some(m) => m,
            None => 0,
        };
        let ghost stack_after_pop = stack@;
        assert(stack_before == stack_after_pop.push(m));
        assert(stack_before[stack_before.len() - 1] == m);
        assert(!stack_after_pop.contains(m)) by {
            if stack_after_pop.contains(m) {
                let k = choose|k: int| 0 <= k < stack_after_pop.len() && stack_after_pop[k] == m;
                assert(stack_before[k] == stack_before[stack_after_pop.len() as int]);
            }
        }
        let preds = &cfg.preds[m];
        let mut q: usize = 0;
        while q < preds.len()
            invariant
                n == blocks@.len(),
                cfg_of(*cfg, blocks@),
                m < n,
                preds@ == cfg.preds@[m as int]@,
                0 <= q <= preds@.len(),
                header < n,
                latch < n,
                body@.finite(),
                body@.contains(header),
                body@.contains(latch),
                body@.contains(m),
                body_before.subset_of(body@),
                body@.len() >= body_before.len(),
                body@.len() > body_before.len() || stack@ == stack_after_pop,
                forall|x: usize| #[trigger] body@.contains(x) ==> x < n,
                stack@.no_duplicates(),
                !stack@.contains(m),
                forall|k: int| 0 <= k < stack@.len() ==> #[trigger] body@.contains(stack@[k]),
                forall|k: int| 0 <= k < stack@.len() ==> #[trigger] stack@[k] != header || stack@[k] == latch,
                forall|x: usize| #[trigger] body@.contains(x) ==> in_natural_body(blocks@, header, latch, x),
                m != header || m == latch,
                forall|x: usize, p: int|
                    body@.contains(x) && !stack@.contains(x) && x != m && (x != header || x == latch) && #[trigger] is_edge(
                        blocks@,
                        p,
                        x,
                    ) ==> body@.contains(p as usize),
                forall|k: int| 0 <= k < q ==> #[trigger] body@.contains(preds@[k]),
            decreases preds.len() - q,
        {
            let p = preds[q];
            if p != header {
                let ghost bb = body@;
                let ghost st = stack@;
                proof {
                    assert(is_edge(blocks@, p as int, m));
                    assert forall|s: Set<usize>| #[trigger] body_closed(blocks@, header, latch, s) implies s.contains(p) by {
                        assert(in_natural_body(blocks@, header, latch, m));
                        assert(s.contains(m));
                    }
                }
                if body.insert(p) {
                    assert(!st.contains(p)) by {
                        if st.contains(p) {
                            let k = choose|k: int| 0 <= k < st.len() && st[k] == p;
                            assert(bb.contains(st[k]));
                        }
                    }
                    stack.push(p);
                    assert(stack@ == st.push(p));
                    assert(stack@.no_duplicates());
                    assert(body@.len() == bb.len() + 1);
                    assert forall|k: int| 0 <= k < stack@.len() implies #[trigger] body@.contains(stack@[k]) by {
                        if k < st.len() {
                            assert(stack@[k] == st[k]);
                        }
                    }
                    assert forall|k: int| 0 <= k < stack@.len() implies #[trigger] stack@[k] != header || stack@[k] == latch by {
                        if k < st.len() {
                            assert(stack@[k] == st[k]);
                        }
                    }
                    assert forall|x: usize, pp: int|
                        body@.contains(x) && !stack@.contains(x) && x != m && (x != header || x == latch)
                            && #[trigger] is_edge(blocks@, pp, x) implies body@.contains(pp as usize) by {
                        vstd::seq_lib::lemma_seq_contains_after_push(st, p, x);
                        if x != p {
                            assert(bb.contains(x));
                            assert(!st.contains(x));
                        }
                    }
                }
            }
            q = q + 1;
        }
        proof {
            assert forall|p: int| #[trigger] is_edge(blocks@, p, m) implies body@.contains(p as usize) by {
                assert(is_edge(blocks@, p, (m as int) as usize));
                assert(cfg.preds@[m as int]@.contains(p as usize));
                let k = choose|k: int| 0 <= k < preds@.len() && preds@[k] == p as usize;
                assert(body@.contains(preds@[k]));
            }
            lemma_bounded_set_len(body@, n as nat);
        }
    }
    assert(stack@.len() == 0);
    assert forall|m: usize, p: int|
        body@.contains(m) && (m != header || m == latch) && #[trigger] is_edge(blocks@, p, m)
            implies body@.contains(p as usize) by {
        assert(!stack@.contains(m));
    }
    let members = body.to_vec();
    let mut exits: Vec<BasicBlockId> = Vec::new();
    let mut i: usize = 0;
    while i < members.len()
        invariant
            n == blocks@.len(),
            cfg_of(*cfg, blocks@),
            members@.to_set() == body@,
            forall|m: usize| #[trigger] body@.contains(m) ==> m < n,
            0 <= i <= members@.len(),
            forall|k: int|
                0 <= k < exits@.len() ==> !body@.contains(#[trigger] exits@[k].0) && reached_from(
                    blocks@,
                    body@,
                    exits@[k].0,
                ),
            forall|j: int, e: usize|
                0 <= j < i && #[trigger] is_edge(blocks@, members@[j] as int, e) && !body@.contains(e)
                    ==> lists_block(exits@, e),
        decreases members.len() - i,
    {
        let b = members[i];
        assert(body@.contains(b)) by {
            assert(members@.to_set().contains(members@[i as int]));
        }
        let outs = &cfg.succs[b];
        let mut k: usize = 0;
        while k < outs.len()
            invariant
                n == blocks@.len(),
                cfg_of(*cfg, blocks@),
                b < n,
                b == members@[i as int],
                0 <= i < members@.len(),
                body@.contains(b),
                outs@ == cfg.succs@[b as int]@,
                0 <= k <= outs@.len(),
                members@.to_set() == body@,
                forall|k2: int|
                    0 <= k2 < exits@.len() ==> !body@.contains(#[trigger] exits@[k2].0) && reached_from(
                        blocks@,
                        body@,
                        exits@[k2].0,
                    ),
                forall|j: int, e: usize|
                    0 <= j < i && #[trigger] is_edge(blocks@, members@[j] as int, e) && !body@.contains(e)
                        ==> lists_block(exits@, e),
                forall|q: int|
                    0 <= q < k && !body@.contains(#[trigger] outs@[q]) ==> lists_block(exits@, outs@[q]),
            decreases outs.len() - k,
        {
            let e = outs[k];
            assert(outs@.to_set().contains(e));
            if !body.contains(e) {
                let ghost ex = exits@;
                proof {
                    lemma_lists_block_push(ex, BasicBlockId(e));
                    assert(is_edge(blocks@, b as int, e));
                }
                exits.push(BasicBlockId(e));
                assert forall|k2: int|
                    0 <= k2 < exits@.len() implies !body@.contains(#[trigger] exits@[k2].0) && reached_from(
                        blocks@,
                        body@,
                        exits@[k2].0,
                    ) by {
                    if k2 < ex.len() {
                        assert(exits@[k2] == ex[k2]);
                    }
                }
            }
            k = k + 1;
        }
        proof {
            assert forall|e: usize| #[trigger] is_edge(blocks@, members@[i as int] as int, e) && !body@.contains(e)
                implies lists_block(exits@, e) by {
                assert(outs@.to_set().contains(e));
                let q = choose|q: int| 0 <= q < outs@.len() && outs@[q] == e;
                assert(!body@.contains(outs@[q]));
            }
        }
        i = i + 1;
    }
    proof {
        assert forall|e: usize| #[trigger] reached_from(blocks@, body@, e) && !body@.contains(e)
            implies lists_block(exits@, e) by {
            let b = choose|b: usize| body@.contains(b) && #[trigger] is_edge(blocks@, b as int, e);
            assert(members@.to_set().contains(b));
            let j = choose|j: int| 0 <= j < members@.len() && members@[j] == b;
            assert(is_edge(blocks@, members@[j] as int, e));
        }
    }
    let mut latches: Vec<BasicBlockId> = Vec::new();
    latches.push(BasicBlockId(latch));
    assert(latches@ =~= seq![BasicBlockId(latch)]);
    Loop { header: BasicBlockId(header), body, latches, exits }
}


/// `p` is a path of `blocks` that never enters block `h`.
pub open spec fn avoiding_path(blocks: Seq<BasicBlock>, p: Seq<usize>, h: usize) -> bool {
    &&& p.len() > 0
    &&& forall|i: int| 0 <= i < p.len() ==> (#[trigger] p[i]) < blocks.len() && p[i] != h
    &&& forall|i: int| 0 <= i < p.len() - 1 ==> #[trigger] is_edge(blocks, p[i] as int, p[i + 1])
}

/// A block that an edge leaves from a reachable block is reachable.
proof fn lemma_reach_step(blocks: Seq<BasicBlock>, b: usize, c: usize)
    requires
        reachable(blocks, b),
        is_edge(blocks, b as int, c),
        c < blocks.len(),
    ensures
        reachable(blocks, c),
{
    assert forall|s: Set<usize>| #[trigger] reach_closed(blocks, s) implies s.contains(c) by {
        assert(s.contains(b));
    }
}

/// Along a path from the entry that never enters `h`, no block has `h`
/// among its dominators.
proof fn lemma_path_escapes(blocks: Seq<BasicBlock>, d: Seq<Set<usize>>, p: Seq<usize>, h: usize, i: int)
    requires
        dominance(blocks, d),
        avoiding_path(blocks, p, h),
        p[0] == 0,
        0 <= i < p.len(),
    ensures
        reachable(blocks, p[i]),
        !d[p[i] as int].contains(h),
    decreases i,
{
    if i == 0 {
        assert forall|s: Set<usize>| #[trigger] reach_closed(blocks, s) implies s.contains(0usize) by {}
        assert(p[0] != h);
    } else {
        lemma_path_escapes(blocks, d, p, h, i - 1);
        assert(is_edge(blocks, p[i - 1] as int, p[i - 1 + 1]));
        lemma_reach_step(blocks, p[i - 1], p[i]);
        let c = p[i];
        if c != 0 {
            assert(d[c as int] == dom_step(blocks, d, c));
            assert(p[i] != h);
            assert(is_edge(blocks, p[i - 1] as int, c));
        }
    }
}

/// The blocks from which a path that never enters `h` leads to `n`, and `h`.
spec fn leads_to(blocks: Seq<BasicBlock>, h: usize, n: usize) -> Set<usize> {
    Set::new(|x: usize| x == h || exists|p: Seq<usize>| #[trigger] avoiding_path(blocks, p, h) && p[0] == x && p.last() == n)
}

/// Every block of the natural loop of `n -> h` other than `h` reaches `n`
/// without entering `h`.
proof fn lemma_body_leads(blocks: Seq<BasicBlock>, h: usize, n: usize)
    requires
        h != n,
        n < blocks.len(),
        blocks.len() <= usize::MAX,
    ensures
        body_closed(blocks, h, n, leads_to(blocks, h, n)),
{
    let s = leads_to(blocks, h, n);
    let one = seq![n];
    assert(avoiding_path(blocks, one, h));
    assert(s.contains(n));
    assert forall|m: usize, q: int|
        #![trigger s.contains(m), is_edge(blocks, q, m)]
        s.contains(m) && (m != h || m == n) && is_edge(blocks, q, m) implies s.contains(q as usize) by {
        let qu = q as usize;
        assert(0 <= q < blocks.len());
        assert(qu as int == q);
        if qu != h {
            let p = choose|p: Seq<usize>| #[trigger] avoiding_path(blocks, p, h) && p[0] == m && p.last() == n;
            let p2 = seq![qu] + p;
            assert(p2[0] == qu);
            assert(p2.last() == p.last());
            assert forall|i: int| 0 <= i < p2.len() implies (#[trigger] p2[i]) < blocks.len() && p2[i] != h by {
                if i > 0 {
                    assert(p2[i] == p[i - 1]);
                }
            }
            assert forall|i: int| 0 <= i < p2.len() - 1 implies #[trigger] is_edge(blocks, p2[i] as int, p2[i + 1]) by {
                if i > 0 {
                    assert(p2[i] == p[i - 1] && p2[i + 1] == p[i]);
                    assert(is_edge(blocks, p[i - 1] as int, p[i - 1 + 1]));
                } else {
                    assert(p2[1] == p[0]);
                    assert(p2[0] as int == q);
                }
            }
            assert(avoiding_path(blocks, p2, h));
        }
    }
}

/// The header of the natural loop of a back edge `n -> h` whose latch is not
/// its header dominates every reachable block of the loop's body.
pub proof fn lemma_header_dominates_body(blocks: Seq<BasicBlock>, d: Seq<Set<usize>>, lp: Loop, b: usize)
    requires
        dominance(blocks, d),
        natural_loop(blocks, lp),
        latch_of(lp) != lp.header.0,
        d[latch_of(lp) as int].contains(lp.header.0),
        index_set_contents(lp.body).contains(b),
        reachable(blocks, b),
        blocks.len() <= usize::MAX,
    ensures
        d[b as int].contains(lp.header.0),
{
    let h = lp.header.0;
    let n = latch_of(lp);
    let body = index_set_contents(lp.body);
    let len = blocks.len();
    // The entry is not in the body unless it is the header.
    if h != 0 && body.contains(0usize) {
        lemma_body_leads(blocks, h, n);
        assert(in_natural_body(blocks, h, n, 0usize));
        assert(leads_to(blocks, h, n).contains(0usize));
        let p = choose|p: Seq<usize>| #[trigger] avoiding_path(blocks, p, h) && p[0] == 0usize && p.last() == n;
        lemma_path_escapes(blocks, d, p, h, p.len() - 1);
        assert(false);
    }
    let d2 = Seq::new(
        d.len(),
        |x: int| if body.contains(x as usize) && x as usize != h && reachable(blocks, x as usize) {
            d[x].insert(h)
        } else {
            d[x]
        },
    );
    assert forall|p: usize| p < len && reachable(blocks, p) implies #[trigger] d[p as int].subset_of(d2[p as int]) by {}
    assert(d2[0] == d[0]);
    assert forall|x: usize| 0 < x < len && reachable(blocks, x) implies (#[trigger] d2[x as int]).subset_of(
        dom_step(blocks, d2, x),
    ) by {
        lemma_step_mono(blocks, d, d2, x);
        assert(d[x as int] == dom_step(blocks, d, x));
        if body.contains(x) && x != h {
            assert forall|q: usize| #[trigger] is_edge(blocks, q as int, x) && reachable(blocks, q) implies d2[
                q as int
            ].contains(h) by {
                assert(body.contains(q));
                if q == h {
                    if q != 0 {
                        assert(d[q as int] == dom_step(blocks, d, q));
                    }
                }
            }
            assert(h < len);
            assert(dom_step(blocks, d2, x).contains(h));
        }
    }
    assert(dom_post(blocks, d2));
    assert(d2[b as int].subset_of(d[b as int]));
    if b != h {
        assert(d2[b as int].contains(h));
    } else if b != 0 {
        assert(d[b as int] == dom_step(blocks, d, b));
    }
}

/// `doms` has the shape dominator sets have: one set per block, holding its
/// own block and only blocks of the function, and block 0's holding only 0.
pub open spec fn dominator_shaped(n: nat, doms: Seq<IndexSet>) -> bool {
    &&& doms.len() == n
    &&& forall|b: int| 0 <= b < n ==> (#[trigger] index_set_contents(doms[b])).contains(b as usize)
    &&& forall|b: int, d: usize| 0 <= b < n && #[trigger] index_set_contents(doms[b]).contains(d) ==> d < n
    &&& n > 0 ==> index_set_contents(doms[0]) == set![0usize]
}

/// The latch of a loop `find_loops` builds.
pub open spec fn latch_of(lp: Loop) -> usize {
    lp.latches@[0].0
}

/// The edge `latch -> header` of loop `i` comes before that of loop `j`:
/// by latch, then by header.
pub open spec fn edge_before(a: Loop, b: Loop) -> bool {
    latch_of(a) < latch_of(b) || (latch_of(a) == latch_of(b) && a.header.0 < b.header.0)
}

/// `loops` has one natural loop for each edge `n -> d` of `blocks` whose
/// target `d` lies in `doms[n]`, and no other, ordered by `n` and then `d`.
pub open spec fn loops_of(blocks: Seq<BasicBlock>, doms: Seq<IndexSet>, loops: Seq<Loop>) -> bool {
    &&& forall|i: int|
        0 <= i < loops.len() ==> natural_loop(blocks, #[trigger] loops[i]) && index_set_contents(
            doms[latch_of(loops[i]) as int],
        ).contains(loops[i].header.0)
    &&& forall|n: usize, d: usize|
        #[trigger] is_edge(blocks, n as int, d) && d < blocks.len() && index_set_contents(doms[n as int]).contains(d)
            ==> exists|i: int| 0 <= i < loops.len() && #[trigger] loops[i].header.0 == d && latch_of(loops[i]) == n
    &&& forall|i: int, j: int| 0 <= i < j < loops.len() ==> edge_before(#[trigger] loops[i], #[trigger] loops[j])
}

/// In a loop `find_loops` reports, whose latch is not its header, the header
/// dominates every reachable block of the body.
pub proof fn lemma_found_header_dominates(blocks: Seq<BasicBlock>, doms: Seq<IndexSet>, loops: Seq<Loop>, i: int, b: usize)
    requires
        dominance(blocks, dom_view(doms)),
        loops_of(blocks, doms, loops),
        0 <= i < loops.len(),
        latch_of(loops[i]) != loops[i].header.0,
        index_set_contents(loops[i].body).contains(b),
        reachable(blocks, b),
        blocks.len() <= usize::MAX,
    ensures
        index_set_contents(doms[b as int]).contains(loops[i].header.0),
{
    let d = dom_view(doms);
    assert(natural_loop(blocks, loops[i]));
    assert(d[latch_of(loops[i]) as int] == index_set_contents(doms[latch_of(loops[i]) as int]));
    lemma_header_dominates_body(blocks, d, loops[i], b);
}

/// `loops` is what `find_loops` reports of `blocks` under its dominator
/// relation.
pub open spec fn found_loops(blocks: Seq<BasicBlock>, loops: Seq<Loop>) -> bool {
    exists|doms: Seq<IndexSet>| dominance(blocks, dom_view(doms)) && loops_of(blocks, doms, loops)
}

/// The natural loops of the function: one for each edge `n -> d` whose target
/// `d` dominates its source `n`, in order of `n` and then of `d`.
pub fn find_loops(func: &MirFunction) -> (loops: Vec<Loop>)
    ensures
        forall|i: int| 0 <= i < loops@.len() ==> natural_loop(func.basic_blocks@, #[trigger] loops@[i]),
        found_loops(func.basic_blocks@, loops@),
{
    let num_blocks = func.basic_blocks.len();
    let mut loops: Vec<Loop> = Vec::new();
    if num_blocks == 0 {
        proof {
            let e = Seq::<IndexSet>::empty();
            assert(dom_view(e) =~= Seq::<Set<usize>>::empty());
            assert(dominance(func.basic_blocks@, dom_view(e)));
            assert(loops_of(func.basic_blocks@, e, loops@));
        }
        return loops;
    }
    let cfg = build_cfg(func);
    let dom_sets = dominance_fixpoint(&cfg, Ghost(func.basic_blocks@));
    let ghost blocks = func.basic_blocks@;
    let ghost ds = dom_sets@;
    proof {
        assert(blocks.len() == num_blocks);
        lemma_dominance_shape(blocks, ds);
    }
    let mut n_idx: usize = 0;
    while n_idx < num_blocks
        invariant
            num_blocks == blocks.len(),
            blocks == func.basic_blocks@,
            cfg_of(cfg, blocks),
            ds == dom_sets@,
            dominator_shaped(num_blocks as nat, ds),
            dominance(blocks, dom_view(ds)),
            0 <= n_idx <= num_blocks,
            forall|i: int|
                0 <= i < loops@.len() ==> natural_loop(blocks, #[trigger] loops@[i]) && index_set_contents(
                    ds[latch_of(loops@[i]) as int],
                ).contains(loops@[i].header.0) && latch_of(loops@[i]) < n_idx,
            forall|n: usize, d: usize|
                #[trigger] is_edge(blocks, n as int, d) && n < n_idx && d < blocks.len() && index_set_contents(
                    ds[n as int],
                ).contains(d) ==> exists|i: int|
                    0 <= i < loops@.len() && #[trigger] loops@[i].header.0 == d && latch_of(loops@[i]) == n,
            forall|i: int, j: int| 0 <= i < j < loops@.len() ==> edge_before(#[trigger] loops@[i], #[trigger] loops@[j]),
        decreases num_blocks - n_idx,
    {
        let outs = &cfg.succs[n_idx];
        let mut k: usize = 0;
        while k < outs.len()
            invariant
                num_blocks == blocks.len(),
                blocks == func.basic_blocks@,
                n_idx < num_blocks,
                cfg_of(cfg, blocks),
                outs@ == cfg.succs@[n_idx as int]@,
                ds == dom_sets@,
                dominator_shaped(num_blocks as nat, ds),
                dominance(blocks, dom_view(ds)),
                0 <= k <= outs@.len(),
                forall|i: int|
                    0 <= i < loops@.len() ==> natural_loop(blocks, #[trigger] loops@[i]) && index_set_contents(
                        ds[latch_of(loops@[i]) as int],
                    ).contains(loops@[i].header.0) && (latch_of(loops@[i]) < n_idx || (latch_of(loops@[i])
                        == n_idx && exists|k2: int| 0 <= k2 < k && outs@[k2] == loops@[i].header.0)),
                forall|n: usize, d: usize|
                    #[trigger] is_edge(blocks, n as int, d) && (n < n_idx || (n == n_idx && exists|k2: int|
                        0 <= k2 < k && outs@[k2] == d)) && d < blocks.len() && index_set_contents(ds[n as int]).contains(
                        d,
                    ) ==> exists|i: int| 0 <= i < loops@.len() && #[trigger] loops@[i].header.0 == d && latch_of(loops@[i]) == n,
                forall|i: int, j: int| 0 <= i < j < loops@.len() ==> edge_before(#[trigger] loops@[i], #[trigger] loops@[j]),
            decreases outs.len() - k,
        {
            let d = outs[k];
            if d < num_blocks && dom_sets[n_idx].contains(d) {
                assert(outs@.to_set().contains(d));
                let ghost before = loops@;
                let lp = natural_loop_of(&cfg, Ghost(blocks), d, n_idx);
                loops.push(lp);
                proof {
                    assert(latch_of(lp) == n_idx);
                    assert forall|i: int| 0 <= i < before.len() implies edge_before(#[trigger] loops@[i], lp) by {
                        assert(loops@[i] == before[i]);
                        if latch_of(before[i]) == n_idx {
                            let k2 = choose|k2: int| 0 <= k2 < k && outs@[k2] == before[i].header.0;
                            assert(sorted_strict(cfg.succs@[n_idx as int]@));
                        }
                    }
                    assert forall|i: int, j: int| 0 <= i < j < loops@.len() implies edge_before(
                        #[trigger] loops@[i],
                        #[trigger] loops@[j],
                    ) by {
                        if j < before.len() {
                            assert(loops@[i] == before[i] && loops@[j] == before[j]);
                        }
                    }
                    assert forall|i: int| 0 <= i < loops@.len() implies natural_loop(blocks, #[trigger] loops@[i])
                        && index_set_contents(ds[latch_of(loops@[i]) as int]).contains(loops@[i].header.0) && (
                        latch_of(loops@[i]) < n_idx || (latch_of(loops@[i]) == n_idx && exists|k2: int|
                            0 <= k2 < k + 1 && outs@[k2] == loops@[i].header.0)) by {
                        if i < before.len() {
                            assert(loops@[i] == before[i]);
                            if latch_of(before[i]) == n_idx {
                                let k2 = choose|k2: int| 0 <= k2 < k && outs@[k2] == before[i].header.0;
                                assert(0 <= k2 < k + 1 && outs@[k2] == loops@[i].header.0);
                            }
                        } else {
                            assert(outs@[k as int] == loops@[i].header.0);
                        }
                    }
                    assert forall|n: usize, d2: usize|
                        #[trigger] is_edge(blocks, n as int, d2) && (n < n_idx || (n == n_idx && exists|k2: int|
                            0 <= k2 < k + 1 && outs@[k2] == d2)) && d2 < blocks.len() && index_set_contents(
                            ds[n as int],
                        ).contains(d2) implies exists|i: int|
                        0 <= i < loops@.len() && #[trigger] loops@[i].header.0 == d2 && latch_of(loops@[i]) == n by {
                        if n == n_idx && d2 == d {
                            assert(loops@[before.len() as int] == lp);
                        } else {
                            if n == n_idx {
                                let k2 = choose|k2: int| 0 <= k2 < k + 1 && outs@[k2] == d2;
                                assert(k2 != k);
                            }
                            let i = choose|i: int|
                                0 <= i < before.len() && #[trigger] before[i].header.0 == d2 && latch_of(before[i]) == n;
                            assert(loops@[i] == before[i]);
                        }
                    }
                }
            } else {
                proof {
                    assert forall|n: usize, d2: usize|
                        #[trigger] is_edge(blocks, n as int, d2) && (n < n_idx || (n == n_idx && exists|k2: int|
                            0 <= k2 < k + 1 && outs@[k2] == d2)) && d2 < blocks.len() && index_set_contents(
                            ds[n as int],
                        ).contains(d2) implies exists|i: int|
                        0 <= i < loops@.len() && #[trigger] loops@[i].header.0 == d2 && latch_of(loops@[i]) == n by {
                        if n == n_idx {
                            let k2 = choose|k2: int| 0 <= k2 < k + 1 && outs@[k2] == d2;
                            assert(k2 != k);
                        }
                    }
                    assert forall|i: int| 0 <= i < loops@.len() implies natural_loop(blocks, #[trigger] loops@[i])
                        && index_set_contents(ds[latch_of(loops@[i]) as int]).contains(loops@[i].header.0) && (
                        latch_of(loops@[i]) < n_idx || (latch_of(loops@[i]) == n_idx && exists|k2: int|
                            0 <= k2 < k + 1 && outs@[k2] == loops@[i].header.0)) by {
                        if latch_of(loops@[i]) == n_idx {
                            let k2 = choose|k2: int| 0 <= k2 < k && outs@[k2] == loops@[i].header.0;
                            assert(0 <= k2 < k + 1);
                        }
                    }
                }
            }
            k = k + 1;
        }
        proof {
            assert forall|n: usize, d: usize|
                #[trigger] is_edge(blocks, n as int, d) && n < n_idx + 1 && d < blocks.len() && index_set_contents(
                    ds[n as int],
                ).contains(d) implies exists|i: int|
                0 <= i < loops@.len() && #[trigger] loops@[i].header.0 == d && latch_of(loops@[i]) == n by {
                if n == n_idx {
                    assert(outs@.to_set().contains(d));
                    let k2 = choose|k2: int| 0 <= k2 < outs@.len() && outs@[k2] == d;
                }
            }
        }
        n_idx = n_idx + 1;
    }
    proof {
        assert(loops_of(blocks, ds, loops@));
    }
    loops
}

/// `b` renamed by `m` when `m` has an entry for it.
pub open spec fn remap_block_id(m: Map<usize, usize>, b: BasicBlockId) -> BasicBlockId {
    if m.dom().contains(b.0) {
        BasicBlockId(m[b.0])
    } else {
        b
    }
}

/// The arms of a switch with their targets renamed by `m`.
pub open spec fn remap_switch_targets(m: Map<usize, usize>, ts: Seq<(i64, BasicBlockId)>) -> Seq<
    (i64, BasicBlockId),
> {
    Seq::new(ts.len(), |k: int| (ts[k].0, remap_block_id(m, ts[k].1)))
}

/// `new` is `old` with every jump target renamed by `m`.
pub open spec fn remapped_terminator(
    old: Option<Terminator>,
    new: Option<Terminator>,
    m: Map<usize, usize>,
) -> bool {
    match old {
        None => new is None,
        Some(t) => match new {
            None => false,
            Some(t2) => t2.span == t.span && match t.kind {
                TerminatorKind::Goto { target } => t2.kind matches TerminatorKind::Goto { target: g }
                    && g == remap_block_id(m, target),
                TerminatorKind::SwitchInt { discr, targets, otherwise } => t2.kind matches TerminatorKind::SwitchInt {
                    discr: d2,
                    targets: ts2,
                    otherwise: o2,
                } && d2 == discr && ts2@ == remap_switch_targets(m, targets@) && o2 == remap_block_id(m, otherwise),
                TerminatorKind::Return => t2.kind is Return,
                TerminatorKind::Unreachable => t2.kind is Unreachable,
            },
        },
    }
}

/// `new` is a copy of `old` whose jump targets are renamed by `m`: each
/// statement is what `Statement::clone` gives for the original.
pub open spec fn cloned_block(old: BasicBlock, new: BasicBlock, m: Map<usize, usize>) -> bool {
    &&& new.statements@.len() == old.statements@.len()
    &&& forall|j: int|
        0 <= j < old.statements@.len() ==> same_statement(old.statements@[j], #[trigger] new.statements@[j])
    &&& remapped_terminator(old.terminator, new.terminator, m)
}

fn remap_target(m: &IndexMap, b: BasicBlockId) -> (r: BasicBlockId)
    ensures
        r == remap_block_id(index_map_contents(*m), b),
{
    match m.get(b.0) {
        Some(n) => BasicBlockId(n),
        None => b,
    }
}

pub(crate) fn remap_terminator(t: &Option<Terminator>, m: &IndexMap) -> (r: Option<Terminator>)
    ensures
        remapped_terminator(*t, r, index_map_contents(*m)),
{
    match t {
        None => None,
        Some(t) => {
            let kind = match &t.kind {
                TerminatorKind::Goto { target } => TerminatorKind::Goto { target: remap_target(m, *target) },
                TerminatorKind::SwitchInt { discr, targets, otherwise } => {
                    let ghost mm = index_map_contents(*m);
                    let mut ts: Vec<(i64, BasicBlockId)> = Vec::new();
                    let mut i: usize = 0;
                    while i < targets.len()
                        invariant
                            0 <= i <= targets@.len(),
                            mm == index_map_contents(*m),
                            ts@ == remap_switch_targets(mm, targets@.subrange(0, i as int)),
                        decreases targets.len() - i,
                    {
                        let v = targets[i].0;
                        let b = targets[i].1;
                        let nb = remap_target(m, b);
                        ts.push((v, nb));
                        i = i + 1;
                        assert(ts@ =~= remap_switch_targets(mm, targets@.subrange(0, i as int)));
                    }
                    assert(targets@.subrange(0, targets@.len() as int) =~= targets@);
                    TerminatorKind::SwitchInt {
                        discr: discr.clone(),
                        targets: ts,
                        otherwise: remap_target(m, *otherwise),
                    }
                },
                TerminatorKind::Return => TerminatorKind::Return,
                TerminatorKind::Unreachable => TerminatorKind::Unreachable,
            };
            Some(Terminator { kind, span: t.span })
        },
    }
}

/// Appends a copy of each block of `blocks` to the function, with jumps
/// between copied blocks redirected to the copies, and returns the map from
/// each copied block to its copy. The copies are numbered from the old block
/// count up, in the set's iteration order, which is not stated.
pub fn clone_blocks(func: &mut MirFunction, blocks: &IndexSet) -> (map: IndexMap)
    requires
        forall|b: usize| #[trigger] index_set_contents(*blocks).contains(b) ==> b < old(func).basic_blocks@.len(),
        old(func).basic_blocks@.len() + index_set_contents(*blocks).len() <= usize::MAX,
    ensures
        same_except_blocks(*old(func), *final(func)),
        final(func).basic_blocks@.len() == old(func).basic_blocks@.len() + index_set_contents(*blocks).len(),
        final(func).basic_blocks@.subrange(0, old(func).basic_blocks@.len() as int) == old(func).basic_blocks@,
        index_map_contents(map).dom() == index_set_contents(*blocks),
        forall|b: usize| #[trigger] index_map_contents(map).dom().contains(b) ==> old(func).basic_blocks@.len()
            <= index_map_contents(map)[b] < final(func).basic_blocks@.len() && cloned_block(
            old(func).basic_blocks@[b as int],
            final(func).basic_blocks@[index_map_contents(map)[b] as int],
            index_map_contents(map),
        ),
        forall|a: usize, b: usize|
            #[trigger] index_map_contents(map).dom().contains(a) && #[trigger] index_map_contents(map).dom().contains(b)
                && a != b ==> index_map_contents(map)[a] != index_map_contents(map)[b],
{
    let ids = blocks.to_vec();
    let old_len = func.basic_blocks.len();
    let ghost old_blocks = func.basic_blocks@;
    let ghost old_func = *func;
    proof {
        ids@.unique_seq_to_set();
    }
    let mut map = IndexMap::new();
    let mut i: usize = 0;
    while i < ids.len()
        invariant
            ids@.to_set() == index_set_contents(*blocks),
            ids@.no_duplicates(),
            ids@.len() == index_set_contents(*blocks).len(),
            old_len == old_blocks.len(),
            old_len + ids@.len() <= usize::MAX,
            0 <= i <= ids@.len(),
            same_except_blocks(old_func, *func),
            func.basic_blocks@.len() == old_len + i,
            func.basic_blocks@.subrange(0, old_len as int) == old_blocks,
            index_map_contents(map).dom() == ids@.subrange(0, i as int).to_set(),
            forall|k: int| 0 <= k < i ==> index_map_contents(map)[#[trigger] ids@[k]] == old_len + k,
        decreases ids.len() - i,
    {
        map.insert(ids[i], old_len + i);
        func.basic_blocks.push(BasicBlock { statements: Vec::new(), terminator: None });
        proof {
            assert(ids@.subrange(0, i + 1) =~= ids@.subrange(0, i as int).push(ids@[i as int]));
            ids@.subrange(0, i as int).lemma_push_to_set_commute(ids@[i as int]);
            assert(func.basic_blocks@.subrange(0, old_len as int) =~= old_blocks);
            assert forall|k: int| 0 <= k < i + 1 implies index_map_contents(map)[#[trigger] ids@[k]] == old_len + k by {
                if k < i {
                    assert(ids@[k] != ids@[i as int]);
                }
            }
        }
        i = i + 1;
    }
    assert(ids@.subrange(0, ids@.len() as int) =~= ids@);
    let mut j: usize = 0;
    while j < ids.len()
        invariant
            ids@.to_set() == index_set_contents(*blocks),
            ids@.no_duplicates(),
            old_len == old_blocks.len(),
            old_len + ids@.len() <= usize::MAX,
            forall|b: usize| #[trigger] index_set_contents(*blocks).contains(b) ==> b < old_len,
            0 <= j <= ids@.len(),
            same_except_blocks(old_func, *func),
            func.basic_blocks@.len() == old_len + ids@.len(),
            func.basic_blocks@.subrange(0, old_len as int) == old_blocks,
            index_map_contents(map).dom() == ids@.to_set(),
            forall|k: int| 0 <= k < ids@.len() ==> index_map_contents(map)[#[trigger] ids@[k]] == old_len + k,
            forall|k: int|
                0 <= k < j ==> cloned_block(
                    old_blocks[#[trigger] ids@[k] as int],
                    func.basic_blocks@[old_len + k],
                    index_map_contents(map),
                ),
        decreases ids.len() - j,
    {
        let id = ids[j];
        assert(ids@.to_set().contains(ids@[j as int]));
        assert(func.basic_blocks@[id as int] == old_blocks[id as int]) by {
            assert(func.basic_blocks@.subrange(0, old_len as int)[id as int] == func.basic_blocks@[id as int]);
        }
        let statements = copy_statements(&func.basic_blocks[id].statements);
        let terminator = remap_terminator(&func.basic_blocks[id].terminator, &map);
        let ghost before = func.basic_blocks@;
        func.basic_blocks.set(old_len + j, BasicBlock { statements, terminator });
        proof {
            assert(func.basic_blocks@.subrange(0, old_len as int) =~= old_blocks) by {
                assert forall|x: int| 0 <= x < old_len implies func.basic_blocks@[x] == old_blocks[x] by {
                    assert(before.subrange(0, old_len as int)[x] == before[x]);
                }
            }
            assert forall|k: int| 0 <= k < j + 1 implies cloned_block(
                old_blocks[#[trigger] ids@[k] as int],
                func.basic_blocks@[old_len + k],
                index_map_contents(map),
            ) by {
                if k < j {
                    assert(func.basic_blocks@[old_len + k] == before[old_len + k]);
                }
            }
        }
        j = j + 1;
    }
    proof {
        assert forall|b: usize| #[trigger] index_map_contents(map).dom().contains(b) implies old_blocks.len()
            <= index_map_contents(map)[b] < func.basic_blocks@.len() && cloned_block(
            old_blocks[b as int],
            func.basic_blocks@[index_map_contents(map)[b] as int],
            index_map_contents(map),
        ) by {
            let k = choose|k: int| 0 <= k < ids@.len() && ids@[k] == b;
            assert(index_map_contents(map)[ids@[k]] == old_len + k);
        }
        assert forall|a: usize, b: usize|
            #[trigger] index_map_contents(map).dom().contains(a) && #[trigger] index_map_contents(map).dom().contains(b)
                && a != b implies index_map_contents(map)[a] != index_map_contents(map)[b] by {
            let ka = choose|k: int| 0 <= k < ids@.len() && ids@[k] == a;
            let kb = choose|k: int| 0 <= k < ids@.len() && ids@[k] == b;
            assert(index_map_contents(map)[ids@[ka]] == old_len + ka);
            assert(index_map_contents(map)[ids@[kb]] == old_len + kb);
        }
    }
    map
}

/// Block `b` is the header or in the body of one of `loops`.
pub open spec fn in_some_loop(loops: Seq<Loop>, b: usize) -> bool {
    exists|i: int| 0 <= i < loops.len() && (loops[i].header.0 == b || index_set_contents(#[trigger] loops[i].body).contains(b))
}

/// `lb` holds exactly the blocks of the loops `find_loops` reports of
/// `blocks`.
pub open spec fn loop_blocks_of(blocks: Seq<BasicBlock>, lb: Set<usize>) -> bool {
    exists|loops: Seq<Loop>| found_loops(blocks, loops) && forall|b: usize| #[trigger] lb.contains(b) == in_some_loop(loops, b)
}

/// The blocks of the function's natural loops (headers and bodies of the
/// loops `find_loops` reports).
pub fn blocks_in_loops(func: &MirFunction) -> (s: IndexSet)
    ensures
        forall|b: usize|
            #[trigger] index_set_contents(s).contains(b) ==> exists|lp: Loop|
                natural_loop(func.basic_blocks@, lp) && #[trigger] index_set_contents(lp.body).contains(b),
        loop_blocks_of(func.basic_blocks@, index_set_contents(s)),
{
    let loops = find_loops(func);
    let mut loop_blocks = IndexSet::new();
    let mut k: usize = 0;
    while k < loops.len()
        invariant
            0 <= k <= loops@.len(),
            forall|i: int| 0 <= i < loops@.len() ==> natural_loop(func.basic_blocks@, #[trigger] loops@[i]),
            forall|b: usize|
                #[trigger] index_set_contents(loop_blocks).contains(b) ==> exists|lp: Loop|
                    natural_loop(func.basic_blocks@, lp) && #[trigger] index_set_contents(lp.body).contains(b),
            forall|b: usize| #[trigger] index_set_contents(loop_blocks).contains(b) == in_some_loop(
                loops@.subrange(0, k as int),
                b,
            ),
        decreases loops.len() - k,
    {
        let lp = &loops[k];
        let ghost before = index_set_contents(loop_blocks);
        assert(natural_loop(func.basic_blocks@, *lp));
        loop_blocks.insert(lp.header.0);
        let members = lp.body.to_vec();
        let mut m: usize = 0;
        while m < members.len()
            invariant
                0 <= m <= members@.len(),
                members@.to_set() == index_set_contents(lp.body),
                natural_loop(func.basic_blocks@, *lp),
                forall|b: usize|
                    #[trigger] index_set_contents(loop_blocks).contains(b) ==> exists|lp2: Loop|
                        natural_loop(func.basic_blocks@, lp2) && #[trigger] index_set_contents(lp2.body).contains(b),
                forall|b: usize|
                    #[trigger] index_set_contents(loop_blocks).contains(b) == (before.contains(b) || b == lp.header.0
                        || exists|j: int| 0 <= j < m && members@[j] == b),
            decreases members.len() - m,
        {
            assert(members@.to_set().contains(members@[m as int]));
            loop_blocks.insert(members[m]);
            proof {
                assert forall|b: usize| #[trigger] index_set_contents(loop_blocks).contains(b) == (before.contains(b)
                    || b == lp.header.0 || exists|j: int| 0 <= j < m + 1 && members@[j] == b) by {
                    if b == members@[m as int] {
                        assert(0 <= m < m + 1 && members@[m as int] == b);
                    } else if exists|j: int| 0 <= j < m + 1 && members@[j] == b {
                        let j = choose|j: int| 0 <= j < m + 1 && members@[j] == b;
                        assert(j < m);
                    }
                }
            }
            m = m + 1;
        }
        proof {
            let sub = loops@.subrange(0, k + 1);
            let sub0 = loops@.subrange(0, k as int);
            assert forall|b: usize| #[trigger] index_set_contents(loop_blocks).contains(b) == in_some_loop(sub, b) by {
                if in_some_loop(sub, b) {
                    let i = choose|i: int|
                        0 <= i < sub.len() && (sub[i].header.0 == b || index_set_contents(#[trigger] sub[i].body).contains(b));
                    if i < k {
                        assert(sub0[i] == sub[i]);
                        assert(in_some_loop(sub0, b));
                    } else if sub[i].header.0 != b {
                        assert(members@.to_set().contains(b));
                        let j = choose|j: int| 0 <= j < members@.len() && members@[j] == b;
                    }
                }
                if before.contains(b) {
                    let i = choose|i: int|
                        0 <= i < sub0.len() && (sub0[i].header.0 == b || index_set_contents(#[trigger] sub0[i].body).contains(b));
                    assert(sub[i] == sub0[i]);
                }
                if b == lp.header.0 {
                    assert(sub[k as int] == *lp);
                }
                if exists|j: int| 0 <= j < members@.len() && members@[j] == b {
                    let j = choose|j: int| 0 <= j < members@.len() && members@[j] == b;
                    assert(members@.to_set().contains(b));
                    assert(sub[k as int] == *lp);
                    assert(index_set_contents(sub[k as int].body).contains(b));
                }
            }
        }
        k = k + 1;
    }
    proof {
        assert(loops@.subrange(0, loops@.len() as int) =~= loops@);
    }
    loop_blocks
}

} // verus!
