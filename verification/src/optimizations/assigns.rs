//! Where and how often each local is assigned, over all the statements of
//! a function taken block by block.

use super::const_prop::capped;
use super::copy_prop::{count_of, statements_assign_count};
use super::scalarize::{flat, lemma_flat_all, lemma_flat_step};
use crate::fx::{index_map_contents, IndexMap};
use crate::ir::{BasicBlock, MirFunction, Rvalue, Statement, StatementKind};
use vstd::prelude::*;

verus! {

/// The rvalue of the last assignment to `l` in `stmts`.
pub open spec fn last_rvalue(stmts: Seq<Statement>, l: usize) -> Option<Rvalue>
    decreases stmts.len(),
{
    if stmts.len() == 0 {
        None
    } else {
        match stmts.last().kind {
            StatementKind::Assign(d, rv) => if d.0 == l {
                Some(rv)
            } else {
                last_rvalue(stmts.drop_last(), l)
            },
            _ => last_rvalue(stmts.drop_last(), l),
        }
    }
}

/// The rvalue of the only assignment to `l` in `stmts`, if it has exactly one.
pub open spec fn single_def(stmts: Seq<Statement>, l: usize) -> Option<Rvalue> {
    if statements_assign_count(stmts, l) == 1 {
        last_rvalue(stmts, l)
    } else {
        None
    }
}

/// The locals assigned exactly once.
pub open spec fn singles(stmts: Seq<Statement>) -> Set<usize> {
    Set::new(|l: usize| statements_assign_count(stmts, l) == 1)
}


/// The rvalue `s` assigns, if it is an assignment.
pub open spec fn statement_rvalue(s: Statement) -> Option<Rvalue> {
    match s.kind {
        StatementKind::Assign(_, rv) => Some(rv),
        _ => None,
    }
}

proof fn lemma_push_defs(p: Seq<Statement>, s: Statement, l: usize)
    ensures
        statements_assign_count(p.push(s), l) == statements_assign_count(p, l) + if s.kind matches StatementKind::Assign(d, _) && d.0 == l {
            1nat
        } else {
            0nat
        },
        last_rvalue(p.push(s), l) == match s.kind {
            StatementKind::Assign(d, rv) => if d.0 == l {
                Some(rv)
            } else {
                last_rvalue(p, l)
            },
            _ => last_rvalue(p, l),
        },
{
    assert(p.push(s).drop_last() =~= p);
    assert(p.push(s).last() == s);
}

pub(crate) proof fn lemma_last_rvalue_some(p: Seq<Statement>, l: usize)
    ensures
        (last_rvalue(p, l) is Some) == (statements_assign_count(p, l) > 0),
    decreases p.len(),
{
    if p.len() > 0 {
        lemma_last_rvalue_some(p.drop_last(), l);
    }
}

/// How often each local is assigned over all the statements of a function,
/// and where it is assigned last.
pub(crate) struct Defs {
    pub(crate) counts: IndexMap,
    pub(crate) block: IndexMap,
    pub(crate) stmt: IndexMap,
    pub(crate) singles: usize,
}

/// `d` records the assignments of the statements `p`, each found in `blocks`.
pub(crate) open spec fn records(d: Defs, blocks: Seq<BasicBlock>, p: Seq<Statement>) -> bool {
    &&& forall|l: usize|
        #![trigger count_of(index_map_contents(d.counts), l)]
        count_of(index_map_contents(d.counts), l) == capped(statements_assign_count(p, l))
    &&& forall|l: usize|
        #![trigger index_map_contents(d.block).contains_key(l)]
        {
            let bm = index_map_contents(d.block);
            let sm = index_map_contents(d.stmt);
            &&& bm.contains_key(l) == (last_rvalue(p, l) is Some)
            &&& bm.contains_key(l) ==> {
                &&& sm.contains_key(l)
                &&& bm[l] < blocks.len()
                &&& sm[l] < blocks[bm[l] as int].statements@.len()
                &&& statement_rvalue(blocks[bm[l] as int].statements@[sm[l] as int]) == last_rvalue(p, l)
            }
        }
}

pub(crate) open spec fn defs_wf(d: Defs, blocks: Seq<BasicBlock>) -> bool {
    &&& records(d, blocks, flat(blocks))
    &&& d.singles == singles(flat(blocks)).len()
}

/// The assignment table of `func`.
pub(crate) fn gather_defs(func: &MirFunction) -> (d: Defs)
    ensures
        defs_wf(d, func.basic_blocks@),
{
    broadcast use vstd::seq_lib::lemma_seq_contains_after_push;

    let ghost blocks = func.basic_blocks@;
    let mut d = Defs { counts: IndexMap::new(), block: IndexMap::new(), stmt: IndexMap::new(), singles: 0 };
    let mut i: usize = 0;
    assert(flat(blocks.subrange(0, 0)) =~= Seq::<Statement>::empty());
    while i < func.basic_blocks.len()
        invariant
            blocks == func.basic_blocks@,
            0 <= i <= blocks.len(),
            records(d, blocks, flat(blocks.subrange(0, i as int))),
        decreases blocks.len() - i,
    {
        let ghost pre = flat(blocks.subrange(0, i as int));
        let stmts = &func.basic_blocks[i].statements;
        let mut j: usize = 0;
        assert(pre + stmts@.subrange(0, 0) =~= pre);
        while j < stmts.len()
            invariant
                blocks == func.basic_blocks@,
                0 <= i < blocks.len(),
                stmts@ == blocks[i as int].statements@,
                0 <= j <= stmts@.len(),
                records(d, blocks, pre + stmts@.subrange(0, j as int)),
            decreases stmts.len() - j,
        {
            let ghost seen = pre + stmts@.subrange(0, j as int);
            let ghost old_d = d;
            assert(pre + stmts@.subrange(0, j + 1) =~= seen.push(stmts@[j as int]));
            if let StatementKind::Assign(dst, _) = &stmts[j].kind {
                let c = match d.counts.get(dst.0) {
                    Some(c) => c,
                    None => 0,
                };
                d.counts.insert(dst.0, c.saturating_add(1));
                d.block.insert(dst.0, i);
                d.stmt.insert(dst.0, j);
            }
            proof {
                let s = stmts@[j as int];
                assert forall|x: usize|
                    #[trigger] count_of(index_map_contents(d.counts), x) == capped(
                        statements_assign_count(seen.push(s), x),
                    ) by {
                    lemma_push_defs(seen, s, x);
                    assert(count_of(index_map_contents(old_d.counts), x) == capped(
                        statements_assign_count(seen, x),
                    ));
                }
                assert forall|x: usize| #[trigger] index_map_contents(d.block).contains_key(x) == (last_rvalue(
                    seen.push(s),
                    x,
                ) is Some) by {
                    lemma_push_defs(seen, s, x);
                    assert(index_map_contents(old_d.block).contains_key(x) == (last_rvalue(seen, x) is Some));
                }
                assert forall|x: usize| #[trigger]
                    index_map_contents(d.block).contains_key(x) implies {
                        let bm = index_map_contents(d.block);
                        let sm = index_map_contents(d.stmt);
                        &&& sm.contains_key(x)
                        &&& bm[x] < blocks.len()
                        &&& sm[x] < blocks[bm[x] as int].statements@.len()
                        &&& statement_rvalue(blocks[bm[x] as int].statements@[sm[x] as int])
                            == last_rvalue(seen.push(s), x)
                    } by {
                    lemma_push_defs(seen, s, x);
                    if index_map_contents(old_d.block).contains_key(x) {
                        assert(last_rvalue(seen, x) is Some);
                    }
                }
            }
            j = j + 1;
        }
        proof {
            lemma_flat_step(blocks, i as int);
            assert(stmts@.subrange(0, stmts@.len() as int) =~= stmts@);
        }
        i = i + 1;
    }
    proof {
        lemma_flat_all(blocks);
    }
    let ghost stmts = flat(blocks);
    let keys = d.counts.keys();
    let mut ones: Vec<usize> = Vec::new();
    let mut k: usize = 0;
    while k < keys.len()
        invariant
            keys@.to_set() == index_map_contents(d.counts).dom(),
            keys@.no_duplicates(),
            0 <= k <= keys@.len(),
            ones@.no_duplicates(),
            records(d, blocks, stmts),
            forall|l: usize|
                ones@.contains(l) <==> (keys@.subrange(0, k as int).contains(l) && count_of(
                    index_map_contents(d.counts),
                    l,
                ) == 1),
        decreases keys.len() - k,
    {
        let l = keys[k];
        assert(keys@.to_set().contains(l));
        let c = match d.counts.get(l) {
            Some(c) => c,
            None => 0,
        };
        assert(keys@.subrange(0, k + 1) =~= keys@.subrange(0, k as int).push(l));
        assert(c == count_of(index_map_contents(d.counts), l));
        let ghost old_ones = ones@;
        if c == 1 {
            proof {
                if ones@.contains(l) {
                    let q = choose|q: int| 0 <= q < k && keys@.subrange(0, k as int)[q] == l;
                    assert(keys@[q] == keys@[k as int]);
                }
            }
            ones.push(l);
        }
        proof {
            let ks = keys@.subrange(0, k as int);
            assert forall|x: usize|
                ones@.contains(x) <==> (keys@.subrange(0, k + 1).contains(x) && count_of(
                    index_map_contents(d.counts),
                    x,
                ) == 1) by {
                vstd::seq_lib::lemma_seq_contains_after_push(ks, l, x);
                vstd::seq_lib::lemma_seq_contains_after_push(old_ones, l, x);
            }
        }
        k = k + 1;
    }
    proof {
        assert(keys@.subrange(0, keys@.len() as int) =~= keys@);
        assert(ones@.to_set() =~= singles(stmts)) by {
            assert forall|l: usize| ones@.to_set().contains(l) <==> singles(stmts).contains(l) by {
                assert(count_of(index_map_contents(d.counts), l) == capped(statements_assign_count(stmts, l)));
                if statements_assign_count(stmts, l) == 1 {
                    assert(index_map_contents(d.counts).dom().contains(l));
                    assert(keys@.to_set().contains(l));
                }
            }
        }
        ones@.unique_seq_to_set();
    }
    d.singles = ones.len();
    d
}

/// The rvalue of the only assignment to `l`, if it has exactly one.
pub(crate) fn single_def_of<'a>(func: &'a MirFunction, d: &Defs, l: usize) -> (r: Option<&'a Rvalue>)
    requires
        defs_wf(*d, func.basic_blocks@),
    ensures
        (match r {
            Some(x) => Some(*x),
            None => None,
        }) == single_def(flat(func.basic_blocks@), l),
{
    let ghost stmts = flat(func.basic_blocks@);
    assert(count_of(index_map_contents(d.counts), l) == capped(statements_assign_count(stmts, l)));
    assert(index_map_contents(d.block).contains_key(l) == (last_rvalue(stmts, l) is Some));
    proof {
        lemma_last_rvalue_some(stmts, l);
    }
    match d.counts.get(l) {
        Some(c) => if c == 1 {
            match (d.block.get(l), d.stmt.get(l)) {
                (Some(b), Some(s)) => match &func.basic_blocks[b].statements[s].kind {
                    StatementKind::Assign(_, rv) => Some(rv),
                    _ => None,
                },
                _ => None,
            }
        } else {
            None
        },
        None => None,
    }
}


/// How often `l` is assigned, saturating at `usize::MAX`.
pub(crate) fn count_local(d: &Defs, l: usize) -> (c: usize)
    ensures
        c == count_of(index_map_contents(d.counts), l),
{
    match d.counts.get(l) {
        Some(c) => c,
        None => 0,
    }
}

/// A local that `last_rvalue` finds an rvalue for is assigned that rvalue
/// by some statement of `p`.
pub(crate) proof fn lemma_last_rvalue_site(p: Seq<Statement>, l: usize)
    ensures
        last_rvalue(p, l) is Some ==> exists|j: int|
            0 <= j < p.len() && #[trigger] statement_rvalue(p[j]) == last_rvalue(p, l) && crate::optimizations::copy_prop::assigns_to(p[j], l),
    decreases p.len(),
{
    if p.len() > 0 {
        lemma_last_rvalue_site(p.drop_last(), l);
        if last_rvalue(p, l) is Some {
            if last_rvalue(p, l) != last_rvalue(p.drop_last(), l) {
                assert(statement_rvalue(p[p.len() - 1]) == last_rvalue(p, l));
            } else {
                let j = choose|j: int|
                    0 <= j < p.drop_last().len() && #[trigger] statement_rvalue(p.drop_last()[j]) == last_rvalue(
                        p.drop_last(),
                        l,
                    ) && crate::optimizations::copy_prop::assigns_to(p.drop_last()[j], l);
                assert(p.drop_last()[j] == p[j]);
            }
        }
    }
}

pub(crate) proof fn lemma_count_positive(p: Seq<Statement>, j: int, l: usize)
    requires
        0 <= j < p.len(),
        crate::optimizations::copy_prop::assigns_to(p[j], l),
    ensures
        statements_assign_count(p, l) >= 1,
    decreases p.len(),
{
    if j < p.len() - 1 {
        assert(p.drop_last()[j] == p[j]);
        lemma_count_positive(p.drop_last(), j, l);
    }
}

/// The statement assigning a local assigned once holds its single definition.
pub(crate) proof fn lemma_single_def_at(p: Seq<Statement>, j: int, l: usize)
    requires
        0 <= j < p.len(),
        statements_assign_count(p, l) == 1,
        crate::optimizations::copy_prop::assigns_to(p[j], l),
    ensures
        single_def(p, l) == statement_rvalue(p[j]),
    decreases p.len(),
{
    if j < p.len() - 1 {
        assert(p.drop_last()[j] == p[j]);
        lemma_count_positive(p.drop_last(), j, l);
        lemma_single_def_at(p.drop_last(), j, l);
    }
}

} // verus!
