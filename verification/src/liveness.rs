//! Backward liveness of locals: for every position of every block (before
//! each statement and after the last one), the locals whose current value
//! may still be read. Computed as the least solution of the dataflow
//! equations by iterating to a fixpoint.

use crate::fx::{index_set_contents, IndexSet};
use crate::ir::{
    BasicBlock, MirFunction, Operand, Rvalue, Statement, StatementKind, Terminator, TerminatorKind,
};
use crate::loop_utils::{raw_successors, raw_successors_of};
use crate::optimizations::dce::{operand_reads, operands_reads, rvalue_uses};
use vstd::prelude::*;

verus! {

/// `live_after[b][k]` holds the locals live just before statement `k` of
/// block `b`; `live_after[b][n]`, for `n` statements, those live at its
/// terminator.
pub struct Liveness {
    pub live_after: Vec<Vec<IndexSet>>,
}

/// The locals a statement reads.
pub open spec fn statement_gen(s: Statement) -> Set<usize> {
    match s.kind {
        StatementKind::Assign(_, rv) => rvalue_uses(rv),
        StatementKind::SetAttr(o, _, v) => operand_reads(o).union(operand_reads(v)),
        StatementKind::SetIndex(o, i, v, _) => operand_reads(o).union(operand_reads(i)).union(
            operand_reads(v),
        ),
        StatementKind::VectorStore(o, i, v) => operand_reads(o).union(operand_reads(i)).union(
            operand_reads(v),
        ),
        StatementKind::PtrStore(p, v) => operand_reads(p).union(operand_reads(v)),
        StatementKind::GenCheck { value, generation } => set![value.0, generation.0],
        _ => Set::empty(),
    }
}

/// The local whose value a statement ends: an assignment's destination, or
/// the local of a drop or storage end.
pub open spec fn statement_kill(s: Statement) -> Option<usize> {
    match s.kind {
        StatementKind::Assign(l, _) => Some(l.0),
        StatementKind::Drop(l) => Some(l.0),
        StatementKind::StorageDead(l) => Some(l.0),
        _ => None,
    }
}

/// The locals live before `s`, given those live after it.
pub open spec fn transfer(s: Statement, live: Set<usize>) -> Set<usize> {
    let kept = match statement_kill(s) {
        Some(k) => live.remove(k),
        None => live,
    };
    kept.union(statement_gen(s))
}

/// The locals a terminator reads: a switch's discriminant.
pub open spec fn terminator_gen(t: Option<Terminator>) -> Set<usize> {
    match t {
        Some(t) => match t.kind {
            TerminatorKind::SwitchInt { discr, .. } => operand_reads(discr),
            _ => Set::empty(),
        },
        None => Set::empty(),
    }
}

/// The union of the entry sets of the blocks `succs`.
pub open spec fn entry_union(la: Seq<Seq<Set<usize>>>, succs: Seq<usize>) -> Set<usize>
    decreases succs.len(),
{
    if succs.len() == 0 {
        Set::empty()
    } else {
        entry_union(la, succs.drop_last()).union(la[succs.last() as int][0])
    }
}

/// The locals live at the terminator of block `b`.
pub open spec fn block_exit(blocks: Seq<BasicBlock>, la: Seq<Seq<Set<usize>>>, b: int) -> Set<usize> {
    entry_union(la, raw_successors(blocks[b])).union(terminator_gen(blocks[b].terminator))
}

/// What the equations give for position `k` of block `b`.
pub open spec fn equation(blocks: Seq<BasicBlock>, la: Seq<Seq<Set<usize>>>, b: int, k: int) -> Set<usize> {
    if k == blocks[b].statements@.len() {
        block_exit(blocks, la, b)
    } else {
        transfer(blocks[b].statements@[k], la[b][k + 1])
    }
}

/// `la` has one set per position of `blocks`.
pub open spec fn shaped(blocks: Seq<BasicBlock>, la: Seq<Seq<Set<usize>>>) -> bool {
    &&& la.len() == blocks.len()
    &&& forall|b: int| 0 <= b < la.len() ==> (#[trigger] la[b]).len() == blocks[b].statements@.len() + 1
}

/// Every jump of `blocks` targets one of its blocks.
pub open spec fn targets_in_range(blocks: Seq<BasicBlock>) -> bool {
    forall|b: int, k: int|
        0 <= b < blocks.len() && 0 <= k < raw_successors(blocks[b]).len() ==> #[trigger] raw_successors(
            blocks[b],
        )[k] < blocks.len()
}

/// `la` solves the liveness equations of `blocks`.
pub open spec fn live_solution(blocks: Seq<BasicBlock>, la: Seq<Seq<Set<usize>>>) -> bool {
    &&& shaped(blocks, la)
    &&& forall|b: int, k: int|
        0 <= b < la.len() && 0 <= k < la[b].len() ==> #[trigger] la[b][k] == equation(blocks, la, b, k)
}

/// Each set of `a` is contained in the matching set of `c`.
pub open spec fn below(a: Seq<Seq<Set<usize>>>, c: Seq<Seq<Set<usize>>>) -> bool {
    forall|b: int, k: int|
        0 <= b < a.len() && 0 <= k < a[b].len() ==> (#[trigger] a[b][k]).subset_of(c[b][k])
}

/// The sets the computation holds.
pub open spec fn live_view(grid: Seq<Vec<IndexSet>>) -> Seq<Seq<Set<usize>>> {
    Seq::new(grid.len(), |b: int| Seq::new(grid[b]@.len(), |k: int| index_set_contents(grid[b]@[k])))
}

impl Liveness {
    pub open spec fn view_sets(&self) -> Seq<Seq<Set<usize>>> {
        live_view(self.live_after@)
    }
}

proof fn lemma_entry_union_mono(la: Seq<Seq<Set<usize>>>, lb: Seq<Seq<Set<usize>>>, succs: Seq<usize>)
    requires
        below(la, lb),
        la.len() == lb.len(),
        forall|b: int| 0 <= b < la.len() ==> (#[trigger] la[b]).len() >= 1,
        forall|k: int| 0 <= k < succs.len() ==> #[trigger] succs[k] < la.len(),
    ensures
        entry_union(la, succs).subset_of(entry_union(lb, succs)),
    decreases succs.len(),
{
    if succs.len() > 0 {
        lemma_entry_union_mono(la, lb, succs.drop_last());
        let s = succs.last();
        assert(succs[succs.len() - 1] == s);
        assert(la[s as int][0].subset_of(lb[s as int][0]));
    }
}

proof fn lemma_equation_mono(
    blocks: Seq<BasicBlock>,
    la: Seq<Seq<Set<usize>>>,
    lb: Seq<Seq<Set<usize>>>,
    b: int,
    k: int,
)
    requires
        shaped(blocks, la),
        shaped(blocks, lb),
        below(la, lb),
        targets_in_range(blocks),
        0 <= b < blocks.len(),
        0 <= k <= blocks[b].statements@.len(),
    ensures
        equation(blocks, la, b, k).subset_of(equation(blocks, lb, b, k)),
{
    assert(la[b].len() == blocks[b].statements@.len() + 1);
    if k == blocks[b].statements@.len() {
        assert forall|j: int| 0 <= j < la.len() implies (#[trigger] la[j]).len() >= 1 by {
            assert(la[j].len() == blocks[j].statements@.len() + 1);
        }
        assert forall|j: int| 0 <= j < raw_successors(blocks[b]).len() implies #[trigger] raw_successors(
            blocks[b],
        )[j] < la.len() by {
            assert(raw_successors(blocks[b])[j] < blocks.len());
        }
        lemma_entry_union_mono(la, lb, raw_successors(blocks[b]));
    } else {
        assert(la[b][k + 1].subset_of(lb[b][k + 1]));
    }
}

proof fn lemma_operands_reads_finite(ops: Seq<Operand>)
    ensures
        operands_reads(ops).finite(),
    decreases ops.len(),
{
    if ops.len() > 0 {
        lemma_operands_reads_finite(ops.drop_last());
    }
}

proof fn lemma_statement_gen_finite(s: Statement)
    ensures
        statement_gen(s).finite(),
{
    match s.kind {
        StatementKind::Assign(_, rv) => {
            match rv {
                crate::ir::Rvalue::Call { func, args } => {
                    lemma_operands_reads_finite(args@);
                },
                crate::ir::Rvalue::Aggregate(_, ops) => {
                    lemma_operands_reads_finite(ops@);
                },
                _ => {},
            }
        },
        _ => {},
    }
}

/// The locals read anywhere in `stmts`.
pub open spec fn statements_gen(stmts: Seq<Statement>) -> Set<usize>
    decreases stmts.len(),
{
    if stmts.len() == 0 {
        Set::empty()
    } else {
        statements_gen(stmts.drop_last()).union(statement_gen(stmts.last()))
    }
}

/// The locals read anywhere in `blocks`.
pub open spec fn blocks_gen(blocks: Seq<BasicBlock>) -> Set<usize>
    decreases blocks.len(),
{
    if blocks.len() == 0 {
        Set::empty()
    } else {
        blocks_gen(blocks.drop_last()).union(statements_gen(blocks.last().statements@)).union(
            terminator_gen(blocks.last().terminator),
        )
    }
}

proof fn lemma_statements_gen(stmts: Seq<Statement>)
    ensures
        statements_gen(stmts).finite(),
        forall|k: int| 0 <= k < stmts.len() ==> statement_gen(#[trigger] stmts[k]).subset_of(statements_gen(stmts)),
    decreases stmts.len(),
{
    if stmts.len() > 0 {
        lemma_statements_gen(stmts.drop_last());
        lemma_statement_gen_finite(stmts.last());
        assert forall|k: int| 0 <= k < stmts.len() implies statement_gen(#[trigger] stmts[k]).subset_of(
            statements_gen(stmts),
        ) by {
            if k < stmts.len() - 1 {
                assert(stmts.drop_last()[k] == stmts[k]);
            }
        }
    }
}

proof fn lemma_blocks_gen(blocks: Seq<BasicBlock>)
    ensures
        blocks_gen(blocks).finite(),
        forall|b: int, k: int|
            0 <= b < blocks.len() && 0 <= k < blocks[b].statements@.len() ==> statement_gen(
                #[trigger] blocks[b].statements@[k],
            ).subset_of(blocks_gen(blocks)),
        forall|b: int| 0 <= b < blocks.len() ==> terminator_gen(#[trigger] blocks[b].terminator).subset_of(
            blocks_gen(blocks),
        ),
    decreases blocks.len(),
{
    if blocks.len() > 0 {
        lemma_blocks_gen(blocks.drop_last());
        lemma_statements_gen(blocks.last().statements@);
        assert(terminator_gen(blocks.last().terminator).finite()) by {
            match blocks.last().terminator {
                Some(t) => {},
                None => {},
            }
        }
        assert forall|b: int, k: int|
            0 <= b < blocks.len() && 0 <= k < blocks[b].statements@.len() implies statement_gen(
                #[trigger] blocks[b].statements@[k],
            ).subset_of(blocks_gen(blocks)) by {
            if b < blocks.len() - 1 {
                assert(blocks.drop_last()[b] == blocks[b]);
            } else {
                assert(blocks.last() == blocks[b]);
            }
        }
        assert forall|b: int| 0 <= b < blocks.len() implies terminator_gen(
            #[trigger] blocks[b].terminator,
        ).subset_of(blocks_gen(blocks)) by {
            if b < blocks.len() - 1 {
                assert(blocks.drop_last()[b] == blocks[b]);
            }
        }
    }
}

/// Every set of `la` is a subset of `u`.
pub open spec fn within(la: Seq<Seq<Set<usize>>>, u: Set<usize>) -> bool {
    forall|b: int, k: int| 0 <= b < la.len() && 0 <= k < la[b].len() ==> (#[trigger] la[b][k]).subset_of(u)
}

proof fn lemma_entry_union_within(la: Seq<Seq<Set<usize>>>, succs: Seq<usize>, u: Set<usize>)
    requires
        within(la, u),
        forall|b: int| 0 <= b < la.len() ==> (#[trigger] la[b]).len() >= 1,
        forall|k: int| 0 <= k < succs.len() ==> #[trigger] succs[k] < la.len(),
    ensures
        entry_union(la, succs).subset_of(u),
    decreases succs.len(),
{
    if succs.len() > 0 {
        lemma_entry_union_within(la, succs.drop_last(), u);
        let s = succs.last();
        assert(succs[succs.len() - 1] == s);
        assert(la[s as int][0].subset_of(u));
    }
}

proof fn lemma_equation_within(blocks: Seq<BasicBlock>, la: Seq<Seq<Set<usize>>>, b: int, k: int)
    requires
        shaped(blocks, la),
        within(la, blocks_gen(blocks)),
        targets_in_range(blocks),
        0 <= b < blocks.len(),
        0 <= k <= blocks[b].statements@.len(),
    ensures
        equation(blocks, la, b, k).subset_of(blocks_gen(blocks)),
{
    lemma_blocks_gen(blocks);
    assert(la[b].len() == blocks[b].statements@.len() + 1);
    if k == blocks[b].statements@.len() {
        assert forall|j: int| 0 <= j < la.len() implies (#[trigger] la[j]).len() >= 1 by {
            assert(la[j].len() == blocks[j].statements@.len() + 1);
        }
        assert forall|j: int| 0 <= j < raw_successors(blocks[b]).len() implies #[trigger] raw_successors(
            blocks[b],
        )[j] < la.len() by {
            assert(raw_successors(blocks[b])[j] < blocks.len());
        }
        lemma_entry_union_within(la, raw_successors(blocks[b]), blocks_gen(blocks));
        assert(terminator_gen(blocks[b].terminator).subset_of(blocks_gen(blocks)));
    } else {
        assert(la[b][k + 1].subset_of(blocks_gen(blocks)));
        assert(statement_gen(blocks[b].statements@[k]).subset_of(blocks_gen(blocks)));
    }
}

/// The total size of the sets of a row.
pub open spec fn row_size(row: Seq<Set<usize>>) -> nat
    decreases row.len(),
{
    if row.len() == 0 {
        0
    } else {
        row_size(row.drop_last()) + row.last().len()
    }
}

/// The total size of the sets of `la`.
pub open spec fn grid_size(la: Seq<Seq<Set<usize>>>) -> nat
    decreases la.len(),
{
    if la.len() == 0 {
        0
    } else {
        grid_size(la.drop_last()) + row_size(la.last())
    }
}

/// The number of positions of `la`.
pub open spec fn grid_positions(la: Seq<Seq<Set<usize>>>) -> nat
    decreases la.len(),
{
    if la.len() == 0 {
        0
    } else {
        grid_positions(la.drop_last()) + la.last().len()
    }
}

proof fn lemma_row_update(row: Seq<Set<usize>>, k: int, s: Set<usize>)
    requires
        0 <= k < row.len(),
    ensures
        row_size(row.update(k, s)) + row[k].len() == row_size(row) + s.len(),
    decreases row.len(),
{
    if k < row.len() - 1 {
        assert(row.update(k, s).drop_last() =~= row.drop_last().update(k, s));
        lemma_row_update(row.drop_last(), k, s);
    } else {
        assert(row.update(k, s).drop_last() =~= row.drop_last());
    }
}

proof fn lemma_grid_update(la: Seq<Seq<Set<usize>>>, b: int, row: Seq<Set<usize>>)
    requires
        0 <= b < la.len(),
    ensures
        grid_size(la.update(b, row)) + row_size(la[b]) == grid_size(la) + row_size(row),
        grid_positions(la.update(b, row)) + la[b].len() == grid_positions(la) + row.len(),
    decreases la.len(),
{
    if b < la.len() - 1 {
        assert(la.update(b, row).drop_last() =~= la.drop_last().update(b, row));
        lemma_grid_update(la.drop_last(), b, row);
    } else {
        assert(la.update(b, row).drop_last() =~= la.drop_last());
    }
}

proof fn lemma_row_bound(row: Seq<Set<usize>>, u: Set<usize>)
    requires
        u.finite(),
        forall|k: int| 0 <= k < row.len() ==> (#[trigger] row[k]).subset_of(u),
    ensures
        row_size(row) <= row.len() * u.len(),
    decreases row.len(),
{
    if row.len() > 0 {
        assert forall|k: int| 0 <= k < row.drop_last().len() implies (#[trigger] row.drop_last()[k]).subset_of(u) by {
            assert(row.drop_last()[k] == row[k]);
        }
        lemma_row_bound(row.drop_last(), u);
        assert(row[row.len() - 1].subset_of(u));
        vstd::set_lib::lemma_len_subset(row.last(), u);
        assert((row.len() - 1) * u.len() + u.len() == row.len() * u.len()) by (nonlinear_arith);
    }
}

proof fn lemma_grid_bound(la: Seq<Seq<Set<usize>>>, u: Set<usize>)
    requires
        u.finite(),
        within(la, u),
    ensures
        grid_size(la) <= grid_positions(la) * u.len(),
    decreases la.len(),
{
    if la.len() > 0 {
        assert(within(la.drop_last(), u)) by {
            assert forall|b: int, k: int| 0 <= b < la.drop_last().len() && 0 <= k < la.drop_last()[b].len()
                implies (#[trigger] la.drop_last()[b][k]).subset_of(u) by {
                assert(la.drop_last()[b] == la[b]);
            }
        }
        lemma_grid_bound(la.drop_last(), u);
        assert forall|k: int| 0 <= k < la.last().len() implies (#[trigger] la.last()[k]).subset_of(u) by {
            assert(la.last() == la[la.len() - 1]);
        }
        lemma_row_bound(la.last(), u);
        let p = grid_positions(la.drop_last());
        let r = la.last().len();
        assert(p * u.len() + r * u.len() == (p + r) * u.len()) by (nonlinear_arith);
    }
}

fn add_operand(live: &mut IndexSet, op: &Operand)
    ensures
        index_set_contents(*final(live)) == index_set_contents(*old(live)).union(operand_reads(*op)),
{
    match op {
        Operand::Copy(l) => {
            live.insert(l.0);
        },
        Operand::Move(l) => {
            live.insert(l.0);
        },
        Operand::Constant(_) => {},
    }
    assert(index_set_contents(*live) =~= index_set_contents(*old(live)).union(operand_reads(*op)));
}

fn add_operands(live: &mut IndexSet, ops: &Vec<Operand>)
    ensures
        index_set_contents(*final(live)) == index_set_contents(*old(live)).union(operands_reads(ops@)),
{
    let mut i: usize = 0;
    assert(ops@.subrange(0, 0) =~= Seq::<Operand>::empty());
    assert(index_set_contents(*live) =~= index_set_contents(*old(live)).union(
        operands_reads(ops@.subrange(0, 0)),
    ));
    while i < ops.len()
        invariant
            0 <= i <= ops@.len(),
            index_set_contents(*live) == index_set_contents(*old(live)).union(
                operands_reads(ops@.subrange(0, i as int)),
            ),
        decreases ops.len() - i,
    {
        assert(ops@.subrange(0, i + 1).drop_last() =~= ops@.subrange(0, i as int));
        assert(ops@.subrange(0, i + 1).last() == ops@[i as int]);
        add_operand(live, &ops[i]);
        i = i + 1;
        assert(index_set_contents(*live) =~= index_set_contents(*old(live)).union(
            operands_reads(ops@.subrange(0, i as int)),
        ));
    }
    assert(ops@.subrange(0, ops@.len() as int) =~= ops@);
}

fn add_rvalue(live: &mut IndexSet, rv: &Rvalue)
    ensures
        index_set_contents(*final(live)) == index_set_contents(*old(live)).union(rvalue_uses(*rv)),
{
    match rv {
        Rvalue::Use(o) | Rvalue::UnaryOp(_, o) | Rvalue::GetAttr(o, _) | Rvalue::GetTag(o)
        | Rvalue::GetTypeId(o) | Rvalue::FatPtrData(o) | Rvalue::Cast(o, _) | Rvalue::PtrLoad(o)
        | Rvalue::GenOf(o) | Rvalue::VTableLoad { vtable: o, .. } | Rvalue::VectorSplat(o, _)
        | Rvalue::VectorReduce(_, o, _) => {
            add_operand(live, o);
        },
        Rvalue::BinaryOp(_, a, b) | Rvalue::GetIndex(a, b, _) | Rvalue::VectorLoad(a, b, _) => {
            add_operand(live, a);
            add_operand(live, b);
        },
        Rvalue::VectorFMA(a, b, c) => {
            add_operand(live, a);
            add_operand(live, b);
            add_operand(live, c);
        },
        Rvalue::Call { func, args } => {
            add_operand(live, func);
            add_operands(live, args);
        },
        Rvalue::Aggregate(_, ops) => {
            add_operands(live, ops);
        },
        Rvalue::Ref(l) | Rvalue::MutRef(l) => {
            live.insert(l.0);
        },
    }
    assert(index_set_contents(*live) =~= index_set_contents(*old(live)).union(rvalue_uses(*rv)));
}

/// Steps `live` back over `s`.
fn transfer_statement(live: &mut IndexSet, s: &Statement)
    ensures
        index_set_contents(*final(live)) == transfer(*s, index_set_contents(*old(live))),
{
    match &s.kind {
        StatementKind::Assign(l, rv) => {
            live.remove(l.0);
            add_rvalue(live, rv);
        },
        StatementKind::SetAttr(o, _, v) => {
            add_operand(live, o);
            add_operand(live, v);
        },
        StatementKind::SetIndex(o, i, v, _) => {
            add_operand(live, o);
            add_operand(live, i);
            add_operand(live, v);
        },
        StatementKind::VectorStore(o, i, v) => {
            add_operand(live, o);
            add_operand(live, i);
            add_operand(live, v);
        },
        StatementKind::PtrStore(p, v) => {
            add_operand(live, p);
            add_operand(live, v);
        },
        StatementKind::Drop(l) | StatementKind::StorageDead(l) => {
            live.remove(l.0);
        },
        StatementKind::StorageLive(_) => {},
        StatementKind::GenCheck { value, generation } => {
            live.insert(value.0);
            live.insert(generation.0);
        },
    }
    assert(index_set_contents(*live) =~= transfer(*s, index_set_contents(*old(live))));
}

/// The locals live at the terminator of block `b`, from the entry sets of
/// its successors in `grid`.
fn exit_set(grid: &Vec<Vec<IndexSet>>, blocks: &Vec<BasicBlock>, b: usize) -> (r: IndexSet)
    requires
        shaped(blocks@, live_view(grid@)),
        targets_in_range(blocks@),
        b < blocks@.len(),
    ensures
        index_set_contents(r) == block_exit(blocks@, live_view(grid@), b as int),
{
    let ghost la = live_view(grid@);
    let succs = raw_successors_of(&blocks[b]);
    let mut live = IndexSet::new();
    let mut i: usize = 0;
    assert(succs@.subrange(0, 0) =~= Seq::<usize>::empty());
    while i < succs.len()
        invariant
            la == live_view(grid@),
            shaped(blocks@, la),
            targets_in_range(blocks@),
            b < blocks@.len(),
            succs@ == raw_successors(blocks@[b as int]),
            0 <= i <= succs@.len(),
            index_set_contents(live) == entry_union(la, succs@.subrange(0, i as int)),
        decreases succs.len() - i,
    {
        let s = succs[i];
        assert(s < blocks@.len());
        assert(la[s as int].len() == blocks@[s as int].statements@.len() + 1);
        let entry = grid[s][0].to_vec();
        let ghost before = index_set_contents(live);
        let mut j: usize = 0;
        while j < entry.len()
            invariant
                0 <= j <= entry@.len(),
                index_set_contents(live) == before.union(entry@.subrange(0, j as int).to_set()),
            decreases entry.len() - j,
        {
            live.insert(entry[j]);
            proof {
                assert(entry@.subrange(0, j + 1) =~= entry@.subrange(0, j as int).push(entry@[j as int]));
                entry@.subrange(0, j as int).lemma_push_to_set_commute(entry@[j as int]);
            }
            j = j + 1;
            assert(index_set_contents(live) =~= before.union(entry@.subrange(0, j as int).to_set()));
        }
        assert(entry@.subrange(0, entry@.len() as int) =~= entry@);
        assert(succs@.subrange(0, i + 1).drop_last() =~= succs@.subrange(0, i as int));
        assert(succs@.subrange(0, i + 1).last() == s);
        i = i + 1;
        assert(index_set_contents(live) =~= entry_union(la, succs@.subrange(0, i as int)));
    }
    assert(succs@.subrange(0, succs@.len() as int) =~= succs@);
    if let Some(t) = &blocks[b].terminator {
        if let TerminatorKind::SwitchInt { discr, .. } = &t.kind {
            add_operand(&mut live, discr);
        }
    }
    assert(index_set_contents(live) =~= block_exit(blocks@, la, b as int));
    live
}

/// Replaces set `k` of row `b`.
fn set_cell(grid: &mut Vec<Vec<IndexSet>>, b: usize, k: usize, s: IndexSet)
    requires
        b < old(grid)@.len(),
        k < old(grid)@[b as int]@.len(),
    ensures
        live_view(final(grid)@) == live_view(old(grid)@).update(
            b as int,
            live_view(old(grid)@)[b as int].update(k as int, index_set_contents(s)),
        ),
{
    let ghost before = live_view(grid@);
    let mut row: Vec<IndexSet> = Vec::new();
    grid.set_and_swap(b, &mut row);
    row.set(k, s);
    grid.set_and_swap(b, &mut row);
    let ghost want = before.update(b as int, before[b as int].update(k as int, index_set_contents(s)));
    assert forall|j: int| 0 <= j < want.len() implies #[trigger] live_view(grid@)[j] =~= want[j] by {
        if j == b {
            assert(live_view(grid@)[j] =~= want[j]);
        } else {
            assert(grid@[j] == old(grid)@[j]);
            assert(live_view(grid@)[j] =~= before[j]);
        }
    }
    assert(live_view(grid@) =~= want);
}

/// The facts the iteration keeps about `la` between updates.
#[verifier::opaque]
pub open spec fn sound_state(blocks: Seq<BasicBlock>, la: Seq<Seq<Set<usize>>>) -> bool {
    &&& within(la, blocks_gen(blocks))
    &&& forall|b: int, k: int|
        0 <= b < la.len() && 0 <= k < la[b].len() ==> (#[trigger] la[b][k]).subset_of(
            equation(blocks, la, b, k),
        )
    &&& forall|x: Seq<Seq<Set<usize>>>| #[trigger] live_solution(blocks, x) ==> below(la, x)
}

proof fn lemma_update_sound(blocks: Seq<BasicBlock>, la: Seq<Seq<Set<usize>>>, b: int, k: int)
    requires
        shaped(blocks, la),
        sound_state(blocks, la),
        targets_in_range(blocks),
        0 <= b < blocks.len(),
        0 <= k <= blocks[b].statements@.len(),
    ensures
        ({
            let v = equation(blocks, la, b, k);
            let nl = la.update(b, la[b].update(k, v));
            &&& shaped(blocks, nl)
            &&& sound_state(blocks, nl)
            &&& la[b][k].subset_of(v)
            &&& grid_size(nl) + la[b][k].len() == grid_size(la) + v.len()
            &&& grid_positions(nl) == grid_positions(la)
            &&& grid_size(nl) >= grid_size(la)
            &&& v != la[b][k] ==> grid_size(nl) > grid_size(la)
        }),
{
    reveal(sound_state);
    let v = equation(blocks, la, b, k);
    let nl = la.update(b, la[b].update(k, v));
    let u = blocks_gen(blocks);
    lemma_blocks_gen(blocks);
    assert(la[b].len() == blocks[b].statements@.len() + 1);
    lemma_equation_within(blocks, la, b, k);
    assert(shaped(blocks, nl)) by {
        assert forall|j: int| 0 <= j < nl.len() implies (#[trigger] nl[j]).len() == blocks[j].statements@.len() + 1 by {
            if j != b {
                assert(nl[j] == la[j]);
            }
        }
    }
    assert(below(la, nl)) by {
        assert forall|j: int, i: int| 0 <= j < la.len() && 0 <= i < la[j].len() implies (#[trigger] la[j][i]).subset_of(
            nl[j][i],
        ) by {
            if j == b && i == k {
                assert(la[b][k].subset_of(v));
            } else if j == b {
                assert(nl[j][i] == la[j][i]);
            } else {
                assert(nl[j] == la[j]);
            }
        }
    }
    assert(within(nl, u)) by {
        assert forall|j: int, i: int| 0 <= j < nl.len() && 0 <= i < nl[j].len() implies (#[trigger] nl[j][i]).subset_of(
            u,
        ) by {
            if j == b && i == k {
            } else if j == b {
                assert(nl[j][i] == la[j][i]);
            } else {
                assert(nl[j] == la[j]);
            }
        }
    }
    assert forall|j: int, i: int| 0 <= j < nl.len() && 0 <= i < nl[j].len() implies (#[trigger] nl[j][i]).subset_of(
        equation(blocks, nl, j, i),
    ) by {
        assert(nl[j].len() == blocks[j].statements@.len() + 1);
        lemma_equation_mono(blocks, la, nl, j, i);
        if j == b && i == k {
        } else if j == b {
            assert(nl[j][i] == la[j][i]);
        } else {
            assert(nl[j] == la[j]);
        }
    }
    assert forall|x: Seq<Seq<Set<usize>>>| #[trigger] live_solution(blocks, x) implies below(nl, x) by {
        assert(below(la, x));
        assert forall|j: int, i: int| 0 <= j < nl.len() && 0 <= i < nl[j].len() implies (#[trigger] nl[j][i]).subset_of(
            x[j][i],
        ) by {
            if j == b && i == k {
                lemma_equation_mono(blocks, la, x, b, k);
                assert(x[b][k] == equation(blocks, x, b, k));
            } else if j == b {
                assert(nl[j][i] == la[j][i]);
            } else {
                assert(nl[j] == la[j]);
            }
        }
    }
    lemma_row_update(la[b], k, v);
    lemma_grid_update(la, b, la[b].update(k, v));
    vstd::set_lib::lemma_len_subset(v, u);
    vstd::set_lib::lemma_len_subset(la[b][k], u);
    vstd::set_lib::lemma_len_subset(la[b][k], v);
    if v != la[b][k] && la[b][k].len() == v.len() {
        vstd::set_lib::lemma_subset_equality(la[b][k], v);
    }
}

/// Stores `current`, the equation's value at position `pos` of block `bi`,
/// there; true when the set there changed.
fn update_cell(
    grid: &mut Vec<Vec<IndexSet>>,
    blocks: &Vec<BasicBlock>,
    bi: usize,
    pos: usize,
    current: &IndexSet,
) -> (changed: bool)
    requires
        shaped(blocks@, live_view(old(grid)@)),
        sound_state(blocks@, live_view(old(grid)@)),
        targets_in_range(blocks@),
        bi < blocks@.len(),
        pos <= blocks@[bi as int].statements@.len(),
        index_set_contents(*current) == equation(blocks@, live_view(old(grid)@), bi as int, pos as int),
    ensures
        live_view(final(grid)@) == live_view(old(grid)@).update(
            bi as int,
            live_view(old(grid)@)[bi as int].update(pos as int, index_set_contents(*current)),
        ),
        shaped(blocks@, live_view(final(grid)@)),
        sound_state(blocks@, live_view(final(grid)@)),
        grid_positions(live_view(final(grid)@)) == grid_positions(live_view(old(grid)@)),
        grid_size(live_view(final(grid)@)) >= grid_size(live_view(old(grid)@)),
        changed ==> grid_size(live_view(final(grid)@)) > grid_size(live_view(old(grid)@)),
        !changed ==> live_view(final(grid)@) == live_view(old(grid)@),
{
    let ghost before = live_view(grid@);
    proof {
        lemma_update_sound(blocks@, before, bi as int, pos as int);
    }
    assert(before[bi as int].len() == blocks@[bi as int].statements@.len() + 1);
    if !grid[bi][pos].equals(current) {
        set_cell(grid, bi, pos, current.duplicate());
        true
    } else {
        assert(before[bi as int].update(pos as int, index_set_contents(*current)) =~= before[bi as int]);
        assert(before.update(bi as int, before[bi as int]) =~= before);
        false
    }
}

/// What the fixpoint iteration decreases: room left below the size bound,
/// and whether the last round changed anything.
pub open spec fn progress(blocks: Seq<BasicBlock>, la: Seq<Seq<Set<usize>>>, changed: bool) -> int {
    (grid_positions(la) * blocks_gen(blocks).len() - grid_size(la)) * 2 + if changed {
        1int
    } else {
        0int
    }
}

impl Liveness {
    /// The least solution of the liveness equations of `func`.
    pub fn compute(func: &MirFunction) -> (r: Liveness)
        requires
            targets_in_range(func.basic_blocks@),
        ensures
            live_solution(func.basic_blocks@, r.view_sets()),
            forall|x: Seq<Seq<Set<usize>>>|
                #[trigger] live_solution(func.basic_blocks@, x) ==> below(r.view_sets(), x),
    {
        let blocks = &func.basic_blocks;
        let ghost bs = blocks@;
        let n = blocks.len();
        let mut grid: Vec<Vec<IndexSet>> = Vec::new();
        let mut b: usize = 0;
        while b < n
            invariant
                bs == blocks@,
                n == bs.len(),
                0 <= b <= n,
                grid@.len() == b,
                forall|j: int, k: int|
                    0 <= j < b && 0 <= k < grid@[j]@.len() ==> index_set_contents(#[trigger] grid@[j]@[k])
                        == Set::<usize>::empty(),
                forall|j: int| 0 <= j < b ==> (#[trigger] grid@[j])@.len() == bs[j].statements@.len() + 1,
            decreases n - b,
        {
            let len = blocks[b].statements.len();
            let mut row: Vec<IndexSet> = Vec::new();
            row.push(IndexSet::new());
            let mut k: usize = 0;
            while k < len
                invariant
                    b < n,
                    n == bs.len(),
                    0 <= k <= len,
                    len == bs[b as int].statements@.len(),
                    row@.len() == k + 1,
                    forall|i: int| 0 <= i <= k ==> index_set_contents(#[trigger] row@[i]) == Set::<usize>::empty(),
                decreases len - k,
            {
                row.push(IndexSet::new());
                k = k + 1;
            }
            grid.push(row);
            b = b + 1;
        }
        let ghost u = blocks_gen(bs);
        proof {
            reveal(sound_state);
            lemma_blocks_gen(bs);
            let la = live_view(grid@);
            assert(shaped(bs, la));
            assert forall|j: int, k: int| 0 <= j < la.len() && 0 <= k < la[j].len() implies (#[trigger] la[j][k]).subset_of(
                equation(bs, la, j, k),
            ) by {
                assert(la[j][k] == Set::<usize>::empty());
            }
            assert forall|j: int, k: int| 0 <= j < la.len() && 0 <= k < la[j].len() implies (#[trigger] la[j][k]).subset_of(
                u,
            ) by {
                assert(la[j][k] == Set::<usize>::empty());
            }
            assert forall|x: Seq<Seq<Set<usize>>>| #[trigger] live_solution(bs, x) implies below(la, x) by {
                assert forall|j: int, k: int| 0 <= j < la.len() && 0 <= k < la[j].len() implies (#[trigger] la[j][k]).subset_of(
                    x[j][k],
                ) by {
                    assert(la[j][k] == Set::<usize>::empty());
                }
            }
            lemma_grid_bound(la, u);
        }
        let mut changed = true;
        while changed
            invariant
                bs == blocks@,
                n == bs.len(),
                targets_in_range(bs),
                u == blocks_gen(bs),
                u.finite(),
                shaped(bs, live_view(grid@)),
                sound_state(bs, live_view(grid@)),
                grid_size(live_view(grid@)) <= grid_positions(live_view(grid@)) * u.len(),
                !changed ==> live_solution(bs, live_view(grid@)),
            decreases progress(bs, live_view(grid@), changed),
        {
            let ghost start = live_view(grid@);
            let ghost start_size = grid_size(start);
            changed = false;
            let mut idx: usize = n;
            while idx > 0
                invariant
                    bs == blocks@,
                    n == bs.len(),
                    targets_in_range(bs),
                    u == blocks_gen(bs),
                    u.finite(),
                    0 <= idx <= n,
                    shaped(bs, live_view(grid@)),
                sound_state(bs, live_view(grid@)),
                    grid_positions(live_view(grid@)) == grid_positions(start),
                    grid_size(live_view(grid@)) >= start_size,
                    changed ==> grid_size(live_view(grid@)) > start_size,
                    !changed ==> live_view(grid@) == start,
                    !changed ==> forall|j: int, k: int|
                        idx <= j < n && 0 <= k < live_view(grid@)[j].len() ==> #[trigger] live_view(
                            grid@,
                        )[j][k] == equation(bs, live_view(grid@), j, k),
                decreases idx,
            {
                let bi = idx - 1;
                let len = blocks[bi].statements.len();
                assert(live_view(grid@)[bi as int].len() == len + 1);
                let mut current = exit_set(&grid, blocks, bi);
                if update_cell(&mut grid, blocks, bi, len, &current) {
                    changed = true;
                }
                let mut k: usize = len;
                while k > 0
                    invariant
                        bs == blocks@,
                        n == bs.len(),
                        targets_in_range(bs),
                        u == blocks_gen(bs),
                        u.finite(),
                        0 <= idx <= n,
                        bi == idx - 1,
                        len == bs[bi as int].statements@.len(),
                        0 <= k <= len,
                        shaped(bs, live_view(grid@)),
                sound_state(bs, live_view(grid@)),
                        index_set_contents(current) == live_view(grid@)[bi as int][k as int],
                        grid_positions(live_view(grid@)) == grid_positions(start),
                        grid_size(live_view(grid@)) >= start_size,
                        changed ==> grid_size(live_view(grid@)) > start_size,
                        !changed ==> live_view(grid@) == start,
                        !changed ==> forall|j: int, i: int|
                            (idx <= j < n && 0 <= i < live_view(grid@)[j].len()) || (j == bi && k <= i <= len)
                                ==> #[trigger] live_view(grid@)[j][i] == equation(bs, live_view(grid@), j, i),
                    decreases k,
                {
                    let ghost before = live_view(grid@);
                    assert(before[bi as int].len() == len + 1);
                    transfer_statement(&mut current, &blocks[bi].statements[k - 1]);
                    assert(index_set_contents(current) == equation(bs, before, bi as int, k - 1));
                    let c = update_cell(&mut grid, blocks, bi, k - 1, &current);
                    proof {
                        let after = live_view(grid@);
                        assert(after[bi as int][k - 1] == index_set_contents(current));
                        if !changed && !c {
                            assert(after == before);
                            assert forall|j: int, i: int|
                                (idx <= j < n && 0 <= i < after[j].len()) || (j == bi && k - 1 <= i <= len)
                                    implies #[trigger] after[j][i] == equation(bs, after, j, i) by {
                                if j == bi && i == k - 1 {
                                } else {
                                }
                            }
                        }
                    }
                    if c {
                        changed = true;
                    }
                    k = k - 1;
                }
                idx = idx - 1;
            }
            proof {
                reveal(sound_state);
                lemma_grid_bound(live_view(grid@), u);
            }
        }
        proof {
            reveal(sound_state);
        }
        Liveness { live_after: grid }
    }
}

} // verus!
