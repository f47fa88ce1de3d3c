//! Copy propagation: where `d = copy s` is the only assignment to `d`, and
//! `s` is assigned at most once or is a parameter, later copies of `d` read
//! `s` directly.

use super::propagate::{blocks_hit, blocks_rewritten, rewrite_blocks, OperandRewriter, Rule, hits, mapped};
use super::Transform;
use crate::fx::{index_map_contents, IndexMap};
use crate::ir::{
    same_except_blocks, BasicBlock, Local, MirFunction, Operand, Rvalue, Statement, StatementKind,
};
use vstd::prelude::*;

verus! {

pub struct CopyPropagation;

/// Whether `s` assigns local `l`.
pub open spec fn assigns_to(s: Statement, l: usize) -> bool {
    s.kind matches StatementKind::Assign(d, _) && d.0 == l
}

/// How many of `stmts` assign local `l`.
pub open spec fn statements_assign_count(stmts: Seq<Statement>, l: usize) -> nat
    decreases stmts.len(),
{
    if stmts.len() == 0 {
        0
    } else {
        statements_assign_count(stmts.drop_last(), l) + if assigns_to(stmts.last(), l) {
            1nat
        } else {
            0nat
        }
    }
}

/// How many statements of `blocks` assign local `l`.
pub open spec fn blocks_assign_count(blocks: Seq<BasicBlock>, l: usize) -> nat
    decreases blocks.len(),
{
    if blocks.len() == 0 {
        0
    } else {
        blocks_assign_count(blocks.drop_last(), l) + statements_assign_count(
            blocks.last().statements@,
            l,
        )
    }
}

/// The total number of statements in `blocks`.
pub open spec fn total_statements(blocks: Seq<BasicBlock>) -> nat
    decreases blocks.len(),
{
    if blocks.len() == 0 {
        0
    } else {
        total_statements(blocks.drop_last()) + blocks.last().statements@.len()
    }
}

/// The source `s` when `stmt` is `l = copy s`.
pub open spec fn statement_copy_source(stmt: Statement, l: usize) -> Option<usize> {
    match stmt.kind {
        StatementKind::Assign(d, Rvalue::Use(Operand::Copy(src))) => if d.0 == l {
            Some(src.0)
        } else {
            None
        },
        _ => None,
    }
}

/// The source of the last `l = copy s` among `stmts`.
pub open spec fn statements_copy_source(stmts: Seq<Statement>, l: usize) -> Option<usize>
    decreases stmts.len(),
{
    if stmts.len() == 0 {
        None
    } else {
        match statement_copy_source(stmts.last(), l) {
            Some(s) => Some(s),
            None => statements_copy_source(stmts.drop_last(), l),
        }
    }
}

/// The source of the last `l = copy s` in `blocks`, in block order.
pub open spec fn blocks_copy_source(blocks: Seq<BasicBlock>, l: usize) -> Option<usize>
    decreases blocks.len(),
{
    if blocks.len() == 0 {
        None
    } else {
        match statements_copy_source(blocks.last().statements@, l) {
            Some(s) => Some(s),
            None => blocks_copy_source(blocks.drop_last(), l),
        }
    }
}

/// The local that reads of `l` are redirected to in `f`, if any.
pub open spec fn copy_target(f: MirFunction, l: usize) -> Option<usize> {
    let blocks = f.basic_blocks@;
    match blocks_copy_source(blocks, l) {
        Some(src) => if blocks_assign_count(blocks, l) == 1 && (blocks_assign_count(blocks, src) <= 1
            || src <= f.arg_count) {
            Some(src)
        } else {
            None
        },
        None => None,
    }
}

/// Copy propagation's rule on `f`: `copy l` becomes `copy s` for `s = copy_target(f, l)`.
pub open spec fn copy_rule(f: MirFunction) -> Rule {
    |op: Operand|
        match op {
            Operand::Copy(l) => match copy_target(f, l.0) {
                Some(s) => Some(Operand::Copy(Local(s))),
                None => None,
            },
            _ => None,
        }
}

pub(crate) proof fn lemma_statements_count_bound(stmts: Seq<Statement>, l: usize)
    ensures
        statements_assign_count(stmts, l) <= stmts.len(),
    decreases stmts.len(),
{
    if stmts.len() > 0 {
        lemma_statements_count_bound(stmts.drop_last(), l);
    }
}

proof fn lemma_blocks_count_bound(blocks: Seq<BasicBlock>, l: usize)
    ensures
        blocks_assign_count(blocks, l) <= total_statements(blocks),
    decreases blocks.len(),
{
    if blocks.len() > 0 {
        lemma_blocks_count_bound(blocks.drop_last(), l);
        lemma_statements_count_bound(blocks.last().statements@, l);
    }
}

proof fn lemma_total_prefix(blocks: Seq<BasicBlock>, i: int)
    requires
        0 <= i < blocks.len(),
    ensures
        total_statements(blocks.subrange(0, i)) + blocks[i].statements@.len() <= total_statements(
            blocks,
        ),
    decreases blocks.len(),
{
    if i < blocks.len() - 1 {
        assert(blocks.drop_last().subrange(0, i) =~= blocks.subrange(0, i));
        lemma_total_prefix(blocks.drop_last(), i);
    } else {
        assert(blocks.drop_last() =~= blocks.subrange(0, i));
    }
}

/// The count recorded in `m` for `l`, zero when absent.
pub open spec fn count_of(m: Map<usize, usize>, l: usize) -> nat {
    if m.contains_key(l) {
        m[l] as nat
    } else {
        0
    }
}

/// Assignment counts and last copy sources gathered from a function.
pub struct CopyTable {
    counts: IndexMap,
    copies: IndexMap,
    arg_count: usize,
}

impl CopyTable {
    pub closed spec fn target(&self, l: usize) -> Option<usize> {
        let counts = index_map_contents(self.counts);
        let copies = index_map_contents(self.copies);
        if copies.contains_key(l) && count_of(counts, l) == 1 && (count_of(counts, copies[l]) <= 1
            || copies[l] <= self.arg_count) {
            Some(copies[l])
        } else {
            None
        }
    }

    fn count(&self, l: usize) -> (c: usize)
        ensures
            c == count_of(index_map_contents(self.counts), l),
    {
        match self.counts.get(l) {
            Some(c) => c,
            None => 0,
        }
    }
}

impl OperandRewriter for CopyTable {
    open spec fn rule(&self) -> Rule {
        |op: Operand|
            match op {
                Operand::Copy(l) => match self.target(l.0) {
                    Some(s) => Some(Operand::Copy(Local(s))),
                    None => None,
                },
                _ => None,
            }
    }

    fn rewrite_operand(&self, op: &mut Operand) -> (hit: bool) {
        let target = match op {
            Operand::Copy(l) => match self.copies.get(l.0) {
                Some(src) => if self.count(l.0) == 1 && (self.count(src) <= 1 || src <= self.arg_count) {
                    Some(src)
                } else {
                    None
                },
                None => None,
            },
            _ => None,
        };
        match target {
            Some(src) => {
                *op = Operand::Copy(Local(src));
                true
            },
            None => false,
        }
    }
}

/// The counts and copy sources of `func`.
fn gather(func: &MirFunction) -> (t: CopyTable)
    requires
        total_statements(func.basic_blocks@) < usize::MAX,
    ensures
        t.arg_count == func.arg_count,
        forall|l: usize|
            #![trigger count_of(index_map_contents(t.counts), l)]
            count_of(index_map_contents(t.counts), l) == blocks_assign_count(func.basic_blocks@, l),
        forall|l: usize|
            #![trigger index_map_contents(t.copies).contains_key(l)]
            (index_map_contents(t.copies).contains_key(l) <==> blocks_copy_source(
                func.basic_blocks@,
                l,
            ) is Some) && (index_map_contents(t.copies).contains_key(l) ==> blocks_copy_source(
                func.basic_blocks@,
                l,
            ) == Some(index_map_contents(t.copies)[l])),
{
    let ghost blocks = func.basic_blocks@;
    let mut counts = IndexMap::new();
    let mut copies = IndexMap::new();
    let mut i: usize = 0;
    assert(blocks.subrange(0, 0) =~= Seq::<BasicBlock>::empty());
    while i < func.basic_blocks.len()
        invariant
            blocks == func.basic_blocks@,
            total_statements(blocks) < usize::MAX,
            0 <= i <= blocks.len(),
            forall|l: usize|
                #![trigger count_of(index_map_contents(counts), l)]
                count_of(index_map_contents(counts), l) == blocks_assign_count(
                    blocks.subrange(0, i as int),
                    l,
                ),
            forall|l: usize|
                #![trigger index_map_contents(copies).contains_key(l)]
                (index_map_contents(copies).contains_key(l) <==> blocks_copy_source(
                    blocks.subrange(0, i as int),
                    l,
                ) is Some) && (index_map_contents(copies).contains_key(l) ==> blocks_copy_source(
                    blocks.subrange(0, i as int),
                    l,
                ) == Some(index_map_contents(copies)[l])),
        decreases blocks.len() - i,
    {
        let ghost prefix = blocks.subrange(0, i as int);
        let stmts = &func.basic_blocks[i].statements;
        proof {
            lemma_total_prefix(blocks, i as int);
        }
        let mut j: usize = 0;
        assert(stmts@.subrange(0, 0) =~= Seq::<Statement>::empty());
        while j < stmts.len()
            invariant
                blocks == func.basic_blocks@,
                stmts@ == blocks[i as int].statements@,
                prefix == blocks.subrange(0, i as int),
                total_statements(prefix) + stmts@.len() <= total_statements(blocks),
                total_statements(blocks) < usize::MAX,
                0 <= j <= stmts@.len(),
                forall|l: usize|
                    #![trigger count_of(index_map_contents(counts), l)]
                    count_of(index_map_contents(counts), l) == blocks_assign_count(prefix, l)
                        + statements_assign_count(stmts@.subrange(0, j as int), l),
                forall|l: usize|
                    #![trigger index_map_contents(copies).contains_key(l)]
                    {
                        let src = match statements_copy_source(stmts@.subrange(0, j as int), l) {
                            Some(s) => Some(s),
                            None => blocks_copy_source(prefix, l),
                        };
                        (index_map_contents(copies).contains_key(l) <==> src is Some) && (
                        index_map_contents(copies).contains_key(l) ==> src == Some(
                            index_map_contents(copies)[l],
                        ))
                    },
            decreases stmts@.len() - j,
        {
            let ghost cur = stmts@.subrange(0, j + 1);
            assert(cur.drop_last() =~= stmts@.subrange(0, j as int));
            assert(cur.last() == stmts@[j as int]);
            let ghost old_counts = index_map_contents(counts);
            if let StatementKind::Assign(dest, rval) = &stmts[j].kind {
                let c = match counts.get(dest.0) {
                    Some(c) => c,
                    None => 0,
                };
                proof {
                    assert(c == count_of(old_counts, dest.0));
                    lemma_blocks_count_bound(prefix, dest.0);
                    lemma_statements_count_bound(stmts@.subrange(0, j as int), dest.0);
                }
                counts.insert(dest.0, c + 1);
                if let Rvalue::Use(Operand::Copy(src)) = rval {
                    copies.insert(dest.0, src.0);
                }
            }
            proof {
                assert forall|l: usize|
                    #[trigger] count_of(index_map_contents(counts), l) == blocks_assign_count(prefix, l)
                        + statements_assign_count(cur, l) by {
                    assert(count_of(old_counts, l) == blocks_assign_count(prefix, l)
                        + statements_assign_count(stmts@.subrange(0, j as int), l));
                }
            }
            j = j + 1;
        }
        assert(stmts@.subrange(0, stmts@.len() as int) =~= stmts@);
        assert(blocks.subrange(0, i + 1).drop_last() =~= prefix);
        assert(blocks.subrange(0, i + 1).last() == blocks[i as int]);
        i = i + 1;
    }
    assert(blocks.subrange(0, blocks.len() as int) =~= blocks);
    CopyTable { counts, copies, arg_count: func.arg_count }
}

impl Transform for CopyPropagation {
    /// The statement count stays within the machine's index range.
    open spec fn accepts(&self, func: MirFunction) -> bool {
        total_statements(func.basic_blocks@) < usize::MAX
    }

    /// Applies `copy_rule` to the operands the pass visits, and reports
    /// whether it applied anywhere.
    fn run(&self, func: &mut MirFunction) -> (changed: bool)
        ensures
            same_except_blocks(*final(func), *old(func)),
            blocks_rewritten(copy_rule(*old(func)), old(func).basic_blocks@, final(func).basic_blocks@),
            changed == blocks_hit(copy_rule(*old(func)), old(func).basic_blocks@),
    {
        let table = gather(func);
        assert(table.rule() =~= copy_rule(*old(func))) by {
            assert forall|op: Operand| #[trigger] (table.rule())(op) == (copy_rule(*old(func)))(op) by {
                match op {
                    Operand::Copy(l) => {
                        let copies = index_map_contents(table.copies);
                        if copies.contains_key(l.0) {
                            assert(count_of(index_map_contents(table.counts), copies[l.0])
                                == blocks_assign_count(old(func).basic_blocks@, copies[l.0]));
                        }
                        assert(count_of(index_map_contents(table.counts), l.0)
                            == blocks_assign_count(old(func).basic_blocks@, l.0));
                    },
                    _ => {},
                }
            }
        }
        rewrite_blocks(&table, &mut func.basic_blocks)
    }
}

} // verus!
