//! Constant propagation. A local written exactly once, by `l = const c`
//! outside every loop, is replaced by `c` wherever the pass reads operands.
//! Then, inside each block, a local just assigned a constant is replaced by
//! it in the rvalues that follow, until it is assigned again. Locals of a
//! union type are never replaced: their constant's representation differs.

use super::propagate::{
    blocks_hit, blocks_rewritten, hits, mapped, rewrite_blocks, rewrite_rvalue, rvalue_hit,
    rvalue_rewritten, OperandRewriter, Rule,
};
use super::Transform;
use crate::fx::{
    const_map_contents, index_map_contents, index_set_contents, ConstMap, IndexMap, IndexSet,
};
use super::copy_prop::count_of;
use crate::ir::{
    operand_local, same_except_blocks, BasicBlock, Constant, LocalDecl, MirFunction, Operand,
    Rvalue, Statement, StatementKind, Type,
};
use crate::loop_utils::{blocks_in_loops, loop_blocks_of, natural_loop, Loop};
use vstd::prelude::*;

verus! {

pub struct ConstantPropagation;

/// The local a statement writes: the destination of an assignment, or the
/// local behind the object of an attribute, index or vector store, or the
/// pointer of a pointer store.
pub open spec fn written_local(s: Statement) -> Option<usize> {
    match s.kind {
        StatementKind::Assign(d, _) => Some(d.0),
        StatementKind::SetAttr(o, _, _) => operand_local(o),
        StatementKind::SetIndex(o, _, _, _) => operand_local(o),
        StatementKind::VectorStore(o, _, _) => operand_local(o),
        StatementKind::PtrStore(p, _) => operand_local(p),
        _ => None,
    }
}

/// `w` times the number of statements of `stmts` that write `l`.
pub open spec fn statements_write_weight(stmts: Seq<Statement>, l: usize, w: nat) -> nat
    decreases stmts.len(),
{
    if stmts.len() == 0 {
        0
    } else {
        statements_write_weight(stmts.drop_last(), l, w) + if written_local(stmts.last()) == Some(l) {
            w
        } else {
            0nat
        }
    }
}

/// A write inside a loop counts twice, one elsewhere once.
pub open spec fn block_weight(loop_blocks: Set<usize>, i: int) -> nat {
    if loop_blocks.contains(i as usize) {
        2
    } else {
        1
    }
}

/// The weighted number of writes of `l` in `blocks`.
pub open spec fn write_weight(blocks: Seq<BasicBlock>, loop_blocks: Set<usize>, l: usize) -> nat
    decreases blocks.len(),
{
    if blocks.len() == 0 {
        0
    } else {
        write_weight(blocks.drop_last(), loop_blocks, l) + statements_write_weight(
            blocks.last().statements@,
            l,
            block_weight(loop_blocks, blocks.len() - 1),
        )
    }
}

/// Local `l` is declared with a union type.
pub open spec fn is_union_local(locals: Seq<LocalDecl>, l: usize) -> bool {
    locals[l as int].ty is Union
}

/// The constant `s` stores in `l`, when `s` is `l = const c` and `l` is not
/// a union.
pub open spec fn constant_stored(locals: Seq<LocalDecl>, s: Statement, l: usize) -> Option<Constant> {
    match s.kind {
        StatementKind::Assign(d, Rvalue::Use(Operand::Constant(c))) => if d.0 == l
            && !is_union_local(locals, l) {
            Some(c)
        } else {
            None
        },
        _ => None,
    }
}

/// The constant of the last such store in `stmts`.
pub open spec fn statements_last_constant(
    locals: Seq<LocalDecl>,
    stmts: Seq<Statement>,
    l: usize,
) -> Option<Constant>
    decreases stmts.len(),
{
    if stmts.len() == 0 {
        None
    } else {
        match constant_stored(locals, stmts.last(), l) {
            Some(c) => Some(c),
            None => statements_last_constant(locals, stmts.drop_last(), l),
        }
    }
}

/// The constant of the last such store in `blocks`, in block order.
pub open spec fn blocks_last_constant(
    locals: Seq<LocalDecl>,
    blocks: Seq<BasicBlock>,
    l: usize,
) -> Option<Constant>
    decreases blocks.len(),
{
    if blocks.len() == 0 {
        None
    } else {
        match statements_last_constant(locals, blocks.last().statements@, l) {
            Some(c) => Some(c),
            None => blocks_last_constant(locals, blocks.drop_last(), l),
        }
    }
}

/// The constant that replaces `l` everywhere: `l` is written once, by a
/// constant store, outside every loop.
pub open spec fn safe_constant(f: MirFunction, loop_blocks: Set<usize>, l: usize) -> Option<Constant> {
    if write_weight(f.basic_blocks@, loop_blocks, l) == 1 {
        blocks_last_constant(f.locals@, f.basic_blocks@, l)
    } else {
        None
    }
}

/// The locals that have a safe constant, with it.
pub open spec fn safe_constants(f: MirFunction, loop_blocks: Set<usize>) -> Map<usize, Constant> {
    Map::new(
        |l: usize| safe_constant(f, loop_blocks, l) is Some,
        |l: usize| safe_constant(f, loop_blocks, l)->0,
    )
}

/// Reads of a local that `m` maps become that constant.
pub open spec fn constant_rule(m: Map<usize, Constant>) -> Rule {
    |op: Operand|
        match operand_local(op) {
            Some(l) => if m.contains_key(l) {
                Some(Operand::Constant(m[l]))
            } else {
                None
            },
            None => None,
        }
}

/// Every assignment of a `Use` rvalue writes a declared local.
pub open spec fn use_dests_declared(locals: Seq<LocalDecl>, stmts: Seq<Statement>) -> bool {
    forall|j: int|
        0 <= j < stmts.len() ==> match (#[trigger] stmts[j]).kind {
            StatementKind::Assign(d, Rvalue::Use(_)) => d.0 < locals.len(),
            _ => true,
        }
}

pub open spec fn const_prop_accepts(f: MirFunction) -> bool {
    forall|i: int|
        0 <= i < f.basic_blocks@.len() ==> use_dests_declared(
            f.locals@,
            #[trigger] f.basic_blocks@[i].statements@,
        )
}

/// The constant an assignment of `rv` stores once `m` has been applied to it.
pub open spec fn rvalue_constant(m: Map<usize, Constant>, rv: Rvalue) -> Option<Constant> {
    match rv {
        Rvalue::Use(o) => match mapped(constant_rule(m), o) {
            Operand::Constant(c) => Some(c),
            _ => None,
        },
        _ => None,
    }
}

/// The constants known after the block-local scan of `stmts`.
pub open spec fn local_constants(locals: Seq<LocalDecl>, stmts: Seq<Statement>) -> Map<usize, Constant>
    decreases stmts.len(),
{
    if stmts.len() == 0 {
        Map::empty()
    } else {
        let m = local_constants(locals, stmts.drop_last());
        match stmts.last().kind {
            StatementKind::Assign(d, rv) => match rvalue_constant(m, rv) {
                Some(c) => if !is_union_local(locals, d.0) {
                    m.insert(d.0, c)
                } else {
                    m.remove(d.0)
                },
                None => m.remove(d.0),
            },
            _ => m,
        }
    }
}

/// `s2` is statement `j` of `a` after the block-local scan.
pub open spec fn locally_propagated(locals: Seq<LocalDecl>, a: Seq<Statement>, j: int, s2: Statement) -> bool {
    match a[j].kind {
        StatementKind::Assign(d, rv) => {
            &&& s2.span == a[j].span
            &&& s2.kind matches StatementKind::Assign(d2, rv2) && d2 == d && rvalue_rewritten(
                constant_rule(local_constants(locals, a.subrange(0, j))),
                rv,
                rv2,
            )
        },
        _ => s2 == a[j],
    }
}

/// The block-local scan changes statement `j` of `a`.
pub open spec fn local_hit(locals: Seq<LocalDecl>, a: Seq<Statement>, j: int) -> bool {
    match a[j].kind {
        StatementKind::Assign(_, rv) => rvalue_hit(constant_rule(local_constants(locals, a.subrange(0, j))), rv),
        _ => false,
    }
}

pub open spec fn statements_locally_propagated(
    locals: Seq<LocalDecl>,
    a: Seq<Statement>,
    b: Seq<Statement>,
) -> bool {
    &&& b.len() == a.len()
    &&& forall|j: int| 0 <= j < a.len() ==> #[trigger] locally_propagated(locals, a, j, b[j])
}

pub open spec fn statements_local_hit(locals: Seq<LocalDecl>, a: Seq<Statement>) -> bool {
    exists|j: int| 0 <= j < a.len() && #[trigger] local_hit(locals, a, j)
}

/// Each block of `b` is that of `a` after the block-local scan.
pub open spec fn blocks_locally_propagated(
    locals: Seq<LocalDecl>,
    a: Seq<BasicBlock>,
    b: Seq<BasicBlock>,
) -> bool {
    &&& b.len() == a.len()
    &&& forall|i: int|
        0 <= i < a.len() ==> {
            &&& statements_locally_propagated(locals, a[i].statements@, #[trigger] b[i].statements@)
            &&& b[i].terminator == a[i].terminator
        }
}

pub open spec fn blocks_local_hit(locals: Seq<LocalDecl>, a: Seq<BasicBlock>) -> bool {
    exists|i: int| 0 <= i < a.len() && #[trigger] statements_local_hit(locals, a[i].statements@)
}

/// A write count capped at the largest `usize`.
pub open spec fn capped(n: nat) -> nat {
    if n < usize::MAX {
        n
    } else {
        usize::MAX as nat
    }
}

/// The constants a pass replaces reads with.
pub struct ConstTable {
    map: ConstMap,
}

impl ConstTable {
    pub closed spec fn constants(&self) -> Map<usize, Constant> {
        const_map_contents(self.map)
    }
}

impl OperandRewriter for ConstTable {
    open spec fn rule(&self) -> Rule {
        constant_rule(self.constants())
    }

    fn rewrite_operand(&self, op: &mut Operand) -> (hit: bool) {
        let found = match op {
            Operand::Copy(l) => self.map.get(l.0),
            Operand::Move(l) => self.map.get(l.0),
            Operand::Constant(_) => None,
        };
        match found {
            Some(c) => {
                *op = Operand::Constant(c.clone());
                true
            },
            None => false,
        }
    }
}

proof fn lemma_statements_last_constant_declared(locals: Seq<LocalDecl>, stmts: Seq<Statement>, l: usize)
    requires
        use_dests_declared(locals, stmts),
        statements_last_constant(locals, stmts, l) is Some,
    ensures
        l < locals.len(),
    decreases stmts.len(),
{
    if constant_stored(locals, stmts.last(), l) is None {
        assert(use_dests_declared(locals, stmts.drop_last())) by {
            assert forall|j: int| 0 <= j < stmts.drop_last().len() implies match (#[trigger] stmts.drop_last()[j]).kind {
                StatementKind::Assign(d, Rvalue::Use(_)) => d.0 < locals.len(),
                _ => true,
            } by {
                assert(stmts.drop_last()[j] == stmts[j]);
            }
        }
        lemma_statements_last_constant_declared(locals, stmts.drop_last(), l);
    } else {
        assert(stmts.last() == stmts[stmts.len() - 1]);
    }
}

proof fn lemma_blocks_last_constant_declared(locals: Seq<LocalDecl>, blocks: Seq<BasicBlock>, l: usize)
    requires
        forall|i: int| 0 <= i < blocks.len() ==> use_dests_declared(locals, #[trigger] blocks[i].statements@),
        blocks_last_constant(locals, blocks, l) is Some,
    ensures
        l < locals.len(),
    decreases blocks.len(),
{
    assert(blocks.last() == blocks[blocks.len() - 1]);
    if statements_last_constant(locals, blocks.last().statements@, l) is Some {
        lemma_statements_last_constant_declared(locals, blocks.last().statements@, l);
    } else {
        assert forall|i: int| 0 <= i < blocks.drop_last().len() implies use_dests_declared(
            locals,
            #[trigger] blocks.drop_last()[i].statements@,
        ) by {
            assert(blocks.drop_last()[i] == blocks[i]);
        }
        lemma_blocks_last_constant_declared(locals, blocks.drop_last(), l);
    }
}

/// Adds `w` to the count of `l`, stopping at the largest `usize`.
fn add_weight(counts: &mut IndexMap, l: usize, w: usize)
    ensures
        index_map_contents(*final(counts)) == index_map_contents(*old(counts)).insert(
            l,
            (if count_of(index_map_contents(*old(counts)), l) + w < usize::MAX {
                (count_of(index_map_contents(*old(counts)), l) + w) as usize
            } else {
                usize::MAX
            }),
        ),
{
    let c = match counts.get(l) {
        Some(c) => c,
        None => 0,
    };
    counts.insert(l, c.saturating_add(w));
}

/// The weighted write counts of `func`'s locals, capped at the largest `usize`.
pub(crate) fn write_counts(func: &MirFunction, loop_blocks: &IndexSet) -> (counts: IndexMap)
    ensures
        forall|l: usize|
            #![trigger count_of(index_map_contents(counts), l)]
            count_of(index_map_contents(counts), l) == capped(
                write_weight(func.basic_blocks@, index_set_contents(*loop_blocks), l),
            ),
{
    let ghost blocks = func.basic_blocks@;
    let ghost lb = index_set_contents(*loop_blocks);
    let mut counts = IndexMap::new();
    let mut i: usize = 0;
    assert(blocks.subrange(0, 0) =~= Seq::<BasicBlock>::empty());
    while i < func.basic_blocks.len()
        invariant
            blocks == func.basic_blocks@,
            lb == index_set_contents(*loop_blocks),
            0 <= i <= blocks.len(),
            forall|l: usize|
                #![trigger count_of(index_map_contents(counts), l)]
                count_of(index_map_contents(counts), l) == capped(
                    write_weight(blocks.subrange(0, i as int), lb, l),
                ),
        decreases blocks.len() - i,
    {
        let ghost prefix = blocks.subrange(0, i as int);
        let stmts = &func.basic_blocks[i].statements;
        let w: usize = if loop_blocks.contains(i) {
            2
        } else {
            1
        };
        assert(w == block_weight(lb, i as int));
        let mut j: usize = 0;
        assert(stmts@.subrange(0, 0) =~= Seq::<Statement>::empty());
        while j < stmts.len()
            invariant
                blocks == func.basic_blocks@,
                stmts@ == blocks[i as int].statements@,
                prefix == blocks.subrange(0, i as int),
                w == block_weight(lb, i as int),
                0 <= j <= stmts@.len(),
                forall|l: usize|
                    #![trigger count_of(index_map_contents(counts), l)]
                    count_of(index_map_contents(counts), l) == capped(
                        write_weight(prefix, lb, l) + statements_write_weight(
                            stmts@.subrange(0, j as int),
                            l,
                            w as nat,
                        ),
                    ),
            decreases stmts@.len() - j,
        {
            let ghost cur = stmts@.subrange(0, j + 1);
            assert(cur.drop_last() =~= stmts@.subrange(0, j as int));
            assert(cur.last() == stmts@[j as int]);
            let ghost old_counts = index_map_contents(counts);
            let written: Option<usize> = match &stmts[j].kind {
                StatementKind::Assign(dest, _) => Some(dest.0),
                StatementKind::SetAttr(obj, _, _) => match obj {
                    Operand::Copy(l) => Some(l.0),
                    Operand::Move(l) => Some(l.0),
                    Operand::Constant(_) => None,
                },
                StatementKind::SetIndex(obj, _, _, _) => match obj {
                    Operand::Copy(l) => Some(l.0),
                    Operand::Move(l) => Some(l.0),
                    Operand::Constant(_) => None,
                },
                StatementKind::VectorStore(obj, _, _) => match obj {
                    Operand::Copy(l) => Some(l.0),
                    Operand::Move(l) => Some(l.0),
                    Operand::Constant(_) => None,
                },
                StatementKind::PtrStore(ptr, _) => match ptr {
                    Operand::Copy(l) => Some(l.0),
                    Operand::Move(l) => Some(l.0),
                    Operand::Constant(_) => None,
                },
                _ => None,
            };
            assert(written == written_local(stmts@[j as int]));
            if let Some(l) = written {
                add_weight(&mut counts, l, w);
            }
            proof {
                assert forall|l: usize|
                    #[trigger] count_of(index_map_contents(counts), l) == capped(
                        write_weight(prefix, lb, l) + statements_write_weight(cur, l, w as nat),
                    ) by {
                    assert(count_of(old_counts, l) == capped(
                        write_weight(prefix, lb, l) + statements_write_weight(
                            stmts@.subrange(0, j as int),
                            l,
                            w as nat,
                        ),
                    ));
                }
            }
            j = j + 1;
        }
        assert(stmts@.subrange(0, stmts@.len() as int) =~= stmts@);
        assert(blocks.subrange(0, i + 1).drop_last() =~= prefix);
        assert(blocks.subrange(0, i + 1).last() == blocks[i as int]);
        i = i + 1;
    }
    assert(blocks.subrange(0, blocks.len() as int) =~= blocks);
    counts
}

/// The last constant store of each local of `func`.
fn last_constants(func: &MirFunction) -> (consts: ConstMap)
    requires
        const_prop_accepts(*func),
    ensures
        forall|l: usize|
            #![trigger const_map_contents(consts).contains_key(l)]
            (const_map_contents(consts).contains_key(l) <==> blocks_last_constant(
                func.locals@,
                func.basic_blocks@,
                l,
            ) is Some) && (const_map_contents(consts).contains_key(l) ==> blocks_last_constant(
                func.locals@,
                func.basic_blocks@,
                l,
            ) == Some(const_map_contents(consts)[l])),
{
    let ghost blocks = func.basic_blocks@;
    let ghost locals = func.locals@;
    let mut consts = ConstMap::new();
    let mut i: usize = 0;
    assert(blocks.subrange(0, 0) =~= Seq::<BasicBlock>::empty());
    while i < func.basic_blocks.len()
        invariant
            blocks == func.basic_blocks@,
            locals == func.locals@,
            const_prop_accepts(*func),
            0 <= i <= blocks.len(),
            forall|l: usize|
                #![trigger const_map_contents(consts).contains_key(l)]
                (const_map_contents(consts).contains_key(l) <==> blocks_last_constant(
                    locals,
                    blocks.subrange(0, i as int),
                    l,
                ) is Some) && (const_map_contents(consts).contains_key(l) ==> blocks_last_constant(
                    locals,
                    blocks.subrange(0, i as int),
                    l,
                ) == Some(const_map_contents(consts)[l])),
        decreases blocks.len() - i,
    {
        let ghost prefix = blocks.subrange(0, i as int);
        let stmts = &func.basic_blocks[i].statements;
        assert(use_dests_declared(locals, blocks[i as int].statements@));
        let mut j: usize = 0;
        assert(stmts@.subrange(0, 0) =~= Seq::<Statement>::empty());
        while j < stmts.len()
            invariant
                blocks == func.basic_blocks@,
                locals == func.locals@,
                stmts@ == blocks[i as int].statements@,
                use_dests_declared(locals, stmts@),
                prefix == blocks.subrange(0, i as int),
                0 <= j <= stmts@.len(),
                forall|l: usize|
                    #![trigger const_map_contents(consts).contains_key(l)]
                    {
                        let c = match statements_last_constant(locals, stmts@.subrange(0, j as int), l) {
                            Some(c) => Some(c),
                            None => blocks_last_constant(locals, prefix, l),
                        };
                        (const_map_contents(consts).contains_key(l) <==> c is Some) && (
                        const_map_contents(consts).contains_key(l) ==> c == Some(
                            const_map_contents(consts)[l],
                        ))
                    },
            decreases stmts@.len() - j,
        {
            let ghost cur = stmts@.subrange(0, j + 1);
            assert(cur.drop_last() =~= stmts@.subrange(0, j as int));
            assert(cur.last() == stmts@[j as int]);
            if let StatementKind::Assign(dest, Rvalue::Use(Operand::Constant(c))) = &stmts[j].kind {
                if !matches!(func.locals[dest.0].ty, Type::Union(_)) {
                    consts.insert(dest.0, c.clone());
                }
            }
            j = j + 1;
        }
        assert(stmts@.subrange(0, stmts@.len() as int) =~= stmts@);
        assert(blocks.subrange(0, i + 1).drop_last() =~= prefix);
        assert(blocks.subrange(0, i + 1).last() == blocks[i as int]);
        i = i + 1;
    }
    assert(blocks.subrange(0, blocks.len() as int) =~= blocks);
    consts
}

/// The table of `func`'s safe constants.
fn safe_table(func: &MirFunction, loop_blocks: &IndexSet) -> (t: ConstTable)
    requires
        const_prop_accepts(*func),
    ensures
        t.constants() == safe_constants(*func, index_set_contents(*loop_blocks)),
{
    let ghost lb = index_set_contents(*loop_blocks);
    let counts = write_counts(func, loop_blocks);
    let consts = last_constants(func);
    let mut map = ConstMap::new();
    let mut l: usize = 0;
    while l < func.locals.len()
        invariant
            0 <= l <= func.locals@.len(),
            forall|x: usize|
                #![trigger count_of(index_map_contents(counts), x)]
                count_of(index_map_contents(counts), x) == capped(write_weight(func.basic_blocks@, lb, x)),
            forall|x: usize|
                #![trigger const_map_contents(consts).contains_key(x)]
                (const_map_contents(consts).contains_key(x) <==> blocks_last_constant(
                    func.locals@,
                    func.basic_blocks@,
                    x,
                ) is Some) && (const_map_contents(consts).contains_key(x) ==> blocks_last_constant(
                    func.locals@,
                    func.basic_blocks@,
                    x,
                ) == Some(const_map_contents(consts)[x])),
            forall|x: usize|
                #![trigger const_map_contents(map).contains_key(x)]
                (const_map_contents(map).contains_key(x) <==> (x < l && safe_constant(*func, lb, x) is Some))
                    && (const_map_contents(map).contains_key(x) ==> safe_constant(*func, lb, x) == Some(
                    const_map_contents(map)[x],
                )),
        decreases func.locals.len() - l,
    {
        let n = match counts.get(l) {
            Some(n) => n,
            None => 0,
        };
        assert(n == count_of(index_map_contents(counts), l));
        if n == 1 {
            if let Some(c) = consts.get(l) {
                assert(const_map_contents(consts).contains_key(l));
                map.insert(l, c.clone());
            }
        }
        l = l + 1;
    }
    proof {
        assert(const_map_contents(map) =~= safe_constants(*func, lb)) by {
            assert forall|x: usize| #[trigger] safe_constants(*func, lb).contains_key(x) implies x
                < func.locals@.len() by {
                lemma_blocks_last_constant_declared(func.locals@, func.basic_blocks@, x);
            }
            assert forall|x: usize| #[trigger] const_map_contents(map).contains_key(x) == safe_constants(
                *func,
                lb,
            ).contains_key(x) by {
                if safe_constants(*func, lb).contains_key(x) {
                    lemma_blocks_last_constant_declared(func.locals@, func.basic_blocks@, x);
                }
            }
        }
    }
    ConstTable { map }
}

/// Replaces each read of a local that has a safe constant (see
/// `safe_constant`, with `loop_blocks` the blocks inside loops) by that
/// constant, and reports whether any read was replaced.
pub fn propagate_safe_constants(func: &mut MirFunction, loop_blocks: &IndexSet) -> (changed: bool)
    requires
        const_prop_accepts(*old(func)),
    ensures
        same_except_blocks(*final(func), *old(func)),
        blocks_rewritten(
            constant_rule(safe_constants(*old(func), index_set_contents(*loop_blocks))),
            old(func).basic_blocks@,
            final(func).basic_blocks@,
        ),
        changed == blocks_hit(
            constant_rule(safe_constants(*old(func), index_set_contents(*loop_blocks))),
            old(func).basic_blocks@,
        ),
{
    let table = safe_table(func, loop_blocks);
    rewrite_blocks(&table, &mut func.basic_blocks)
}

/// The block-local scan of one block's statements.
fn propagate_in_statements(locals: &Vec<LocalDecl>, stmts: &mut Vec<Statement>) -> (hit: bool)
    requires
        use_dests_declared(locals@, old(stmts)@),
    ensures
        statements_locally_propagated(locals@, old(stmts)@, final(stmts)@),
        hit == statements_local_hit(locals@, old(stmts)@),
{
    let ghost orig = stmts@;
    let mut table = ConstTable { map: ConstMap::new() };
    assert(orig.subrange(0, 0) =~= Seq::<Statement>::empty());
    assert(table.constants() =~= local_constants(locals@, orig.subrange(0, 0)));
    let mut hit = false;
    let mut j: usize = 0;
    while j < stmts.len()
        invariant
            stmts@.len() == orig.len(),
            0 <= j <= orig.len(),
            use_dests_declared(locals@, orig),
            table.constants() == local_constants(locals@, orig.subrange(0, j as int)),
            forall|k: int| 0 <= k < j ==> #[trigger] locally_propagated(locals@, orig, k, stmts@[k]),
            forall|k: int| j <= k < orig.len() ==> stmts@[k] == orig[k],
            hit == exists|k: int| 0 <= k < j && #[trigger] local_hit(locals@, orig, k),
        decreases orig.len() - j,
    {
        let mut s = Statement {
            kind: StatementKind::StorageLive(crate::ir::Local(0)),
            span: crate::ir::Span::default(),
        };
        stmts.set_and_swap(j, &mut s);
        assert(s == orig[j as int]);
        let ghost before = table.constants();
        let ghost cur = orig.subrange(0, j + 1);
        assert(cur.drop_last() =~= orig.subrange(0, j as int));
        assert(cur.last() == orig[j as int]);
        let h = match &mut s.kind {
            StatementKind::Assign(dest, rv) => {
                let h = rewrite_rvalue(&table, rv);
                let d = dest.0;
                match rv {
                    Rvalue::Use(Operand::Constant(c)) => {
                        if !matches!(locals[d].ty, Type::Union(_)) {
                            table.map.insert(d, c.clone());
                        } else {
                            table.map.remove(d);
                        }
                    },
                    _ => {
                        table.map.remove(d);
                    },
                }
                h
            },
            _ => false,
        };
        assert(table.constants() =~= local_constants(locals@, cur));
        assert(locally_propagated(locals@, orig, j as int, s));
        assert(h == local_hit(locals@, orig, j as int));
        stmts.set_and_swap(j, &mut s);
        hit = hit || h;
        j = j + 1;
    }
    hit
}

/// Runs the block-local scan on every block: inside a block, a read of a
/// local that an earlier assignment of the block set to a constant (and
/// that was not assigned since) becomes that constant.
pub fn propagate_block_constants(func: &mut MirFunction) -> (changed: bool)
    requires
        const_prop_accepts(*old(func)),
    ensures
        same_except_blocks(*final(func), *old(func)),
        blocks_locally_propagated(old(func).locals@, old(func).basic_blocks@, final(func).basic_blocks@),
        changed == blocks_local_hit(old(func).locals@, old(func).basic_blocks@),
{
    let ghost orig = func.basic_blocks@;
    let ghost old_func = *func;
    let mut changed = false;
    let mut i: usize = 0;
    while i < func.basic_blocks.len()
        invariant
            same_except_blocks(*func, old_func),
            const_prop_accepts(old_func),
            orig == old_func.basic_blocks@,
            func.basic_blocks@.len() == orig.len(),
            0 <= i <= orig.len(),
            forall|k: int|
                0 <= k < i ==> {
                    &&& statements_locally_propagated(
                        old_func.locals@,
                        orig[k].statements@,
                        #[trigger] func.basic_blocks@[k].statements@,
                    )
                    &&& func.basic_blocks@[k].terminator == orig[k].terminator
                },
            forall|k: int| i <= k < orig.len() ==> func.basic_blocks@[k] == orig[k],
            changed == exists|k: int|
                0 <= k < i && #[trigger] statements_local_hit(old_func.locals@, orig[k].statements@),
        decreases orig.len() - i,
    {
        let mut bb = BasicBlock { statements: Vec::new(), terminator: None };
        func.basic_blocks.set_and_swap(i, &mut bb);
        assert(bb == orig[i as int]);
        assert(use_dests_declared(old_func.locals@, orig[i as int].statements@));
        let h = propagate_in_statements(&func.locals, &mut bb.statements);
        func.basic_blocks.set_and_swap(i, &mut bb);
        changed = changed || h;
        i = i + 1;
    }
    changed
}

proof fn lemma_rewrite_keeps_accepts(rule: Rule, f: MirFunction, g: MirFunction)
    requires
        const_prop_accepts(f),
        same_except_blocks(g, f),
        blocks_rewritten(rule, f.basic_blocks@, g.basic_blocks@),
    ensures
        const_prop_accepts(g),
{
    assert forall|i: int| 0 <= i < g.basic_blocks@.len() implies use_dests_declared(
        g.locals@,
        #[trigger] g.basic_blocks@[i].statements@,
    ) by {
        let a = f.basic_blocks@[i].statements@;
        let b = g.basic_blocks@[i].statements@;
        assert(use_dests_declared(f.locals@, a));
        assert forall|j: int| 0 <= j < b.len() implies match (#[trigger] b[j]).kind {
            StatementKind::Assign(d, Rvalue::Use(_)) => d.0 < g.locals@.len(),
            _ => true,
        } by {
            assert(super::propagate::statement_rewritten(rule, a[j], b[j]));
            match a[j].kind {
                StatementKind::Assign(d, rv) => {
                    match rv {
                        Rvalue::Use(_) => {},
                        _ => {},
                    }
                },
                _ => {},
            }
        }
    }
}

impl Transform for ConstantPropagation {
    /// Every assignment of a `Use` rvalue writes a declared local.
    open spec fn accepts(&self, func: MirFunction) -> bool {
        const_prop_accepts(func)
    }

    /// `propagate_safe_constants` with the blocks of the function's natural
    /// loops, then `propagate_block_constants`.
    fn run(&self, func: &mut MirFunction) -> (changed: bool)
        ensures
            same_except_blocks(*final(func), *old(func)),
            exists|lb: Set<usize>, mid: Seq<BasicBlock>|
                {
                    &&& loop_blocks_of(old(func).basic_blocks@, lb)
                    &&& blocks_rewritten(
                        constant_rule(safe_constants(*old(func), lb)),
                        old(func).basic_blocks@,
                        mid,
                    )
                    &&& blocks_locally_propagated(old(func).locals@, mid, final(func).basic_blocks@)
                    &&& changed == (blocks_hit(
                        constant_rule(safe_constants(*old(func), lb)),
                        old(func).basic_blocks@,
                    ) || blocks_local_hit(old(func).locals@, mid))
                },
    {
        let ghost old_func = *func;
        let loop_blocks = blocks_in_loops(func);
        let ghost lb = index_set_contents(loop_blocks);
        let a = propagate_safe_constants(func, &loop_blocks);
        let ghost mid = func.basic_blocks@;
        proof {
            lemma_rewrite_keeps_accepts(constant_rule(safe_constants(old_func, lb)), old_func, *func);
        }
        let b = propagate_block_constants(func);
        assert(blocks_locally_propagated(old_func.locals@, mid, func.basic_blocks@));
        a || b
    }
}

} // verus!
