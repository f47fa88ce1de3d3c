//! Self tail-call elimination. A block that ends `t = f(args); _0 = t;
//! return` inside `f` itself, passing every parameter, instead stages the
//! arguments through fresh temporaries, assigns them to the parameters and
//! jumps back to a header block holding the old entry's contents. The entry
//! becomes a one-time jump to that header, since codegen treats the entry as
//! having no predecessors.

use super::Transform;
use crate::ir::{
    clone_operands, operand_local, BasicBlock, BasicBlockId, Constant, Local, LocalDecl,
    MirFunction, Operand, Rvalue, Span, Statement, StatementKind, Terminator, TerminatorKind, Type,
};
use vstd::prelude::*;

verus! {

pub struct TailCallOpt;

/// The arguments of a self tail call ending `b`: the block returns, its last
/// statement copies or moves `t` into local 0, and the one before assigns `t`
/// the result of calling `name` with exactly `arg_count` arguments.
pub open spec fn tail_call_args(b: BasicBlock, name: Seq<char>, arg_count: usize) -> Option<
    Seq<Operand>,
> {
    let stmts = b.statements@;
    let n = stmts.len();
    if !(b.terminator matches Some(t) && t.kind is Return) || n < 2 {
        None
    } else {
        match (stmts[n - 1].kind, stmts[n - 2].kind) {
            (
                StatementKind::Assign(ret, Rvalue::Use(src)),
                StatementKind::Assign(
                    dest,
                    Rvalue::Call { func: Operand::Constant(Constant::Function(callee)), args },
                ),
            ) => if ret.0 == 0 && !(src is Constant) && operand_local(src) == Some(dest.0)
                && callee@ == name && args@.len() == arg_count {
                Some(args@)
            } else {
                None
            },
            _ => None,
        }
    }
}

/// How many of `blocks` end in a self tail call.
pub open spec fn count_tails(blocks: Seq<BasicBlock>, name: Seq<char>, arg_count: usize) -> nat
    decreases blocks.len(),
{
    if blocks.len() == 0 {
        0
    } else {
        count_tails(blocks.drop_last(), name, arg_count) + if tail_call_args(
            blocks.last(),
            name,
            arg_count,
        ) is Some {
            1nat
        } else {
            0nat
        }
    }
}

/// The statements replacing a tail call with arguments `args`: the block's
/// statements but the last two, then `tmp_j = args[j]` for each `j`, then
/// `param_{j+1} = tmp_j`, where the temporaries start at local `base`.
pub open spec fn staged_statements(stmts: Seq<Statement>, args: Seq<Operand>, base: int) -> Seq<
    Statement,
> {
    let span = stmts.last().span;
    stmts.subrange(0, stmts.len() - 2) + Seq::new(
        args.len(),
        |j: int|
            Statement {
                kind: StatementKind::Assign(Local((base + j) as usize), Rvalue::Use(args[j])),
                span,
            },
    ) + Seq::new(
        args.len(),
        |j: int|
            Statement {
                kind: StatementKind::Assign(
                    Local((j + 1) as usize),
                    Rvalue::Use(Operand::Copy(Local((base + j) as usize))),
                ),
                span,
            },
    )
}

/// Block `b` after the pass, with `base` the first fresh temporary and `header`
/// the loop header's index.
pub open spec fn tail_rewritten(
    b: BasicBlock,
    new_b: BasicBlock,
    name: Seq<char>,
    arg_count: usize,
    base: int,
    header: usize,
) -> bool {
    match tail_call_args(b, name, arg_count) {
        Some(args) => {
            &&& new_b.statements@ == staged_statements(b.statements@, args, base)
            &&& new_b.terminator == Some(
                Terminator {
                    kind: TerminatorKind::Goto { target: BasicBlockId(header) },
                    span: b.statements@.last().span,
                },
            )
        },
        None => new_b == b,
    }
}

/// The temporary declarations the pass adds.
pub open spec fn fresh_temp(d: LocalDecl) -> bool {
    &&& d.ty == Type::Any
    &&& d.name is None
    &&& d.span == Span { file_id: 0, line: 0, col: 0, start: 0, end: 0 }
    &&& d.is_mut
    &&& d.is_owning
}

/// The blocks in their order after the entry is split off: every block but
/// the entry, then the old entry as the header.
pub open spec fn header_order(blocks: Seq<BasicBlock>) -> Seq<BasicBlock> {
    blocks.subrange(1, blocks.len() as int).push(blocks[0])
}

pub open spec fn has_tail_call(blocks: Seq<BasicBlock>, name: Seq<char>, arg_count: usize) -> bool {
    exists|i: int| 0 <= i < blocks.len() && #[trigger] tail_call_args(blocks[i], name, arg_count) is Some
}

/// Declares `count` fresh temporaries.
fn push_temps(locals: &mut Vec<LocalDecl>, count: usize)
    requires
        old(locals)@.len() + count < usize::MAX,
    ensures
        final(locals)@.len() == old(locals)@.len() + count,
        final(locals)@.subrange(0, old(locals)@.len() as int) == old(locals)@,
        forall|k: int|
            old(locals)@.len() <= k < final(locals)@.len() ==> fresh_temp(#[trigger] final(locals)@[k]),
{
    let mut t: usize = 0;
    while t < count
        invariant
            0 <= t <= count,
            locals@.len() == old(locals)@.len() + t,
            old(locals)@.len() + count < usize::MAX,
            locals@.subrange(0, old(locals)@.len() as int) == old(locals)@,
            forall|k: int| old(locals)@.len() <= k < locals@.len() ==> fresh_temp(#[trigger] locals@[k]),
        decreases count - t,
    {
        locals.push(
            LocalDecl { ty: Type::Any, name: None, span: Span::default(), is_mut: true, is_owning: true },
        );
        t = t + 1;
        assert(locals@.subrange(0, old(locals)@.len() as int) =~= old(locals)@);
    }
}

impl TailCallOpt {
    /// The arguments of a self tail call ending `bb`, else `None`.
    fn tail_call_args(bb: &BasicBlock, func_name: &String, arg_count: usize) -> (r: Option<Vec<Operand>>)
        ensures
            r matches Some(v) ==> tail_call_args(*bb, func_name@, arg_count) == Some(v@),
            r is None ==> tail_call_args(*bb, func_name@, arg_count) is None,
    {
        match &bb.terminator {
            Some(t) => if !matches!(t.kind, TerminatorKind::Return) {
                return None;
            },
            None => {
                return None;
            },
        }
        let stmts = &bb.statements;
        if stmts.len() < 2 {
            return None;
        }
        let copy_src = match &stmts[stmts.len() - 1].kind {
            StatementKind::Assign(ret, Rvalue::Use(src)) => {
                if ret.0 != 0 {
                    return None;
                }
                match src {
                    Operand::Copy(l) | Operand::Move(l) => *l,
                    Operand::Constant(_) => {
                        return None;
                    },
                }
            },
            _ => {
                return None;
            },
        };
        match &stmts[stmts.len() - 2].kind {
            StatementKind::Assign(
                dest,
                Rvalue::Call { func: Operand::Constant(Constant::Function(name)), args },
            ) => {
                if dest.0 == copy_src.0 && *name == *func_name && args.len() == arg_count {
                    Some(clone_operands(args))
                } else {
                    None
                }
            },
            _ => None,
        }
    }

    /// Whether some block ends in a self tail call.
    fn any_tail_call(blocks: &Vec<BasicBlock>, func_name: &String, arg_count: usize) -> (r: bool)
        ensures
            r == has_tail_call(blocks@, func_name@, arg_count),
    {
        let mut i: usize = 0;
        while i < blocks.len()
            invariant
                0 <= i <= blocks@.len(),
                forall|k: int|
                    0 <= k < i ==> #[trigger] tail_call_args(blocks@[k], func_name@, arg_count)
                        is None,
            decreases blocks.len() - i,
        {
            if Self::tail_call_args(&blocks[i], func_name, arg_count).is_some() {
                return true;
            }
            i = i + 1;
        }
        false
    }

    /// Moves the entry's contents into a new header block at the end, which
    /// the entry now jumps to, and returns the header's index.
    fn split_entry(func: &mut MirFunction) -> (header: usize)
        requires
            old(func).basic_blocks@.len() > 0,
            old(func).basic_blocks@.len() < usize::MAX,
        ensures
            header == old(func).basic_blocks@.len(),
            final(func).basic_blocks@.len() == header + 1,
            final(func).basic_blocks@[0].statements@.len() == 0,
            final(func).basic_blocks@[0].terminator matches Some(t) && t.kind == (
            TerminatorKind::Goto { target: BasicBlockId(header) }),
            final(func).basic_blocks@.subrange(1, header + 1) == header_order(old(func).basic_blocks@),
            final(func).locals@ == old(func).locals@,
            final(func).name == old(func).name,
            final(func).arg_count == old(func).arg_count,
            final(func).vararg_idx == old(func).vararg_idx,
            final(func).kwarg_idx == old(func).kwarg_idx,
            final(func).param_names@ == old(func).param_names@,
            final(func).is_async == old(func).is_async,
    {
        let header = func.basic_blocks.len();
        let span = match &func.basic_blocks[0].terminator {
            Some(t) => t.span,
            None => Span::default(),
        };
        let mut entry = BasicBlock {
            statements: Vec::new(),
            terminator: Some(
                Terminator { kind: TerminatorKind::Goto { target: BasicBlockId(header) }, span },
            ),
        };
        func.basic_blocks.set_and_swap(0, &mut entry);
        func.basic_blocks.push(entry);
        assert(func.basic_blocks@.subrange(1, header + 1) =~= header_order(
            old(func).basic_blocks@,
        ));
        header
    }
}

impl Transform for TailCallOpt {
    /// The fresh temporaries, one per parameter for each of at most every
    /// block, stay within the machine's index range.
    open spec fn accepts(&self, func: MirFunction) -> bool {
        &&& func.locals@.len() + func.arg_count * (func.basic_blocks@.len() + 1) + 1 < usize::MAX
        &&& func.basic_blocks@.len() + 1 < usize::MAX
    }

    /// Without a self tail call the function is unchanged. With one, block 0
    /// becomes a jump to the header (the old entry, now last), every block in
    /// `header_order` is rewritten as `tail_rewritten` says, taking fresh
    /// temporaries in that order, and the temporaries are declared.
    fn run(&self, func: &mut MirFunction) -> (changed: bool)
        ensures
            changed == has_tail_call(old(func).basic_blocks@, old(func).name@, old(func).arg_count),
            !changed ==> *final(func) == *old(func),
            changed ==> {
                let old_blocks = old(func).basic_blocks@;
                let order = header_order(old_blocks);
                let n = old_blocks.len();
                let name = old(func).name@;
                let ac = old(func).arg_count;
                let l0 = old(func).locals@.len();
                &&& final(func).name == old(func).name
                &&& final(func).arg_count == old(func).arg_count
                &&& final(func).vararg_idx == old(func).vararg_idx
                &&& final(func).kwarg_idx == old(func).kwarg_idx
                &&& final(func).param_names@ == old(func).param_names@
                &&& final(func).is_async == old(func).is_async
                &&& final(func).basic_blocks@.len() == n + 1
                &&& final(func).basic_blocks@[0].statements@.len() == 0
                &&& final(func).basic_blocks@[0].terminator matches Some(t) && t.kind == (
                TerminatorKind::Goto { target: BasicBlockId(n as usize) })
                &&& forall|p: int|
                    0 <= p < n ==> tail_rewritten(
                        order[p],
                        #[trigger] final(func).basic_blocks@[p + 1],
                        name,
                        ac,
                        l0 + ac * count_tails(order.subrange(0, p), name, ac),
                        n as usize,
                    )
                &&& final(func).locals@.len() == l0 + ac * count_tails(order, name, ac)
                &&& final(func).locals@.subrange(0, l0 as int) == old(func).locals@
                &&& forall|k: int|
                    l0 <= k < final(func).locals@.len() ==> fresh_temp(
                        #[trigger] final(func).locals@[k],
                    )
            },
    {
        let arg_count = func.arg_count;
        if !Self::any_tail_call(&func.basic_blocks, &func.name, arg_count) {
            return false;
        }
        let ghost old_blocks = func.basic_blocks@;
        let ghost name = func.name@;
        let ghost l0 = func.locals@.len();
        let ghost order = header_order(old_blocks);
        let header = Self::split_entry(func);
        let ghost split = func.basic_blocks@;
        assert(order.len() == header);
        let nblocks = func.basic_blocks.len();
        assert(split[0].statements@.len() == 0);
        assert(tail_call_args(split[0], name, arg_count) is None);
        assert(split.subrange(1, 1) =~= Seq::<BasicBlock>::empty());
        let mut bb_idx: usize = 1;
        while bb_idx < nblocks
            invariant
                nblocks == header + 1,
                header == old_blocks.len(),
                func.basic_blocks@.len() == nblocks,
                1 <= bb_idx <= nblocks,
                arg_count == func.arg_count,
                name == func.name@,
                split.len() == nblocks,
                split.subrange(1, nblocks as int) == order,
                func.basic_blocks@[0] == split[0],
                l0 + arg_count * nblocks + 1 < usize::MAX,
                order.len() == header,
                count_tails(order.subrange(0, bb_idx - 1), name, arg_count) <= bb_idx - 1,
                func.locals@.len() == l0 + arg_count * count_tails(
                    order.subrange(0, bb_idx - 1),
                    name,
                    arg_count,
                ),
                func.locals@.subrange(0, l0 as int) == old(func).locals@,
                forall|k: int| l0 <= k < func.locals@.len() ==> fresh_temp(#[trigger] func.locals@[k]),
                forall|p: int|
                    1 <= p < bb_idx ==> tail_rewritten(
                        order[p - 1],
                        #[trigger] func.basic_blocks@[p],
                        name,
                        arg_count,
                        l0 + arg_count * count_tails(order.subrange(0, p - 1), name, arg_count),
                        header,
                    ),
                forall|p: int| bb_idx <= p < nblocks ==> #[trigger] func.basic_blocks@[p] == split[p],
                func.name == old(func).name,
                func.arg_count == old(func).arg_count,
                func.vararg_idx == old(func).vararg_idx,
                func.kwarg_idx == old(func).kwarg_idx,
                func.param_names@ == old(func).param_names@,
                func.is_async == old(func).is_async,
            decreases nblocks - bb_idx,
        {
            let ghost before = func.locals@.len();
            let ghost cnt = count_tails(order.subrange(0, bb_idx - 1), name, arg_count);
            assert(split.subrange(1, nblocks as int)[bb_idx - 1] == split[bb_idx as int]);
            assert(order[bb_idx - 1] == split[bb_idx as int]);
            assert(order.subrange(0, bb_idx as int).drop_last() =~= order.subrange(0, bb_idx - 1));
            let found = Self::tail_call_args(&func.basic_blocks[bb_idx], &func.name, arg_count);
            if let Some(args) = found {
                let base_tmp = func.locals.len();
                proof {
                    assert(arg_count * cnt <= arg_count * (bb_idx - 1)) by (nonlinear_arith)
                        requires
                            cnt <= bb_idx - 1,
                    ;
                    assert(arg_count * (bb_idx - 1) + arg_count <= arg_count * nblocks)
                        by (nonlinear_arith)
                        requires
                            bb_idx < nblocks,
                    ;
                }
                let ghost locals_before = func.locals@;
                push_temps(&mut func.locals, arg_count);
                assert(arg_count * cnt + arg_count == arg_count * (cnt + 1)) by (nonlinear_arith);
                assert(func.locals@.subrange(0, l0 as int) =~= locals_before.subrange(0, l0 as int));
                assert(forall|k: int| l0 <= k < func.locals@.len() ==> fresh_temp(#[trigger] func.locals@[k])) by {
                    assert(forall|k: int| l0 <= k < before ==> #[trigger] func.locals@[k] == locals_before[k]);
                }
                let mut bb = BasicBlock { statements: Vec::new(), terminator: None };
                func.basic_blocks.set_and_swap(bb_idx, &mut bb);
                let ghost orig_stmts = bb.statements@;
                let span = bb.statements[bb.statements.len() - 1].span;
                bb.statements.pop();
                bb.statements.pop();
                assert(bb.statements@ =~= orig_stmts.subrange(0, orig_stmts.len() - 2));
                let mut j: usize = 0;
                while j < args.len()
                    invariant
                        0 <= j <= args@.len(),
                        args@.len() == arg_count,
                        base_tmp + arg_count + 1 < usize::MAX,
                        bb.statements@ == orig_stmts.subrange(0, orig_stmts.len() - 2) + Seq::new(
                            j as nat,
                            |q: int|
                                Statement {
                                    kind: StatementKind::Assign(
                                        Local((base_tmp + q) as usize),
                                        Rvalue::Use(args@[q]),
                                    ),
                                    span,
                                },
                        ),
                    decreases args@.len() - j,
                {
                    bb.statements.push(
                        Statement {
                            kind: StatementKind::Assign(Local(base_tmp + j), Rvalue::Use(args[j].clone())),
                            span,
                        },
                    );
                    j = j + 1;
                    assert(bb.statements@ =~= orig_stmts.subrange(0, orig_stmts.len() - 2) + Seq::new(
                        j as nat,
                        |q: int|
                            Statement {
                                kind: StatementKind::Assign(
                                    Local((base_tmp + q) as usize),
                                    Rvalue::Use(args@[q]),
                                ),
                                span,
                            },
                    ));
                }
                let ghost staged = bb.statements@;
                let mut j: usize = 0;
                while j < arg_count
                    invariant
                        0 <= j <= arg_count,
                        base_tmp + arg_count + 1 < usize::MAX,
                        bb.statements@ == staged + Seq::new(
                            j as nat,
                            |q: int|
                                Statement {
                                    kind: StatementKind::Assign(
                                        Local((q + 1) as usize),
                                        Rvalue::Use(Operand::Copy(Local((base_tmp + q) as usize))),
                                    ),
                                    span,
                                },
                        ),
                    decreases arg_count - j,
                {
                    bb.statements.push(
                        Statement {
                            kind: StatementKind::Assign(
                                Local(j + 1),
                                Rvalue::Use(Operand::Copy(Local(base_tmp + j))),
                            ),
                            span,
                        },
                    );
                    j = j + 1;
                    assert(bb.statements@ =~= staged + Seq::new(
                        j as nat,
                        |q: int|
                            Statement {
                                kind: StatementKind::Assign(
                                    Local((q + 1) as usize),
                                    Rvalue::Use(Operand::Copy(Local((base_tmp + q) as usize))),
                                ),
                                span,
                            },
                    ));
                }
                bb.terminator = Some(
                    Terminator { kind: TerminatorKind::Goto { target: BasicBlockId(header) }, span },
                );
                assert(bb.statements@ =~= staged_statements(orig_stmts, args@, base_tmp as int));
                func.basic_blocks.set_and_swap(bb_idx, &mut bb);
            }
            assert(count_tails(order.subrange(0, bb_idx as int), name, arg_count) == cnt + if found is Some {
                1nat
            } else {
                0nat
            });
            bb_idx = bb_idx + 1;
        }
        assert(order.subrange(0, header as int) =~= order);
        true
    }
}

} // verus!
