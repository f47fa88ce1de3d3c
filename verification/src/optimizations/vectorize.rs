//! Loop vectorization. A loop stepped by one whose body loads `a[i]`,
//! combines the loaded values elementwise and stores results at `i` is
//! rewritten to work on SIMD vectors of `width` lanes while
//! `i < limit - (width - 1)`; a copy of the original loop (the epilogue)
//! runs the remaining iterations.

use super::Transform;
use super::loop_unroll::rewrite::{statement_reads, stmt_reads_local};
use crate::fx::{index_map_contents, index_set_contents, IndexMap, IndexSet};
use super::loop_unroll::{fresh_int_local, new_span, retargeted};
use super::scalarize::decimal;
use crate::ir::{
    operand_local, operand_local_of, same_except_blocks, same_signature, type_view, BasicBlock, BasicBlockId, BinOp, Constant, Local, LocalDecl,
    MirFunction, Operand, Rvalue, Span, Statement, StatementKind, Terminator, TerminatorKind, Type,
};
use crate::loop_utils::{cloned_block, find_loops, found_loops, natural_loop, Loop};
use vstd::prelude::*;

verus! {

pub struct LoopVectorizer;

/// What the analysis of a loop finds: the induction `i` (stepped by one in
/// the latch), the bound of the header's guard `i < limit`, and the number
/// of lanes.
pub struct VectorPlan {
    pub induction: usize,
    pub limit: Operand,
    pub width: usize,
}

/// The lane width in bits of a type that lowers to a SIMD lane.
pub open spec fn lane_bits(t: Type) -> Option<nat> {
    match t {
        Type::Int | Type::U64 | Type::Usize | Type::Float => Some(64),
        Type::I32 | Type::U32 | Type::F32 => Some(32),
        Type::I16 | Type::U16 => Some(16),
        Type::I8 | Type::U8 | Type::Bool => Some(8),
        _ => None,
    }
}

/// A statement that already works on vectors.
pub open spec fn vector_statement(s: Statement) -> bool {
    match s.kind {
        StatementKind::Assign(_, rv) => rv is VectorLoad || rv is VectorSplat || rv is VectorFMA,
        StatementKind::VectorStore(_, _, _) => true,
        _ => false,
    }
}

/// `l = l + 1`: the local stepped by one.
pub open spec fn unit_step(s: Statement) -> Option<usize> {
    match s.kind {
        StatementKind::Assign(
            l,
            Rvalue::BinaryOp(BinOp::Add, Operand::Copy(src), Operand::Constant(Constant::Int(c))),
        ) => if src == l && c == 1 {
            Some(l.0)
        } else {
            None
        },
        _ => None,
    }
}

/// The locals `stmts` step by one, in order.
pub open spec fn unit_steps(stmts: Seq<Statement>) -> Seq<usize>
    decreases stmts.len(),
{
    if stmts.len() == 0 {
        seq![]
    } else {
        let rest = unit_steps(stmts.drop_last());
        match unit_step(stmts.last()) {
            Some(l) => rest.push(l),
            None => rest,
        }
    }
}

/// `d = i < limit`: the guard's destination and bound.
pub open spec fn guard_of(s: Statement, i: usize) -> Option<(usize, Operand)> {
    match s.kind {
        StatementKind::Assign(d, Rvalue::BinaryOp(BinOp::Lt, Operand::Copy(x), lim)) => if x.0 == i {
            Some((d.0, lim))
        } else {
            None
        },
        _ => None,
    }
}

/// The last guard on `i` in `stmts`.
pub open spec fn last_guard(stmts: Seq<Statement>, i: usize) -> Option<(usize, Operand)>
    decreases stmts.len(),
{
    if stmts.len() == 0 {
        None
    } else if guard_of(stmts.last(), i) is Some {
        guard_of(stmts.last(), i)
    } else {
        last_guard(stmts.drop_last(), i)
    }
}

/// The first guard on `i` in `stmts`.
pub open spec fn first_guard(stmts: Seq<Statement>, i: usize) -> Option<(usize, Operand)>
    decreases stmts.len(),
{
    if stmts.len() == 0 {
        None
    } else if guard_of(stmts[0], i) is Some {
        guard_of(stmts[0], i)
    } else {
        first_guard(stmts.drop_first(), i)
    }
}

/// The statement assigns local `c`.
pub open spec fn assigns_local(s: Statement, c: usize) -> bool {
    s.kind matches StatementKind::Assign(l, _) && l.0 == c
}

/// `j` is the position of the first assignment to `c` in `stmts`.
pub open spec fn first_assign_at(stmts: Seq<Statement>, c: usize, j: int) -> bool {
    &&& 0 <= j < stmts.len()
    &&& assigns_local(stmts[j], c)
    &&& forall|x: int| 0 <= x < j ==> !#[trigger] assigns_local(stmts[x], c)
}

/// The position of the first assignment to `c` in `stmts`.
pub open spec fn first_assign(stmts: Seq<Statement>, c: usize) -> Option<int> {
    if exists|j: int| first_assign_at(stmts, c, j) {
        Some(choose|j: int| first_assign_at(stmts, c, j))
    } else {
        None
    }
}

/// `dest = obj[i]`: the destination of a load at the induction.
pub open spec fn load_at(s: Statement, i: usize) -> Option<usize> {
    match s.kind {
        StatementKind::Assign(d, Rvalue::GetIndex(_, Operand::Copy(x), _)) => if x.0 == i {
            Some(d.0)
        } else {
            None
        },
        _ => None,
    }
}

/// `dest = l op r` on two copied locals: `(dest, l, r)`.
pub open spec fn copy_binop(s: Statement) -> Option<(usize, usize, usize)> {
    match s.kind {
        StatementKind::Assign(d, Rvalue::BinaryOp(_, Operand::Copy(l), Operand::Copy(r))) => Some(
            (d.0, l.0, r.0),
        ),
        _ => None,
    }
}

/// `obj[i] = v`: a store at the induction.
pub open spec fn store_at(s: Statement, i: usize) -> bool {
    s.kind matches StatementKind::SetIndex(_, Operand::Copy(x), _, _) && x.0 == i
}

/// Statement `k` of block `b` is a statement of the loop body.
pub open spec fn in_body(blocks: Seq<BasicBlock>, body: Set<usize>, b: usize, k: usize) -> bool {
    &&& body.contains(b)
    &&& b < blocks.len()
    &&& k < blocks[b as int].statements@.len()
}

/// `v` holds the destination of every load at `i` in the body, and the
/// destination of every elementwise operation of the body on a local of `v`.
pub open spec fn vec_closed(blocks: Seq<BasicBlock>, body: Set<usize>, i: usize, v: Set<usize>) -> bool {
    &&& forall|b: usize, k: usize|
        in_body(blocks, body, b, k) && #[trigger] load_at(blocks[b as int].statements@[k as int], i) is Some
            ==> v.contains(load_at(blocks[b as int].statements@[k as int], i)->0)
    &&& forall|b: usize, k: usize|
        in_body(blocks, body, b, k) ==> (#[trigger] copy_binop(blocks[b as int].statements@[k as int]) matches Some(t)
            ==> (v.contains(t.1) || v.contains(t.2) ==> v.contains(t.0)))
}

/// `x` becomes a vector: it lies in every set closed as `vec_closed` says
/// (the least such set).
pub open spec fn vectorized_local(blocks: Seq<BasicBlock>, body: Set<usize>, i: usize, x: usize) -> bool {
    forall|v: Set<usize>| #[trigger] vec_closed(blocks, body, i, v) ==> v.contains(x)
}

/// The statement reads local `l`; a drop counts as a read.
pub open spec fn reads_local(s: Statement, l: usize) -> bool {
    statement_reads(s, l) || (s.kind matches StatementKind::Drop(x) && x.0 == l)
}

/// The statement is of a shape the rewrite turns into vector code (a load
/// or elementwise operation producing a vector, or a store at `i`), or it
/// reads no local that becomes a vector.
pub open spec fn confined(blocks: Seq<BasicBlock>, body: Set<usize>, i: usize, s: Statement) -> bool {
    ||| (load_at(s, i) matches Some(d) && vectorized_local(blocks, body, i, d))
    ||| (copy_binop(s) matches Some(t) && vectorized_local(blocks, body, i, t.0))
    ||| store_at(s, i)
    ||| forall|l: usize| #[trigger] vectorized_local(blocks, body, i, l) ==> !reads_local(s, l)
}

/// A block outside the body reads a local that becomes a vector, in a
/// statement or as the value it switches on.
pub open spec fn escapes(blocks: Seq<BasicBlock>, body: Set<usize>, i: usize) -> bool {
    exists|b: usize, l: usize|
        #![trigger vectorized_local(blocks, body, i, l), blocks[b as int]]
        b < blocks.len() && !body.contains(b) && vectorized_local(blocks, body, i, l) && ((exists|k: int|
            0 <= k < blocks[b as int].statements@.len() && #[trigger] reads_local(
                blocks[b as int].statements@[k as int],
                l,
            )) || (blocks[b as int].terminator matches Some(t) && t.kind matches TerminatorKind::SwitchInt {
            discr,
            ..
        } && operand_local(discr) == Some(l)))
}

/// Every load at `i` in the body reads into a declared local whose type is
/// a SIMD lane.
pub open spec fn loads_simd(f: MirFunction, body: Set<usize>, i: usize) -> bool {
    forall|b: usize, k: usize|
        in_body(f.basic_blocks@, body, b, k) && #[trigger] load_at(f.basic_blocks@[b as int].statements@[k as int], i) is Some
            ==> lane_bits(f.locals@[load_at(f.basic_blocks@[b as int].statements@[k as int], i)->0 as int].ty) is Some
}

/// The body loads at `i`.
pub open spec fn some_load(blocks: Seq<BasicBlock>, body: Set<usize>, i: usize) -> bool {
    exists|b: usize, k: usize| in_body(blocks, body, b, k) && #[trigger] load_at(blocks[b as int].statements@[k as int], i) is Some
}

/// The lane width of one of the body's loads at `i`.
pub open spec fn load_bits(f: MirFunction, body: Set<usize>, i: usize) -> nat {
    let (b, k) = choose|b: usize, k: usize|
        in_body(f.basic_blocks@, body, b, k) && #[trigger] load_at(f.basic_blocks@[b as int].statements@[k as int], i) is Some;
    lane_bits(f.locals@[load_at(f.basic_blocks@[b as int].statements@[k as int], i)->0 as int].ty)->0
}

/// Every local that becomes a vector has lanes of `bits` bits.
pub open spec fn lanes_agree(f: MirFunction, body: Set<usize>, i: usize, bits: nat) -> bool {
    forall|x: usize| #[trigger] vectorized_local(f.basic_blocks@, body, i, x) ==> lane_bits(f.locals@[x as int].ty)
        == Some(bits)
}

/// The plan for a natural loop, when it can be vectorized: no statement
/// of its body works on vectors yet; the latch steps exactly one local `i`
/// by one; the header ends in a switch and guards `i < limit`; the body
/// loads at `i` into SIMD lanes, all of one width as are the values
/// computed from them; only loads, elementwise operations and stores at
/// `i` touch those values, no block outside the body reads them, and the
/// loop has at most one exit.
pub open spec fn vector_plan(f: MirFunction, lp: Loop) -> Option<VectorPlan> {
    let blocks = f.basic_blocks@;
    let body = index_set_contents(lp.body);
    let hdr = blocks[lp.header.0 as int];
    let steps = unit_steps(blocks[lp.latches@[0].0 as int].statements@);
    let i = steps[0];
    let bits = load_bits(f, body, i);
    if exists|b: usize, k: usize| in_body(blocks, body, b, k) && #[trigger] vector_statement(blocks[b as int].statements@[k as int]) {
        None
    } else if steps.len() != 1 {
        None
    } else if !(hdr.terminator matches Some(t) && t.kind is SwitchInt) {
        None
    } else if last_guard(hdr.statements@, i) is None {
        None
    } else if !loads_simd(f, body, i) || !some_load(blocks, body, i) || lp.exits@.len() > 1 {
        None
    } else if !lanes_agree(f, body, i, bits) {
        None
    } else if !(forall|b: usize, k: usize|
        in_body(blocks, body, b, k) ==> #[trigger] confined(blocks, body, i, blocks[b as int].statements@[k as int])) {
        None
    } else if escapes(blocks, body, i) {
        None
    } else {
        let g = last_guard(hdr.statements@, i)->0;
        Some(VectorPlan { induction: i, limit: g.1, width: (128nat / bits) as usize })
    }
}

/// The statement assigns, and reads through the copied operands of a
/// binary operation, only locals below `n`.
pub open spec fn bounded_statement(s: Statement, n: nat) -> bool {
    s.kind matches StatementKind::Assign(d, rv) ==> {
        &&& d.0 < n
        &&& (rv matches Rvalue::BinaryOp(_, a, b) ==> (operand_local(a) matches Some(x) ==> (a is Copy ==> x < n)) && (
        operand_local(b) matches Some(y) ==> (b is Copy ==> y < n)))
    }
}

/// The functions the vectorizer reads the types of locals in: every local
/// an assignment writes, or a binary operation reads by copy, is declared.
pub open spec fn vector_accepts(f: MirFunction) -> bool {
    forall|b: int, k: int|
        0 <= b < f.basic_blocks@.len() && 0 <= k < f.basic_blocks@[b].statements@.len() ==> bounded_statement(
            #[trigger] f.basic_blocks@[b].statements@[k],
            f.locals@.len(),
        )
}

/// The vector local standing for `l`: its entry in `vm`, or a fresh local
/// (numbered `base` plus the count of vector locals so far) filled by
/// splatting `l`, with the statement that fills it.
pub open spec fn vec_operand(l: usize, w: usize, span: Span, vm: Map<usize, usize>, origins: Seq<usize>, base: nat) -> (
    usize,
    Seq<Statement>,
    Map<usize, usize>,
    Seq<usize>,
) {
    if vm.dom().contains(l) {
        (vm[l], seq![], vm, origins)
    } else {
        let v = (base + origins.len()) as usize;
        (
            v,
            seq![
                Statement {
                    kind: StatementKind::Assign(Local(v), Rvalue::VectorSplat(Operand::Copy(Local(l)), w)),
                    span,
                },
            ],
            vm.insert(l, v),
            origins.push(l),
        )
    }
}

/// What the rewrite makes of one body statement, threading the map from
/// scalar locals to their vector locals and the list of the scalar locals
/// each new vector local stands for: a load at `i` becomes a vector load,
/// an elementwise operation on a vector a vector operation (splatting a
/// scalar operand), a store at `i` of a vector a vector store.
pub open spec fn vec_stmt(s: Statement, i: usize, w: usize, vm: Map<usize, usize>, origins: Seq<usize>, base: nat) -> (
    Seq<Statement>,
    Map<usize, usize>,
    Seq<usize>,
) {
    let fresh = (base + origins.len()) as usize;
    match s.kind {
        StatementKind::Assign(d, rv) => match rv {
            Rvalue::GetIndex(obj, Operand::Copy(x), _) => if x.0 == i {
                (
                    seq![
                        Statement {
                            kind: StatementKind::Assign(
                                Local(fresh),
                                Rvalue::VectorLoad(obj, Operand::Copy(Local(i)), w),
                            ),
                            span: s.span,
                        },
                    ],
                    vm.insert(d.0, fresh),
                    origins.push(d.0),
                )
            } else {
                (seq![s], vm, origins)
            },
            Rvalue::BinaryOp(op, Operand::Copy(l), Operand::Copy(r)) => if vm.dom().contains(l.0) || vm.dom().contains(
                r.0,
            ) {
                let a = vec_operand(l.0, w, s.span, vm, origins, base);
                let b = vec_operand(r.0, w, s.span, a.2, a.3, base);
                let v = (base + b.3.len()) as usize;
                (
                    a.1 + b.1 + seq![
                        Statement {
                            kind: StatementKind::Assign(
                                Local(v),
                                Rvalue::BinaryOp(op, Operand::Copy(Local(a.0)), Operand::Copy(Local(b.0))),
                            ),
                            span: s.span,
                        },
                    ],
                    b.2.insert(d.0, v),
                    b.3.push(d.0),
                )
            } else {
                (seq![s], vm, origins)
            },
            _ => (seq![s], vm, origins),
        },
        StatementKind::SetIndex(obj, Operand::Copy(x), Operand::Copy(val), _) => if x.0 == i && vm.dom().contains(
            val.0,
        ) {
            (
                seq![
                    Statement {
                        kind: StatementKind::VectorStore(
                            obj,
                            Operand::Copy(Local(i)),
                            Operand::Copy(Local(vm[val.0])),
                        ),
                        span: s.span,
                    },
                ],
                vm,
                origins,
            )
        } else {
            (seq![s], vm, origins)
        },
        _ => (seq![s], vm, origins),
    }
}

/// `vec_stmt` over a block's statements, in order.
pub open spec fn vec_stmts(stmts: Seq<Statement>, i: usize, w: usize, vm: Map<usize, usize>, origins: Seq<usize>, base: nat) -> (
    Seq<Statement>,
    Map<usize, usize>,
    Seq<usize>,
)
    decreases stmts.len(),
{
    if stmts.len() == 0 {
        (seq![], vm, origins)
    } else {
        let a = vec_stmts(stmts.drop_last(), i, w, vm, origins, base);
        let b = vec_stmt(stmts.last(), i, w, a.1, a.2, base);
        (a.0 + b.0, b.1, b.2)
    }
}

/// `vec_stmts` over the statement lists of several blocks, in order, the
/// map and the list carried from one block to the next.
pub open spec fn vec_blocks(src: Seq<Seq<Statement>>, i: usize, w: usize, vm: Map<usize, usize>, origins: Seq<usize>, base: nat) -> (
    Seq<Seq<Statement>>,
    Map<usize, usize>,
    Seq<usize>,
)
    decreases src.len(),
{
    if src.len() == 0 {
        (seq![], vm, origins)
    } else {
        let a = vec_blocks(src.drop_last(), i, w, vm, origins, base);
        let b = vec_stmts(src.last(), i, w, a.1, a.2, base);
        (a.0.push(b.0), b.1, b.2)
    }
}

/// A multiplication followed by an addition of its result fuses into one
/// vector multiply-add, at the addition's position and span.
pub open spec fn fma_pair(a: Statement, b: Statement) -> Option<Statement> {
    match a.kind {
        StatementKind::Assign(md, Rvalue::BinaryOp(BinOp::Mul, va, vb)) => match b.kind {
            StatementKind::Assign(ad, Rvalue::BinaryOp(BinOp::Add, lhs, rhs)) => if lhs == Operand::Copy(md) {
                Some(Statement { kind: StatementKind::Assign(ad, Rvalue::VectorFMA(va, vb, rhs)), span: b.span })
            } else if rhs == Operand::Copy(md) {
                Some(Statement { kind: StatementKind::Assign(ad, Rvalue::VectorFMA(va, vb, lhs)), span: b.span })
            } else {
                None
            },
            _ => None,
        },
        _ => None,
    }
}

/// A product `md = va * vb` followed by an addition `ad = lhs + rhs` fuses
/// exactly when the addition reads the product, and then into
/// `ad = fma(va, vb, c)` at the addition's span, where `c` is the other
/// operand of the addition, never the product itself (unless both operands
/// are the product).
pub proof fn lemma_fma_pair_addend(
    a: Statement,
    b: Statement,
    md: Local,
    va: Operand,
    vb: Operand,
    ad: Local,
    lhs: Operand,
    rhs: Operand,
)
    requires
        a.kind == StatementKind::Assign(md, Rvalue::BinaryOp(BinOp::Mul, va, vb)),
        b.kind == StatementKind::Assign(ad, Rvalue::BinaryOp(BinOp::Add, lhs, rhs)),
    ensures
        fma_pair(a, b) is Some <==> (lhs == Operand::Copy(md) || rhs == Operand::Copy(md)),
        match fma_pair(a, b) {
            Some(f) => f.span == b.span && match f.kind {
                StatementKind::Assign(d, Rvalue::VectorFMA(x, y, c)) => d == ad && x == va && y == vb && (
                (lhs == Operand::Copy(md) && c == rhs) || (rhs == Operand::Copy(md) && c == lhs)) && (c
                    == Operand::Copy(md) ==> lhs == rhs),
                _ => false,
            },
            None => true,
        },
{
}

/// The statements with each multiply-add pair fused, left to right.
pub open spec fn fused(s: Seq<Statement>) -> Seq<Statement>
    decreases s.len(),
{
    if s.len() < 2 {
        s
    } else {
        match fma_pair(s[0], s[1]) {
            Some(x) => seq![x] + fused(s.subrange(2, s.len() as int)),
            None => seq![s[0]] + fused(s.subrange(1, s.len() as int)),
        }
    }
}

/// The latch's `i = i + 1` becomes `i = i + w`.
pub open spec fn widened(s: Statement, i: usize, w: usize) -> Statement {
    if unit_step(s) == Some(i) {
        Statement {
            kind: StatementKind::Assign(
                Local(i),
                Rvalue::BinaryOp(BinOp::Add, Operand::Copy(Local(i)), Operand::Constant(Constant::Int(w as i64))),
            ),
            span: s.span,
        }
    } else {
        s
    }
}

/// A body block's final statements: the latch's steps widened.
pub open spec fn finished(stmts: Seq<Statement>, is_latch: bool, i: usize, w: usize) -> Seq<Statement> {
    if is_latch {
        stmts.map_values(|s: Statement| widened(s, i, w))
    } else {
        stmts
    }
}

/// The header's statements with the first assignment to the guard's
/// destination `c` replaced by `c = i < limit_local`.
pub open spec fn guarded_header(stmts: Seq<Statement>, i: usize, limit_local: usize) -> Seq<Statement> {
    let g = first_guard(stmts, i)->0;
    let j = first_assign(stmts, g.0)->0;
    stmts.update(
        j,
        Statement {
            kind: StatementKind::Assign(
                Local(g.0),
                Rvalue::BinaryOp(BinOp::Lt, Operand::Copy(Local(i)), Operand::Copy(Local(limit_local))),
            ),
            span: stmts[j].span,
        },
    )
}

/// A switch terminator whose fall-through target becomes `e`.
pub open spec fn with_otherwise(t: Option<Terminator>, e: usize) -> Option<Terminator> {
    match t {
        Some(Terminator { kind: TerminatorKind::SwitchInt { discr, targets, otherwise: _ }, span }) => Some(
            Terminator { kind: TerminatorKind::SwitchInt { discr, targets, otherwise: BasicBlockId(e) }, span },
        ),
        _ => t,
    }
}

/// A vector local of `w` lanes standing for local `o` declared as `orig`:
/// a mutable, owning local of type `Vector(t, w)`, `t` a copy of `orig`'s
/// type, named `v` followed by `o` in decimal.
pub open spec fn vector_decl(d: LocalDecl, orig: LocalDecl, w: usize, o: usize) -> bool {
    &&& d.ty matches Type::Vector(t, w2) && w2 == w && type_view(*t) == type_view(orig.ty)
    &&& d.name matches Some(nm) && nm@ == seq!['v'] + decimal(o as nat)
    &&& d.span == new_span()
    &&& d.is_mut
    &&& d.is_owning
}

/// `locals` is `base` followed by one vector local of `w` lanes for each
/// entry of `origins`, standing for the local of `base` it names.
pub open spec fn vector_locals_added(locals: Seq<LocalDecl>, base: Seq<LocalDecl>, origins: Seq<usize>, w: usize) -> bool {
    &&& locals.len() == base.len() + origins.len()
    &&& locals.subrange(0, base.len() as int) == base
    &&& forall|q: int| 0 <= q < origins.len() ==> #[trigger] origins[q] < base.len()
    &&& forall|q: int|
        0 <= q < origins.len() ==> vector_decl(#[trigger] locals[base.len() + q], base[origins[q] as int], w, origins[q])
}

/// `ord` lists the blocks of the loop body, once each.
pub open spec fn lists_body(ord: Seq<usize>, lp: Loop) -> bool {
    &&& ord.to_set() == index_set_contents(lp.body)
    &&& ord.no_duplicates()
}

/// The number of statements of the blocks `ord` lists.
pub open spec fn ord_total(blocks: Seq<BasicBlock>, ord: Seq<usize>) -> nat
    decreases ord.len(),
{
    if ord.len() == 0 {
        0
    } else {
        ord_total(blocks, ord.drop_last()) + blocks[ord.last() as int].statements@.len()
    }
}

/// The rewrite would number blocks or locals past the machine's range.
pub open spec fn too_many(f: MirFunction, lp: Loop, ord: Seq<usize>) -> bool {
    let nl = f.locals@.len();
    ||| nl + 3 > usize::MAX
    ||| f.basic_blocks@.len() + ord.len() + 1 > usize::MAX
    ||| ord_total(f.basic_blocks@, ord) > (usize::MAX - nl - 3) / 3
}

/// The loop rewritten as `p` plans: the body's blocks are copied as the
/// epilogue; a new block before the header sets a new local to
/// `limit - (width - 1)`, and the blocks outside the loop that entered the
/// header enter it; the header's guard compares `i` with that local and its
/// switch falls through to the epilogue; the body's statements, block by
/// block in the order `ord`, are rewritten as `vec_blocks` says (the new
/// vector locals declared in that order), their multiply-adds fused, and
/// the latch steps `i` by `width`.
pub open spec fn vectorized(f: MirFunction, lp: Loop, p: VectorPlan, ord: Seq<usize>, g: MirFunction) -> bool {
    let blocks = f.basic_blocks@;
    let n = blocks.len();
    let body = index_set_contents(lp.body);
    let c = ord.len();
    let h = lp.header.0;
    let latch = lp.latches@[0].0;
    let nl = f.locals@.len();
    let i = p.induction;
    let w = p.width;
    let pre = n + c;
    let hstmts = guarded_header(blocks[h as int].statements@, i, nl as usize);
    let src = ord.map_values(|b: usize| if b == h { hstmts } else { blocks[b as int].statements@ });
    let r = vec_blocks(src, i, w, Map::empty(), seq![], (nl + 1) as nat);
    &&& g.name == f.name
    &&& g.arg_count == f.arg_count
    &&& g.vararg_idx == f.vararg_idx
    &&& g.kwarg_idx == f.kwarg_idx
    &&& g.param_names@ == f.param_names@
    &&& g.is_async == f.is_async
    &&& fresh_int_local(g.locals@[nl as int], "vec_limit"@)
    &&& vector_locals_added(g.locals@, f.locals@.push(g.locals@[nl as int]), r.2, w)
    &&& g.basic_blocks@.len() == pre + 1
    &&& exists|m: Map<usize, usize>|
        {
            &&& m.dom() == body
            &&& forall|b: usize|
                #[trigger] body.contains(b) ==> n <= m[b] < pre && cloned_block(
                    blocks[b as int],
                    g.basic_blocks@[m[b] as int],
                    m,
                )
            &&& forall|x: usize, y: usize| #[trigger] body.contains(x) && #[trigger] body.contains(y) && x != y ==> m[x] != m[y]
            &&& g.basic_blocks@[h as int].terminator == with_otherwise(blocks[h as int].terminator, m[h])
        }
    &&& forall|b: int|
        0 <= b < n && !body.contains(b as usize) ==> retargeted(blocks[b], #[trigger] g.basic_blocks@[b], h, pre as usize)
    &&& forall|b: int|
        0 <= b < n && body.contains(b as usize) && b != h ==> #[trigger] g.basic_blocks@[b].terminator
            == blocks[b].terminator
    &&& forall|q: int|
        0 <= q < c ==> #[trigger] g.basic_blocks@[ord[q] as int].statements@ == finished(
            fused(r.0[q]),
            ord[q] == latch,
            i,
            w,
        )
    &&& g.basic_blocks@[pre as int].statements@ == seq![
        Statement {
            kind: StatementKind::Assign(
                Local(nl as usize),
                Rvalue::BinaryOp(BinOp::Sub, p.limit, Operand::Constant(Constant::Int((w - 1) as i64))),
            ),
            span: new_span(),
        },
    ]
    &&& g.basic_blocks@[pre as int].terminator == Some(
        Terminator { kind: TerminatorKind::Goto { target: lp.header }, span: new_span() },
    )
}

/// One try on a loop of `f`: nothing changes when there is no plan or the
/// rewrite would exceed the machine's range; otherwise the loop is
/// vectorized, its body's blocks taken in some order `ord`.
pub open spec fn attempt(f: MirFunction, lp: Loop, g: MirFunction, done: bool) -> bool {
    match vector_plan(f, lp) {
        None => !done && g == f,
        Some(p) => exists|ord: Seq<usize>|
            #[trigger] lists_body(ord, lp) && if too_many(f, lp, ord) {
                !done && g == f
            } else {
                done && vectorized(f, lp, p, ord, g)
            },
    }
}

/// Whether a type lowers to a SIMD lane.
fn is_simd_scalar(ty: &Type) -> (r: bool)
    ensures
        r == lane_bits(*ty) is Some,
{
    matches!(
        ty,
        Type::Int | Type::U64 | Type::Usize | Type::I32 | Type::U32 | Type::I16 | Type::U16 | Type::I8
            | Type::U8 | Type::Bool | Type::Float | Type::F32
    )
}

/// The lane width in bits of a SIMD-compatible scalar.
fn simd_lane_bits(ty: &Type) -> (r: Option<u32>)
    ensures
        r is Some == lane_bits(*ty) is Some,
        r matches Some(b) ==> lane_bits(*ty) == Some(b as nat),
{
    match ty {
        Type::Int | Type::U64 | Type::Usize | Type::Float => Some(64),
        Type::I32 | Type::U32 | Type::F32 => Some(32),
        Type::I16 | Type::U16 => Some(16),
        Type::I8 | Type::U8 | Type::Bool => Some(8),
        _ => None,
    }
}

fn is_vector_statement(s: &Statement) -> (r: bool)
    ensures
        r == vector_statement(*s),
{
    match &s.kind {
        StatementKind::Assign(_, rv) => matches!(rv, Rvalue::VectorLoad(..) | Rvalue::VectorSplat(..) | Rvalue::VectorFMA(..)),
        StatementKind::VectorStore(..) => true,
        _ => false,
    }
}

fn unit_step_of(s: &Statement) -> (r: Option<usize>)
    ensures
        r == unit_step(*s),
{
    match &s.kind {
        StatementKind::Assign(l, Rvalue::BinaryOp(BinOp::Add, Operand::Copy(src), Operand::Constant(Constant::Int(c)))) => {
            if src.0 == l.0 && *c == 1 {
                Some(l.0)
            } else {
                None
            }
        },
        _ => None,
    }
}

fn guard_in(s: &Statement, i: usize) -> (r: Option<(usize, Operand)>)
    ensures
        r == guard_of(*s, i),
{
    match &s.kind {
        StatementKind::Assign(d, Rvalue::BinaryOp(BinOp::Lt, Operand::Copy(x), lim)) => {
            if x.0 == i {
                Some((d.0, lim.clone()))
            } else {
                None
            }
        },
        _ => None,
    }
}

fn load_at_of(s: &Statement, i: usize) -> (r: Option<usize>)
    ensures
        r == load_at(*s, i),
{
    match &s.kind {
        StatementKind::Assign(d, Rvalue::GetIndex(_, Operand::Copy(x), _)) => {
            if x.0 == i {
                Some(d.0)
            } else {
                None
            }
        },
        _ => None,
    }
}

fn copy_binop_of(s: &Statement) -> (r: Option<(usize, usize, usize)>)
    ensures
        r == copy_binop(*s),
{
    match &s.kind {
        StatementKind::Assign(d, Rvalue::BinaryOp(_, Operand::Copy(l), Operand::Copy(r))) => Some((d.0, l.0, r.0)),
        _ => None,
    }
}

fn is_store_at(s: &Statement, i: usize) -> (r: bool)
    ensures
        r == store_at(*s, i),
{
    match &s.kind {
        StatementKind::SetIndex(_, Operand::Copy(x), _, _) => x.0 == i,
        _ => false,
    }
}

/// Whether `s` reads one of `ls`.
fn reads_any(s: &Statement, ls: &Vec<usize>) -> (r: bool)
    ensures
        r == exists|q: int| 0 <= q < ls@.len() && #[trigger] reads_local(*s, ls@[q]),
{
    let mut q: usize = 0;
    while q < ls.len()
        invariant
            0 <= q <= ls@.len(),
            forall|p: int| 0 <= p < q ==> !#[trigger] reads_local(*s, ls@[p]),
        decreases ls.len() - q,
    {
        let l = ls[q];
        let dropped = match &s.kind {
            StatementKind::Drop(x) => x.0 == l,
            _ => false,
        };
        if stmt_reads_local(s, l) || dropped {
            assert(reads_local(*s, ls@[q as int]));
            return true;
        }
        q = q + 1;
    }
    false
}

/// The locals `stmts` step by one, when there is exactly one such step.
fn sole_unit_step(stmts: &Vec<Statement>) -> (r: Option<usize>)
    ensures
        r == (if unit_steps(stmts@).len() == 1 {
            Some(unit_steps(stmts@)[0])
        } else {
            None
        }),
        r matches Some(l) ==> exists|x: int| 0 <= x < stmts@.len() && #[trigger] unit_step(stmts@[x]) == Some(l),
{
    let mut found: Option<usize> = None;
    let mut many = false;
    let mut k: usize = 0;
    while k < stmts.len()
        invariant
            0 <= k <= stmts@.len(),
            many == (unit_steps(stmts@.subrange(0, k as int)).len() >= 2),
            !many ==> found == (if unit_steps(stmts@.subrange(0, k as int)).len() == 1 {
                Some(unit_steps(stmts@.subrange(0, k as int))[0])
            } else {
                None
            }),
            found matches Some(l) ==> exists|x: int| 0 <= x < k && #[trigger] unit_step(stmts@[x]) == Some(l),
        decreases stmts.len() - k,
    {
        assert(stmts@.subrange(0, k + 1).drop_last() =~= stmts@.subrange(0, k as int));
        match unit_step_of(&stmts[k]) {
            Some(l) => {
                if found.is_some() {
                    many = true;
                } else {
                    found = Some(l);
                }
            },
            None => {},
        }
        k = k + 1;
    }
    assert(stmts@.subrange(0, stmts@.len() as int) =~= stmts@);
    if many {
        None
    } else {
        found
    }
}

fn last_guard_of(stmts: &Vec<Statement>, i: usize) -> (r: Option<(usize, Operand)>)
    ensures
        r == last_guard(stmts@, i),
{
    let mut k: usize = stmts.len();
    assert(stmts@.subrange(0, k as int) =~= stmts@);
    while k > 0
        invariant
            0 <= k <= stmts@.len(),
            last_guard(stmts@, i) == last_guard(stmts@.subrange(0, k as int), i),
        decreases k,
    {
        assert(stmts@.subrange(0, k as int).drop_last() =~= stmts@.subrange(0, k - 1));
        let g = guard_in(&stmts[k - 1], i);
        if g.is_some() {
            return g;
        }
        k = k - 1;
    }
    None
}

fn first_guard_of(stmts: &Vec<Statement>, i: usize) -> (r: Option<(usize, Operand)>)
    ensures
        r == first_guard(stmts@, i),
{
    let mut k: usize = 0;
    assert(stmts@.subrange(0, stmts@.len() as int) =~= stmts@);
    while k < stmts.len()
        invariant
            0 <= k <= stmts@.len(),
            first_guard(stmts@, i) == first_guard(stmts@.subrange(k as int, stmts@.len() as int), i),
        decreases stmts.len() - k,
    {
        assert(stmts@.subrange(k as int, stmts@.len() as int).drop_first() =~= stmts@.subrange(
            k + 1,
            stmts@.len() as int,
        ));
        let g = guard_in(&stmts[k], i);
        if g.is_some() {
            return g;
        }
        k = k + 1;
    }
    None
}

/// The statement at position `p` (block, index) of `blocks`.
pub open spec fn stmt_at(blocks: Seq<BasicBlock>, p: (usize, usize)) -> Statement {
    blocks[p.0 as int].statements@[p.1 as int]
}

/// Position `(b, k)` occurs in `pos`.
pub open spec fn listed(pos: Seq<(usize, usize)>, b: usize, k: usize) -> bool {
    exists|p: int| 0 <= p < pos.len() && #[trigger] pos[p] == (b, k)
}

/// `pos` lists every statement position of the body, and nothing else.
pub open spec fn covers(blocks: Seq<BasicBlock>, body: Set<usize>, pos: Seq<(usize, usize)>) -> bool {
    &&& forall|p: int| 0 <= p < pos.len() ==> in_body(blocks, body, (#[trigger] pos[p]).0, pos[p].1)
    &&& forall|b: usize, k: usize| #[trigger] in_body(blocks, body, b, k) ==> listed(pos, b, k)
}

/// The statement positions of the loop body, block by block.
fn body_positions(func: &MirFunction, body: &IndexSet) -> (pos: Vec<(usize, usize)>)
    requires
        forall|b: usize| #[trigger] index_set_contents(*body).contains(b) ==> b < func.basic_blocks@.len(),
    ensures
        covers(func.basic_blocks@, index_set_contents(*body), pos@),
{
    let ghost blocks = func.basic_blocks@;
    let ghost bs = index_set_contents(*body);
    let ord = body.to_vec();
    let mut pos: Vec<(usize, usize)> = Vec::new();
    let mut q: usize = 0;
    while q < ord.len()
        invariant
            blocks == func.basic_blocks@,
            ord@.to_set() == bs,
            forall|b: usize| #[trigger] bs.contains(b) ==> b < blocks.len(),
            0 <= q <= ord@.len(),
            forall|p: int| 0 <= p < pos@.len() ==> in_body(blocks, bs, (#[trigger] pos@[p]).0, pos@[p].1),
            forall|r: int, k: int|
                0 <= r < q && 0 <= k < blocks[ord@[r] as int].statements@.len() ==> #[trigger] listed(
                    pos@,
                    ord@[r],
                    k as usize,
                ),
        decreases ord.len() - q,
    {
        let b = ord[q];
        assert(ord@.to_set().contains(ord@[q as int]));
        let n = func.basic_blocks[b].statements.len();
        let mut k: usize = 0;
        let ghost before = pos@;
        while k < n
            invariant
                blocks == func.basic_blocks@,
                ord@.to_set() == bs,
                forall|b2: usize| #[trigger] bs.contains(b2) ==> b2 < blocks.len(),
                b == ord@[q as int],
                bs.contains(b),
                q < ord@.len(),
                n == blocks[b as int].statements@.len(),
                0 <= k <= n,
                pos@.len() == before.len() + k,
                pos@.subrange(0, before.len() as int) == before,
                forall|j: int| 0 <= j < k ==> #[trigger] pos@[before.len() + j] == (b, j as usize),
                forall|r: int, j: int|
                    0 <= r < q && 0 <= j < blocks[ord@[r] as int].statements@.len() ==> #[trigger] listed(
                        before,
                        ord@[r],
                        j as usize,
                    ),
                forall|p: int| 0 <= p < pos@.len() ==> in_body(blocks, bs, (#[trigger] pos@[p]).0, pos@[p].1),
            decreases n - k,
        {
            pos.push((b, k));
            proof {
                assert(pos@.subrange(0, before.len() as int) =~= before);
            }
            k = k + 1;
        }
        proof {
            assert forall|r: int, j: int|
                0 <= r < q + 1 && 0 <= j < blocks[ord@[r] as int].statements@.len() implies #[trigger] listed(
                pos@,
                ord@[r],
                j as usize,
            ) by {
                if r < q {
                    assert(listed(before, ord@[r], j as usize));
                    let p = choose|p: int| 0 <= p < before.len() && #[trigger] before[p] == (ord@[r], j as usize);
                    assert(pos@.subrange(0, before.len() as int)[p] == before[p]);
                    assert(pos@[p] == before[p]);
                } else {
                    assert(pos@[before.len() + j] == (b, j as usize));
                }
                assert(listed(pos@, ord@[r], j as usize));
            }
        }
        q = q + 1;
    }
    proof {
        assert forall|b: usize, k: usize| #[trigger] in_body(blocks, bs, b, k) implies listed(pos@, b, k) by {
            assert(ord@.to_set().contains(b));
            let r = choose|r: int| 0 <= r < ord@.len() && ord@[r] == b;
            assert(listed(pos@, ord@[r], k as usize));
        }
    }
    pos
}

/// Whether a statement of the body already works on vectors.
fn any_vector_statement(func: &MirFunction, pos: &Vec<(usize, usize)>, Ghost(body): Ghost<Set<usize>>) -> (r: bool)
    requires
        covers(func.basic_blocks@, body, pos@),
    ensures
        r == exists|b: usize, k: usize|
            in_body(func.basic_blocks@, body, b, k) && #[trigger] vector_statement(func.basic_blocks@[b as int].statements@[k as int]),
{
    let ghost blocks = func.basic_blocks@;
    let mut p: usize = 0;
    while p < pos.len()
        invariant
            0 <= p <= pos@.len(),
            covers(blocks, body, pos@),
            blocks == func.basic_blocks@,
            forall|r: int| 0 <= r < p ==> !vector_statement(#[trigger] stmt_at(blocks, pos@[r])),
        decreases pos.len() - p,
    {
        let (b, k) = pos[p];
        assert(in_body(blocks, body, pos@[p as int].0, pos@[p as int].1));
        if is_vector_statement(&func.basic_blocks[b].statements[k]) {
            assert(vector_statement(blocks[b as int].statements@[k as int]));
            return true;
        }
        assert(!vector_statement(stmt_at(blocks, pos@[p as int])));
        p = p + 1;
    }
    proof {
        assert forall|b: usize, k: usize| in_body(blocks, body, b, k) implies !#[trigger] vector_statement(
            blocks[b as int].statements@[k as int],
        ) by {
            let r = choose|r: int| 0 <= r < pos@.len() && #[trigger] pos@[r] == (b, k);
            assert(stmt_at(blocks, pos@[r]) == blocks[b as int].statements@[k as int]);
        }
    }
    false
}

/// Whether every load at `i` in the body has a SIMD lane type, and the
/// destination of one such load when there is one.
fn scan_loads(func: &MirFunction, pos: &Vec<(usize, usize)>, Ghost(body): Ghost<Set<usize>>, i: usize) -> (r: (bool, Option<usize>))
    requires
        covers(func.basic_blocks@, body, pos@),
        vector_accepts(*func),
    ensures
        r.0 == loads_simd(*func, body, i),
        r.0 ==> (r.1 is Some == some_load(func.basic_blocks@, body, i)),
        r.1 matches Some(d) ==> exists|b: usize, k: usize|
            in_body(func.basic_blocks@, body, b, k) && #[trigger] load_at(func.basic_blocks@[b as int].statements@[k as int], i)
                == Some(d),
        r.1 matches Some(d) ==> lane_bits(func.locals@[d as int].ty) is Some,
{
    let ghost blocks = func.basic_blocks@;
    let mut first: Option<usize> = None;
    let mut p: usize = 0;
    while p < pos.len()
        invariant
            0 <= p <= pos@.len(),
            covers(blocks, body, pos@),
            blocks == func.basic_blocks@,
            vector_accepts(*func),
            forall|r: int|
                0 <= r < p ==> (load_at(#[trigger] stmt_at(blocks, pos@[r]), i) matches Some(d) ==> d < func.locals@.len()
                    && lane_bits(func.locals@[d as int].ty) is Some),
            first is None == forall|r: int| 0 <= r < p ==> load_at(#[trigger] stmt_at(blocks, pos@[r]), i) is None,
            first matches Some(d) ==> exists|b: usize, k: usize|
                in_body(blocks, body, b, k) && #[trigger] load_at(blocks[b as int].statements@[k as int], i) == Some(d),
            first matches Some(d) ==> lane_bits(func.locals@[d as int].ty) is Some,
        decreases pos.len() - p,
    {
        let (b, k) = pos[p];
        assert(in_body(blocks, body, pos@[p as int].0, pos@[p as int].1));
        let ghost s = blocks[b as int].statements@[k as int];
        assert(stmt_at(blocks, pos@[p as int]) == s);
        match load_at_of(&func.basic_blocks[b].statements[k], i) {
            Some(d) => {
                assert(s.kind matches StatementKind::Assign(dd, rv) && dd.0 == d && rv is GetIndex);
                assert(d < func.locals@.len());
                if !is_simd_scalar(&func.locals[d].ty) {
                    proof {
                        assert(load_at(blocks[b as int].statements@[k as int], i) is Some);
                    }
                    return (false, first);
                }
                if first.is_none() {
                    first = Some(d);
                }
            },
            None => {},
        }
        p = p + 1;
    }
    proof {
        assert forall|b: usize, k: usize|
            in_body(blocks, body, b, k) && #[trigger] load_at(blocks[b as int].statements@[k as int], i) is Some implies lane_bits(
            func.locals@[load_at(blocks[b as int].statements@[k as int], i)->0 as int].ty,
        ) is Some by {
            let r = choose|r: int| 0 <= r < pos@.len() && #[trigger] pos@[r] == (b, k);
            assert(stmt_at(blocks, pos@[r]) == blocks[b as int].statements@[k as int]);
        }
        if first is None {
            assert forall|b: usize, k: usize| in_body(blocks, body, b, k) implies #[trigger] load_at(
                blocks[b as int].statements@[k as int],
                i,
            ) is None by {
                let r = choose|r: int| 0 <= r < pos@.len() && #[trigger] pos@[r] == (b, k);
                assert(stmt_at(blocks, pos@[r]) == blocks[b as int].statements@[k as int]);
            }
        }
    }
    (true, first)
}

/// The destination of a load at `i` in the body becomes a vector.
proof fn lemma_load_vectorized(blocks: Seq<BasicBlock>, body: Set<usize>, i: usize, b: usize, k: usize)
    requires
        in_body(blocks, body, b, k),
        load_at(blocks[b as int].statements@[k as int], i) is Some,
    ensures
        vectorized_local(blocks, body, i, load_at(blocks[b as int].statements@[k as int], i)->0),
{
    let d = load_at(blocks[b as int].statements@[k as int], i)->0;
    assert forall|v: Set<usize>| #[trigger] vec_closed(blocks, body, i, v) implies v.contains(d) by {
        assert(in_body(blocks, body, b, k));
    }
}

/// An elementwise operation of the body on a vector gives a vector.
proof fn lemma_binop_vectorized(blocks: Seq<BasicBlock>, body: Set<usize>, i: usize, b: usize, k: usize)
    requires
        in_body(blocks, body, b, k),
        copy_binop(blocks[b as int].statements@[k as int]) matches Some(t) && (vectorized_local(blocks, body, i, t.1)
            || vectorized_local(blocks, body, i, t.2)),
    ensures
        copy_binop(blocks[b as int].statements@[k as int]) matches Some(t) && vectorized_local(blocks, body, i, t.0),
{
    let t = copy_binop(blocks[b as int].statements@[k as int])->0;
    assert forall|v: Set<usize>| #[trigger] vec_closed(blocks, body, i, v) implies v.contains(t.0) by {
        assert(v.contains(t.1) || v.contains(t.2));
        assert(in_body(blocks, body, b, k));
    }
}

/// The elementwise operation `s`, when it reads a local of `v`, writes one.
pub open spec fn binop_closed(s: Statement, v: Set<usize>) -> bool {
    copy_binop(s) matches Some(t) ==> (v.contains(t.1) || v.contains(t.2) ==> v.contains(t.0))
}

/// The locals that become vectors, when each has lanes of `bits` bits.
fn vector_locals(func: &MirFunction, pos: &Vec<(usize, usize)>, Ghost(body): Ghost<Set<usize>>, i: usize, bits: u32) -> (r: Option<IndexSet>)
    requires
        covers(func.basic_blocks@, body, pos@),
        vector_accepts(*func),
    ensures
        r is None == !lanes_agree(*func, body, i, bits as nat),
        r matches Some(v) ==> forall|x: usize|
            #[trigger] index_set_contents(v).contains(x) == vectorized_local(func.basic_blocks@, body, i, x),
{
    let ghost blocks = func.basic_blocks@;
    let nl = func.locals.len();
    let mut v = IndexSet::new();
    let mut p: usize = 0;
    while p < pos.len()
        invariant
            0 <= p <= pos@.len(),
            covers(blocks, body, pos@),
            blocks == func.basic_blocks@,
            vector_accepts(*func),
            nl == func.locals@.len(),
            index_set_contents(v).finite(),
            forall|x: usize|
                #[trigger] index_set_contents(v).contains(x) ==> vectorized_local(blocks, body, i, x) && x < nl
                    && lane_bits(func.locals@[x as int].ty) == Some(bits as nat),
            forall|r: int|
                0 <= r < p ==> (load_at(#[trigger] stmt_at(blocks, pos@[r]), i) matches Some(d) ==> index_set_contents(
                    v,
                ).contains(d)),
        decreases pos.len() - p,
    {
        let (b, k) = pos[p];
        assert(in_body(blocks, body, pos@[p as int].0, pos@[p as int].1));
        let ghost s = blocks[b as int].statements@[k as int];
        assert(stmt_at(blocks, pos@[p as int]) == s);
        match load_at_of(&func.basic_blocks[b].statements[k], i) {
            Some(d) => {
                proof {
                    lemma_load_vectorized(blocks, body, i, b, k);
                    assert(s.kind matches StatementKind::Assign(dd, rv) && dd.0 == d && rv is GetIndex);
                }
                match simd_lane_bits(&func.locals[d].ty) {
                    Some(b2) => {
                        if b2 != bits {
                            return None;
                        }
                    },
                    None => {
                        return None;
                    },
                }
                v.insert(d);
            },
            None => {},
        }
        p = p + 1;
    }
    loop
        invariant
            covers(blocks, body, pos@),
            blocks == func.basic_blocks@,
            vector_accepts(*func),
            nl == func.locals@.len(),
            index_set_contents(v).finite(),
            forall|x: usize|
                #[trigger] index_set_contents(v).contains(x) ==> vectorized_local(blocks, body, i, x) && x < nl
                    && lane_bits(func.locals@[x as int].ty) == Some(bits as nat),
            forall|r: int|
                0 <= r < pos@.len() ==> (load_at(#[trigger] stmt_at(blocks, pos@[r]), i) matches Some(d)
                    ==> index_set_contents(v).contains(d)),
        ensures
            index_set_contents(v).finite(),
            forall|x: usize|
                #[trigger] index_set_contents(v).contains(x) ==> vectorized_local(blocks, body, i, x) && x < nl
                    && lane_bits(func.locals@[x as int].ty) == Some(bits as nat),
            forall|r: int|
                0 <= r < pos@.len() ==> (load_at(#[trigger] stmt_at(blocks, pos@[r]), i) matches Some(d)
                    ==> index_set_contents(v).contains(d)),
            forall|r: int| 0 <= r < pos@.len() ==> binop_closed(#[trigger] stmt_at(blocks, pos@[r]), index_set_contents(v)),
        decreases nl - index_set_contents(v).len(),
    {
        proof {
            crate::loop_utils::lemma_bounded_set_len(index_set_contents(v), nl as nat);
        }
        let ghost v0 = index_set_contents(v);
        let mut changed = false;
        let mut p: usize = 0;
        while p < pos.len()
            invariant
                0 <= p <= pos@.len(),
                covers(blocks, body, pos@),
                blocks == func.basic_blocks@,
                vector_accepts(*func),
                nl == func.locals@.len(),
                index_set_contents(v).finite(),
                v0.len() <= nl,
                forall|x: usize|
                    #[trigger] index_set_contents(v).contains(x) ==> vectorized_local(blocks, body, i, x) && x < nl
                        && lane_bits(func.locals@[x as int].ty) == Some(bits as nat),
                forall|x: usize| #[trigger] v0.contains(x) ==> index_set_contents(v).contains(x),
                !changed ==> index_set_contents(v) == v0,
                changed ==> index_set_contents(v).len() > v0.len(),
                !changed ==> forall|r: int| 0 <= r < p ==> binop_closed(#[trigger] stmt_at(blocks, pos@[r]), v0),
            decreases pos.len() - p,
        {
            let (b, k) = pos[p];
            assert(in_body(blocks, body, pos@[p as int].0, pos@[p as int].1));
            let ghost s = blocks[b as int].statements@[k as int];
            assert(stmt_at(blocks, pos@[p as int]) == s);
            match copy_binop_of(&func.basic_blocks[b].statements[k]) {
                Some((d, l, r)) => {
                    if (v.contains(l) || v.contains(r)) && !v.contains(d) {
                        proof {
                            lemma_binop_vectorized(blocks, body, i, b, k);
                        }
                        match simd_lane_bits(&func.locals[d].ty) {
                            Some(b2) => {
                                if b2 != bits {
                                    return None;
                                }
                            },
                            None => {
                                return None;
                            },
                        }
                        v.insert(d);
                        changed = true;
                    }
                },
                None => {},
            }
            p = p + 1;
        }
        proof {
            crate::loop_utils::lemma_bounded_set_len(index_set_contents(v), nl as nat);
        }
        if !changed {
            break;
        }
    }
    proof {
        let vs = index_set_contents(v);
        assert(vec_closed(blocks, body, i, vs)) by {
            assert forall|b: usize, k: usize|
                in_body(blocks, body, b, k) && #[trigger] load_at(blocks[b as int].statements@[k as int], i) is Some implies vs.contains(
                load_at(blocks[b as int].statements@[k as int], i)->0,
            ) by {
                let r = choose|r: int| 0 <= r < pos@.len() && #[trigger] pos@[r] == (b, k);
                assert(stmt_at(blocks, pos@[r]) == blocks[b as int].statements@[k as int]);
            }
            assert forall|b: usize, k: usize|
                in_body(blocks, body, b, k) implies (#[trigger] copy_binop(blocks[b as int].statements@[k as int]) matches Some(t)
                ==> (vs.contains(t.1) || vs.contains(t.2) ==> vs.contains(t.0))) by {
                let r = choose|r: int| 0 <= r < pos@.len() && #[trigger] pos@[r] == (b, k);
                assert(stmt_at(blocks, pos@[r]) == blocks[b as int].statements@[k as int]);
                assert(binop_closed(stmt_at(blocks, pos@[r]), vs));
            }
        }
        assert forall|x: usize| vectorized_local(blocks, body, i, x) implies #[trigger] vs.contains(x) by {
            assert(vec_closed(blocks, body, i, vs));
        }
    }
    Some(v)
}

/// Whether every statement of the body is `confined`, given the locals
/// that become vectors as a set and as a list.
fn all_confined(
    func: &MirFunction,
    pos: &Vec<(usize, usize)>,
    Ghost(body): Ghost<Set<usize>>,
    i: usize,
    v: &IndexSet,
    vlist: &Vec<usize>,
) -> (r: bool)
    requires
        covers(func.basic_blocks@, body, pos@),
        forall|x: usize| #[trigger] index_set_contents(*v).contains(x) == vectorized_local(func.basic_blocks@, body, i, x),
        vlist@.to_set() == index_set_contents(*v),
    ensures
        r == forall|b: usize, k: usize|
            in_body(func.basic_blocks@, body, b, k) ==> #[trigger] confined(
                func.basic_blocks@,
                body,
                i,
                func.basic_blocks@[b as int].statements@[k as int],
            ),
{
    let ghost blocks = func.basic_blocks@;
    let mut p: usize = 0;
    while p < pos.len()
        invariant
            0 <= p <= pos@.len(),
            covers(blocks, body, pos@),
            blocks == func.basic_blocks@,
            forall|x: usize| #[trigger] index_set_contents(*v).contains(x) == vectorized_local(blocks, body, i, x),
            vlist@.to_set() == index_set_contents(*v),
            forall|r: int| 0 <= r < p ==> confined(blocks, body, i, #[trigger] stmt_at(blocks, pos@[r])),
        decreases pos.len() - p,
    {
        let (b, k) = pos[p];
        assert(in_body(blocks, body, pos@[p as int].0, pos@[p as int].1));
        let s = &func.basic_blocks[b].statements[k];
        assert(stmt_at(blocks, pos@[p as int]) == *s);
        let load_ok = match load_at_of(s, i) {
            Some(d) => v.contains(d),
            None => false,
        };
        let binop_ok = match copy_binop_of(s) {
            Some((d, _, _)) => v.contains(d),
            None => false,
        };
        let read = reads_any(s, vlist);
        proof {
            if !read {
                assert forall|l: usize| #[trigger] vectorized_local(blocks, body, i, l) implies !reads_local(*s, l) by {
                    assert(vlist@.to_set().contains(l));
                    let q = choose|q: int| 0 <= q < vlist@.len() && vlist@[q] == l;
                    assert(!reads_local(*s, vlist@[q]));
                }
            } else {
                let q = choose|q: int| 0 <= q < vlist@.len() && #[trigger] reads_local(*s, vlist@[q]);
                assert(vlist@.to_set().contains(vlist@[q]));
                assert(vectorized_local(blocks, body, i, vlist@[q]));
            }
        }
        if !(load_ok || binop_ok || is_store_at(s, i) || !read) {
            assert(!confined(blocks, body, i, blocks[b as int].statements@[k as int]));
            return false;
        }
        p = p + 1;
    }
    proof {
        assert forall|b: usize, k: usize| in_body(blocks, body, b, k) implies #[trigger] confined(
            blocks,
            body,
            i,
            blocks[b as int].statements@[k as int],
        ) by {
            let r = choose|r: int| 0 <= r < pos@.len() && #[trigger] pos@[r] == (b, k);
            assert(stmt_at(blocks, pos@[r]) == blocks[b as int].statements@[k as int]);
        }
    }
    true
}

/// Whether a block outside the body reads a local that becomes a vector.
fn escapes_body(func: &MirFunction, body: &IndexSet, i: usize, v: &IndexSet, vlist: &Vec<usize>) -> (r: bool)
    requires
        forall|x: usize|
            #[trigger] index_set_contents(*v).contains(x) == vectorized_local(
                func.basic_blocks@,
                index_set_contents(*body),
                i,
                x,
            ),
        vlist@.to_set() == index_set_contents(*v),
    ensures
        r == escapes(func.basic_blocks@, index_set_contents(*body), i),
{
    let ghost blocks = func.basic_blocks@;
    let ghost bs = index_set_contents(*body);
    let mut b: usize = 0;
    while b < func.basic_blocks.len()
        invariant
            0 <= b <= blocks.len(),
            blocks == func.basic_blocks@,
            bs == index_set_contents(*body),
            forall|x: usize| #[trigger] index_set_contents(*v).contains(x) == vectorized_local(blocks, bs, i, x),
            vlist@.to_set() == index_set_contents(*v),
            forall|c: usize, l: usize|
                #![trigger vectorized_local(blocks, bs, i, l), blocks[c as int]]
                c < b && !bs.contains(c) && vectorized_local(blocks, bs, i, l) ==> {
                    &&& forall|k: int|
                        0 <= k < blocks[c as int].statements@.len() ==> !#[trigger] reads_local(
                            blocks[c as int].statements@[k],
                            l,
                        )
                    &&& !(blocks[c as int].terminator matches Some(t) && t.kind matches TerminatorKind::SwitchInt {
                        discr,
                        ..
                    } && operand_local(discr) == Some(l))
                },
        decreases blocks.len() - b,
    {
        if !body.contains(b) {
            let stmts = &func.basic_blocks[b].statements;
            let mut k: usize = 0;
            while k < stmts.len()
                invariant
                    0 <= k <= stmts@.len(),
                    b < blocks.len(),
                    blocks == func.basic_blocks@,
                    bs == index_set_contents(*body),
                    !bs.contains(b),
                    stmts@ == blocks[b as int].statements@,
                    forall|x: usize| #[trigger] index_set_contents(*v).contains(x) == vectorized_local(blocks, bs, i, x),
                    vlist@.to_set() == index_set_contents(*v),
                    forall|j: int, l: usize|
                        0 <= j < k && #[trigger] vectorized_local(blocks, bs, i, l) ==> !#[trigger] reads_local(
                            stmts@[j],
                            l,
                        ),
                decreases stmts.len() - k,
            {
                if reads_any(&stmts[k], vlist) {
                    proof {
                        let q = choose|q: int| 0 <= q < vlist@.len() && #[trigger] reads_local(stmts@[k as int], vlist@[q]);
                        let l = vlist@[q];
                        assert(vlist@.to_set().contains(l));
                        assert(vectorized_local(blocks, bs, i, l));
                        assert(reads_local(blocks[b as int].statements@[k as int], l));
                        assert(escapes(blocks, bs, i));
                    }
                    return true;
                }
                proof {
                    assert forall|l: usize| #[trigger] vectorized_local(blocks, bs, i, l) implies !reads_local(
                        stmts@[k as int],
                        l,
                    ) by {
                        assert(vlist@.to_set().contains(l));
                        let q = choose|q: int| 0 <= q < vlist@.len() && vlist@[q] == l;
                        assert(!reads_local(stmts@[k as int], vlist@[q]));
                    }
                }
                k = k + 1;
            }
            let hit = match &func.basic_blocks[b].terminator {
                Some(t) => match &t.kind {
                    TerminatorKind::SwitchInt { discr, .. } => match operand_local_of(discr) {
                        Some(l) => v.contains(l.0),
                        None => false,
                    },
                    _ => false,
                },
                None => false,
            };
            if hit {
                proof {
                    let t = blocks[b as int].terminator->0;
                    let l = operand_local(t.kind->discr)->0;
                    assert(vectorized_local(blocks, bs, i, l));
                    assert(escapes(blocks, bs, i));
                }
                return true;
            }
            proof {
                assert forall|l: usize| #[trigger] vectorized_local(blocks, bs, i, l) implies !(
                blocks[b as int].terminator matches Some(t) && t.kind matches TerminatorKind::SwitchInt { discr, .. }
                    && operand_local(discr) == Some(l)) by {
                    assert(index_set_contents(*v).contains(l));
                }
            }
        }
        b = b + 1;
    }
    false
}

/// The lane width of any load at `i` decides `lanes_agree` as that of the
/// load `load_bits` picks does.
proof fn lemma_bits_choice(f: MirFunction, body: Set<usize>, i: usize, b0: usize, k0: usize, eb: nat)
    requires
        in_body(f.basic_blocks@, body, b0, k0),
        load_at(f.basic_blocks@[b0 as int].statements@[k0 as int], i) matches Some(d0) && lane_bits(
            f.locals@[d0 as int].ty,
        ) == Some(eb),
        loads_simd(f, body, i),
    ensures
        lanes_agree(f, body, i, eb) == lanes_agree(f, body, i, load_bits(f, body, i)),
        lanes_agree(f, body, i, eb) ==> eb == load_bits(f, body, i),
{
    let blocks = f.basic_blocks@;
    assert(load_at(blocks[b0 as int].statements@[k0 as int], i) is Some);
    let (bc, kc) = choose|b: usize, k: usize|
        in_body(blocks, body, b, k) && #[trigger] load_at(blocks[b as int].statements@[k as int], i) is Some;
    let d0 = load_at(blocks[b0 as int].statements@[k0 as int], i)->0;
    let dc = load_at(blocks[bc as int].statements@[kc as int], i)->0;
    lemma_load_vectorized(blocks, body, i, b0, k0);
    lemma_load_vectorized(blocks, body, i, bc, kc);
    assert(lane_bits(f.locals@[dc as int].ty) is Some);
    if lanes_agree(f, body, i, eb) {
        assert(lane_bits(f.locals@[dc as int].ty) == Some(eb));
    }
    if lanes_agree(f, body, i, load_bits(f, body, i)) {
        assert(lane_bits(f.locals@[d0 as int].ty) == Some(load_bits(f, body, i)));
    }
}

impl LoopVectorizer {
    /// The plan for the loop, as `vector_plan` says.
    fn analyze(&self, func: &MirFunction, lp: &Loop) -> (r: Option<VectorPlan>)
        requires
            natural_loop(func.basic_blocks@, *lp),
            vector_accepts(*func),
        ensures
            r == vector_plan(*func, *lp),
            r matches Some(p) ==> 2 <= p.width <= 16 && p.induction < func.locals@.len(),
    {
        let ghost blocks = func.basic_blocks@;
        let ghost body = index_set_contents(lp.body);
        let pos = body_positions(func, &lp.body);
        if any_vector_statement(func, &pos, Ghost(body)) {
            return None;
        }
        let latch = lp.latches[0].0;
        let i = match sole_unit_step(&func.basic_blocks[latch].statements) {
            Some(i) => i,
            None => {
                return None;
            },
        };
        proof {
            let x = choose|x: int|
                0 <= x < blocks[latch as int].statements@.len() && #[trigger] unit_step(blocks[latch as int].statements@[x])
                    == Some(i);
            assert(bounded_statement(blocks[latch as int].statements@[x], func.locals@.len()));
        }
        let h = lp.header.0;
        let switch = match &func.basic_blocks[h].terminator {
            Some(t) => match &t.kind {
                TerminatorKind::SwitchInt { .. } => true,
                _ => false,
            },
            None => false,
        };
        if !switch {
            return None;
        }
        let limit = match last_guard_of(&func.basic_blocks[h].statements, i) {
            Some(g) => g.1,
            None => {
                return None;
            },
        };
        let (simd, first) = scan_loads(func, &pos, Ghost(body), i);
        if !simd {
            return None;
        }
        let d0 = match first {
            Some(d) => d,
            None => {
                return None;
            },
        };
        if lp.exits.len() > 1 {
            return None;
        }
        let bits = match simd_lane_bits(&func.locals[d0].ty) {
            Some(b) => b,
            None => {
                return None;
            },
        };
        proof {
            let (b0, k0) = choose|b: usize, k: usize|
                in_body(blocks, body, b, k) && #[trigger] load_at(blocks[b as int].statements@[k as int], i) == Some(d0);
            lemma_bits_choice(*func, body, i, b0, k0, bits as nat);
        }
        assert(bits == 64 || bits == 32 || bits == 16 || bits == 8);
        let width = (128 / bits) as usize;
        if width < 2 {
            return None;
        }
        let v = match vector_locals(func, &pos, Ghost(body), i, bits) {
            Some(v) => v,
            None => {
                return None;
            },
        };
        let vlist = v.to_vec();
        if !all_confined(func, &pos, Ghost(body), i, &v, &vlist) {
            return None;
        }
        if escapes_body(func, &lp.body, i, &v, &vlist) {
            return None;
        }
        Some(VectorPlan { induction: i, limit, width })
    }
}

impl LoopVectorizer {
    /// Declares a vector local of `width` lanes standing for `original`.
    pub fn alloc_vector_local(&self, func: &mut MirFunction, original: Local, width: usize) -> (v: Local)
        requires
            original.0 < old(func).locals@.len(),
            old(func).locals@.len() < usize::MAX,
        ensures
            v.0 == old(func).locals@.len(),
            final(func).locals@ == old(func).locals@.push(final(func).locals@[v.0 as int]),
            vector_decl(final(func).locals@[v.0 as int], old(func).locals@[original.0 as int], width, original.0),
            final(func).basic_blocks@ == old(func).basic_blocks@,
            same_signature(*final(func), *old(func)),
    {
        let ty = func.locals[original.0].ty.clone();
        let mut name = String::from_str("v");
        proof {
            reveal_strlit("v");
        }
        let digits = super::scalarize::decimal_string(original.0 as u64);
        name.append(digits.as_str());
        let id = Local(func.locals.len());
        let ghost nm = name@;
        assert(nm == seq!['v'] + decimal(original.0 as nat));
        let d = LocalDecl { ty: Type::Vector(Box::new(ty), width), name: Some(name), span: Span::default(), is_mut: true, is_owning: true };
        assert(d.ty matches Type::Vector(t, w2) && w2 == width && type_view(*t) == type_view(old(func).locals@[original.0 as int].ty));
        assert(d.span == new_span());
        func.locals.push(d);
        id
    }

    /// The vector local standing for `local`, splatting it into a fresh
    /// one when there is none yet; as `vec_operand` says.
    fn ensure_vector(
        &self,
        func: &mut MirFunction,
        local: Local,
        width: usize,
        vm: &mut IndexMap,
        stmts: &mut Vec<Statement>,
        span: Span,
        Ghost(base): Ghost<Seq<LocalDecl>>,
        Ghost(origins): Ghost<Seq<usize>>,
    ) -> (v: Local)
        requires
            vector_locals_added(old(func).locals@, base, origins, width),
            local.0 < base.len(),
            old(func).locals@.len() < usize::MAX,
        ensures
            v.0 == vec_operand(local.0, width, span, index_map_contents(*old(vm)), origins, base.len()).0,
            final(stmts)@ == old(stmts)@ + vec_operand(local.0, width, span, index_map_contents(*old(vm)), origins, base.len()).1,
            index_map_contents(*final(vm)) == vec_operand(local.0, width, span, index_map_contents(*old(vm)), origins, base.len()).2,
            vector_locals_added(
                final(func).locals@,
                base,
                vec_operand(local.0, width, span, index_map_contents(*old(vm)), origins, base.len()).3,
                width,
            ),
            final(func).locals@.len() <= old(func).locals@.len() + 1,
            final(func).basic_blocks@ == old(func).basic_blocks@,
            same_signature(*final(func), *old(func)),
    {
        match vm.get(local.0) {
            Some(v) => {
                return Local(v);
            },
            None => {},
        }
        let ghost before = func.locals@;
        let v = self.alloc_vector_local(func, local, width);
        vm.insert(local.0, v.0);
        stmts.push(
            Statement { kind: StatementKind::Assign(v, Rvalue::VectorSplat(Operand::Copy(local), width)), span },
        );
        proof {
            let o2 = origins.push(local.0);
            assert(func.locals@.subrange(0, base.len() as int) =~= base) by {
                assert forall|x: int| 0 <= x < base.len() implies func.locals@[x] == base[x] by {
                    assert(before.subrange(0, base.len() as int)[x] == before[x]);
                }
            }
            assert(base[local.0 as int] == before[local.0 as int]) by {
                assert(before.subrange(0, base.len() as int)[local.0 as int] == before[local.0 as int]);
            }
            assert forall|q: int| 0 <= q < o2.len() implies vector_decl(
                #[trigger] func.locals@[base.len() + q],
                base[o2[q] as int],
                width,
                o2[q],
            ) by {
                if q < origins.len() {
                    assert(func.locals@[base.len() + q] == before[base.len() + q]);
                }
            }
            assert(forall|q: int| 0 <= q < o2.len() ==> #[trigger] o2[q] < base.len());
            assert(vec_operand(local.0, width, span, index_map_contents(*old(vm)), origins, base.len()).3 == o2);
        }
        v
    }

    /// Appends what `vec_stmt` makes of `s` to `out`.
    fn vectorize_statement(
        &self,
        func: &mut MirFunction,
        s: Statement,
        i: usize,
        w: usize,
        vm: &mut IndexMap,
        out: &mut Vec<Statement>,
        Ghost(base): Ghost<Seq<LocalDecl>>,
        Ghost(origins): Ghost<Seq<usize>>,
    )
        requires
            vector_locals_added(old(func).locals@, base, origins, w),
            bounded_statement(s, base.len()),
            old(func).locals@.len() + 3 < usize::MAX,
        ensures
            final(out)@ == old(out)@ + vec_stmt(s, i, w, index_map_contents(*old(vm)), origins, base.len()).0,
            index_map_contents(*final(vm)) == vec_stmt(s, i, w, index_map_contents(*old(vm)), origins, base.len()).1,
            vector_locals_added(final(func).locals@, base, vec_stmt(s, i, w, index_map_contents(*old(vm)), origins, base.len()).2, w),
            final(func).locals@.len() <= old(func).locals@.len() + 3,
            final(func).basic_blocks@ == old(func).basic_blocks@,
            same_signature(*final(func), *old(func)),
    {
        let ghost vm0 = index_map_contents(*vm);
        let load: Option<(Local, Operand)> = match &s.kind {
            StatementKind::Assign(d, Rvalue::GetIndex(obj, Operand::Copy(x), _)) => if x.0 == i {
                Some((*d, obj.clone()))
            } else {
                None
            },
            _ => None,
        };
        match load {
            Some((d, obj)) => {
                let ghost before = func.locals@;
                let v = self.alloc_vector_local(func, d, w);
                vm.insert(d.0, v.0);
                out.push(
                    Statement {
                        kind: StatementKind::Assign(v, Rvalue::VectorLoad(obj, Operand::Copy(Local(i)), w)),
                        span: s.span,
                    },
                );
                proof {
                    let o2 = origins.push(d.0);
                    assert(func.locals@.subrange(0, base.len() as int) =~= base) by {
                        assert forall|x: int| 0 <= x < base.len() implies func.locals@[x] == base[x] by {
                            assert(before.subrange(0, base.len() as int)[x] == before[x]);
                        }
                    }
                    assert(base[d.0 as int] == before[d.0 as int]) by {
                        assert(before.subrange(0, base.len() as int)[d.0 as int] == before[d.0 as int]);
                    }
                    assert forall|q: int| 0 <= q < o2.len() implies vector_decl(
                        #[trigger] func.locals@[base.len() + q],
                        base[o2[q] as int],
                        w,
                        o2[q],
                    ) by {
                        if q < origins.len() {
                            assert(func.locals@[base.len() + q] == before[base.len() + q]);
                        }
                    }
                }
                return ;
            },
            None => {},
        }
        let bin: Option<(Local, BinOp, Local, Local)> = match &s.kind {
            StatementKind::Assign(d, Rvalue::BinaryOp(op, Operand::Copy(l), Operand::Copy(r))) => Some((*d, *op, *l, *r)),
            _ => None,
        };
        match bin {
            Some((d, op, l, r)) => {
                if vm.get(l.0).is_some() || vm.get(r.0).is_some() {
                    let vl = self.ensure_vector(func, l, w, vm, out, s.span, Ghost(base), Ghost(origins));
                    let ghost a = vec_operand(l.0, w, s.span, vm0, origins, base.len());
                    let vr = self.ensure_vector(func, r, w, vm, out, s.span, Ghost(base), Ghost(a.3));
                    let ghost b = vec_operand(r.0, w, s.span, a.2, a.3, base.len());
                    let ghost before = func.locals@;
                    let v = self.alloc_vector_local(func, d, w);
                    vm.insert(d.0, v.0);
                    out.push(
                        Statement {
                            kind: StatementKind::Assign(v, Rvalue::BinaryOp(op, Operand::Copy(vl), Operand::Copy(vr))),
                            span: s.span,
                        },
                    );
                    proof {
                        let o2 = b.3.push(d.0);
                        assert(func.locals@.subrange(0, base.len() as int) =~= base) by {
                            assert forall|x: int| 0 <= x < base.len() implies func.locals@[x] == base[x] by {
                                assert(before.subrange(0, base.len() as int)[x] == before[x]);
                            }
                        }
                        assert(base[d.0 as int] == before[d.0 as int]) by {
                            assert(before.subrange(0, base.len() as int)[d.0 as int] == before[d.0 as int]);
                        }
                        assert forall|q: int| 0 <= q < o2.len() implies vector_decl(
                            #[trigger] func.locals@[base.len() + q],
                            base[o2[q] as int],
                            w,
                            o2[q],
                        ) by {
                            if q < b.3.len() {
                                assert(func.locals@[base.len() + q] == before[base.len() + q]);
                            }
                        }
                        assert(out@ =~= old(out)@ + vec_stmt(s, i, w, vm0, origins, base.len()).0);
                    }
                    return ;
                }
            },
            None => {},
        }
        let store: Option<(Operand, Local)> = match &s.kind {
            StatementKind::SetIndex(obj, Operand::Copy(x), Operand::Copy(val), _) => if x.0 == i {
                Some((obj.clone(), *val))
            } else {
                None
            },
            _ => None,
        };
        match store {
            Some((obj, val)) => match vm.get(val.0) {
                Some(vv) => {
                    out.push(
                        Statement {
                            kind: StatementKind::VectorStore(obj, Operand::Copy(Local(i)), Operand::Copy(Local(vv))),
                            span: s.span,
                        },
                    );
                    return ;
                },
                None => {},
            },
            None => {},
        }
        out.push(s);
    }
}

impl LoopVectorizer {
    /// Rewrites a block's statements as `vec_stmts` says.
    fn vectorize_block(
        &self,
        func: &mut MirFunction,
        stmts: Vec<Statement>,
        i: usize,
        w: usize,
        vm: &mut IndexMap,
        Ghost(base): Ghost<Seq<LocalDecl>>,
        Ghost(origins): Ghost<Seq<usize>>,
    ) -> (out: Vec<Statement>)
        requires
            vector_locals_added(old(func).locals@, base, origins, w),
            forall|k: int| 0 <= k < stmts@.len() ==> bounded_statement(#[trigger] stmts@[k], base.len()),
            old(func).locals@.len() + 3 * stmts@.len() + 1 < usize::MAX,
        ensures
            out@ == vec_stmts(stmts@, i, w, index_map_contents(*old(vm)), origins, base.len()).0,
            index_map_contents(*final(vm)) == vec_stmts(stmts@, i, w, index_map_contents(*old(vm)), origins, base.len()).1,
            vector_locals_added(
                final(func).locals@,
                base,
                vec_stmts(stmts@, i, w, index_map_contents(*old(vm)), origins, base.len()).2,
                w,
            ),
            final(func).locals@.len() <= old(func).locals@.len() + 3 * stmts@.len(),
            final(func).basic_blocks@ == old(func).basic_blocks@,
            same_signature(*final(func), *old(func)),
    {
        let ghost orig = stmts@;
        let ghost vm0 = index_map_contents(*vm);
        let ghost l0 = func.locals@.len();
        let mut rest = stmts;
        let mut out: Vec<Statement> = Vec::new();
        let ghost mut og = origins;
        let ghost mut k: int = 0;
        while rest.len() > 0
            invariant
                0 <= k <= orig.len(),
                rest@ == orig.subrange(k, orig.len() as int),
                forall|x: int| 0 <= x < orig.len() ==> bounded_statement(#[trigger] orig[x], base.len()),
                out@ == vec_stmts(orig.subrange(0, k), i, w, vm0, origins, base.len()).0,
                index_map_contents(*vm) == vec_stmts(orig.subrange(0, k), i, w, vm0, origins, base.len()).1,
                og == vec_stmts(orig.subrange(0, k), i, w, vm0, origins, base.len()).2,
                vector_locals_added(func.locals@, base, og, w),
                func.locals@.len() <= l0 + 3 * k,
                l0 + 3 * orig.len() + 1 < usize::MAX,
                func.basic_blocks@ == old(func).basic_blocks@,
                same_signature(*func, *old(func)),
            decreases rest.len(),
        {
            let s = rest.remove(0);
            assert(s == orig[k]);
            assert(orig.subrange(0, k + 1).drop_last() =~= orig.subrange(0, k));
            let ghost vmk = index_map_contents(*vm);
            self.vectorize_statement(func, s, i, w, vm, &mut out, Ghost(base), Ghost(og));
            proof {
                og = vec_stmt(s, i, w, vmk, og, base.len()).2;
                k = k + 1;
                assert(rest@ =~= orig.subrange(k, orig.len() as int));
            }
        }
        assert(orig.subrange(0, orig.len() as int) =~= orig);
        out
    }
}

/// `fma_pair`, on statements held by reference.
fn fma_of(a: &Statement, b: &Statement) -> (r: Option<Statement>)
    ensures
        r == fma_pair(*a, *b),
{
    match &a.kind {
        StatementKind::Assign(md, Rvalue::BinaryOp(BinOp::Mul, va, vb)) => match &b.kind {
            StatementKind::Assign(ad, Rvalue::BinaryOp(BinOp::Add, lhs, rhs)) => {
                let lhs_is = match lhs {
                    Operand::Copy(x) => x.0 == md.0,
                    _ => false,
                };
                let rhs_is = match rhs {
                    Operand::Copy(x) => x.0 == md.0,
                    _ => false,
                };
                if lhs_is {
                    Some(
                        Statement {
                            kind: StatementKind::Assign(*ad, Rvalue::VectorFMA(va.clone(), vb.clone(), rhs.clone())),
                            span: b.span,
                        },
                    )
                } else if rhs_is {
                    Some(
                        Statement {
                            kind: StatementKind::Assign(*ad, Rvalue::VectorFMA(va.clone(), vb.clone(), lhs.clone())),
                            span: b.span,
                        },
                    )
                } else {
                    None
                }
            },
            _ => None,
        },
        _ => None,
    }
}

proof fn lemma_fused_fma_head(x: Statement, rest: Seq<Statement>)
    requires
        x.kind matches StatementKind::Assign(_, rv) && rv is VectorFMA,
    ensures
        fused(seq![x] + rest) == seq![x] + fused(rest),
{
    let s = seq![x] + rest;
    if s.len() >= 2 {
        assert(fma_pair(s[0], s[1]) is None);
        assert(s.subrange(1, s.len() as int) =~= rest);
    } else {
        assert(rest.len() == 0);
        assert(s =~= seq![x] + rest);
    }
}

/// Steps `i` by `w` where the statements step it by one.
fn widen_steps(stmts: &mut Vec<Statement>, i: usize, w: usize)
    ensures
        final(stmts)@ == old(stmts)@.map_values(|s: Statement| widened(s, i, w)),
{
    let ghost orig = stmts@;
    let mut k: usize = 0;
    while k < stmts.len()
        invariant
            0 <= k <= orig.len(),
            stmts@.len() == orig.len(),
            forall|x: int| 0 <= x < k ==> #[trigger] stmts@[x] == widened(orig[x], i, w),
            forall|x: int| k <= x < orig.len() ==> #[trigger] stmts@[x] == orig[x],
        decreases orig.len() - k,
    {
        if unit_step_of(&stmts[k]) == Some(i) {
            let span = stmts[k].span;
            stmts.set(
                k,
                Statement {
                    kind: StatementKind::Assign(
                        Local(i),
                        Rvalue::BinaryOp(
                            BinOp::Add,
                            Operand::Copy(Local(i)),
                            Operand::Constant(Constant::Int(w as i64)),
                        ),
                    ),
                    span,
                },
            );
        }
        k = k + 1;
    }
    assert(stmts@ =~= orig.map_values(|s: Statement| widened(s, i, w)));
}

impl LoopVectorizer {
    /// Fuses each multiplication followed by an addition of its result into
    /// one vector multiply-add, as `fused` says.
    pub fn fuse_fma(stmts: &mut Vec<Statement>)
        ensures
            final(stmts)@ == fused(old(stmts)@),
    {
        let ghost orig = stmts@;
        let mut i: usize = 0;
        assert(stmts@.subrange(0, 0) + fused(stmts@.subrange(0, stmts@.len() as int)) =~= fused(orig)) by {
            assert(stmts@.subrange(0, stmts@.len() as int) =~= orig);
        }
        while stmts.len() > 1 && i < stmts.len() - 1
            invariant
                0 <= i <= stmts@.len(),
                stmts@.subrange(0, i as int) + fused(stmts@.subrange(i as int, stmts@.len() as int)) == fused(orig),
            decreases 2 * stmts@.len() - i,
        {
            let pair = fma_of(&stmts[i], &stmts[i + 1]);
            let ghost before = stmts@;
            match pair {
                Some(x) => {
                    stmts.remove(i);
                    stmts.set(i, x);
                    proof {
                        let rest = before.subrange(i + 2, before.len() as int);
                        let tail = before.subrange(i as int, before.len() as int);
                        assert(tail[0] == before[i as int]);
                        assert(tail[1] == before[i + 1]);
                        assert(tail.subrange(2, tail.len() as int) =~= rest);
                        assert(fused(tail) == seq![x] + fused(rest));
                        lemma_fused_fma_head(x, rest);
                        assert(stmts@.subrange(i as int, stmts@.len() as int) =~= seq![x] + rest);
                        assert(stmts@.subrange(0, i as int) =~= before.subrange(0, i as int));
                    }
                },
                None => {
                    proof {
                        let tail = before.subrange(i as int, before.len() as int);
                        assert(tail[0] == before[i as int]);
                        assert(tail[1] == before[i + 1]);
                        assert(tail.subrange(1, tail.len() as int) =~= before.subrange(i + 1, before.len() as int));
                        assert(before.subrange(0, i + 1) =~= before.subrange(0, i as int) + seq![before[i as int]]);
                    }
                    i = i + 1;
                },
            }
        }
        proof {
            let tail = stmts@.subrange(i as int, stmts@.len() as int);
            assert(fused(tail) == tail);
            assert(stmts@.subrange(0, i as int) + tail =~= stmts@);
        }
    }
}

/// A guard found by `last_guard` is a statement of the list.
proof fn lemma_last_guard_witness(s: Seq<Statement>, i: usize)
    requires
        last_guard(s, i) is Some,
    ensures
        exists|j: int| 0 <= j < s.len() && #[trigger] guard_of(s[j], i) is Some,
    decreases s.len(),
{
    if guard_of(s.last(), i) is Some {
        assert(guard_of(s[s.len() - 1], i) is Some);
    } else {
        lemma_last_guard_witness(s.drop_last(), i);
        let j = choose|j: int| 0 <= j < s.drop_last().len() && #[trigger] guard_of(s.drop_last()[j], i) is Some;
        assert(s.drop_last()[j] == s[j]);
    }
}

/// A list with a guard has a first one, itself a statement of the list.
proof fn lemma_first_guard(s: Seq<Statement>, i: usize, j: int)
    requires
        0 <= j < s.len(),
        guard_of(s[j], i) is Some,
    ensures
        first_guard(s, i) is Some,
        exists|x: int| 0 <= x < s.len() && #[trigger] guard_of(s[x], i) == first_guard(s, i),
    decreases s.len(),
{
    if guard_of(s[0], i) is Some {
    } else {
        assert(j > 0);
        assert(s.drop_first()[j - 1] == s[j]);
        lemma_first_guard(s.drop_first(), i, j - 1);
        let x = choose|x: int| 0 <= x < s.drop_first().len() && #[trigger] guard_of(s.drop_first()[x], i) == first_guard(
            s.drop_first(),
            i,
        );
        assert(s.drop_first()[x] == s[x + 1]);
    }
}

/// The position of the first assignment to `c`, as `first_assign` says.
fn first_assign_of(stmts: &Vec<Statement>, c: usize) -> (r: Option<usize>)
    ensures
        r matches Some(j) ==> first_assign(stmts@, c) == Some(j as int),
        r is None ==> first_assign(stmts@, c) is None,
{
    let mut k: usize = 0;
    while k < stmts.len()
        invariant
            0 <= k <= stmts@.len(),
            forall|x: int| 0 <= x < k ==> !#[trigger] assigns_local(stmts@[x], c),
        decreases stmts.len() - k,
    {
        let hit = match &stmts[k].kind {
            StatementKind::Assign(l, _) => l.0 == c,
            _ => false,
        };
        if hit {
            proof {
                assert(first_assign_at(stmts@, c, k as int));
                let j = choose|j: int| first_assign_at(stmts@, c, j);
                if j < k {
                    assert(!assigns_local(stmts@[j], c));
                }
                if k < j {
                    assert(!assigns_local(stmts@[k as int], c));
                }
            }
            return Some(k);
        }
        k = k + 1;
    }
    None
}

/// A list with an assignment to `c` has a first one.
proof fn lemma_first_assign_exists(s: Seq<Statement>, c: usize, x: int)
    requires
        0 <= x < s.len(),
        assigns_local(s[x], c),
    ensures
        first_assign(s, c) is Some,
        first_assign_at(s, c, first_assign(s, c)->0),
    decreases x,
{
    if forall|y: int| 0 <= y < x ==> !#[trigger] assigns_local(s[y], c) {
        assert(first_assign_at(s, c, x));
    } else {
        let y = choose|y: int| 0 <= y < x && #[trigger] assigns_local(s[y], c);
        lemma_first_assign_exists(s, c, y);
    }
}

/// The header's guard compares with `vl` and its switch falls through to `eh`.
fn rewrite_header(func: &mut MirFunction, h: usize, i: usize, vl: usize, eh: usize)
    requires
        h < old(func).basic_blocks@.len(),
        first_guard(old(func).basic_blocks@[h as int].statements@, i) is Some,
    ensures
        same_except_blocks(*final(func), *old(func)),
        final(func).basic_blocks@.len() == old(func).basic_blocks@.len(),
        forall|b: int|
            0 <= b < old(func).basic_blocks@.len() && b != h ==> #[trigger] final(func).basic_blocks@[b]
                == old(func).basic_blocks@[b],
        final(func).basic_blocks@[h as int].statements@ == guarded_header(
            old(func).basic_blocks@[h as int].statements@,
            i,
            vl,
        ),
        final(func).basic_blocks@[h as int].terminator == with_otherwise(
            old(func).basic_blocks@[h as int].terminator,
            eh,
        ),
{
    let mut bb = BasicBlock { statements: Vec::new(), terminator: None };
    func.basic_blocks.set_and_swap(h, &mut bb);
    let ghost orig = bb.statements@;
    match first_guard_of(&bb.statements, i) {
        Some(g) => {
            let c = g.0;
            proof {
                lemma_first_guard_witness(orig, i);
                let x = choose|x: int| 0 <= x < orig.len() && #[trigger] guard_of(orig[x], i) == first_guard(orig, i);
                assert(assigns_local(orig[x], c));
                lemma_first_assign_exists(orig, c, x);
            }
            match first_assign_of(&bb.statements, c) {
                Some(j) => {
                    let span = bb.statements[j].span;
                    bb.statements.set(
                        j,
                        Statement {
                            kind: StatementKind::Assign(
                                Local(c),
                                Rvalue::BinaryOp(BinOp::Lt, Operand::Copy(Local(i)), Operand::Copy(Local(vl))),
                            ),
                            span,
                        },
                    );
                },
                None => {},
            }
        },
        None => {},
    }
    let t = bb.terminator.take();
    let t2 = match t {
        Some(Terminator { kind: TerminatorKind::SwitchInt { discr, targets, otherwise: _ }, span }) => Some(
            Terminator { kind: TerminatorKind::SwitchInt { discr, targets, otherwise: BasicBlockId(eh) }, span },
        ),
        other => other,
    };
    bb.terminator = t2;
    func.basic_blocks.set_and_swap(h, &mut bb);
}

/// The first guard is a statement of the list.
proof fn lemma_first_guard_witness(s: Seq<Statement>, i: usize)
    requires
        first_guard(s, i) is Some,
    ensures
        exists|x: int| 0 <= x < s.len() && #[trigger] guard_of(s[x], i) == first_guard(s, i),
    decreases s.len(),
{
    if guard_of(s[0], i) is Some {
        assert(guard_of(s[0], i) == first_guard(s, i));
    } else {
        lemma_first_guard_witness(s.drop_first(), i);
        let x = choose|x: int| 0 <= x < s.drop_first().len() && #[trigger] guard_of(s.drop_first()[x], i) == first_guard(
            s.drop_first(),
            i,
        );
        assert(s.drop_first()[x] == s[x + 1]);
    }
}

/// The totals of the prefixes of `ord` grow to its total.
proof fn lemma_ord_total_prefix(blocks: Seq<BasicBlock>, ord: Seq<usize>, k: int)
    requires
        0 <= k < ord.len(),
    ensures
        ord_total(blocks, ord.subrange(0, k + 1)) == ord_total(blocks, ord.subrange(0, k)) + blocks[ord[k] as int].statements@.len(),
        ord_total(blocks, ord.subrange(0, k + 1)) <= ord_total(blocks, ord),
    decreases ord.len() - k,
{
    assert(ord.subrange(0, k + 1).drop_last() =~= ord.subrange(0, k));
    if k + 1 == ord.len() {
        assert(ord.subrange(0, k + 1) =~= ord);
    } else {
        lemma_ord_total_prefix(blocks, ord, k + 1);
    }
}

/// Whether the blocks `ord` lists hold at most `lim` statements.
fn ord_total_within(func: &MirFunction, ord: &Vec<usize>, lim: usize) -> (r: bool)
    requires
        forall|q: int| 0 <= q < ord@.len() ==> #[trigger] ord@[q] < func.basic_blocks@.len(),
    ensures
        r == (ord_total(func.basic_blocks@, ord@) <= lim),
{
    let mut total: usize = 0;
    let mut q: usize = 0;
    while q < ord.len()
        invariant
            0 <= q <= ord@.len(),
            forall|x: int| 0 <= x < ord@.len() ==> #[trigger] ord@[x] < func.basic_blocks@.len(),
            total == ord_total(func.basic_blocks@, ord@.subrange(0, q as int)),
            total <= lim,
        decreases ord.len() - q,
    {
        let len = func.basic_blocks[ord[q]].statements.len();
        proof {
            lemma_ord_total_prefix(func.basic_blocks@, ord@, q as int);
        }
        if len > lim - total {
            return false;
        }
        total = total + len;
        q = q + 1;
    }
    assert(ord@.subrange(0, ord@.len() as int) =~= ord@);
    true
}

impl LoopVectorizer {
    /// Rewrites the loop as `vectorized` says, unless that would exceed the
    /// machine's range (`too_many`); true when it did.
    #[verifier::spinoff_prover]
    #[verifier::rlimit(50)]
    fn transform(&self, func: &mut MirFunction, lp: &Loop, plan: &VectorPlan) -> (done: bool)
        requires
            natural_loop(old(func).basic_blocks@, *lp),
            vector_accepts(*old(func)),
            vector_plan(*old(func), *lp) == Some(*plan),
            2 <= plan.width <= 16,
            plan.induction < old(func).locals@.len(),
        ensures
            attempt(*old(func), *lp, *final(func), done),
    {
        let ghost f = *func;
        let ghost blocks = f.basic_blocks@;
        let ghost body = index_set_contents(lp.body);
        let ord = lp.body.to_vec();
        proof {
            ord@.unique_seq_to_set();
            assert(lists_body(ord@, *lp));
            assert forall|q: int| 0 <= q < ord@.len() implies #[trigger] ord@[q] < blocks.len() by {
                assert(ord@.to_set().contains(ord@[q]));
            }
        }
        let nl = func.locals.len();
        let n = func.basic_blocks.len();
        let c = ord.len();
        if nl > usize::MAX - 3 || n > usize::MAX - 1 || c > usize::MAX - 1 - n {
            proof {
                assert(too_many(f, *lp, ord@));
            }
            return false;
        }
        let lim = (usize::MAX - nl - 3) / 3;
        if !ord_total_within(func, &ord, lim) {
            proof {
                assert(too_many(f, *lp, ord@));
            }
            return false;
        }
        assert(!too_many(f, *lp, ord@));
        let h = lp.header.0;
        let latch = lp.latches[0].0;
        let i = plan.induction;
        let w = plan.width;
        let epi = crate::loop_utils::clone_blocks(func, &lp.body);
        let ghost m = index_map_contents(epi);
        let ghost f1 = func.basic_blocks@;
        let eh = match epi.get(h) {
            Some(e) => e,
            None => {
                return false;
            },
        };
        let vl = super::loop_unroll::new_int_local(func, "vec_limit");
        let pre = func.basic_blocks.len();
        let mut pstmts: Vec<Statement> = Vec::new();
        pstmts.push(
            Statement {
                kind: StatementKind::Assign(
                    Local(vl),
                    Rvalue::BinaryOp(
                        BinOp::Sub,
                        plan.limit.clone(),
                        Operand::Constant(Constant::Int((w - 1) as i64)),
                    ),
                ),
                span: Span::default(),
            },
        );
        func.basic_blocks.push(
            BasicBlock {
                statements: pstmts,
                terminator: Some(Terminator { kind: TerminatorKind::Goto { target: lp.header }, span: Span::default() }),
            },
        );
        let ghost f2 = func.basic_blocks@;
        super::loop_unroll::redirect(func, &lp.body, h, pre, n, pre + 1, None);
        let ghost f3 = func.basic_blocks@;
        proof {
            let hs = blocks[h as int].statements@;
            lemma_last_guard_witness(hs, i);
            let x = choose|x: int| 0 <= x < hs.len() && #[trigger] guard_of(hs[x], i) is Some;
            lemma_first_guard(hs, i, x);
            assert(f1[h as int] == blocks[h as int]);
            assert(f2[h as int] == f1[h as int]);
            assert(f3[h as int] == f2[h as int]);
        }
        rewrite_header(func, h, i, vl, eh);
        let ghost mid = func.basic_blocks@;
        let ghost base = func.locals@;
        let ghost src = ord@.map_values(|b: usize| mid[b as int].statements@);
        proof {
            assert forall|q: int, x: int|
                0 <= q < src.len() && 0 <= x < src[q].len() implies bounded_statement(
                #[trigger] src[q][x],
                base.len(),
            ) by {
                let b = ord@[q];
                assert(body.contains(b));
                assert(f1[b as int] == blocks[b as int]);
                assert(f2[b as int] == f1[b as int]);
                assert(f3[b as int] == f2[b as int]);
                if b == h {
                    let hs = blocks[h as int].statements@;
                    let g = first_guard(hs, i)->0;
                    lemma_first_guard_witness(hs, i);
                    let y = choose|y: int| 0 <= y < hs.len() && #[trigger] guard_of(hs[y], i) == first_guard(hs, i);
                    assert(assigns_local(hs[y], g.0));
                    lemma_first_assign_exists(hs, g.0, y);
                    let j = first_assign(hs, g.0)->0;
                    assert(bounded_statement(hs[y], nl as nat));
                    assert(mid[h as int].statements@ == guarded_header(hs, i, vl));
                    assert(src[q] == mid[h as int].statements@);
                    if x != j {
                        assert(src[q][x] == hs[x]);
                        assert(bounded_statement(blocks[h as int].statements@[x], nl as nat));
                    }
                } else {
                    assert(mid[b as int] == f3[b as int]);
                    assert(mid[b as int] == blocks[b as int]);
                    assert(bounded_statement(blocks[b as int].statements@[x], nl as nat));
                }
            }
            assert forall|q: int| 0 <= q < src.len() implies #[trigger] src[q].len()
                == blocks[ord@[q] as int].statements@.len() by {
                let b = ord@[q];
                assert(body.contains(b));
                assert(f1[b as int] == blocks[b as int]);
                assert(f2[b as int] == f1[b as int]);
                assert(f3[b as int] == f2[b as int]);
                if b != h {
                    assert(mid[b as int] == f3[b as int]);
                } else {
                    let hs = blocks[h as int].statements@;
                    let g = first_guard(hs, i)->0;
                    lemma_first_guard_witness(hs, i);
                    let y = choose|y: int| 0 <= y < hs.len() && #[trigger] guard_of(hs[y], i) == first_guard(hs, i);
                    assert(assigns_local(hs[y], g.0));
                    lemma_first_assign_exists(hs, g.0, y);
                }
            }
            assert(vector_locals_added(base, base, seq![], w)) by {
                assert(base.subrange(0, base.len() as int) =~= base);
            }
        }
        let mut vm = IndexMap::new();
        proof {
            assert(index_map_contents(vm) =~= Map::<usize, usize>::empty());
            assert(src.subrange(0, 0) =~= Seq::<Seq<Statement>>::empty());
            assert(ord@.subrange(0, 0) =~= Seq::<usize>::empty());
        }
        let ghost mut og: Seq<usize> = seq![];
        let mut k: usize = 0;
        while k < ord.len()
            invariant
                0 <= k <= ord@.len(),
                ord@.len() == c,
                src.len() == c,
                forall|q: int| 0 <= q < c ==> #[trigger] ord@[q] < n,
                ord@.to_set() == body,
                ord@.no_duplicates(),
                forall|b: usize| #[trigger] body.contains(b) ==> b < n,
                src == ord@.map_values(|b: usize| mid[b as int].statements@),
                forall|q: int, x: int|
                    0 <= q < src.len() && 0 <= x < src[q].len() ==> bounded_statement(#[trigger] src[q][x], base.len()),
                forall|q: int| 0 <= q < src.len() ==> #[trigger] src[q].len() == blocks[ord@[q] as int].statements@.len(),
                mid.len() == n + c + 1,
                func.basic_blocks@.len() == mid.len(),
                same_signature(*func, f),
                base.len() == nl + 1,
                vector_locals_added(func.locals@, base, og, w),
                index_map_contents(vm) == vec_blocks(src.subrange(0, k as int), i, w, Map::empty(), seq![], base.len()).1,
                og == vec_blocks(src.subrange(0, k as int), i, w, Map::empty(), seq![], base.len()).2,
                forall|q: int|
                    0 <= q < k ==> #[trigger] func.basic_blocks@[ord@[q] as int].statements@ == finished(
                        fused(vec_blocks(src.subrange(0, k as int), i, w, Map::empty(), seq![], base.len()).0[q]),
                        ord@[q] == latch,
                        i,
                        w,
                    ),
                forall|q: int| 0 <= q < k ==> #[trigger] func.basic_blocks@[ord@[q] as int].terminator == mid[ord@[q] as int].terminator,
                forall|q: int| k <= q < c ==> #[trigger] func.basic_blocks@[ord@[q] as int] == mid[ord@[q] as int],
                forall|b: int| 0 <= b < mid.len() && !body.contains(b as usize) ==> #[trigger] func.basic_blocks@[b] == mid[b],
                func.locals@.len() <= base.len() + 3 * ord_total(blocks, ord@.subrange(0, k as int)),
                ord_total(blocks, ord@) <= lim,
                lim == (usize::MAX - nl - 3) / 3,
                nl + 3 <= usize::MAX,
            decreases ord.len() - k,
        {
            let b = ord[k];
            let ghost fb0 = func.basic_blocks@;
            let mut bb = BasicBlock { statements: Vec::new(), terminator: None };
            func.basic_blocks.set_and_swap(b, &mut bb);
            let BasicBlock { statements, terminator } = bb;
            let ghost vmk = index_map_contents(vm);
            let ghost ogk = og;
            proof {
                assert(statements@ == src[k as int]);
                lemma_ord_total_prefix(blocks, ord@, k as int);
                assert forall|x: int| 0 <= x < statements@.len() implies bounded_statement(#[trigger] statements@[x], base.len()) by {
                    assert(src[k as int][x] == statements@[x]);
                }
            }
            let mut out = self.vectorize_block(func, statements, i, w, &mut vm, Ghost(base), Ghost(og));
            Self::fuse_fma(&mut out);
            if b == latch {
                widen_steps(&mut out, i, w);
            }
            let mut nb = BasicBlock { statements: out, terminator };
            func.basic_blocks.set_and_swap(b, &mut nb);
            proof {
                og = vec_stmts(src[k as int], i, w, vmk, ogk, base.len()).2;
                assert(src.subrange(0, k + 1).drop_last() =~= src.subrange(0, k as int));
                assert(src.subrange(0, k + 1).last() == src[k as int]);
                let prev = vec_blocks(src.subrange(0, k as int), i, w, Map::empty(), seq![], base.len());
                let cur = vec_stmts(src[k as int], i, w, prev.1, prev.2, base.len());
                assert(vec_blocks(src.subrange(0, k + 1), i, w, Map::empty(), seq![], base.len()) == (
                prev.0.push(cur.0),
                cur.1,
                cur.2,
                ));
                assert(ord@.subrange(0, k + 1).drop_last() =~= ord@.subrange(0, k as int));
                assert forall|q: int| k + 1 <= q < c implies #[trigger] func.basic_blocks@[ord@[q] as int] == mid[ord@[q] as int] by {
                    assert(ord@[q] != ord@[k as int]);
                }
                assert forall|bx: int| 0 <= bx < mid.len() && !body.contains(bx as usize) implies #[trigger] func.basic_blocks@[bx]
                    == mid[bx] by {
                    assert(ord@.to_set().contains(ord@[k as int]));
                }
                lemma_vec_blocks_len(src.subrange(0, k as int), i, w, Map::empty(), seq![], base.len());
                assert(func.basic_blocks@[ord@[k as int] as int].statements@ =~= finished(
                    fused(vec_blocks(src.subrange(0, k + 1), i, w, Map::empty(), seq![], base.len()).0[k as int]),
                    ord@[k as int] == latch,
                    i,
                    w,
                ));
                assert forall|q: int| 0 <= q < k + 1 implies #[trigger] func.basic_blocks@[ord@[q] as int].statements@ == finished(
                    fused(vec_blocks(src.subrange(0, k + 1), i, w, Map::empty(), seq![], base.len()).0[q]),
                    ord@[q] == latch,
                    i,
                    w,
                ) && #[trigger] func.basic_blocks@[ord@[q] as int].terminator == mid[ord@[q] as int].terminator by {
                    if q < k {
                        assert(ord@[q] != ord@[k as int]);
                        assert(func.basic_blocks@[ord@[q] as int] == fb0[ord@[q] as int]);
                        assert(vec_blocks(src.subrange(0, k + 1), i, w, Map::empty(), seq![], base.len()).0[q]
                            == prev.0[q]);
                    } else {
                        assert(fb0[ord@[k as int] as int] == mid[ord@[k as int] as int]);
                        assert(func.basic_blocks@[ord@[q] as int].terminator == mid[ord@[q] as int].terminator);
                    }
                }
            }
            k = k + 1;
        }
        proof {
            let g = *func;
            assert(src.subrange(0, c as int) =~= src);
            assert(ord@.subrange(0, c as int) =~= ord@);
            let hstmts = guarded_header(blocks[h as int].statements@, i, nl as usize);
            let ssrc = ord@.map_values(|b: usize| if b == h { hstmts } else { blocks[b as int].statements@ });
            assert forall|q: int| 0 <= q < c implies #[trigger] src[q] == ssrc[q] by {
                let b = ord@[q];
                assert(ord@.to_set().contains(b));
                assert(f1[b as int] == blocks[b as int]);
                assert(f2[b as int] == f1[b as int]);
                assert(f3[b as int] == f2[b as int]);
                if b != h {
                    assert(mid[b as int] == f3[b as int]);
                }
            }
            assert(src =~= ssrc);
            let r = vec_blocks(src, i, w, Map::empty(), seq![], base.len());
            assert(base =~= f.locals@.push(g.locals@[nl as int])) by {
                assert(g.locals@.subrange(0, base.len() as int) == base);
                assert(g.locals@[nl as int] == g.locals@.subrange(0, base.len() as int)[nl as int]);
            }
            assert(fresh_int_local(g.locals@[nl as int], "vec_limit"@)) by {
                assert(g.locals@[nl as int] == g.locals@.subrange(0, base.len() as int)[nl as int]);
            }
            assert(forall|b: usize| #[trigger] m.dom().contains(b) ==> n <= m[b] < n + c && cloned_block(
                blocks[b as int],
                g.basic_blocks@[m[b] as int],
                m,
            )) by {
                assert forall|b: usize| #[trigger] m.dom().contains(b) implies n <= m[b] < n + c && cloned_block(
                    blocks[b as int],
                    g.basic_blocks@[m[b] as int],
                    m,
                ) by {
                    let x = m[b];
                    assert(f2[x as int] == f1[x as int]);
                    assert(f3[x as int] == f2[x as int]);
                    assert(mid[x as int] == f3[x as int]);
                    assert(!body.contains(x));
                    assert(g.basic_blocks@[x as int] == mid[x as int]);
                }
            }
            assert(g.basic_blocks@[h as int].terminator == with_otherwise(blocks[h as int].terminator, m[h])) by {
                assert(ord@.to_set().contains(h));
                let q = choose|q: int| 0 <= q < ord@.len() && ord@[q] == h;
                assert(g.basic_blocks@[ord@[q] as int].terminator == mid[ord@[q] as int].terminator);
            }
            assert forall|b: int| 0 <= b < n && !body.contains(b as usize) implies retargeted(
                blocks[b],
                #[trigger] g.basic_blocks@[b],
                h,
                pre as usize,
            ) by {
                assert(f1[b] == blocks[b]);
                assert(f2[b] == f1[b]);
                assert(mid[b] == f3[b]);
            }
            assert forall|b: int| 0 <= b < n && body.contains(b as usize) && b != h implies #[trigger] g.basic_blocks@[b].terminator
                == blocks[b].terminator by {
                assert(ord@.to_set().contains(b as usize));
                let q = choose|q: int| 0 <= q < ord@.len() && ord@[q] == b;
                assert(g.basic_blocks@[ord@[q] as int].terminator == mid[ord@[q] as int].terminator);
                assert(f1[b] == blocks[b]);
                assert(f2[b] == f1[b]);
                assert(f3[b] == f2[b]);
                assert(mid[b] == f3[b]);
            }
            assert(g.basic_blocks@[pre as int] == f2[pre as int]) by {
                assert(!body.contains(pre));
                assert(mid[pre as int] == f3[pre as int]);
            }
            assert(vectorized(f, *lp, *plan, ord@, g));
        }
        true
    }
}

proof fn lemma_vec_blocks_len(src: Seq<Seq<Statement>>, i: usize, w: usize, vm: Map<usize, usize>, origins: Seq<usize>, base: nat)
    ensures
        vec_blocks(src, i, w, vm, origins, base).0.len() == src.len(),
    decreases src.len(),
{
    if src.len() > 0 {
        lemma_vec_blocks_len(src.drop_last(), i, w, vm, origins, base);
    }
}

/// The vectorizer's run over `f`: it tries the loops `lps` (the natural
/// loops `find_loops` reports, in its order) one after the other, leaves
/// those before `k` alone, and stops after vectorizing loop `k` (when
/// `k` is a loop of the list).
pub open spec fn vector_run(f: MirFunction, g: MirFunction, lps: Seq<Loop>, k: int, changed: bool) -> bool {
    &&& found_loops(f.basic_blocks@, lps)
    &&& forall|q: int| 0 <= q < lps.len() ==> natural_loop(f.basic_blocks@, #[trigger] lps[q])
    &&& 0 <= k <= lps.len()
    &&& forall|q: int| 0 <= q < k ==> attempt(f, #[trigger] lps[q], f, false)
    &&& if k < lps.len() {
        changed && attempt(f, lps[k], g, true)
    } else {
        !changed && g == f
    }
}

impl Transform for LoopVectorizer {
    open spec fn accepts(&self, func: MirFunction) -> bool {
        vector_accepts(func)
    }

    /// Vectorizes the first loop, in `find_loops` order, that `attempt`
    /// rewrites, as `vector_run` says; true when it did.
    fn run(&self, func: &mut MirFunction) -> (changed: bool)
        ensures
            exists|lps: Seq<Loop>, k: int| vector_run(*old(func), *final(func), lps, k, changed),
    {
        let ghost f0 = *func;
        let loops = find_loops(func);
        let mut idx: usize = 0;
        while idx < loops.len()
            invariant
                *func == f0,
                f0 == *old(func),
                vector_accepts(f0),
                0 <= idx <= loops@.len(),
                forall|q: int| 0 <= q < loops@.len() ==> natural_loop(f0.basic_blocks@, #[trigger] loops@[q]),
                found_loops(f0.basic_blocks@, loops@),
                forall|q: int| 0 <= q < idx ==> attempt(f0, #[trigger] loops@[q], f0, false),
            decreases loops.len() - idx,
        {
            match self.analyze(func, &loops[idx]) {
                Some(plan) => {
                    if self.transform(func, &loops[idx], &plan) {
                        assert(vector_run(f0, *func, loops@, idx as int, true));
                        return true;
                    }
                },
                None => {},
            }
            idx = idx + 1;
        }
        assert(vector_run(f0, *func, loops@, loops@.len() as int, false));
        false
    }
}

} // verus!
