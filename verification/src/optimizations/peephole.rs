//! Peephole rewrites: `!!x` becomes `x` within a block, and algebraic
//! identities (`x + 0`, `x * 1`, `x == x`, ...) are simplified where the
//! operand is an integer-family scalar. Identities that fail on floats (NaN)
//! or on Python objects (user operator overloads) are not applied to them.

use super::Transform;
use crate::fx::{operand_map_contents, OperandMap};
use crate::ir::{
    local_type, operand_eq, operand_local, operand_local_of, same_except_blocks, same_operand,
    BasicBlock, BinOp, Constant, LocalDecl, MirFunction, Operand, Rvalue, Statement,
    StatementKind, Type, UnaryOp,
};
use vstd::prelude::*;

verus! {

pub struct PeepholeOptimize;

/// Whether an operand is statically an integer-family scalar (constants count).
pub open spec fn int_like(locals: Seq<LocalDecl>, op: Operand) -> bool {
    match op {
        Operand::Constant(_) => true,
        Operand::Copy(l) | Operand::Move(l) => match local_type(locals, l.0) {
            Some(t) => t is Int || t is I8 || t is I16 || t is I32 || t is U8 || t is U16 || t is U32
                || t is U64 || t is Usize || t is Bool,
            None => false,
        },
    }
}

/// Whether an operand is statically a float (constants count).
pub open spec fn float_like(locals: Seq<LocalDecl>, op: Operand) -> bool {
    match op {
        Operand::Constant(_) => true,
        Operand::Copy(l) | Operand::Move(l) => match local_type(locals, l.0) {
            Some(t) => t is Float || t is F32,
            None => false,
        },
    }
}

pub open spec fn int_zero() -> Operand {
    Operand::Constant(Constant::Int(0))
}

pub open spec fn int_one() -> Operand {
    Operand::Constant(Constant::Int(1))
}

pub open spec fn use_bool(b: bool) -> Option<Rvalue> {
    Some(Rvalue::Use(Operand::Constant(Constant::Bool(b))))
}

/// The simplified form of `l op r`, or `None` where no identity applies.
/// `x / x` is never folded: it faults when `x == 0`.
pub open spec fn identity_rewrite(locals: Seq<LocalDecl>, op: BinOp, l: Operand, r: Operand) -> Option<
    Rvalue,
> {
    let same_int = same_operand(l, r) && int_like(locals, l);
    match op {
        BinOp::Add => if r == int_zero() && int_like(locals, l) {
            Some(Rvalue::Use(l))
        } else if l == int_zero() && int_like(locals, r) {
            Some(Rvalue::Use(r))
        } else {
            None
        },
        BinOp::Sub => if r == int_zero() && int_like(locals, l) {
            Some(Rvalue::Use(l))
        } else if same_int {
            Some(Rvalue::Use(int_zero()))
        } else {
            None
        },
        BinOp::Mul => if r == int_one() && int_like(locals, l) {
            Some(Rvalue::Use(l))
        } else if l == int_one() && int_like(locals, r) {
            Some(Rvalue::Use(r))
        } else if r == int_zero() && int_like(locals, l) {
            Some(Rvalue::Use(int_zero()))
        } else if l == int_zero() && int_like(locals, r) {
            Some(Rvalue::Use(int_zero()))
        } else {
            None
        },
        BinOp::Div => if r == int_one() && int_like(locals, l) {
            Some(Rvalue::Use(l))
        } else {
            None
        },
        BinOp::Eq => if same_int {
            use_bool(true)
        } else {
            None
        },
        BinOp::NotEq => if same_int {
            use_bool(false)
        } else {
            None
        },
        BinOp::Lt | BinOp::Gt => if same_operand(l, r) && (int_like(locals, l) || float_like(
            locals,
            l,
        )) {
            use_bool(false)
        } else {
            None
        },
        BinOp::LtEq | BinOp::GtEq => if same_int {
            use_bool(true)
        } else {
            None
        },
        BinOp::Shl | BinOp::Shr => if r == int_zero() && int_like(locals, l) {
            Some(Rvalue::Use(l))
        } else {
            None
        },
        BinOp::And => if r == int_zero() && int_like(locals, l) {
            Some(Rvalue::Use(int_zero()))
        } else if l == int_zero() && int_like(locals, r) {
            Some(Rvalue::Use(int_zero()))
        } else if same_int {
            Some(Rvalue::Use(l))
        } else {
            None
        },
        BinOp::Or => if r == int_zero() && int_like(locals, l) {
            Some(Rvalue::Use(l))
        } else if l == int_zero() && int_like(locals, r) {
            Some(Rvalue::Use(r))
        } else if same_int {
            Some(Rvalue::Use(l))
        } else {
            None
        },
        _ => None,
    }
}

/// The statement after the algebraic identities.
pub open spec fn identity_statement(locals: Seq<LocalDecl>, s: Statement) -> Statement {
    match s.kind {
        StatementKind::Assign(d, Rvalue::BinaryOp(op, l, r)) => match identity_rewrite(
            locals,
            op,
            l,
            r,
        ) {
            Some(rv) => Statement { kind: StatementKind::Assign(d, rv), span: s.span },
            None => s,
        },
        _ => s,
    }
}

/// Whether an algebraic identity rewrites `s`.
pub open spec fn identity_applies(locals: Seq<LocalDecl>, s: Statement) -> bool {
    match s.kind {
        StatementKind::Assign(_, Rvalue::BinaryOp(op, l, r)) => identity_rewrite(
            locals,
            op,
            l,
            r,
        ) is Some,
        _ => false,
    }
}

/// The statements of a block after `!!x` elimination, scanning from the front
/// with `defs` mapping each local last set to `!y` (in the current run of
/// `!`-assignments and storage markers) to `y`. A `!` of a constant ends the scan.
pub open spec fn double_not_scan(stmts: Seq<Statement>, defs: Map<usize, Operand>) -> Seq<Statement>
    decreases stmts.len(),
{
    if stmts.len() == 0 {
        stmts
    } else {
        let s = stmts[0];
        let rest = stmts.subrange(1, stmts.len() as int);
        match s.kind {
            StatementKind::Assign(out, Rvalue::UnaryOp(UnaryOp::Not, inner)) => match operand_local(
                inner,
            ) {
                None => stmts,
                Some(l) => if defs.contains_key(l) {
                    seq![
                        Statement {
                            kind: StatementKind::Assign(out, Rvalue::Use(defs[l])),
                            span: s.span,
                        },
                    ] + double_not_scan(rest, defs)
                } else {
                    seq![s] + double_not_scan(rest, defs.insert(out.0, inner))
                },
            },
            StatementKind::StorageLive(_) | StatementKind::StorageDead(_) => seq![s]
                + double_not_scan(rest, defs),
            _ => seq![s] + double_not_scan(rest, Map::empty()),
        }
    }
}

/// Whether `double_not_scan` replaces some statement.
pub open spec fn double_not_changes(stmts: Seq<Statement>, defs: Map<usize, Operand>) -> bool
    decreases stmts.len(),
{
    if stmts.len() == 0 {
        false
    } else {
        let s = stmts[0];
        let rest = stmts.subrange(1, stmts.len() as int);
        match s.kind {
            StatementKind::Assign(out, Rvalue::UnaryOp(UnaryOp::Not, inner)) => match operand_local(
                inner,
            ) {
                None => false,
                Some(l) => if defs.contains_key(l) {
                    true
                } else {
                    double_not_changes(rest, defs.insert(out.0, inner))
                },
            },
            StatementKind::StorageLive(_) | StatementKind::StorageDead(_) => double_not_changes(
                rest,
                defs,
            ),
            _ => double_not_changes(rest, Map::empty()),
        }
    }
}

/// The statements of block `b` after the whole pass.
pub open spec fn peephole_block(locals: Seq<LocalDecl>, b: BasicBlock) -> Seq<Statement> {
    double_not_scan(b.statements@, Map::empty()).map_values(
        |s: Statement| identity_statement(locals, s),
    )
}

fn is_int_like(locals: &Vec<LocalDecl>, op: &Operand) -> (r: bool)
    ensures
        r == int_like(locals@, *op),
{
    match op {
        Operand::Constant(_) => true,
        Operand::Copy(l) | Operand::Move(l) => l.0 < locals.len() && matches!(
            locals[l.0].ty,
            Type::Int | Type::I8 | Type::I16 | Type::I32 | Type::U8 | Type::U16 | Type::U32
                | Type::U64 | Type::Usize | Type::Bool
        ),
    }
}

fn is_float_like(locals: &Vec<LocalDecl>, op: &Operand) -> (r: bool)
    ensures
        r == float_like(locals@, *op),
{
    match op {
        Operand::Constant(_) => true,
        Operand::Copy(l) | Operand::Move(l) => l.0 < locals.len() && matches!(
            locals[l.0].ty,
            Type::Float | Type::F32
        ),
    }
}

fn is_int_const(op: &Operand, v: i64) -> (r: bool)
    ensures
        r == (*op == Operand::Constant(Constant::Int(v))),
{
    match op {
        Operand::Constant(Constant::Int(c)) => *c == v,
        _ => false,
    }
}

fn bool_use(b: bool) -> (r: Option<Rvalue>)
    ensures
        r == use_bool(b),
{
    Some(Rvalue::Use(Operand::Constant(Constant::Bool(b))))
}

fn zero_use() -> (r: Rvalue)
    ensures
        r == Rvalue::Use(int_zero()),
{
    Rvalue::Use(Operand::Constant(Constant::Int(0)))
}

fn rewrite_binop(locals: &Vec<LocalDecl>, op: BinOp, l: &Operand, r: &Operand) -> (res: Option<
    Rvalue,
>)
    ensures
        res == identity_rewrite(locals@, op, *l, *r),
{
    let same_int = operand_eq(l, r) && is_int_like(locals, l);
    match op {
        BinOp::Add => if is_int_const(r, 0) && is_int_like(locals, l) {
            Some(Rvalue::Use(l.clone()))
        } else if is_int_const(l, 0) && is_int_like(locals, r) {
            Some(Rvalue::Use(r.clone()))
        } else {
            None
        },
        BinOp::Sub => if is_int_const(r, 0) && is_int_like(locals, l) {
            Some(Rvalue::Use(l.clone()))
        } else if same_int {
            Some(zero_use())
        } else {
            None
        },
        BinOp::Mul => if is_int_const(r, 1) && is_int_like(locals, l) {
            Some(Rvalue::Use(l.clone()))
        } else if is_int_const(l, 1) && is_int_like(locals, r) {
            Some(Rvalue::Use(r.clone()))
        } else if is_int_const(r, 0) && is_int_like(locals, l) {
            Some(zero_use())
        } else if is_int_const(l, 0) && is_int_like(locals, r) {
            Some(zero_use())
        } else {
            None
        },
        BinOp::Div => if is_int_const(r, 1) && is_int_like(locals, l) {
            Some(Rvalue::Use(l.clone()))
        } else {
            None
        },
        BinOp::Eq => if same_int {
            bool_use(true)
        } else {
            None
        },
        BinOp::NotEq => if same_int {
            bool_use(false)
        } else {
            None
        },
        BinOp::Lt | BinOp::Gt => if operand_eq(l, r) && (is_int_like(locals, l) || is_float_like(
            locals,
            l,
        )) {
            bool_use(false)
        } else {
            None
        },
        BinOp::LtEq | BinOp::GtEq => if same_int {
            bool_use(true)
        } else {
            None
        },
        BinOp::Shl | BinOp::Shr => if is_int_const(r, 0) && is_int_like(locals, l) {
            Some(Rvalue::Use(l.clone()))
        } else {
            None
        },
        BinOp::And => if is_int_const(r, 0) && is_int_like(locals, l) {
            Some(zero_use())
        } else if is_int_const(l, 0) && is_int_like(locals, r) {
            Some(zero_use())
        } else if same_int {
            Some(Rvalue::Use(l.clone()))
        } else {
            None
        },
        BinOp::Or => if is_int_const(r, 0) && is_int_like(locals, l) {
            Some(Rvalue::Use(l.clone()))
        } else if is_int_const(l, 0) && is_int_like(locals, r) {
            Some(Rvalue::Use(r.clone()))
        } else if same_int {
            Some(Rvalue::Use(l.clone()))
        } else {
            None
        },
        _ => None,
    }
}

impl PeepholeOptimize {
    /// Replaces `b = !a` by `b = c` where `a = !c` came earlier in the same
    /// run of `!`-assignments and storage markers.
    fn eliminate_double_not(stmts: &mut Vec<Statement>) -> (changed: bool)
        ensures
            final(stmts)@ == double_not_scan(old(stmts)@, Map::empty()),
            changed == double_not_changes(old(stmts)@, Map::empty()),
    {
        let ghost orig = stmts@;
        let ghost n = orig.len();
        let mut not_defs = OperandMap::new();
        let mut changed = false;
        let mut j: usize = 0;
        assert(orig.subrange(0, n as int) =~= orig);
        assert(operand_map_contents(not_defs) =~= Map::<usize, Operand>::empty());
        while j < stmts.len()
            invariant
                n == orig.len(),
                orig == old(stmts)@,
                stmts@.len() == n,
                0 <= j <= n,
                stmts@.subrange(j as int, n as int) == orig.subrange(j as int, n as int),
                double_not_scan(orig, Map::empty()) == stmts@.subrange(0, j as int)
                    + double_not_scan(orig.subrange(j as int, n as int), not_defs@),
                double_not_changes(orig, Map::empty()) == (changed || double_not_changes(
                    orig.subrange(j as int, n as int),
                    not_defs@,
                )),
            decreases n - j,
        {
            let ghost tail = orig.subrange(j as int, n as int);
            let ghost rest = orig.subrange(j + 1, n as int);
            let ghost defs = not_defs@;
            assert(tail[0] == orig[j as int]);
            assert(tail.subrange(1, tail.len() as int) =~= rest);
            assert(stmts@[j as int] == orig[j as int]) by {
                assert(stmts@.subrange(j as int, n as int)[0] == stmts@[j as int]);
            }
            let mut replacement: Option<Operand> = None;
            let mut stop = false;
            match &stmts[j].kind {
                StatementKind::Assign(out, Rvalue::UnaryOp(UnaryOp::Not, inner)) => {
                    match operand_local_of(inner) {
                        None => {
                            stop = true;
                        },
                        Some(l) => {
                            match not_defs.get(l.0) {
                                Some(src) => {
                                    replacement = Some(src.clone());
                                },
                                None => {
                                    not_defs.insert(out.0, inner.clone());
                                },
                            }
                        },
                    }
                },
                StatementKind::StorageLive(_) | StatementKind::StorageDead(_) => {},
                _ => {
                    not_defs.clear();
                    assert(not_defs@ =~= Map::<usize, Operand>::empty());
                },
            }
            if stop {
                assert(double_not_scan(tail, defs) == tail);
                assert(!double_not_changes(tail, defs));
                assert(stmts@ =~= stmts@.subrange(0, j as int) + tail);
                return changed;
            }
            if let Some(src) = replacement {
                let (out, span) = match &stmts[j].kind {
                    StatementKind::Assign(out, _) => (*out, stmts[j].span),
                    _ => (crate::ir::Local(0), stmts[j].span),
                };
                stmts.set(j, Statement { kind: StatementKind::Assign(out, Rvalue::Use(src)), span });
                changed = true;
            }
            assert(stmts@.subrange(j + 1, n as int) =~= rest);
            assert(stmts@.subrange(0, j + 1) =~= stmts@.subrange(0, j as int) + seq![
                stmts@[j as int],
            ]);
            j = j + 1;
        }
        assert(orig.subrange(n as int, n as int) =~= Seq::<Statement>::empty());
        assert(stmts@.subrange(0, n as int) =~= stmts@);
        changed
    }

    /// Applies the algebraic identities to every statement of one block.
    fn simplify_identities(stmts: &mut Vec<Statement>, locals: &Vec<LocalDecl>) -> (changed: bool)
        ensures
            final(stmts)@ == old(stmts)@.map_values(|s: Statement| identity_statement(locals@, s)),
            changed == exists|j: int|
                0 <= j < old(stmts)@.len() && #[trigger] identity_applies(locals@, old(stmts)@[j]),
    {
        let ghost orig = stmts@;
        let mut changed = false;
        let mut j: usize = 0;
        while j < stmts.len()
            invariant
                stmts@.len() == orig.len(),
                0 <= j <= orig.len(),
                forall|k: int|
                    0 <= k < j ==> stmts@[k] == identity_statement(locals@, #[trigger] orig[k]),
                forall|k: int| j <= k < orig.len() ==> stmts@[k] == orig[k],
                changed == exists|k: int| 0 <= k < j && #[trigger] identity_applies(locals@, orig[k]),
            decreases orig.len() - j,
        {
            let rewritten = match &stmts[j].kind {
                StatementKind::Assign(d, Rvalue::BinaryOp(op, l, r)) => {
                    match rewrite_binop(locals, *op, l, r) {
                        Some(rv) => Some(StatementKind::Assign(*d, rv)),
                        None => None,
                    }
                },
                _ => None,
            };
            if let Some(kind) = rewritten {
                let span = stmts[j].span;
                stmts.set(j, Statement { kind, span });
                changed = true;
            }
            assert(identity_applies(locals@, orig[j as int]) == rewritten is Some);
            j = j + 1;
        }
        assert(stmts@ =~= orig.map_values(|s: Statement| identity_statement(locals@, s)));
        changed
    }
}

impl Transform for PeepholeOptimize {
    open spec fn accepts(&self, func: MirFunction) -> bool {
        true
    }

    /// Each block becomes `peephole_block` of it: `!!x` elimination, then the
    /// algebraic identities.
    fn run(&self, func: &mut MirFunction) -> (changed: bool)
        ensures
            same_except_blocks(*final(func), *old(func)),
            final(func).basic_blocks@.len() == old(func).basic_blocks@.len(),
            forall|i: int|
                0 <= i < old(func).basic_blocks@.len() ==> {
                    &&& #[trigger] final(func).basic_blocks@[i].terminator
                        == old(func).basic_blocks@[i].terminator
                    &&& final(func).basic_blocks@[i].statements@ == peephole_block(
                        old(func).locals@,
                        old(func).basic_blocks@[i],
                    )
                },
            changed == exists|i: int|
                0 <= i < old(func).basic_blocks@.len() && {
                    ||| double_not_changes(
                        #[trigger] old(func).basic_blocks@[i].statements@,
                        Map::empty(),
                    )
                    ||| exists|j: int|
                        0 <= j < double_not_scan(
                            old(func).basic_blocks@[i].statements@,
                            Map::empty(),
                        ).len() && identity_applies(
                            old(func).locals@,
                            #[trigger] double_not_scan(
                                old(func).basic_blocks@[i].statements@,
                                Map::empty(),
                            )[j],
                        )
                },
    {
        let ghost orig = func.basic_blocks@;
        let ghost locals = func.locals@;
        let mut changed = false;
        let mut i: usize = 0;
        while i < func.basic_blocks.len()
            invariant
                same_except_blocks(*func, *old(func)),
                orig == old(func).basic_blocks@,
                locals == old(func).locals@,
                func.basic_blocks@.len() == orig.len(),
                0 <= i <= orig.len(),
                forall|k: int|
                    0 <= k < i ==> {
                        &&& #[trigger] func.basic_blocks@[k].terminator == orig[k].terminator
                        &&& func.basic_blocks@[k].statements@ == peephole_block(locals, orig[k])
                    },
                forall|k: int| i <= k < orig.len() ==> #[trigger] func.basic_blocks@[k] == orig[k],
                changed == exists|k: int|
                    0 <= k < i && {
                        ||| double_not_changes(#[trigger] orig[k].statements@, Map::empty())
                        ||| exists|j: int|
                            0 <= j < double_not_scan(orig[k].statements@, Map::empty()).len()
                                && identity_applies(
                                locals,
                                #[trigger] double_not_scan(orig[k].statements@, Map::empty())[j],
                            )
                    },
            decreases orig.len() - i,
        {
            let mut bb = BasicBlock { statements: Vec::new(), terminator: None };
            func.basic_blocks.set_and_swap(i, &mut bb);
            let c1 = Self::eliminate_double_not(&mut bb.statements);
            let c2 = Self::simplify_identities(&mut bb.statements, &func.locals);
            func.basic_blocks.set_and_swap(i, &mut bb);
            changed = changed || c1 || c2;
            i = i + 1;
        }
        changed
    }
}

} // verus!
