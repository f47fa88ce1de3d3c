//! Strength reduction: multiplication, division and remainder by a power of
//! two become shifts and masks, except on Python objects (whose operators
//! dispatch to user overloads).

use super::Transform;
use crate::ir::{
    local_type, operand_local, same_except_blocks, spec_is_py_value, BasicBlock, BinOp, Constant,
    LocalDecl, MirFunction, Operand, Rvalue, Statement, StatementKind,
};
use vstd::prelude::*;

verus! {

pub struct StrengthReduction;

/// `k` where `c == 2^k`, or `None` where `c` is not a power of two.
pub open spec fn exact_log2(c: int) -> Option<int>
    decreases c,
{
    if c <= 0 {
        None
    } else if c == 1 {
        Some(0)
    } else if c % 2 != 0 {
        None
    } else {
        match exact_log2(c / 2) {
            Some(k) => Some(k + 1),
            None => None,
        }
    }
}

/// Whether the operand is a local of Python-object type.
pub open spec fn pyobj_operand(locals: Seq<LocalDecl>, op: Operand) -> bool {
    match operand_local(op) {
        Some(l) => match local_type(locals, l) {
            Some(t) => spec_is_py_value(t),
            None => false,
        },
        None => false,
    }
}

/// A constant operand `c` with `c > min` a power of two.
pub open spec fn pow2_const_above(op: Operand, min: int) -> bool {
    op matches Operand::Constant(Constant::Int(c)) && c > min && exact_log2(c as int) is Some
}

pub open spec fn const_value(op: Operand) -> i64 {
    op->Constant_0->Int_0
}

/// Whether a local operand is declared.
pub open spec fn declared(locals: Seq<LocalDecl>, op: Operand) -> bool {
    match operand_local(op) {
        Some(l) => l < locals.len(),
        None => true,
    }
}

/// The multiplication `l * r` matches its first form (`x * 2^k`, `x` not a Python object).
pub open spec fn mul_left_form(locals: Seq<LocalDecl>, l: Operand, r: Operand) -> bool {
    pow2_const_above(r, 2) && !pyobj_operand(locals, l)
}

/// The replacement of `l op r`, or `None` where it stays.
pub open spec fn reduced_binop(locals: Seq<LocalDecl>, op: BinOp, l: Operand, r: Operand) -> Option<
    Rvalue,
> {
    match op {
        BinOp::Mul => if mul_left_form(locals, l, r) {
            Some(
                Rvalue::BinaryOp(
                    BinOp::Shl,
                    l,
                    Operand::Constant(
                        Constant::Int(exact_log2(const_value(r) as int).unwrap() as i64),
                    ),
                ),
            )
        } else if pow2_const_above(l, 2) && !pyobj_operand(locals, r) {
            Some(
                Rvalue::BinaryOp(
                    BinOp::Shl,
                    r,
                    Operand::Constant(
                        Constant::Int(exact_log2(const_value(l) as int).unwrap() as i64),
                    ),
                ),
            )
        } else {
            None
        },
        BinOp::Div => if pow2_const_above(r, 1) && !pyobj_operand(locals, l) {
            Some(
                Rvalue::BinaryOp(
                    BinOp::Shr,
                    l,
                    Operand::Constant(
                        Constant::Int(exact_log2(const_value(r) as int).unwrap() as i64),
                    ),
                ),
            )
        } else {
            None
        },
        BinOp::Mod => if pow2_const_above(r, 1) && !pyobj_operand(locals, l) {
            Some(
                Rvalue::BinaryOp(
                    BinOp::And,
                    l,
                    Operand::Constant(Constant::Int((const_value(r) - 1) as i64)),
                ),
            )
        } else {
            None
        },
        _ => None,
    }
}

/// The type of every local whose type the pass inspects in `l op r` is declared.
pub open spec fn inspected_declared(locals: Seq<LocalDecl>, op: BinOp, l: Operand, r: Operand) -> bool {
    match op {
        BinOp::Mul => {
            &&& pow2_const_above(r, 2) ==> declared(locals, l)
            &&& (!mul_left_form(locals, l, r) && pow2_const_above(l, 2)) ==> declared(locals, r)
        },
        BinOp::Div | BinOp::Mod => pow2_const_above(r, 1) ==> declared(locals, l),
        _ => true,
    }
}

pub open spec fn statement_inspected_declared(locals: Seq<LocalDecl>, s: Statement) -> bool {
    match s.kind {
        StatementKind::Assign(_, Rvalue::BinaryOp(op, l, r)) => inspected_declared(locals, op, l, r),
        _ => true,
    }
}

pub open spec fn reduced_statement(locals: Seq<LocalDecl>, s: Statement) -> Statement {
    match s.kind {
        StatementKind::Assign(d, Rvalue::BinaryOp(op, l, r)) => match reduced_binop(locals, op, l, r) {
            Some(rv) => Statement { kind: StatementKind::Assign(d, rv), span: s.span },
            None => s,
        },
        _ => s,
    }
}

pub open spec fn statement_reduces(locals: Seq<LocalDecl>, s: Statement) -> bool {
    match s.kind {
        StatementKind::Assign(_, Rvalue::BinaryOp(op, l, r)) => reduced_binop(locals, op, l, r) is Some,
        _ => false,
    }
}

/// `k` with `c == 2^k`, when there is one.
fn log2_of(c: i64) -> (r: Option<i64>)
    ensures
        r matches Some(k) ==> exact_log2(c as int) == Some(k as int),
        r is None ==> exact_log2(c as int) is None,
{
    if c <= 0 {
        return None;
    }
    let mut v: i64 = c;
    let mut k: i64 = 0;
    while v > 1 && v % 2 == 0
        invariant
            1 <= v <= c,
            0 <= k,
            v * pow2_nat(k as nat) == c,
            exact_log2(c as int) == match exact_log2(v as int) {
                Some(j) => Some(j + k),
                None => None::<int>,
            },
        decreases v,
    {
        proof {
            lemma_pow2_grows(k as nat);
            let p = pow2_nat(k as nat);
            assert(v * p >= p) by (nonlinear_arith)
                requires
                    p >= 0,
                    v >= 1,
            ;
            assert(k + 1 <= c);
            assert((v / 2) * (2 * p) == c) by (nonlinear_arith)
                requires
                    v % 2 == 0,
                    v * p == c,
            ;
        }
        v = v / 2;
        k = k + 1;
    }
    if v == 1 {
        Some(k)
    } else {
        None
    }
}

pub open spec fn pow2_nat(k: nat) -> int
    decreases k,
{
    if k == 0 {
        1
    } else {
        2 * pow2_nat((k - 1) as nat)
    }
}

proof fn lemma_pow2_grows(k: nat)
    ensures
        pow2_nat(k) >= k + 1,
        pow2_nat(k + 1) == 2 * pow2_nat(k),
    decreases k,
{
    if k > 0 {
        lemma_pow2_grows((k - 1) as nat);
    }
}

fn is_pyobj(locals: &Vec<LocalDecl>, op: &Operand) -> (r: bool)
    requires
        declared(locals@, *op),
    ensures
        r == pyobj_operand(locals@, *op),
{
    match op {
        Operand::Copy(l) | Operand::Move(l) => locals[l.0].ty.is_py_value(),
        _ => false,
    }
}

/// The shift for a constant `c > min` that is a power of two.
fn pow2_shift(op: &Operand, min: i64) -> (r: Option<i64>)
    ensures
        r is Some == pow2_const_above(*op, min as int),
        r matches Some(k) ==> exact_log2(const_value(*op) as int) == Some(k as int),
{
    match op {
        Operand::Constant(Constant::Int(c)) => if *c > min {
            log2_of(*c)
        } else {
            None
        },
        _ => None,
    }
}

fn reduce_binop(locals: &Vec<LocalDecl>, op: BinOp, l: &Operand, r: &Operand) -> (res: Option<
    Rvalue,
>)
    requires
        inspected_declared(locals@, op, *l, *r),
    ensures
        res == reduced_binop(locals@, op, *l, *r),
{
    match op {
        BinOp::Mul => {
            if let Some(k) = pow2_shift(r, 2) {
                if !is_pyobj(locals, l) {
                    return Some(
                        Rvalue::BinaryOp(BinOp::Shl, l.clone(), Operand::Constant(Constant::Int(k))),
                    );
                }
            }
            if let Some(k) = pow2_shift(l, 2) {
                if !is_pyobj(locals, r) {
                    return Some(
                        Rvalue::BinaryOp(BinOp::Shl, r.clone(), Operand::Constant(Constant::Int(k))),
                    );
                }
            }
            None
        },
        BinOp::Div => {
            if let Some(k) = pow2_shift(r, 1) {
                if !is_pyobj(locals, l) {
                    return Some(
                        Rvalue::BinaryOp(BinOp::Shr, l.clone(), Operand::Constant(Constant::Int(k))),
                    );
                }
            }
            None
        },
        BinOp::Mod => {
            if let Some(_k) = pow2_shift(r, 1) {
                if !is_pyobj(locals, l) {
                    let c = match r {
                        Operand::Constant(Constant::Int(c)) => *c,
                        _ => 1,
                    };
                    return Some(
                        Rvalue::BinaryOp(BinOp::And, l.clone(), Operand::Constant(Constant::Int(c - 1))),
                    );
                }
            }
            None
        },
        _ => None,
    }
}

fn reduce_statements(stmts: &mut Vec<Statement>, locals: &Vec<LocalDecl>) -> (changed: bool)
    requires
        forall|j: int|
            0 <= j < old(stmts)@.len() ==> #[trigger] statement_inspected_declared(
                locals@,
                old(stmts)@[j],
            ),
    ensures
        final(stmts)@ == old(stmts)@.map_values(|s: Statement| reduced_statement(locals@, s)),
        changed == exists|j: int|
            0 <= j < old(stmts)@.len() && #[trigger] statement_reduces(locals@, old(stmts)@[j]),
{
    let ghost orig = stmts@;
    let mut changed = false;
    let mut j: usize = 0;
    while j < stmts.len()
        invariant
            stmts@.len() == orig.len(),
            orig == old(stmts)@,
            0 <= j <= orig.len(),
            forall|k: int| 0 <= k < orig.len() ==> #[trigger] statement_inspected_declared(locals@, orig[k]),
            forall|k: int| 0 <= k < j ==> stmts@[k] == reduced_statement(locals@, #[trigger] orig[k]),
            forall|k: int| j <= k < orig.len() ==> stmts@[k] == orig[k],
            changed == exists|k: int| 0 <= k < j && #[trigger] statement_reduces(locals@, orig[k]),
        decreases orig.len() - j,
    {
        assert(statement_inspected_declared(locals@, orig[j as int]));
        let rewritten = match &stmts[j].kind {
            StatementKind::Assign(d, Rvalue::BinaryOp(op, l, r)) => {
                match reduce_binop(locals, *op, l, r) {
                    Some(rv) => Some(StatementKind::Assign(*d, rv)),
                    None => None,
                }
            },
            _ => None,
        };
        if let Some(kind) = rewritten {
            let span = stmts[j].span;
            stmts.set(j, Statement { kind, span });
            changed = true;
        }
        assert(statement_reduces(locals@, orig[j as int]) == rewritten is Some);
        j = j + 1;
    }
    assert(stmts@ =~= orig.map_values(|s: Statement| reduced_statement(locals@, s)));
    changed
}

impl Transform for StrengthReduction {
    /// Every local whose type the pass inspects is declared.
    open spec fn accepts(&self, func: MirFunction) -> bool {
        forall|i: int, j: int|
            0 <= i < func.basic_blocks@.len() && 0 <= j < func.basic_blocks@[i].statements@.len()
                ==> #[trigger] statement_inspected_declared(
                func.locals@,
                func.basic_blocks@[i].statements@[j],
            )
    }

    /// Rewrites every statement as `reduced_statement` says.
    fn run(&self, func: &mut MirFunction) -> (changed: bool)
        ensures
            same_except_blocks(*final(func), *old(func)),
            final(func).basic_blocks@.len() == old(func).basic_blocks@.len(),
            forall|i: int|
                0 <= i < old(func).basic_blocks@.len() ==> {
                    &&& #[trigger] final(func).basic_blocks@[i].terminator
                        == old(func).basic_blocks@[i].terminator
                    &&& final(func).basic_blocks@[i].statements@
                        == old(func).basic_blocks@[i].statements@.map_values(
                        |s: Statement| reduced_statement(old(func).locals@, s),
                    )
                },
            changed == exists|i: int, j: int|
                0 <= i < old(func).basic_blocks@.len() && 0 <= j
                    < old(func).basic_blocks@[i].statements@.len() && #[trigger] statement_reduces(
                    old(func).locals@,
                    old(func).basic_blocks@[i].statements@[j],
                ),
    {
        let ghost orig = func.basic_blocks@;
        let ghost locals = func.locals@;
        let mut changed = false;
        let mut i: usize = 0;
        while i < func.basic_blocks.len()
            invariant
                same_except_blocks(*func, *old(func)),
                orig == old(func).basic_blocks@,
                locals == old(func).locals@,
                func.basic_blocks@.len() == orig.len(),
                0 <= i <= orig.len(),
                forall|k: int, j: int|
                    0 <= k < orig.len() && 0 <= j < orig[k].statements@.len()
                        ==> #[trigger] statement_inspected_declared(locals, orig[k].statements@[j]),
                forall|k: int|
                    0 <= k < i ==> {
                        &&& #[trigger] func.basic_blocks@[k].terminator == orig[k].terminator
                        &&& func.basic_blocks@[k].statements@ == orig[k].statements@.map_values(
                            |s: Statement| reduced_statement(locals, s),
                        )
                    },
                forall|k: int| i <= k < orig.len() ==> #[trigger] func.basic_blocks@[k] == orig[k],
                changed == exists|k: int, j: int|
                    0 <= k < i && 0 <= j < orig[k].statements@.len() && #[trigger] statement_reduces(
                        locals,
                        orig[k].statements@[j],
                    ),
            decreases orig.len() - i,
        {
            let mut bb = BasicBlock { statements: Vec::new(), terminator: None };
            func.basic_blocks.set_and_swap(i, &mut bb);
            assert(bb.statements@ == orig[i as int].statements@);
            assert forall|j: int|
                0 <= j < bb.statements@.len() implies #[trigger] statement_inspected_declared(
                    locals,
                    bb.statements@[j],
                ) by {
                assert(statement_inspected_declared(locals, orig[i as int].statements@[j]));
            }
            let c = reduce_statements(&mut bb.statements, &func.locals);
            func.basic_blocks.set_and_swap(i, &mut bb);
            changed = changed || c;
            i = i + 1;
        }
        changed
    }
}

} // verus!
