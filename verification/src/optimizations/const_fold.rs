//! Constant folding: an operation on constant operands is replaced by its
//! value, unless evaluating it would overflow (that is left for the runtime
//! overflow fault).

use super::Transform;
use crate::ir::{
    local_type, rewrites_statements, same_except_blocks, some_statement, BasicBlock, BinOp, Constant,
    Local, LocalDecl, MirFunction, Operand, Rvalue, Statement, StatementKind, Type, UnaryOp,
};
use vstd::prelude::*;

verus! {

pub struct ConstantFolding;

/// The sign bit of an `f64`; negating a float flips exactly this bit.
pub const F64_SIGN_BIT: u64 = 0x8000_0000_0000_0000u64;

pub open spec fn int_result(r: Option<i64>) -> Option<Constant> {
    match r {
        Some(v) => Some(Constant::Int(v)),
        None => None,
    }
}

/// The value of `a op b` on integers, or `None` where it overflows, divides
/// by zero, or the operator is not folded.
pub open spec fn fold_int_binop(op: BinOp, a: i64, b: i64) -> Option<Constant> {
    match op {
        BinOp::Add => int_result(a.checked_add(b)),
        BinOp::Sub => int_result(a.checked_sub(b)),
        BinOp::Mul => int_result(a.checked_mul(b)),
        BinOp::Div => int_result(a.checked_div(b)),
        BinOp::Mod => int_result(a.checked_rem(b)),
        BinOp::Eq => Some(Constant::Bool(a == b)),
        BinOp::NotEq => Some(Constant::Bool(a != b)),
        BinOp::Lt => Some(Constant::Bool(a < b)),
        BinOp::LtEq => Some(Constant::Bool(a <= b)),
        BinOp::Gt => Some(Constant::Bool(a > b)),
        BinOp::GtEq => Some(Constant::Bool(a >= b)),
        BinOp::Shl => Some(Constant::Int(a.wrapping_shl(b as u32))),
        BinOp::Shr => Some(Constant::Int(a.wrapping_shr(b as u32))),
        _ => None,
    }
}

/// The value of `a op b` on booleans, where the operator is folded.
pub open spec fn fold_bool_binop(op: BinOp, a: bool, b: bool) -> Option<Constant> {
    match op {
        BinOp::Eq => Some(Constant::Bool(a == b)),
        BinOp::NotEq => Some(Constant::Bool(a != b)),
        BinOp::And => Some(Constant::Bool(a && b)),
        BinOp::Or => Some(Constant::Bool(a || b)),
        _ => None,
    }
}

/// The value of `op c`, where it is folded. Negating `i64::MIN` overflows and
/// is not folded; negating a float flips its sign bit.
pub open spec fn fold_unary(op: UnaryOp, c: Constant) -> Option<Constant> {
    match (op, c) {
        (UnaryOp::Neg, Constant::Int(a)) => if a == i64::MIN {
            None
        } else {
            Some(Constant::Int((-a) as i64))
        },
        (UnaryOp::Neg, Constant::Float(a)) => Some(Constant::Float(a ^ F64_SIGN_BIT)),
        (UnaryOp::Not, Constant::Bool(a)) => Some(Constant::Bool(!a)),
        (UnaryOp::Not, Constant::Int(a)) => Some(Constant::Bool(a == 0)),
        (UnaryOp::Pos, Constant::Int(a)) => Some(Constant::Int(a)),
        (UnaryOp::Pos, Constant::Float(a)) => Some(Constant::Float(a)),
        _ => None,
    }
}

/// The rvalue a folded value becomes: a float stored into an `F32` slot is
/// wrapped in a narrowing cast, anything else is used as it is.
pub open spec fn folded_value(v: Constant, narrow_f32: bool) -> Rvalue {
    if narrow_f32 && v is Float {
        Rvalue::Cast(Operand::Constant(v), Type::F32)
    } else {
        Rvalue::Use(Operand::Constant(v))
    }
}

/// What the pass replaces `rv` with, or `None` where it leaves it alone.
/// Arithmetic on two float constants is not folded here.
pub open spec fn folded_rvalue(rv: Rvalue, narrow_f32: bool) -> Option<Rvalue> {
    match rv {
        Rvalue::BinaryOp(op, Operand::Constant(Constant::Int(a)), Operand::Constant(Constant::Int(b))) => {
            match fold_int_binop(op, a, b) {
                Some(v) => Some(Rvalue::Use(Operand::Constant(v))),
                None => None,
            }
        },
        Rvalue::BinaryOp(op, Operand::Constant(Constant::Bool(a)), Operand::Constant(Constant::Bool(b))) => {
            match fold_bool_binop(op, a, b) {
                Some(v) => Some(Rvalue::Use(Operand::Constant(v))),
                None => None,
            }
        },
        Rvalue::UnaryOp(op, Operand::Constant(c)) => match fold_unary(op, c) {
            Some(v) => Some(folded_value(v, narrow_f32)),
            None => None,
        },
        _ => None,
    }
}

/// Whether local `l` is declared `F32`.
pub open spec fn is_f32_local(locals: Seq<LocalDecl>, l: Local) -> bool {
    match local_type(locals, l.0) {
        Some(t) => t is F32,
        None => false,
    }
}

/// Whether the pass rewrites statement `s` of a function with `locals`.
pub open spec fn statement_folds(locals: Seq<LocalDecl>, s: Statement) -> bool {
    match s.kind {
        StatementKind::Assign(d, rv) => folded_rvalue(rv, is_f32_local(locals, d)) is Some,
        _ => false,
    }
}

/// Statement `s` after folding.
pub open spec fn folded_statement(locals: Seq<LocalDecl>, s: Statement) -> Statement {
    match s.kind {
        StatementKind::Assign(d, rv) => match folded_rvalue(rv, is_f32_local(locals, d)) {
            Some(r) => Statement { kind: StatementKind::Assign(d, r), span: s.span },
            None => s,
        },
        _ => s,
    }
}

fn int_value(r: Option<i64>) -> (c: Option<Constant>)
    ensures
        c == int_result(r),
{
    match r {
        Some(v) => Some(Constant::Int(v)),
        None => None,
    }
}

fn eval_int_binop(op: BinOp, a: i64, b: i64) -> (r: Option<Constant>)
    ensures
        r == fold_int_binop(op, a, b),
{
    match op {
        BinOp::Add => int_value(a.checked_add(b)),
        BinOp::Sub => int_value(a.checked_sub(b)),
        BinOp::Mul => int_value(a.checked_mul(b)),
        BinOp::Div => int_value(a.checked_div(b)),
        BinOp::Mod => int_value(a.checked_rem(b)),
        BinOp::Eq => Some(Constant::Bool(a == b)),
        BinOp::NotEq => Some(Constant::Bool(a != b)),
        BinOp::Lt => Some(Constant::Bool(a < b)),
        BinOp::LtEq => Some(Constant::Bool(a <= b)),
        BinOp::Gt => Some(Constant::Bool(a > b)),
        BinOp::GtEq => Some(Constant::Bool(a >= b)),
        BinOp::Shl => Some(Constant::Int(a.wrapping_shl(b as u32))),
        BinOp::Shr => Some(Constant::Int(a.wrapping_shr(b as u32))),
        _ => None,
    }
}

fn eval_bool_binop(op: BinOp, a: bool, b: bool) -> (r: Option<Constant>)
    ensures
        r == fold_bool_binop(op, a, b),
{
    match op {
        BinOp::Eq => Some(Constant::Bool(a == b)),
        BinOp::NotEq => Some(Constant::Bool(a != b)),
        BinOp::And => Some(Constant::Bool(a && b)),
        BinOp::Or => Some(Constant::Bool(a || b)),
        _ => None,
    }
}

fn eval_unary(op: UnaryOp, c: &Constant) -> (r: Option<Constant>)
    ensures
        r == fold_unary(op, *c),
{
    match (op, c) {
        (UnaryOp::Neg, Constant::Int(a)) => if *a == i64::MIN {
            None
        } else {
            Some(Constant::Int(-*a))
        },
        (UnaryOp::Neg, Constant::Float(a)) => Some(Constant::Float(*a ^ F64_SIGN_BIT)),
        (UnaryOp::Not, Constant::Bool(a)) => Some(Constant::Bool(!*a)),
        (UnaryOp::Not, Constant::Int(a)) => Some(Constant::Bool(*a == 0)),
        (UnaryOp::Pos, Constant::Int(a)) => Some(Constant::Int(*a)),
        (UnaryOp::Pos, Constant::Float(a)) => Some(Constant::Float(*a)),
        _ => None,
    }
}

fn value_rvalue(v: Constant, narrow_f32: bool) -> (r: Rvalue)
    ensures
        r == folded_value(v, narrow_f32),
{
    if narrow_f32 && matches!(v, Constant::Float(_)) {
        Rvalue::Cast(Operand::Constant(v), Type::F32)
    } else {
        Rvalue::Use(Operand::Constant(v))
    }
}

fn fold_rvalue(rv: &Rvalue, narrow_f32: bool) -> (r: Option<Rvalue>)
    ensures
        r == folded_rvalue(*rv, narrow_f32),
{
    match rv {
        Rvalue::BinaryOp(op, Operand::Constant(Constant::Int(a)), Operand::Constant(Constant::Int(b))) => {
            match eval_int_binop(*op, *a, *b) {
                Some(v) => Some(Rvalue::Use(Operand::Constant(v))),
                None => None,
            }
        },
        Rvalue::BinaryOp(op, Operand::Constant(Constant::Bool(a)), Operand::Constant(Constant::Bool(b))) => {
            match eval_bool_binop(*op, *a, *b) {
                Some(v) => Some(Rvalue::Use(Operand::Constant(v))),
                None => None,
            }
        },
        Rvalue::UnaryOp(op, Operand::Constant(c)) => match eval_unary(*op, c) {
            Some(v) => Some(value_rvalue(v, narrow_f32)),
            None => None,
        },
        _ => None,
    }
}

fn is_f32_dest(locals: &Vec<LocalDecl>, l: Local) -> (r: bool)
    ensures
        r == is_f32_local(locals@, l),
{
    l.0 < locals.len() && matches!(locals[l.0].ty, Type::F32)
}

/// Folds every statement of one block.
fn fold_statements(stmts: &mut Vec<Statement>, locals: &Vec<LocalDecl>) -> (changed: bool)
    ensures
        final(stmts)@ == old(stmts)@.map_values(|s: Statement| folded_statement(locals@, s)),
        changed == exists|j: int|
            0 <= j < old(stmts)@.len() && #[trigger] statement_folds(locals@, old(stmts)@[j]),
{
    let ghost orig = stmts@;
    let mut changed = false;
    let mut j: usize = 0;
    while j < stmts.len()
        invariant
            stmts@.len() == orig.len(),
            0 <= j <= orig.len(),
            forall|k: int| 0 <= k < j ==> stmts@[k] == folded_statement(locals@, #[trigger] orig[k]),
            forall|k: int| j <= k < orig.len() ==> stmts@[k] == orig[k],
            changed == exists|k: int| 0 <= k < j && #[trigger] statement_folds(locals@, orig[k]),
        decreases orig.len() - j,
    {
        let folded = match &stmts[j].kind {
            StatementKind::Assign(d, rv) => {
                let narrow = is_f32_dest(locals, *d);
                match fold_rvalue(rv, narrow) {
                    Some(r) => Some(StatementKind::Assign(*d, r)),
                    None => None,
                }
            },
            _ => None,
        };
        if let Some(kind) = folded {
            let span = stmts[j].span;
            stmts.set(j, Statement { kind, span });
            changed = true;
        }
        assert(statement_folds(locals@, orig[j as int]) == folded is Some);
        j = j + 1;
    }
    assert(stmts@ =~= orig.map_values(|s: Statement| folded_statement(locals@, s)));
    changed
}

impl Transform for ConstantFolding {
    open spec fn accepts(&self, func: MirFunction) -> bool {
        true
    }

    /// Replaces each operation on constants by its value, as `folded_statement` says.
    fn run(&self, func: &mut MirFunction) -> (changed: bool)
        ensures
            same_except_blocks(*final(func), *old(func)),
            rewrites_statements(
                old(func).basic_blocks@,
                final(func).basic_blocks@,
                |s: Statement| folded_statement(old(func).locals@, s),
            ),
            changed == some_statement(
                old(func).basic_blocks@,
                |s: Statement| statement_folds(old(func).locals@, s),
            ),
    {
        let ghost orig = func.basic_blocks@;
        let ghost locals = func.locals@;
        let mut changed = false;
        let mut i: usize = 0;
        while i < func.basic_blocks.len()
            invariant
                same_except_blocks(*func, *old(func)),
                orig == old(func).basic_blocks@,
                locals == old(func).locals@,
                func.basic_blocks@.len() == orig.len(),
                0 <= i <= orig.len(),
                forall|k: int|
                    0 <= k < i ==> {
                        &&& #[trigger] func.basic_blocks@[k].terminator == orig[k].terminator
                        &&& func.basic_blocks@[k].statements@ == orig[k].statements@.map_values(
                            |s: Statement| folded_statement(locals, s),
                        )
                    },
                forall|k: int| i <= k < orig.len() ==> #[trigger] func.basic_blocks@[k] == orig[k],
                changed == exists|k: int, j: int|
                    0 <= k < i && 0 <= j < orig[k].statements@.len() && #[trigger] statement_folds(
                        locals,
                        orig[k].statements@[j],
                    ),
            decreases orig.len() - i,
        {
            let mut bb = BasicBlock { statements: Vec::new(), terminator: None };
            func.basic_blocks.set_and_swap(i, &mut bb);
            let c = fold_statements(&mut bb.statements, &func.locals);
            func.basic_blocks.set_and_swap(i, &mut bb);
            changed = changed || c;
            i = i + 1;
        }
        let ghost p = |s: Statement| statement_folds(locals, s);
        assert(changed == some_statement(orig, p)) by {
            if changed {
                let (k, j) = choose|k: int, j: int|
                    0 <= k < orig.len() && 0 <= j < orig[k].statements@.len()
                        && #[trigger] statement_folds(locals, orig[k].statements@[j]);
                assert(p(orig[k].statements@[j]));
            }
            if some_statement(orig, p) {
                let (k, j) = choose|k: int, j: int|
                    0 <= k < orig.len() && 0 <= j < orig[k].statements@.len() && #[trigger] p(
                        orig[k].statements@[j],
                    );
                assert(statement_folds(locals, orig[k].statements@[j]));
            }
        }
        changed
    }
}

} // verus!
