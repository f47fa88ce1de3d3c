//! Operand rewriting shared by copy and constant propagation: a rule maps
//! some operands to replacements, and the rewrite applies it to the operands
//! those passes visit -- the operands of `Use`, unary and binary operations,
//! attribute and index reads, calls, aggregates, pointer loads and vector
//! operations; the object, index and value of indexed, attribute and vector
//! stores; and the discriminant of a `SwitchInt`.

use crate::ir::{
    BasicBlock, Operand, Rvalue, Statement, StatementKind, Terminator, TerminatorKind,
};
use vstd::prelude::*;

verus! {

/// A rule: the replacement of an operand, or `None` where it stays.
pub type Rule = spec_fn(Operand) -> Option<Operand>;

pub open spec fn mapped(rule: Rule, op: Operand) -> Operand {
    match rule(op) {
        Some(n) => n,
        None => op,
    }
}

pub open spec fn hits(rule: Rule, op: Operand) -> bool {
    rule(op) is Some
}

pub open spec fn hits_any(rule: Rule, ops: Seq<Operand>) -> bool {
    exists|i: int| 0 <= i < ops.len() && #[trigger] hits(rule, ops[i])
}

/// `b` is `a` with the rule applied to its visited operands.
pub open spec fn rvalue_rewritten(rule: Rule, a: Rvalue, b: Rvalue) -> bool {
    match a {
        Rvalue::Use(o) => b == Rvalue::Use(mapped(rule, o)),
        Rvalue::UnaryOp(op, o) => b == Rvalue::UnaryOp(op, mapped(rule, o)),
        Rvalue::GetAttr(o, n) => b == Rvalue::GetAttr(mapped(rule, o), n),
        Rvalue::BinaryOp(op, x, y) => b == Rvalue::BinaryOp(op, mapped(rule, x), mapped(rule, y)),
        Rvalue::GetIndex(x, y, u) => b == Rvalue::GetIndex(mapped(rule, x), mapped(rule, y), u),
        Rvalue::Call { func, args } => b matches Rvalue::Call { func: f2, args: a2 } && f2
            == mapped(rule, func) && a2@ == args@.map_values(|o: Operand| mapped(rule, o)),
        Rvalue::Aggregate(k, ops) => b matches Rvalue::Aggregate(k2, o2) && k2 == k && o2@
            == ops@.map_values(|o: Operand| mapped(rule, o)),
        Rvalue::PtrLoad(o) => b == Rvalue::PtrLoad(mapped(rule, o)),
        Rvalue::VectorSplat(o, n) => b == Rvalue::VectorSplat(mapped(rule, o), n),
        Rvalue::VectorLoad(x, y, n) => b == Rvalue::VectorLoad(mapped(rule, x), mapped(rule, y), n),
        Rvalue::VectorFMA(x, y, z) => b == Rvalue::VectorFMA(
            mapped(rule, x),
            mapped(rule, y),
            mapped(rule, z),
        ),
        _ => b == a,
    }
}

/// The rule applies to some visited operand of `a`.
pub open spec fn rvalue_hit(rule: Rule, a: Rvalue) -> bool {
    match a {
        Rvalue::Use(o) | Rvalue::UnaryOp(_, o) | Rvalue::GetAttr(o, _) | Rvalue::PtrLoad(o)
        | Rvalue::VectorSplat(o, _) => hits(rule, o),
        Rvalue::BinaryOp(_, x, y) | Rvalue::GetIndex(x, y, _) | Rvalue::VectorLoad(x, y, _) => hits(
            rule,
            x,
        ) || hits(rule, y),
        Rvalue::VectorFMA(x, y, z) => hits(rule, x) || hits(rule, y) || hits(rule, z),
        Rvalue::Call { func, args } => hits(rule, func) || hits_any(rule, args@),
        Rvalue::Aggregate(_, ops) => hits_any(rule, ops@),
        _ => false,
    }
}

pub open spec fn statement_rewritten(rule: Rule, a: Statement, b: Statement) -> bool {
    &&& b.span == a.span
    &&& match a.kind {
        StatementKind::Assign(d, rv) => b.kind matches StatementKind::Assign(d2, rv2) && d2 == d
            && rvalue_rewritten(rule, rv, rv2),
        StatementKind::SetIndex(o, i, v, u) => b.kind == StatementKind::SetIndex(
            mapped(rule, o),
            mapped(rule, i),
            mapped(rule, v),
            u,
        ),
        StatementKind::SetAttr(o, n, v) => b.kind == StatementKind::SetAttr(
            mapped(rule, o),
            n,
            mapped(rule, v),
        ),
        StatementKind::VectorStore(o, i, v) => b.kind == StatementKind::VectorStore(
            mapped(rule, o),
            mapped(rule, i),
            mapped(rule, v),
        ),
        _ => b.kind == a.kind,
    }
}

pub open spec fn statement_hit(rule: Rule, a: Statement) -> bool {
    match a.kind {
        StatementKind::Assign(_, rv) => rvalue_hit(rule, rv),
        StatementKind::SetIndex(o, i, v, _) | StatementKind::VectorStore(o, i, v) => hits(rule, o)
            || hits(rule, i) || hits(rule, v),
        StatementKind::SetAttr(o, _, v) => hits(rule, o) || hits(rule, v),
        _ => false,
    }
}

pub open spec fn terminator_rewritten(rule: Rule, a: Option<Terminator>, b: Option<Terminator>) -> bool {
    match a {
        Some(Terminator { kind: TerminatorKind::SwitchInt { discr, targets, otherwise }, span }) => b
            == Some(
            Terminator {
                kind: TerminatorKind::SwitchInt { discr: mapped(rule, discr), targets, otherwise },
                span,
            },
        ),
        _ => b == a,
    }
}

pub open spec fn terminator_hit(rule: Rule, a: Option<Terminator>) -> bool {
    match a {
        Some(Terminator { kind: TerminatorKind::SwitchInt { discr, .. }, .. }) => hits(rule, discr),
        _ => false,
    }
}

/// Each statement of `b` is the matching one of `a` with `rule` applied.
pub open spec fn statements_rewritten(rule: Rule, a: Seq<Statement>, b: Seq<Statement>) -> bool {
    &&& b.len() == a.len()
    &&& forall|j: int| 0 <= j < a.len() ==> statement_rewritten(rule, a[j], #[trigger] b[j])
}

pub open spec fn statements_hit(rule: Rule, a: Seq<Statement>) -> bool {
    exists|j: int| 0 <= j < a.len() && #[trigger] statement_hit(rule, a[j])
}

/// Every block of `b` is the matching one of `a` with `rule` applied to its
/// statements and terminator.
pub open spec fn blocks_rewritten(rule: Rule, a: Seq<BasicBlock>, b: Seq<BasicBlock>) -> bool {
    &&& b.len() == a.len()
    &&& forall|i: int|
        0 <= i < a.len() ==> {
            &&& statements_rewritten(rule, a[i].statements@, #[trigger] b[i].statements@)
            &&& terminator_rewritten(rule, a[i].terminator, b[i].terminator)
        }
}

pub open spec fn block_hit(rule: Rule, b: BasicBlock) -> bool {
    statements_hit(rule, b.statements@) || terminator_hit(rule, b.terminator)
}

pub open spec fn blocks_hit(rule: Rule, a: Seq<BasicBlock>) -> bool {
    exists|i: int| 0 <= i < a.len() && #[trigger] block_hit(rule, a[i])
}

/// Something that decides, operand by operand, what a rule says.
pub trait OperandRewriter {
    spec fn rule(&self) -> Rule;

    /// Replaces `op` as the rule says and reports whether the rule applied.
    fn rewrite_operand(&self, op: &mut Operand) -> (hit: bool)
        ensures
            *final(op) == mapped(self.rule(), *old(op)),
            hit == hits(self.rule(), *old(op)),
    ;
}

pub fn rewrite_operands<R: OperandRewriter>(r: &R, ops: &mut Vec<Operand>) -> (hit: bool)
    ensures
        final(ops)@ == old(ops)@.map_values(|o: Operand| mapped(r.rule(), o)),
        hit == hits_any(r.rule(), old(ops)@),
{
    let ghost orig = ops@;
    let mut hit = false;
    let mut i: usize = 0;
    while i < ops.len()
        invariant
            ops@.len() == orig.len(),
            0 <= i <= orig.len(),
            forall|k: int| 0 <= k < i ==> ops@[k] == mapped(r.rule(), #[trigger] orig[k]),
            forall|k: int| i <= k < orig.len() ==> ops@[k] == orig[k],
            hit == exists|k: int| 0 <= k < i && #[trigger] hits(r.rule(), orig[k]),
        decreases orig.len() - i,
    {
        let mut op = Operand::Constant(crate::ir::Constant::NoneValue);
        ops.set_and_swap(i, &mut op);
        assert(op == orig[i as int]);
        let h = r.rewrite_operand(&mut op);
        assert(h == hits(r.rule(), orig[i as int]));
        ops.set_and_swap(i, &mut op);
        hit = hit || h;
        i = i + 1;
    }
    assert(ops@ =~= orig.map_values(|o: Operand| mapped(r.rule(), o)));
    hit
}

pub fn rewrite_rvalue<R: OperandRewriter>(r: &R, rv: &mut Rvalue) -> (hit: bool)
    ensures
        rvalue_rewritten(r.rule(), *old(rv), *final(rv)),
        hit == rvalue_hit(r.rule(), *old(rv)),
{
    match rv {
        Rvalue::Use(op) => r.rewrite_operand(op),
        Rvalue::UnaryOp(_, op) => r.rewrite_operand(op),
        Rvalue::GetAttr(op, _) => r.rewrite_operand(op),
        Rvalue::PtrLoad(op) => r.rewrite_operand(op),
        Rvalue::VectorSplat(op, _) => r.rewrite_operand(op),
        Rvalue::BinaryOp(_, x, y) => {
            let a = r.rewrite_operand(x);
            let b = r.rewrite_operand(y);
            a || b
        },
        Rvalue::GetIndex(x, y, _) => {
            let a = r.rewrite_operand(x);
            let b = r.rewrite_operand(y);
            a || b
        },
        Rvalue::VectorLoad(x, y, _) => {
            let a = r.rewrite_operand(x);
            let b = r.rewrite_operand(y);
            a || b
        },
        Rvalue::VectorFMA(x, y, z) => {
            let a = r.rewrite_operand(x);
            let b = r.rewrite_operand(y);
            let c = r.rewrite_operand(z);
            a || b || c
        },
        Rvalue::Call { func, args } => {
            let a = r.rewrite_operand(func);
            let b = rewrite_operands(r, args);
            a || b
        },
        Rvalue::Aggregate(_, ops) => rewrite_operands(r, ops),
        _ => false,
    }
}

pub fn rewrite_statement<R: OperandRewriter>(r: &R, stmt: &mut Statement) -> (hit: bool)
    ensures
        statement_rewritten(r.rule(), *old(stmt), *final(stmt)),
        hit == statement_hit(r.rule(), *old(stmt)),
{
    match &mut stmt.kind {
        StatementKind::Assign(_, rv) => rewrite_rvalue(r, rv),
        StatementKind::SetIndex(o, i, v, _) => {
            let a = r.rewrite_operand(o);
            let b = r.rewrite_operand(i);
            let c = r.rewrite_operand(v);
            a || b || c
        },
        StatementKind::VectorStore(o, i, v) => {
            let a = r.rewrite_operand(o);
            let b = r.rewrite_operand(i);
            let c = r.rewrite_operand(v);
            a || b || c
        },
        StatementKind::SetAttr(o, _, v) => {
            let a = r.rewrite_operand(o);
            let b = r.rewrite_operand(v);
            a || b
        },
        _ => false,
    }
}

pub fn rewrite_terminator<R: OperandRewriter>(r: &R, term: &mut Option<Terminator>) -> (hit: bool)
    ensures
        terminator_rewritten(r.rule(), *old(term), *final(term)),
        hit == terminator_hit(r.rule(), *old(term)),
{
    match term {
        Some(t) => match &mut t.kind {
            TerminatorKind::SwitchInt { discr, .. } => r.rewrite_operand(discr),
            _ => false,
        },
        None => false,
    }
}

/// Applies the rule to every statement of a block.
pub fn rewrite_statements<R: OperandRewriter>(r: &R, stmts: &mut Vec<Statement>) -> (hit: bool)
    ensures
        statements_rewritten(r.rule(), old(stmts)@, final(stmts)@),
        hit == statements_hit(r.rule(), old(stmts)@),
{
    let ghost orig = stmts@;
    let mut hit = false;
    let mut j: usize = 0;
    while j < stmts.len()
        invariant
            stmts@.len() == orig.len(),
            0 <= j <= orig.len(),
            forall|k: int| 0 <= k < j ==> statement_rewritten(r.rule(), orig[k], #[trigger] stmts@[k]),
            forall|k: int| j <= k < orig.len() ==> stmts@[k] == orig[k],
            hit == exists|k: int| 0 <= k < j && #[trigger] statement_hit(r.rule(), orig[k]),
        decreases orig.len() - j,
    {
        let mut s = Statement {
            kind: StatementKind::StorageLive(crate::ir::Local(0)),
            span: crate::ir::Span::default(),
        };
        stmts.set_and_swap(j, &mut s);
        assert(s == orig[j as int]);
        let h = rewrite_statement(r, &mut s);
        assert(h == statement_hit(r.rule(), orig[j as int]));
        stmts.set_and_swap(j, &mut s);
        hit = hit || h;
        j = j + 1;
    }
    hit
}

/// Applies the rule to every block.
pub fn rewrite_blocks<R: OperandRewriter>(r: &R, blocks: &mut Vec<BasicBlock>) -> (hit: bool)
    ensures
        blocks_rewritten(r.rule(), old(blocks)@, final(blocks)@),
        hit == blocks_hit(r.rule(), old(blocks)@),
{
    let ghost orig = blocks@;
    let mut hit = false;
    let mut i: usize = 0;
    while i < blocks.len()
        invariant
            blocks@.len() == orig.len(),
            0 <= i <= orig.len(),
            forall|k: int|
                0 <= k < i ==> {
                    &&& statements_rewritten(
                        r.rule(),
                        orig[k].statements@,
                        #[trigger] blocks@[k].statements@,
                    )
                    &&& terminator_rewritten(r.rule(), orig[k].terminator, blocks@[k].terminator)
                },
            forall|k: int| i <= k < orig.len() ==> blocks@[k] == orig[k],
            hit == exists|k: int| 0 <= k < i && #[trigger] block_hit(r.rule(), orig[k]),
        decreases orig.len() - i,
    {
        let mut bb = BasicBlock { statements: Vec::new(), terminator: None };
        blocks.set_and_swap(i, &mut bb);
        assert(bb == orig[i as int]);
        let a = rewrite_statements(r, &mut bb.statements);
        let b = rewrite_terminator(r, &mut bb.terminator);
        assert((a || b) == block_hit(r.rule(), orig[i as int]));
        blocks.set_and_swap(i, &mut bb);
        hit = hit || a || b;
        i = i + 1;
    }
    hit
}

} // verus!
