//! Scalar replacement of aggregates. A struct, dict, list or tuple built
//! once (the candidate), whose value reaches only locals that copy it (its
//! aliases), none of them the return slot or a parameter, and that is only
//! read and written field by field with known names or in-range constant
//! indices, is replaced by one fresh local per field: field stores and reads
//! become assignments of those locals, the allocation becomes their storage
//! start, and a drop of the aggregate becomes drops of its heap fields.

use super::const_prop::capped;
use super::copy_prop::count_of;
use super::Transform;
use crate::fx::{index_map_contents, index_set_contents, IndexMap, IndexSet};
use crate::ir::{
    copy_type, is_named, local_type, operand_local, same_type_shape, type_view, spec_is_move_type,
    AggregateKind, BasicBlock, Constant, Local, LocalDecl, MirFunction, Operand, Rvalue, Span,
    Statement, StatementKind, Type,
};
use vstd::prelude::*;
use vstd::string::StringExecFns;

verus! {

pub struct ScalarizeStructs;

/// The character of a decimal digit.
pub open spec fn digit_char(d: nat) -> char {
    if d == 0 {
        '0'
    } else if d == 1 {
        '1'
    } else if d == 2 {
        '2'
    } else if d == 3 {
        '3'
    } else if d == 4 {
        '4'
    } else if d == 5 {
        '5'
    } else if d == 6 {
        '6'
    } else if d == 7 {
        '7'
    } else if d == 8 {
        '8'
    } else {
        '9'
    }
}

/// The decimal digits of `n`.
pub open spec fn decimal(n: nat) -> Seq<char>
    decreases n,
{
    if n < 10 {
        seq![digit_char(n)]
    } else {
        decimal(n / 10).push(digit_char(n % 10))
    }
}

/// An integer written in decimal, with a leading `-` when negative.
pub open spec fn decimal_int(i: int) -> Seq<char> {
    if i < 0 {
        seq!['-'] + decimal((-i) as nat)
    } else {
        decimal(i as nat)
    }
}

/// The statement allocates an aggregate into `l`.
pub open spec fn allocates(s: Statement, l: usize) -> bool {
    match s.kind {
        StatementKind::Assign(d, Rvalue::Call { func: Operand::Constant(Constant::Function(name)), .. }) => d.0 == l
            && name@ == "__olive_struct_alloc"@,
        StatementKind::Assign(d, Rvalue::Aggregate(k, _)) => d.0 == l && (k is Dict || k is List
            || k is Tuple),
        _ => false,
    }
}

/// The statements of the blocks, in block order.
pub open spec fn flat(blocks: Seq<BasicBlock>) -> Seq<Statement>
    decreases blocks.len(),
{
    if blocks.len() == 0 {
        seq![]
    } else {
        flat(blocks.drop_last()) + blocks.last().statements@
    }
}

/// How many of `stmts` allocate into `l`.
pub open spec fn alloc_count(stmts: Seq<Statement>, l: usize) -> nat
    decreases stmts.len(),
{
    if stmts.len() == 0 {
        0
    } else {
        alloc_count(stmts.drop_last(), l) + if allocates(stmts.last(), l) {
            1nat
        } else {
            0nat
        }
    }
}

/// `d = use s` with `s` in `aliases` has `d` in it too.
pub open spec fn closed_at(s: Statement, aliases: Set<usize>) -> bool {
    match s.kind {
        StatementKind::Assign(d, Rvalue::Use(op)) => match operand_local(op) {
            Some(src) => aliases.contains(src) ==> aliases.contains(d.0),
            None => true,
        },
        _ => true,
    }
}

/// `aliases` is closed under copies.
pub open spec fn copy_closed(stmts: Seq<Statement>, aliases: Set<usize>) -> bool {
    forall|j: int| 0 <= j < stmts.len() ==> closed_at(#[trigger] stmts[j], aliases)
}

/// `aliases` is the least copy-closed set holding `origin`.
pub open spec fn alias_set(stmts: Seq<Statement>, origin: usize, aliases: Set<usize>) -> bool {
    &&& aliases.contains(origin)
    &&& copy_closed(stmts, aliases)
    &&& forall|s: Set<usize>| #[trigger] copy_closed(stmts, s) && s.contains(origin) ==> aliases.subset_of(s)
}

/// `op` reads a local of `aliases`.
pub open spec fn reads_alias(aliases: Set<usize>, op: Operand) -> bool {
    match operand_local(op) {
        Some(l) => aliases.contains(l),
        None => false,
    }
}

pub open spec fn operand_is(op: Operand, l: usize) -> bool {
    operand_local(op) == Some(l)
}

/// The rvalue mentions local `l`.
pub open spec fn rvalue_references(rv: Rvalue, l: usize) -> bool {
    match rv {
        Rvalue::Use(o) | Rvalue::UnaryOp(_, o) | Rvalue::GetAttr(o, _) | Rvalue::GetTag(o)
        | Rvalue::GetTypeId(o) | Rvalue::FatPtrData(o) | Rvalue::Cast(o, _) | Rvalue::PtrLoad(o)
        | Rvalue::GenOf(o) | Rvalue::VTableLoad { vtable: o, .. } | Rvalue::VectorSplat(o, _)
        | Rvalue::VectorReduce(_, o, _) => operand_is(o, l),
        Rvalue::BinaryOp(_, a, b) | Rvalue::GetIndex(a, b, _) | Rvalue::VectorLoad(a, b, _) => operand_is(a, l)
            || operand_is(b, l),
        Rvalue::Call { func, args } => operand_is(func, l) || exists|i: int|
            0 <= i < args@.len() && #[trigger] operand_is(args@[i], l),
        Rvalue::Aggregate(_, ops) => exists|i: int| 0 <= i < ops@.len() && #[trigger] operand_is(ops@[i], l),
        Rvalue::Ref(x) | Rvalue::MutRef(x) => x.0 == l,
        Rvalue::VectorFMA(a, b, c) => operand_is(a, l) || operand_is(b, l) || operand_is(c, l),
    }
}

/// The statement mentions local `l`.
pub open spec fn statement_references(s: Statement, l: usize) -> bool {
    match s.kind {
        StatementKind::Assign(d, rv) => d.0 == l || rvalue_references(rv, l),
        StatementKind::SetAttr(o, _, v) => operand_is(o, l) || operand_is(v, l),
        StatementKind::SetIndex(o, i, v, _) => operand_is(o, l) || operand_is(i, l) || operand_is(v, l),
        StatementKind::Drop(x) | StatementKind::StorageLive(x) | StatementKind::StorageDead(x) => x.0 == l,
        StatementKind::VectorStore(o, i, v) => operand_is(o, l) || operand_is(i, l) || operand_is(v, l),
        StatementKind::PtrStore(p, v) => operand_is(p, l) || operand_is(v, l),
        StatementKind::GenCheck { value, generation } => value.0 == l || generation.0 == l,
    }
}

/// A constant index `i` is outside the aggregate: negative, or at least its
/// length when that is known.
pub open spec fn index_out_of_range(i: i64, agg_len: Option<nat>) -> bool {
    i < 0 || (agg_len matches Some(n) && i >= n)
}

/// An index the rewrite can name a field by: an in-range integer or a string.
pub open spec fn index_ok(idx: Operand, agg_len: Option<nat>) -> bool {
    match idx {
        Operand::Constant(Constant::Int(i)) => !index_out_of_range(i, agg_len),
        Operand::Constant(Constant::Str(_)) => true,
        _ => false,
    }
}

/// A statement that mentions an alias is one the rewrite understands.
pub open spec fn use_allowed(aliases: Set<usize>, origin: usize, agg_len: Option<nat>, s: Statement) -> bool {
    match s.kind {
        StatementKind::Assign(l, rv) => {
            if allocates(s, origin) {
                true
            } else {
                match rv {
                    Rvalue::GetAttr(op, _) => reads_alias(aliases, op) && !aliases.contains(l.0),
                    Rvalue::GetIndex(op, idx, _) => reads_alias(aliases, op) && index_ok(idx, agg_len)
                        && !aliases.contains(l.0),
                    Rvalue::Use(op) => aliases.contains(l.0) && reads_alias(aliases, op),
                    _ => false,
                }
            }
        },
        StatementKind::SetAttr(op, _, val) => reads_alias(aliases, op) && !reads_alias(aliases, val),
        StatementKind::SetIndex(op, idx, val, _) => reads_alias(aliases, op) && index_ok(idx, agg_len)
            && !reads_alias(aliases, val),
        StatementKind::Drop(l) | StatementKind::StorageLive(l) | StatementKind::StorageDead(l) => aliases.contains(
            l.0,
        ),
        _ => false,
    }
}

/// The length of `origin`'s list or tuple, as last built at or before `s`.
pub open spec fn next_agg_len(origin: usize, agg_len: Option<nat>, s: Statement) -> Option<nat> {
    match s.kind {
        StatementKind::Assign(l, Rvalue::Aggregate(k, ops)) => if l.0 == origin && (k is List || k is Tuple) {
            Some(ops@.len())
        } else {
            agg_len
        },
        _ => agg_len,
    }
}

/// Every statement of `stmts` that mentions an alias is understood.
pub open spec fn scalarizable(aliases: Set<usize>, origin: usize, stmts: Seq<Statement>, agg_len: Option<nat>) -> bool
    decreases stmts.len(),
{
    if stmts.len() == 0 {
        true
    } else {
        let s = stmts[0];
        let agg = next_agg_len(origin, agg_len, s);
        let mentions = exists|a: usize| aliases.contains(a) && #[trigger] statement_references(s, a);
        (!mentions || use_allowed(aliases, origin, agg, s)) && scalarizable(
            aliases,
            origin,
            stmts.subrange(1, stmts.len() as int),
            agg,
        )
    }
}

/// The field name an index operand stands for.
pub open spec fn index_field(idx: Operand) -> Option<Seq<char>> {
    match idx {
        Operand::Constant(Constant::Int(i)) => Some(decimal_int(i as int)),
        Operand::Constant(Constant::Str(s)) => Some(s@),
        _ => None,
    }
}

/// The declared type of local `l` (`Any` for a local that is not declared).
pub open spec fn type_of_local(locals: Seq<LocalDecl>, l: usize) -> Type {
    if l < locals.len() {
        locals[l as int].ty
    } else {
        Type::Any
    }
}

/// The type a stored value gives its field.
pub open spec fn value_type(locals: Seq<LocalDecl>, val: Operand) -> Type {
    match val {
        Operand::Copy(l) | Operand::Move(l) => type_of_local(locals, l.0),
        Operand::Constant(Constant::Float(_)) => Type::Float,
        Operand::Constant(Constant::Int(_)) => Type::Int,
        _ => Type::Any,
    }
}

/// The field a statement stores or reads through an alias, with the type
/// it gives the field.
pub open spec fn statement_field(locals: Seq<LocalDecl>, aliases: Set<usize>, s: Statement) -> Option<
    (Seq<char>, Type),
> {
    match s.kind {
        StatementKind::SetAttr(op, f, val) => if reads_alias(aliases, op) {
            Some((f@, value_type(locals, val)))
        } else {
            None
        },
        StatementKind::Assign(d, Rvalue::GetAttr(op, f)) => if reads_alias(aliases, op) {
            Some((f@, type_of_local(locals, d.0)))
        } else {
            None
        },
        StatementKind::SetIndex(op, idx, val, _) => if reads_alias(aliases, op) {
            match index_field(idx) {
                Some(f) => Some((f, value_type(locals, val))),
                None => None,
            }
        } else {
            None
        },
        StatementKind::Assign(d, Rvalue::GetIndex(op, idx, _)) => if reads_alias(aliases, op) {
            match index_field(idx) {
                Some(f) => Some((f, type_of_local(locals, d.0))),
                None => None,
            }
        } else {
            None
        },
        _ => None,
    }
}

/// The position of field `f` among `fields`.
pub open spec fn field_index(fields: Seq<(Seq<char>, Type)>, f: Seq<char>) -> Option<int> {
    if exists|i: int| 0 <= i < fields.len() && (#[trigger] fields[i]).0 == f {
        Some(choose|i: int| 0 <= i < fields.len() && (#[trigger] fields[i]).0 == f)
    } else {
        None
    }
}

/// The fields of the aggregate, in order of first mention in `stmts`.
pub open spec fn field_list(locals: Seq<LocalDecl>, aliases: Set<usize>, stmts: Seq<Statement>) -> Seq<
    (Seq<char>, Type),
>
    decreases stmts.len(),
{
    if stmts.len() == 0 {
        seq![]
    } else {
        let prev = field_list(locals, aliases, stmts.drop_last());
        match statement_field(locals, aliases, stmts.last()) {
            Some((f, t)) => if field_index(prev, f) is None {
                prev.push((f, t))
            } else {
                prev
            },
            None => prev,
        }
    }
}

/// No field name occurs twice.
pub open spec fn distinct_fields(fields: Seq<(Seq<char>, Type)>) -> bool {
    forall|i: int, j: int| 0 <= i < j < fields.len() ==> (#[trigger] fields[i]).0 != (#[trigger] fields[j]).0
}

/// What the rewrite needs to know: the aliases, the candidate, the fields
/// and the number of the first field local.
pub struct RewriteCtx {
    pub aliases: Set<usize>,
    pub origin: usize,
    pub fields: Seq<(Seq<char>, Type)>,
    pub base: nat,
}

pub open spec fn field_local(ctx: RewriteCtx, idx: int) -> Local {
    Local((ctx.base + idx) as usize)
}

pub open spec fn stmt_at(kind: StatementKind, span: Span) -> Statement {
    Statement { kind, span }
}

/// The storage starts of the first `k` field locals.
pub open spec fn storage_starts(ctx: RewriteCtx, span: Span, k: int) -> Seq<Statement>
    decreases k,
{
    if k <= 0 {
        seq![]
    } else {
        storage_starts(ctx, span, k - 1).push(
            stmt_at(StatementKind::StorageLive(field_local(ctx, k - 1)), span),
        )
    }
}

/// Zero stores into the heap-typed field locals among the first `k`.
pub open spec fn zero_fill(ctx: RewriteCtx, span: Span, k: int) -> Seq<Statement>
    decreases k,
{
    if k <= 0 {
        seq![]
    } else {
        zero_fill(ctx, span, k - 1) + if spec_is_move_type(ctx.fields[k - 1].1) {
            seq![
                stmt_at(
                    StatementKind::Assign(
                        field_local(ctx, k - 1),
                        Rvalue::Use(Operand::Constant(Constant::Int(0))),
                    ),
                    span,
                ),
            ]
        } else {
            seq![]
        }
    }
}

/// Drops of the heap-typed field locals among the first `k`.
pub open spec fn field_drops(ctx: RewriteCtx, span: Span, k: int) -> Seq<Statement>
    decreases k,
{
    if k <= 0 {
        seq![]
    } else {
        field_drops(ctx, span, k - 1) + if spec_is_move_type(ctx.fields[k - 1].1) {
            seq![stmt_at(StatementKind::Drop(field_local(ctx, k - 1)), span)]
        } else {
            seq![]
        }
    }
}

/// `field = value` for a named field, nothing for an unknown one.
pub open spec fn field_store(ctx: RewriteCtx, span: Span, f: Option<Seq<char>>, value: Operand) -> Seq<Statement> {
    match f {
        Some(name) => match field_index(ctx.fields, name) {
            Some(idx) => seq![
                stmt_at(StatementKind::Assign(field_local(ctx, idx), Rvalue::Use(value)), span),
            ],
            None => seq![],
        },
        None => seq![],
    }
}

/// The stores initialising the fields from the first `k` list elements.
pub open spec fn list_inits(ctx: RewriteCtx, span: Span, ops: Seq<Operand>, k: int) -> Seq<Statement>
    decreases k,
{
    if k <= 0 {
        seq![]
    } else {
        list_inits(ctx, span, ops, k - 1) + field_store(ctx, span, Some(decimal((k - 1) as nat)), ops[k - 1])
    }
}

/// The stores initialising the fields from the first `p` key, value pairs.
pub open spec fn dict_inits(ctx: RewriteCtx, span: Span, ops: Seq<Operand>, p: int) -> Seq<Statement>
    decreases p,
{
    if p <= 0 {
        seq![]
    } else {
        dict_inits(ctx, span, ops, p - 1) + field_store(
            ctx,
            span,
            index_field(ops[2 * p - 2]),
            ops[2 * p - 1],
        )
    }
}

/// What replaces the allocation of the candidate.
pub open spec fn allocation_replacement(ctx: RewriteCtx, s: Statement) -> Seq<Statement> {
    let start = storage_starts(ctx, s.span, ctx.fields.len() as int) + zero_fill(
        ctx,
        s.span,
        ctx.fields.len() as int,
    );
    match s.kind {
        StatementKind::Assign(_, Rvalue::Aggregate(AggregateKind::Dict, ops)) => start + dict_inits(
            ctx,
            s.span,
            ops@,
            (ops@.len() / 2) as int,
        ),
        StatementKind::Assign(_, Rvalue::Aggregate(_, ops)) => start + list_inits(
            ctx,
            s.span,
            ops@,
            ops@.len() as int,
        ),
        _ => start,
    }
}

/// A store of `val` into the field named `f`, with a drop of the old value
/// when the field owns heap data and `val` is not a read of that field.
pub open spec fn store_replacement(
    ctx: RewriteCtx,
    slots: Map<usize, usize>,
    span: Span,
    f: Option<Seq<char>>,
    val: Operand,
) -> Seq<Statement> {
    match f {
        Some(name) => match field_index(ctx.fields, name) {
            Some(idx) => {
                let aliases_slot = match operand_local(val) {
                    Some(l) => slots.contains_key(l) && slots[l] == idx,
                    None => false,
                };
                let drop = if spec_is_move_type(ctx.fields[idx].1) && !aliases_slot {
                    seq![stmt_at(StatementKind::Drop(field_local(ctx, idx)), span)]
                } else {
                    seq![]
                };
                drop.push(stmt_at(StatementKind::Assign(field_local(ctx, idx), Rvalue::Use(val)), span))
            },
            None => seq![],
        },
        None => seq![],
    }
}

/// A read of the field named `f` into `dst`, and the slots after it.
pub open spec fn read_replacement(
    ctx: RewriteCtx,
    slots: Map<usize, usize>,
    span: Span,
    dst: Local,
    f: Option<Seq<char>>,
) -> (Seq<Statement>, Map<usize, usize>) {
    match f {
        Some(name) => match field_index(ctx.fields, name) {
            Some(idx) => (
                seq![
                    stmt_at(
                        StatementKind::Assign(dst, Rvalue::Use(Operand::Copy(field_local(ctx, idx)))),
                        span,
                    ),
                ],
                slots.insert(dst.0, idx as usize),
            ),
            None => (seq![], slots),
        },
        None => (seq![], slots),
    }
}

/// The rewrite of one statement: what replaces it, and the locals known
/// to hold a field's current value after it.
pub open spec fn rewrite_step(ctx: RewriteCtx, slots: Map<usize, usize>, s: Statement) -> (
    Seq<Statement>,
    Map<usize, usize>,
) {
    if allocates(s, ctx.origin) {
        (allocation_replacement(ctx, s), slots)
    } else {
        match s.kind {
            StatementKind::SetAttr(op, f, val) if reads_alias(ctx.aliases, op) => (
                store_replacement(ctx, slots, s.span, Some(f@), val),
                slots,
            ),
            StatementKind::Assign(dst, Rvalue::GetAttr(op, f)) if reads_alias(ctx.aliases, op) => read_replacement(
                ctx,
                slots,
                s.span,
                dst,
                Some(f@),
            ),
            StatementKind::SetIndex(op, idx, val, _) if reads_alias(ctx.aliases, op) => (
                store_replacement(ctx, slots, s.span, index_field(idx), val),
                slots,
            ),
            StatementKind::Assign(dst, Rvalue::GetIndex(op, idx, _)) if reads_alias(ctx.aliases, op) => read_replacement(
                ctx,
                slots,
                s.span,
                dst,
                index_field(idx),
            ),
            StatementKind::Assign(dst, Rvalue::Use(op)) if ctx.aliases.contains(dst.0) && reads_alias(
                ctx.aliases,
                op,
            ) => (seq![], slots),
            StatementKind::Drop(l) if ctx.aliases.contains(l.0) => (
                field_drops(ctx, s.span, ctx.fields.len() as int),
                slots,
            ),
            StatementKind::StorageLive(l) if ctx.aliases.contains(l.0) => (seq![], slots),
            StatementKind::StorageDead(l) if ctx.aliases.contains(l.0) => (seq![], slots),
            StatementKind::Assign(dst, rv) => (
                seq![s],
                match operand_local_of_use(rv) {
                    Some(src) => if slots.contains_key(src) {
                        slots.insert(dst.0, slots[src])
                    } else {
                        slots.remove(dst.0)
                    },
                    None => slots.remove(dst.0),
                },
            ),
            _ => (seq![s], slots),
        }
    }
}

/// The local `rv` copies or moves, when it is a plain use of one.
pub open spec fn operand_local_of_use(rv: Rvalue) -> Option<usize> {
    match rv {
        Rvalue::Use(op) => operand_local(op),
        _ => None,
    }
}

/// The rewrite of the first `k` statements of a block: the statements
/// replacing them and the slots after them.
pub open spec fn rewrite_prefix(ctx: RewriteCtx, stmts: Seq<Statement>, k: int) -> (
    Seq<Statement>,
    Map<usize, usize>,
)
    decreases k,
{
    if k <= 0 {
        (seq![], Map::empty())
    } else {
        let (out, slots) = rewrite_prefix(ctx, stmts, k - 1);
        let (more, slots2) = rewrite_step(ctx, slots, stmts[k - 1]);
        (out + more, slots2)
    }
}

/// A statement that mentions no alias (the allocated local among them) is
/// its own rewrite.
pub proof fn lemma_unrelated_step(ctx: RewriteCtx, slots: Map<usize, usize>, s: Statement)
    requires
        ctx.aliases.contains(ctx.origin),
        forall|a: usize| ctx.aliases.contains(a) ==> !#[trigger] statement_references(s, a),
    ensures
        rewrite_step(ctx, slots, s).0 == seq![s],
{
    match s.kind {
        StatementKind::SetAttr(op, _, _) => {
            if let Some(l) = operand_local(op) {
                assert(!statement_references(s, l) || !ctx.aliases.contains(l));
            }
        },
        StatementKind::SetIndex(op, _, _, _) => {
            if let Some(l) = operand_local(op) {
                assert(!statement_references(s, l) || !ctx.aliases.contains(l));
            }
        },
        StatementKind::Assign(dst, rv) => {
            assert(!statement_references(s, dst.0) || !ctx.aliases.contains(dst.0));
            assert(!statement_references(s, ctx.origin));
            match rv {
                Rvalue::GetAttr(op, _) | Rvalue::GetIndex(op, _, _) => {
                    if let Some(l) = operand_local(op) {
                        assert(!statement_references(s, l) || !ctx.aliases.contains(l));
                    }
                },
                _ => {},
            }
        },
        StatementKind::Drop(l) | StatementKind::StorageLive(l) | StatementKind::StorageDead(l) => {
            assert(!statement_references(s, l.0) || !ctx.aliases.contains(l.0));
        },
        _ => {},
    }
}

/// The rewrite of a prefix starts the rewrite of every longer prefix.
pub proof fn lemma_prefix_grows(ctx: RewriteCtx, stmts: Seq<Statement>, k: int, m: int)
    requires
        0 <= k <= m <= stmts.len(),
    ensures
        rewrite_prefix(ctx, stmts, k).0.len() <= rewrite_prefix(ctx, stmts, m).0.len(),
        rewrite_prefix(ctx, stmts, m).0.subrange(0, rewrite_prefix(ctx, stmts, k).0.len() as int)
            == rewrite_prefix(ctx, stmts, k).0,
    decreases m - k,
{
    if k < m {
        lemma_prefix_grows(ctx, stmts, k, m - 1);
        let a = rewrite_prefix(ctx, stmts, k).0;
        let b = rewrite_prefix(ctx, stmts, m - 1).0;
        let c = rewrite_prefix(ctx, stmts, m).0;
        assert(c.subrange(0, b.len() as int) =~= b);
        assert(c.subrange(0, a.len() as int) =~= b.subrange(0, a.len() as int));
    }
}

/// The rewrite keeps every statement that mentions no alias, unchanged and
/// in order: statement `k` stands in the rewritten block right after the
/// rewrite of the statements before it, and a later such statement stands
/// later.
pub proof fn lemma_rewrite_keeps_unrelated(ctx: RewriteCtx, stmts: Seq<Statement>, k: int, m: int)
    requires
        ctx.aliases.contains(ctx.origin),
        0 <= k < m < stmts.len(),
        forall|a: usize| ctx.aliases.contains(a) ==> !#[trigger] statement_references(stmts[k], a),
        forall|a: usize| ctx.aliases.contains(a) ==> !#[trigger] statement_references(stmts[m], a),
    ensures
        rewrite_block(ctx, stmts)[rewrite_prefix(ctx, stmts, k).0.len() as int] == stmts[k],
        rewrite_block(ctx, stmts)[rewrite_prefix(ctx, stmts, m).0.len() as int] == stmts[m],
        rewrite_prefix(ctx, stmts, k).0.len() < rewrite_prefix(ctx, stmts, m).0.len(),
{
    let n = stmts.len() as int;
    let pk = rewrite_prefix(ctx, stmts, k);
    let pm = rewrite_prefix(ctx, stmts, m);
    lemma_unrelated_step(ctx, pk.1, stmts[k]);
    lemma_unrelated_step(ctx, pm.1, stmts[m]);
    let ck = rewrite_prefix(ctx, stmts, k + 1).0;
    let cm = rewrite_prefix(ctx, stmts, m + 1).0;
    assert(ck == pk.0 + seq![stmts[k]]);
    assert(cm == pm.0 + seq![stmts[m]]);
    lemma_prefix_grows(ctx, stmts, k + 1, n);
    lemma_prefix_grows(ctx, stmts, m + 1, n);
    lemma_prefix_grows(ctx, stmts, k + 1, m);
    let all = rewrite_block(ctx, stmts);
    assert(all.subrange(0, ck.len() as int)[pk.0.len() as int] == ck[pk.0.len() as int]);
    assert(all.subrange(0, cm.len() as int)[pm.0.len() as int] == cm[pm.0.len() as int]);
}

/// The rewritten statements of a block.
pub open spec fn rewrite_block(ctx: RewriteCtx, stmts: Seq<Statement>) -> Seq<Statement> {
    rewrite_prefix(ctx, stmts, stmts.len() as int).0
}

fn digit_str(d: u64) -> (r: &'static str)
    requires
        d < 10,
    ensures
        r@ == seq![digit_char(d as nat)],
{
    proof {
        reveal_strlit("0");
        reveal_strlit("1");
        reveal_strlit("2");
        reveal_strlit("3");
        reveal_strlit("4");
        reveal_strlit("5");
        reveal_strlit("6");
        reveal_strlit("7");
        reveal_strlit("8");
        reveal_strlit("9");
    }
    if d == 0 {
        "0"
    } else if d == 1 {
        "1"
    } else if d == 2 {
        "2"
    } else if d == 3 {
        "3"
    } else if d == 4 {
        "4"
    } else if d == 5 {
        "5"
    } else if d == 6 {
        "6"
    } else if d == 7 {
        "7"
    } else if d == 8 {
        "8"
    } else {
        "9"
    }
}

/// `n` in decimal.
pub(crate) fn decimal_string(n: u64) -> (s: String)
    ensures
        s@ == decimal(n as nat),
    decreases n,
{
    if n < 10 {
        String::from_str(digit_str(n))
    } else {
        let mut s = decimal_string(n / 10);
        s.append(digit_str(n % 10));
        s
    }
}

/// The field name of the integer index `i`.
fn int_field_name(i: i64) -> (s: String)
    ensures
        s@ == decimal_int(i as int),
{
    if i < 0 {
        let wide: i128 = i as i128;
        let mag: u64 = (-wide) as u64;
        assert(mag == -(i as int));
        let mut s = String::from_str("-");
        proof {
            reveal_strlit("-");
        }
        let digits = decimal_string(mag);
        s.append(digits.as_str());
        s
    } else {
        decimal_string(i as u64)
    }
}

/// The locals some statement of `stmts` assigns a plain use to.
pub open spec fn use_dests(stmts: Seq<Statement>) -> Set<usize>
    decreases stmts.len(),
{
    if stmts.len() == 0 {
        Set::empty()
    } else {
        let rest = use_dests(stmts.drop_last());
        match stmts.last().kind {
            StatementKind::Assign(d, Rvalue::Use(_)) => rest.insert(d.0),
            _ => rest,
        }
    }
}

proof fn lemma_use_dests(stmts: Seq<Statement>)
    ensures
        use_dests(stmts).finite(),
        forall|j: int|
            0 <= j < stmts.len() ==> match (#[trigger] stmts[j]).kind {
                StatementKind::Assign(d, Rvalue::Use(_)) => use_dests(stmts).contains(d.0),
                _ => true,
            },
    decreases stmts.len(),
{
    if stmts.len() > 0 {
        lemma_use_dests(stmts.drop_last());
        assert forall|j: int| 0 <= j < stmts.len() implies match (#[trigger] stmts[j]).kind {
            StatementKind::Assign(d, Rvalue::Use(_)) => use_dests(stmts).contains(d.0),
            _ => true,
        } by {
            if j < stmts.len() - 1 {
                assert(stmts.drop_last()[j] == stmts[j]);
            }
        }
    }
}

pub proof fn lemma_flat_step(blocks: Seq<BasicBlock>, i: int)
    requires
        0 <= i < blocks.len(),
    ensures
        flat(blocks.subrange(0, i + 1)) == flat(blocks.subrange(0, i)) + blocks[i].statements@,
{
    assert(blocks.subrange(0, i + 1).drop_last() =~= blocks.subrange(0, i));
    assert(blocks.subrange(0, i + 1).last() == blocks[i]);
}

pub proof fn lemma_flat_prefix(blocks: Seq<BasicBlock>, i: int, k: int)
    requires
        0 <= i <= k <= blocks.len(),
    ensures
        flat(blocks.subrange(0, i)).len() <= flat(blocks.subrange(0, k)).len(),
        flat(blocks.subrange(0, k)).subrange(0, flat(blocks.subrange(0, i)).len() as int) == flat(
            blocks.subrange(0, i),
        ),
    decreases k - i,
{
    if i == k {
        assert(flat(blocks.subrange(0, k)).subrange(0, flat(blocks.subrange(0, k)).len() as int) =~= flat(
            blocks.subrange(0, k),
        ));
    } else {
        lemma_flat_prefix(blocks, i, k - 1);
        lemma_flat_step(blocks, k - 1);
        let a = flat(blocks.subrange(0, k - 1));
        let b = blocks[k - 1].statements@;
        let li = flat(blocks.subrange(0, i)).len() as int;
        assert((a + b).subrange(0, li) =~= a.subrange(0, li));
    }
}

pub proof fn lemma_flat_all(blocks: Seq<BasicBlock>)
    ensures
        flat(blocks.subrange(0, blocks.len() as int)) == flat(blocks),
{
    assert(blocks.subrange(0, blocks.len() as int) =~= blocks);
}

/// Statement `j` of block `i` sits in `flat(blocks)` after the statements of
/// the earlier blocks.
pub proof fn lemma_flat_index(blocks: Seq<BasicBlock>, i: int, j: int)
    requires
        0 <= i < blocks.len(),
        0 <= j < blocks[i].statements@.len(),
    ensures
        flat(blocks.subrange(0, i)).len() + j < flat(blocks).len(),
        flat(blocks)[flat(blocks.subrange(0, i)).len() + j] == blocks[i].statements@[j],
{
    lemma_flat_prefix(blocks, i + 1, blocks.len() as int);
    lemma_flat_step(blocks, i);
    lemma_flat_all(blocks);
    let whole = flat(blocks);
    let pre = flat(blocks.subrange(0, i + 1));
    let off = flat(blocks.subrange(0, i)).len() as int;
    assert(whole.subrange(0, pre.len() as int)[off + j] == whole[off + j]);
}

fn is_struct_alloc(name: &String) -> (r: bool)
    ensures
        r == (name@ == "__olive_struct_alloc"@),
{
    is_named(name, "__olive_struct_alloc")
}

/// The local `s` allocates an aggregate into, if any.
fn allocation_target(s: &Statement) -> (r: Option<usize>)
    ensures
        r matches Some(l) ==> allocates(*s, l),
        r is None ==> forall|l: usize| !#[trigger] allocates(*s, l),
{
    match &s.kind {
        StatementKind::Assign(d, Rvalue::Call { func: Operand::Constant(Constant::Function(name)), .. }) => {
            if is_struct_alloc(name) {
                Some(d.0)
            } else {
                None
            }
        },
        StatementKind::Assign(d, Rvalue::Aggregate(k, _)) => {
            if matches!(k, AggregateKind::Dict | AggregateKind::List | AggregateKind::Tuple) {
                Some(d.0)
            } else {
                None
            }
        },
        _ => None,
    }
}

proof fn lemma_alloc_count_push(stmts: Seq<Statement>, s: Statement, l: usize)
    ensures
        alloc_count(stmts.push(s), l) == alloc_count(stmts, l) + if allocates(s, l) {
            1nat
        } else {
            0nat
        },
{
    assert(stmts.push(s).drop_last() =~= stmts);
}

/// The locals allocated into exactly once, in the order of a hash map's
/// keys, which is not stated.
fn find_candidates(func: &MirFunction) -> (cands: Vec<usize>)
    ensures
        cands@.no_duplicates(),
        forall|l: usize| cands@.contains(l) <==> alloc_count(flat(func.basic_blocks@), l) == 1,
{
    broadcast use vstd::seq_lib::lemma_seq_contains_after_push;

    let ghost blocks = func.basic_blocks@;
    let mut counts = IndexMap::new();
    let mut i: usize = 0;
    assert(flat(blocks.subrange(0, 0)) =~= Seq::<Statement>::empty());
    while i < func.basic_blocks.len()
        invariant
            blocks == func.basic_blocks@,
            0 <= i <= blocks.len(),
            forall|l: usize|
                #![trigger count_of(index_map_contents(counts), l)]
                count_of(index_map_contents(counts), l) == capped(alloc_count(flat(blocks.subrange(0, i as int)), l)),
        decreases blocks.len() - i,
    {
        let ghost pre = flat(blocks.subrange(0, i as int));
        let stmts = &func.basic_blocks[i].statements;
        let mut j: usize = 0;
        assert(pre + stmts@.subrange(0, 0) =~= pre);
        while j < stmts.len()
            invariant
                blocks == func.basic_blocks@,
                stmts@ == blocks[i as int].statements@,
                0 <= j <= stmts@.len(),
                forall|l: usize|
                    #![trigger count_of(index_map_contents(counts), l)]
                    count_of(index_map_contents(counts), l) == capped(
                        alloc_count(pre + stmts@.subrange(0, j as int), l),
                    ),
            decreases stmts.len() - j,
        {
            let ghost before = index_map_contents(counts);
            let ghost seen = pre + stmts@.subrange(0, j as int);
            assert(pre + stmts@.subrange(0, j + 1) =~= seen.push(stmts@[j as int]));
            if let Some(l) = allocation_target(&stmts[j]) {
                let c = match counts.get(l) {
                    Some(c) => c,
                    None => 0,
                };
                counts.insert(l, c.saturating_add(1));
            }
            proof {
                assert forall|x: usize| #[trigger] count_of(index_map_contents(counts), x) == capped(
                    alloc_count(pre + stmts@.subrange(0, j + 1), x),
                ) by {
                    lemma_alloc_count_push(seen, stmts@[j as int], x);
                    assert(count_of(before, x) == capped(alloc_count(seen, x)));
                }
            }
            j = j + 1;
        }
        proof {
            lemma_flat_step(blocks, i as int);
            assert(stmts@.subrange(0, stmts@.len() as int) =~= stmts@);
        }
        i = i + 1;
    }
    proof {
        lemma_flat_all(blocks);
    }
    let keys = counts.keys();
    let mut cands: Vec<usize> = Vec::new();
    let mut k: usize = 0;
    while k < keys.len()
        invariant
            keys@.to_set() == index_map_contents(counts).dom(),
            keys@.no_duplicates(),
            0 <= k <= keys@.len(),
            cands@.no_duplicates(),
            forall|l: usize|
                #![trigger count_of(index_map_contents(counts), l)]
                count_of(index_map_contents(counts), l) == capped(alloc_count(flat(blocks), l)),
            forall|l: usize|
                cands@.contains(l) <==> (keys@.subrange(0, k as int).contains(l) && count_of(
                    index_map_contents(counts),
                    l,
                ) == 1),
            blocks == func.basic_blocks@,
        decreases keys.len() - k,
    {
        let l = keys[k];
        assert(keys@.to_set().contains(l));
        let c = match counts.get(l) {
            Some(c) => c,
            None => 0,
        };
        assert(keys@.subrange(0, k + 1) =~= keys@.subrange(0, k as int).push(l));
        assert(c == count_of(index_map_contents(counts), l));
        let ghost old_cands = cands@;
        if c == 1 {
            proof {
                if cands@.contains(l) {
                    let q = choose|q: int| 0 <= q < k && keys@.subrange(0, k as int)[q] == l;
                    assert(keys@[q] == keys@[k as int]);
                }
            }
            cands.push(l);
        }
        proof {
            let ks = keys@.subrange(0, k as int);
            assert forall|x: usize|
                cands@.contains(x) <==> (keys@.subrange(0, k + 1).contains(x) && count_of(
                    index_map_contents(counts),
                    x,
                ) == 1) by {
                vstd::seq_lib::lemma_seq_contains_after_push(ks, l, x);
                vstd::seq_lib::lemma_seq_contains_after_push(old_cands, l, x);
            }
        }
        k = k + 1;
    }
    proof {
        assert(keys@.subrange(0, keys@.len() as int) =~= keys@);
        assert forall|l: usize| cands@.contains(l) <==> alloc_count(flat(blocks), l) == 1 by {
            assert(count_of(index_map_contents(counts), l) == capped(alloc_count(flat(blocks), l)));
            if alloc_count(flat(blocks), l) == 1 {
                assert(index_map_contents(counts).dom().contains(l));
                assert(keys@.to_set().contains(l));
            }
        }
    }
    cands
}

/// The aliases of `origin`: the least copy-closed set holding it.
fn alias_closure(func: &MirFunction, origin: usize) -> (a: IndexSet)
    ensures
        alias_set(flat(func.basic_blocks@), origin, index_set_contents(a)),
{
    let ghost blocks = func.basic_blocks@;
    let ghost stmts = flat(blocks);
    let ghost u = use_dests(stmts).insert(origin);
    proof {
        lemma_use_dests(stmts);
        lemma_flat_all(blocks);
    }
    let mut aliases = IndexSet::new();
    aliases.insert(origin);
    let mut newly = true;
    while newly
        invariant
            blocks == func.basic_blocks@,
            stmts == flat(blocks),
            u == use_dests(stmts).insert(origin),
            u.finite(),
            index_set_contents(aliases).subset_of(u),
            index_set_contents(aliases).contains(origin),
            forall|s: Set<usize>|
                #[trigger] copy_closed(stmts, s) && s.contains(origin) ==> index_set_contents(aliases).subset_of(s),
            !newly ==> copy_closed(stmts, index_set_contents(aliases)),
        decreases (u.len() - index_set_contents(aliases).len()) * 2 + if newly {
            1int
        } else {
            0int
        },
    {
        proof {
            vstd::set_lib::lemma_len_subset(index_set_contents(aliases), u);
        }
        let ghost start = index_set_contents(aliases);
        newly = false;
        let mut i: usize = 0;
        while i < func.basic_blocks.len()
            invariant
                blocks == func.basic_blocks@,
                stmts == flat(blocks),
                u == use_dests(stmts).insert(origin),
                u.finite(),
                start.finite(),
                start.len() <= u.len(),
                0 <= i <= blocks.len(),
                index_set_contents(aliases).subset_of(u),
                index_set_contents(aliases).contains(origin),
                forall|s: Set<usize>|
                    #[trigger] copy_closed(stmts, s) && s.contains(origin) ==> index_set_contents(aliases).subset_of(s),
                newly ==> index_set_contents(aliases).len() > start.len(),
                !newly ==> index_set_contents(aliases) == start,
                !newly ==> forall|p: int|
                    0 <= p < flat(blocks.subrange(0, i as int)).len() ==> closed_at(#[trigger] stmts[p], start),
            decreases blocks.len() - i,
        {
            let bstmts = &func.basic_blocks[i].statements;
            let ghost off = flat(blocks.subrange(0, i as int)).len();
            proof {
                lemma_flat_prefix(blocks, i as int, blocks.len() as int);
                lemma_flat_step(blocks, i as int);
                lemma_flat_prefix(blocks, i + 1, blocks.len() as int);
            }
            let mut j: usize = 0;
            while j < bstmts.len()
                invariant
                    blocks == func.basic_blocks@,
                    stmts == flat(blocks),
                    bstmts@ == blocks[i as int].statements@,
                    0 <= i < blocks.len(),
                    off == flat(blocks.subrange(0, i as int)).len(),
                    u == use_dests(stmts).insert(origin),
                    u.finite(),
                    start.finite(),
                    start.len() <= u.len(),
                    0 <= j <= bstmts@.len(),
                    index_set_contents(aliases).subset_of(u),
                    index_set_contents(aliases).contains(origin),
                    forall|s: Set<usize>|
                        #[trigger] copy_closed(stmts, s) && s.contains(origin) ==> index_set_contents(aliases).subset_of(s),
                    newly ==> index_set_contents(aliases).len() > start.len(),
                    !newly ==> index_set_contents(aliases) == start,
                    !newly ==> forall|p: int| 0 <= p < off + j ==> closed_at(#[trigger] stmts[p], start),
                decreases bstmts.len() - j,
            {
                proof {
                    lemma_flat_index(blocks, i as int, j as int);
                }
                let ghost pos = off + j;
                assert(stmts[pos] == bstmts@[j as int]);
                if let StatementKind::Assign(dst, Rvalue::Use(op)) = &bstmts[j].kind {
                    let src = match op {
                        Operand::Copy(l) => Some(l.0),
                        Operand::Move(l) => Some(l.0),
                        Operand::Constant(_) => None,
                    };
                    if let Some(src) = src {
                        if aliases.contains(src) && !aliases.contains(dst.0) {
                            let ghost before = index_set_contents(aliases);
                            aliases.insert(dst.0);
                            proof {
                                lemma_use_dests(stmts);
                                assert(use_dests(stmts).contains(dst.0));
                                assert forall|s: Set<usize>|
                                    #[trigger] copy_closed(stmts, s) && s.contains(origin) implies index_set_contents(
                                        aliases,
                                    ).subset_of(s) by {
                                    assert(before.subset_of(s));
                                    assert(closed_at(stmts[pos], s));
                                }
                                vstd::set_lib::lemma_len_subset(before, u);
                            }
                            newly = true;
                        }
                    }
                }
                j = j + 1;
            }
            i = i + 1;
        }
        proof {
            lemma_flat_all(blocks);
            if !newly {
                assert forall|p: int| 0 <= p < stmts.len() implies closed_at(#[trigger] stmts[p], index_set_contents(aliases)) by {
                }
            }
            vstd::set_lib::lemma_len_subset(index_set_contents(aliases), u);
        }
    }
    aliases
}

pub(crate) fn operand_is_local(op: &Operand, l: usize) -> (r: bool)
    ensures
        r == operand_is(*op, l),
{
    match op {
        Operand::Copy(x) | Operand::Move(x) => x.0 == l,
        Operand::Constant(_) => false,
    }
}

fn operands_mention(ops: &Vec<Operand>, l: usize) -> (r: bool)
    ensures
        r == exists|i: int| 0 <= i < ops@.len() && #[trigger] operand_is(ops@[i], l),
{
    let mut i: usize = 0;
    while i < ops.len()
        invariant
            0 <= i <= ops@.len(),
            forall|k: int| 0 <= k < i ==> !#[trigger] operand_is(ops@[k], l),
        decreases ops.len() - i,
    {
        if operand_is_local(&ops[i], l) {
            return true;
        }
        i = i + 1;
    }
    false
}

pub(crate) fn rvalue_refs(rv: &Rvalue, l: usize) -> (r: bool)
    ensures
        r == rvalue_references(*rv, l),
{
    match rv {
        Rvalue::Use(o) | Rvalue::UnaryOp(_, o) | Rvalue::GetAttr(o, _) | Rvalue::GetTag(o)
        | Rvalue::GetTypeId(o) | Rvalue::FatPtrData(o) | Rvalue::Cast(o, _) | Rvalue::PtrLoad(o)
        | Rvalue::GenOf(o) | Rvalue::VTableLoad { vtable: o, .. } | Rvalue::VectorSplat(o, _)
        | Rvalue::VectorReduce(_, o, _) => operand_is_local(o, l),
        Rvalue::BinaryOp(_, a, b) | Rvalue::GetIndex(a, b, _) | Rvalue::VectorLoad(a, b, _) => operand_is_local(a, l)
            || operand_is_local(b, l),
        Rvalue::Call { func, args } => operand_is_local(func, l) || operands_mention(args, l),
        Rvalue::Aggregate(_, ops) => operands_mention(ops, l),
        Rvalue::Ref(x) | Rvalue::MutRef(x) => x.0 == l,
        Rvalue::VectorFMA(a, b, c) => operand_is_local(a, l) || operand_is_local(b, l) || operand_is_local(c, l),
    }
}

fn statement_refs(s: &Statement, l: usize) -> (r: bool)
    ensures
        r == statement_references(*s, l),
{
    match &s.kind {
        StatementKind::Assign(d, rv) => d.0 == l || rvalue_refs(rv, l),
        StatementKind::SetAttr(o, _, v) => operand_is_local(o, l) || operand_is_local(v, l),
        StatementKind::SetIndex(o, i, v, _) | StatementKind::VectorStore(o, i, v) => operand_is_local(o, l)
            || operand_is_local(i, l) || operand_is_local(v, l),
        StatementKind::Drop(x) | StatementKind::StorageLive(x) | StatementKind::StorageDead(x) => x.0 == l,
        StatementKind::PtrStore(p, v) => operand_is_local(p, l) || operand_is_local(v, l),
        StatementKind::GenCheck { value, generation } => value.0 == l || generation.0 == l,
    }
}

/// Whether `s` mentions one of the aliases listed in `members`.
fn mentions_alias(s: &Statement, members: &Vec<usize>, aliases: Ghost<Set<usize>>) -> (r: bool)
    requires
        members@.to_set() == aliases@,
    ensures
        r == exists|a: usize| aliases@.contains(a) && #[trigger] statement_references(*s, a),
{
    let mut k: usize = 0;
    while k < members.len()
        invariant
            members@.to_set() == aliases@,
            0 <= k <= members@.len(),
            forall|q: int| 0 <= q < k ==> !#[trigger] statement_references(*s, members@[q]),
        decreases members.len() - k,
    {
        if statement_refs(s, members[k]) {
            assert(members@.to_set().contains(members@[k as int]));
            return true;
        }
        k = k + 1;
    }
    proof {
        assert forall|a: usize| aliases@.contains(a) implies !#[trigger] statement_references(*s, a) by {
            assert(members@.to_set().contains(a));
            let q = choose|q: int| 0 <= q < members@.len() && members@[q] == a;
        }
    }
    false
}

pub open spec fn opt_nat(o: Option<usize>) -> Option<nat> {
    match o {
        Some(n) => Some(n as nat),
        None => None,
    }
}

fn reads_alias_of(aliases: &IndexSet, op: &Operand) -> (r: bool)
    ensures
        r == reads_alias(index_set_contents(*aliases), *op),
{
    match op {
        Operand::Copy(l) | Operand::Move(l) => aliases.contains(l.0),
        Operand::Constant(_) => false,
    }
}

fn index_ok_of(idx: &Operand, agg: Option<usize>) -> (r: bool)
    ensures
        r == index_ok(*idx, opt_nat(agg)),
{
    match idx {
        Operand::Constant(Constant::Int(i)) => {
            if *i < 0 {
                false
            } else {
                match agg {
                    Some(n) => !((*i as u64) >= (n as u64)),
                    None => true,
                }
            }
        },
        Operand::Constant(Constant::Str(_)) => true,
        _ => false,
    }
}

fn use_allowed_of(aliases: &IndexSet, origin: usize, agg: Option<usize>, s: &Statement) -> (r: bool)
    ensures
        r == use_allowed(index_set_contents(*aliases), origin, opt_nat(agg), *s),
{
    let alloc = allocation_target(s);
    match &s.kind {
        StatementKind::Assign(l, rv) => {
            if alloc == Some(origin) {
                true
            } else {
                proof {
                    if allocates(*s, origin) {
                        assert(alloc is Some);
                    }
                }
                match rv {
                    Rvalue::GetAttr(op, _) => reads_alias_of(aliases, op) && !aliases.contains(l.0),
                    Rvalue::GetIndex(op, idx, _) => reads_alias_of(aliases, op) && index_ok_of(idx, agg)
                        && !aliases.contains(l.0),
                    Rvalue::Use(op) => aliases.contains(l.0) && reads_alias_of(aliases, op),
                    _ => false,
                }
            }
        },
        StatementKind::SetAttr(op, _, val) => reads_alias_of(aliases, op) && !reads_alias_of(aliases, val),
        StatementKind::SetIndex(op, idx, val, _) => reads_alias_of(aliases, op) && index_ok_of(idx, agg)
            && !reads_alias_of(aliases, val),
        StatementKind::Drop(l) | StatementKind::StorageLive(l) | StatementKind::StorageDead(l) => aliases.contains(
            l.0,
        ),
        _ => false,
    }
}

/// Whether every statement mentioning an alias is one the rewrite
/// understands (`scalarizable`).
fn can_scalarize(func: &MirFunction, aliases: &IndexSet, origin: usize) -> (r: bool)
    ensures
        r == scalarizable(index_set_contents(*aliases), origin, flat(func.basic_blocks@), None),
{
    let ghost blocks = func.basic_blocks@;
    let ghost stmts = flat(blocks);
    let ghost al = index_set_contents(*aliases);
    let members = aliases.to_vec();
    let mut agg: Option<usize> = None;
    proof {
        lemma_flat_all(blocks);
        assert(stmts.subrange(0, stmts.len() as int) =~= stmts);
    }
    let mut i: usize = 0;
    while i < func.basic_blocks.len()
        invariant
            blocks == func.basic_blocks@,
            stmts == flat(blocks),
            al == index_set_contents(*aliases),
            members@.to_set() == al,
            0 <= i <= blocks.len(),
            flat(blocks.subrange(0, i as int)).len() <= stmts.len(),
            scalarizable(al, origin, stmts, None) == scalarizable(
                al,
                origin,
                stmts.subrange(flat(blocks.subrange(0, i as int)).len() as int, stmts.len() as int),
                opt_nat(agg),
            ),
        decreases blocks.len() - i,
    {
        let bstmts = &func.basic_blocks[i].statements;
        let ghost off = flat(blocks.subrange(0, i as int)).len();
        proof {
            lemma_flat_prefix(blocks, i + 1, blocks.len() as int);
            lemma_flat_step(blocks, i as int);
            lemma_flat_all(blocks);
        }
        let mut j: usize = 0;
        while j < bstmts.len()
            invariant
                blocks == func.basic_blocks@,
                stmts == flat(blocks),
                bstmts@ == blocks[i as int].statements@,
                0 <= i < blocks.len(),
                off == flat(blocks.subrange(0, i as int)).len(),
                off + bstmts@.len() <= stmts.len(),
                al == index_set_contents(*aliases),
                members@.to_set() == al,
                0 <= j <= bstmts@.len(),
                scalarizable(al, origin, stmts, None) == scalarizable(
                    al,
                    origin,
                    stmts.subrange(off + j, stmts.len() as int),
                    opt_nat(agg),
                ),
            decreases bstmts.len() - j,
        {
            proof {
                lemma_flat_index(blocks, i as int, j as int);
            }
            let ghost pos = off + j;
            let ghost rest = stmts.subrange(pos, stmts.len() as int);
            assert(rest[0] == bstmts@[j as int]);
            assert(rest.subrange(1, rest.len() as int) =~= stmts.subrange(pos + 1, stmts.len() as int));
            let st = &bstmts[j];
            if let StatementKind::Assign(l, Rvalue::Aggregate(k, ops)) = &st.kind {
                if l.0 == origin && matches!(k, AggregateKind::List | AggregateKind::Tuple) {
                    agg = Some(ops.len());
                }
            }
            let mentions = mentions_alias(st, &members, Ghost(al));
            if mentions && !use_allowed_of(aliases, origin, agg, st) {
                return false;
            }
            j = j + 1;
        }
        i = i + 1;
    }
    proof {
        lemma_flat_all(blocks);
    }
    true
}

/// The computed fields `v` are `fields`: same names, types of the same shape.
pub open spec fn fields_match(v: Seq<(String, Type)>, fields: Seq<(Seq<char>, Type)>) -> bool {
    &&& v.len() == fields.len()
    &&& forall|i: int|
        0 <= i < v.len() ==> (#[trigger] v[i]).0@ == fields[i].0 && (same_type_shape(v[i].1, fields[i].1) && type_view(v[i].1) == type_view(fields[i].1))
}

proof fn lemma_field_index(fields: Seq<(Seq<char>, Type)>, f: Seq<char>)
    requires
        distinct_fields(fields),
    ensures
        forall|i: int| 0 <= i < fields.len() && (#[trigger] fields[i]).0 == f ==> field_index(fields, f) == Some(i),
        (forall|i: int| 0 <= i < fields.len() ==> (#[trigger] fields[i]).0 != f) ==> field_index(fields, f) is None,
{
}

proof fn lemma_field_list_distinct(locals: Seq<LocalDecl>, aliases: Set<usize>, stmts: Seq<Statement>)
    ensures
        distinct_fields(field_list(locals, aliases, stmts)),
    decreases stmts.len(),
{
    if stmts.len() > 0 {
        lemma_field_list_distinct(locals, aliases, stmts.drop_last());
        let prev = field_list(locals, aliases, stmts.drop_last());
        match statement_field(locals, aliases, stmts.last()) {
            Some((f, t)) => {
                if field_index(prev, f) is None {
                    let next = prev.push((f, t));
                    assert forall|i: int, j: int| 0 <= i < j < next.len() implies (#[trigger] next[i]).0
                        != (#[trigger] next[j]).0 by {
                        if j == prev.len() {
                            assert(next[i] == prev[i]);
                        } else {
                            assert(next[i] == prev[i]);
                            assert(next[j] == prev[j]);
                        }
                    }
                }
            },
            None => {},
        }
    }
}

/// The position of field `f` among the computed fields.
fn find_field(v: &Vec<(String, Type)>, f: &String, fields: Ghost<Seq<(Seq<char>, Type)>>) -> (r: Option<usize>)
    requires
        fields_match(v@, fields@),
        distinct_fields(fields@),
    ensures
        r matches Some(i) ==> field_index(fields@, f@) == Some(i as int) && i < v@.len(),
        r is None ==> field_index(fields@, f@) is None,
{
    proof {
        lemma_field_index(fields@, f@);
    }
    let mut i: usize = 0;
    while i < v.len()
        invariant
            fields_match(v@, fields@),
            distinct_fields(fields@),
            0 <= i <= v@.len(),
            forall|k: int| 0 <= k < i ==> (#[trigger] fields@[k]).0 != f@,
        decreases v.len() - i,
    {
        if v[i].0 == *f {
            assert(fields@[i as int].0 == f@);
            proof {
                lemma_field_index(fields@, f@);
            }
            return Some(i);
        }
        assert(v@[i as int].0@ == fields@[i as int].0);
        i = i + 1;
    }
    None
}

fn index_field_of(idx: &Operand) -> (r: Option<String>)
    ensures
        r matches Some(s) ==> index_field(*idx) == Some(s@),
        r is None ==> index_field(*idx) is None,
{
    match idx {
        Operand::Constant(Constant::Int(i)) => Some(int_field_name(*i)),
        Operand::Constant(Constant::Str(s)) => Some(s.clone()),
        _ => None,
    }
}

fn local_type_of(locals: &Vec<LocalDecl>, l: usize) -> (t: Type)
    ensures
        (same_type_shape(t, type_of_local(locals@, l)) && type_view(t) == type_view(type_of_local(locals@, l))),
{
    if l < locals.len() {
        copy_type(&locals[l].ty)
    } else {
        Type::Any
    }
}

fn value_type_of(locals: &Vec<LocalDecl>, val: &Operand) -> (t: Type)
    ensures
        (same_type_shape(t, value_type(locals@, *val)) && type_view(t) == type_view(value_type(locals@, *val))),
{
    match val {
        Operand::Copy(l) | Operand::Move(l) => local_type_of(locals, l.0),
        Operand::Constant(Constant::Float(_)) => Type::Float,
        Operand::Constant(Constant::Int(_)) => Type::Int,
        _ => Type::Any,
    }
}

/// The field `s` stores or reads through an alias, with its type.
fn statement_field_of(locals: &Vec<LocalDecl>, aliases: &IndexSet, s: &Statement) -> (r: Option<(String, Type)>)
    ensures
        match statement_field(locals@, index_set_contents(*aliases), *s) {
            Some((f, t)) => r matches Some(p) && p.0@ == f && (same_type_shape(p.1, t) && type_view(p.1) == type_view(t)),
            None => r is None,
        },
{
    match &s.kind {
        StatementKind::SetAttr(op, f, val) => if reads_alias_of(aliases, op) {
            Some((f.clone(), value_type_of(locals, val)))
        } else {
            None
        },
        StatementKind::Assign(d, Rvalue::GetAttr(op, f)) => if reads_alias_of(aliases, op) {
            Some((f.clone(), local_type_of(locals, d.0)))
        } else {
            None
        },
        StatementKind::SetIndex(op, idx, val, _) => if reads_alias_of(aliases, op) {
            match index_field_of(idx) {
                Some(f) => Some((f, value_type_of(locals, val))),
                None => None,
            }
        } else {
            None
        },
        StatementKind::Assign(d, Rvalue::GetIndex(op, idx, _)) => if reads_alias_of(aliases, op) {
            match index_field_of(idx) {
                Some(f) => Some((f, local_type_of(locals, d.0))),
                None => None,
            }
        } else {
            None
        },
        _ => None,
    }
}

/// The aggregate's fields (`field_list`), with copies of their types.
fn collect_fields(func: &MirFunction, aliases: &IndexSet) -> (v: Vec<(String, Type)>)
    ensures
        fields_match(v@, field_list(func.locals@, index_set_contents(*aliases), flat(func.basic_blocks@))),
{
    let ghost blocks = func.basic_blocks@;
    let ghost al = index_set_contents(*aliases);
    let ghost locals = func.locals@;
    let mut v: Vec<(String, Type)> = Vec::new();
    let mut i: usize = 0;
    assert(flat(blocks.subrange(0, 0)) =~= Seq::<Statement>::empty());
    while i < func.basic_blocks.len()
        invariant
            blocks == func.basic_blocks@,
            locals == func.locals@,
            al == index_set_contents(*aliases),
            0 <= i <= blocks.len(),
            fields_match(v@, field_list(locals, al, flat(blocks.subrange(0, i as int)))),
        decreases blocks.len() - i,
    {
        let ghost pre = flat(blocks.subrange(0, i as int));
        let stmts = &func.basic_blocks[i].statements;
        let mut j: usize = 0;
        assert(pre + stmts@.subrange(0, 0) =~= pre);
        while j < stmts.len()
            invariant
                blocks == func.basic_blocks@,
                locals == func.locals@,
                al == index_set_contents(*aliases),
                0 <= i < blocks.len(),
                stmts@ == blocks[i as int].statements@,
                0 <= j <= stmts@.len(),
                fields_match(v@, field_list(locals, al, pre + stmts@.subrange(0, j as int))),
            decreases stmts.len() - j,
        {
            let ghost seen = pre + stmts@.subrange(0, j as int);
            let ghost fl = field_list(locals, al, seen);
            assert(pre + stmts@.subrange(0, j + 1) =~= seen.push(stmts@[j as int]));
            assert((seen.push(stmts@[j as int])).drop_last() =~= seen);
            proof {
                lemma_field_list_distinct(locals, al, seen);
            }
            if let Some((f, t)) = statement_field_of(&func.locals, aliases, &stmts[j]) {
                if find_field(&v, &f, Ghost(fl)).is_none() {
                    v.push((f, t));
                    proof {
                        assert forall|k: int| 0 <= k < v@.len() implies (#[trigger] v@[k]).0@ == field_list(
                            locals,
                            al,
                            seen.push(stmts@[j as int]),
                        )[k].0 && (same_type_shape(v@[k].1, field_list(locals, al, seen.push(stmts@[j as int]))[k].1) && type_view(v@[k].1) == type_view(field_list(locals, al, seen.push(stmts@[j as int]))[k].1)) by {
                        }
                    }
                }
            }
            j = j + 1;
        }
        proof {
            lemma_flat_step(blocks, i as int);
            assert(stmts@.subrange(0, stmts@.len() as int) =~= stmts@);
        }
        i = i + 1;
    }
    proof {
        lemma_flat_all(blocks);
    }
    v
}

/// The fields the rewrite works with: computed ones matching the spec
/// ones, with room for their locals after `base`.
pub open spec fn ctx_ok(ctx: RewriteCtx, v: Seq<(String, Type)>) -> bool {
    &&& fields_match(v, ctx.fields)
    &&& distinct_fields(ctx.fields)
    &&& ctx.base + ctx.fields.len() <= usize::MAX
}

fn push_storage_starts(
    out: &mut Vec<Statement>,
    v: &Vec<(String, Type)>,
    base: usize,
    span: Span,
    ctx: Ghost<RewriteCtx>,
)
    requires
        ctx_ok(ctx@, v@),
        ctx@.base == base,
    ensures
        final(out)@ == old(out)@ + storage_starts(ctx@, span, ctx@.fields.len() as int),
{
    let mut k: usize = 0;
    assert(old(out)@ + storage_starts(ctx@, span, 0) =~= old(out)@);
    while k < v.len()
        invariant
            ctx_ok(ctx@, v@),
            ctx@.base == base,
            0 <= k <= v@.len(),
            out@ == old(out)@ + storage_starts(ctx@, span, k as int),
        decreases v.len() - k,
    {
        out.push(Statement { kind: StatementKind::StorageLive(Local(base + k)), span });
        k = k + 1;
        assert(out@ =~= old(out)@ + storage_starts(ctx@, span, k as int));
    }
}

fn push_zero_fill(
    out: &mut Vec<Statement>,
    v: &Vec<(String, Type)>,
    base: usize,
    span: Span,
    ctx: Ghost<RewriteCtx>,
)
    requires
        ctx_ok(ctx@, v@),
        ctx@.base == base,
    ensures
        final(out)@ == old(out)@ + zero_fill(ctx@, span, ctx@.fields.len() as int),
{
    let mut k: usize = 0;
    assert(old(out)@ + zero_fill(ctx@, span, 0) =~= old(out)@);
    while k < v.len()
        invariant
            ctx_ok(ctx@, v@),
            ctx@.base == base,
            0 <= k <= v@.len(),
            out@ == old(out)@ + zero_fill(ctx@, span, k as int),
        decreases v.len() - k,
    {
        assert((same_type_shape(v@[k as int].1, ctx@.fields[k as int].1) && type_view(v@[k as int].1) == type_view(ctx@.fields[k as int].1)));
        if v[k].1.is_move_type() {
            out.push(
                Statement {
                    kind: StatementKind::Assign(
                        Local(base + k),
                        Rvalue::Use(Operand::Constant(Constant::Int(0))),
                    ),
                    span,
                },
            );
        }
        k = k + 1;
        assert(out@ =~= old(out)@ + zero_fill(ctx@, span, k as int));
    }
}

fn push_field_drops(
    out: &mut Vec<Statement>,
    v: &Vec<(String, Type)>,
    base: usize,
    span: Span,
    ctx: Ghost<RewriteCtx>,
)
    requires
        ctx_ok(ctx@, v@),
        ctx@.base == base,
    ensures
        final(out)@ == old(out)@ + field_drops(ctx@, span, ctx@.fields.len() as int),
{
    let mut k: usize = 0;
    assert(old(out)@ + field_drops(ctx@, span, 0) =~= old(out)@);
    while k < v.len()
        invariant
            ctx_ok(ctx@, v@),
            ctx@.base == base,
            0 <= k <= v@.len(),
            out@ == old(out)@ + field_drops(ctx@, span, k as int),
        decreases v.len() - k,
    {
        assert((same_type_shape(v@[k as int].1, ctx@.fields[k as int].1) && type_view(v@[k as int].1) == type_view(ctx@.fields[k as int].1)));
        if v[k].1.is_move_type() {
            out.push(Statement { kind: StatementKind::Drop(Local(base + k)), span });
        }
        k = k + 1;
        assert(out@ =~= old(out)@ + field_drops(ctx@, span, k as int));
    }
}

/// Pushes `field = value` when the field is known.
fn push_field_store(
    out: &mut Vec<Statement>,
    v: &Vec<(String, Type)>,
    base: usize,
    span: Span,
    f: Option<String>,
    value: &Operand,
    ctx: Ghost<RewriteCtx>,
)
    requires
        ctx_ok(ctx@, v@),
        ctx@.base == base,
    ensures
        final(out)@ == old(out)@ + field_store(ctx@, span, opt_view(f), *value),
{
    match f {
        Some(name) => match find_field(v, &name, Ghost(ctx@.fields)) {
            Some(idx) => {
                out.push(
                    Statement {
                        kind: StatementKind::Assign(Local(base + idx), Rvalue::Use(value.clone())),
                        span,
                    },
                );
                assert(out@ =~= old(out)@ + field_store(ctx@, span, opt_view(Some(name)), *value));
            },
            None => {
                assert(out@ =~= old(out)@ + field_store(ctx@, span, opt_view(Some(name)), *value));
            },
        },
        None => {
            assert(out@ =~= old(out)@ + field_store(ctx@, span, opt_view(f), *value));
        },
    }
}

pub open spec fn opt_view(f: Option<String>) -> Option<Seq<char>> {
    match f {
        Some(s) => Some(s@),
        None => None,
    }
}

fn push_list_inits(
    out: &mut Vec<Statement>,
    v: &Vec<(String, Type)>,
    base: usize,
    span: Span,
    ops: &Vec<Operand>,
    ctx: Ghost<RewriteCtx>,
)
    requires
        ctx_ok(ctx@, v@),
        ctx@.base == base,
    ensures
        final(out)@ == old(out)@ + list_inits(ctx@, span, ops@, ops@.len() as int),
{
    let mut k: usize = 0;
    assert(old(out)@ + list_inits(ctx@, span, ops@, 0) =~= old(out)@);
    while k < ops.len()
        invariant
            ctx_ok(ctx@, v@),
            ctx@.base == base,
            0 <= k <= ops@.len(),
            out@ == old(out)@ + list_inits(ctx@, span, ops@, k as int),
        decreases ops.len() - k,
    {
        let name = decimal_string(k as u64);
        let ghost before = out@;
        push_field_store(out, v, base, span, Some(name), &ops[k], ctx);
        k = k + 1;
        assert(out@ =~= old(out)@ + list_inits(ctx@, span, ops@, k as int));
    }
}

fn push_dict_inits(
    out: &mut Vec<Statement>,
    v: &Vec<(String, Type)>,
    base: usize,
    span: Span,
    ops: &Vec<Operand>,
    ctx: Ghost<RewriteCtx>,
)
    requires
        ctx_ok(ctx@, v@),
        ctx@.base == base,
    ensures
        final(out)@ == old(out)@ + dict_inits(ctx@, span, ops@, (ops@.len() / 2) as int),
{
    let n = ops.len();
    let pairs = n / 2;
    let mut p: usize = 0;
    let mut i: usize = 0;
    assert(old(out)@ + dict_inits(ctx@, span, ops@, 0) =~= old(out)@);
    while p < pairs
        invariant
            ctx_ok(ctx@, v@),
            ctx@.base == base,
            n == ops@.len(),
            pairs == n / 2,
            0 <= p <= pairs,
            i == 2 * p,
            out@ == old(out)@ + dict_inits(ctx@, span, ops@, p as int),
        decreases pairs - p,
    {
        assert(i + 1 < n);
        let key = index_field_of(&ops[i]);
        push_field_store(out, v, base, span, key, &ops[i + 1], ctx);
        p = p + 1;
        i = i + 2;
        assert(out@ =~= old(out)@ + dict_inits(ctx@, span, ops@, p as int));
    }
}

/// Pushes the store of `val` into the field named `f`.
fn push_store(
    out: &mut Vec<Statement>,
    v: &Vec<(String, Type)>,
    base: usize,
    slots: &IndexMap,
    span: Span,
    f: Option<String>,
    val: &Operand,
    ctx: Ghost<RewriteCtx>,
)
    requires
        ctx_ok(ctx@, v@),
        ctx@.base == base,
    ensures
        final(out)@ == old(out)@ + store_replacement(ctx@, index_map_contents(*slots), span, opt_view(f), *val),
{
    match f {
        Some(name) => match find_field(v, &name, Ghost(ctx@.fields)) {
            Some(idx) => {
                let aliases_slot = match val {
                    Operand::Copy(l) | Operand::Move(l) => slots.get(l.0) == Some(idx),
                    Operand::Constant(_) => false,
                };
                assert((same_type_shape(v@[idx as int].1, ctx@.fields[idx as int].1) && type_view(v@[idx as int].1) == type_view(ctx@.fields[idx as int].1)));
                if v[idx].1.is_move_type() && !aliases_slot {
                    out.push(Statement { kind: StatementKind::Drop(Local(base + idx)), span });
                }
                out.push(
                    Statement {
                        kind: StatementKind::Assign(Local(base + idx), Rvalue::Use(val.clone())),
                        span,
                    },
                );
                assert(out@ =~= old(out)@ + store_replacement(
                    ctx@,
                    index_map_contents(*slots),
                    span,
                    opt_view(Some(name)),
                    *val,
                ));
            },
            None => {
                assert(out@ =~= old(out)@ + store_replacement(
                    ctx@,
                    index_map_contents(*slots),
                    span,
                    opt_view(Some(name)),
                    *val,
                ));
            },
        },
        None => {
            assert(out@ =~= old(out)@ + store_replacement(ctx@, index_map_contents(*slots), span, opt_view(f), *val));
        },
    }
}

/// Pushes the read of the field named `f` into `dst`.
fn push_read(
    out: &mut Vec<Statement>,
    v: &Vec<(String, Type)>,
    base: usize,
    slots: &mut IndexMap,
    span: Span,
    dst: Local,
    f: Option<String>,
    ctx: Ghost<RewriteCtx>,
)
    requires
        ctx_ok(ctx@, v@),
        ctx@.base == base,
    ensures
        ({
            let (more, s2) = read_replacement(ctx@, index_map_contents(*old(slots)), span, dst, opt_view(f));
            &&& final(out)@ == old(out)@ + more
            &&& index_map_contents(*final(slots)) == s2
        }),
{
    match f {
        Some(name) => match find_field(v, &name, Ghost(ctx@.fields)) {
            Some(idx) => {
                slots.insert(dst.0, idx);
                out.push(
                    Statement {
                        kind: StatementKind::Assign(dst, Rvalue::Use(Operand::Copy(Local(base + idx)))),
                        span,
                    },
                );
                assert(out@ =~= old(out)@ + read_replacement(
                    ctx@,
                    index_map_contents(*old(slots)),
                    span,
                    dst,
                    opt_view(Some(name)),
                ).0);
            },
            None => {
                assert(out@ =~= old(out)@ + read_replacement(
                    ctx@,
                    index_map_contents(*old(slots)),
                    span,
                    dst,
                    opt_view(Some(name)),
                ).0);
            },
        },
        None => {
            assert(out@ =~= old(out)@ + read_replacement(
                ctx@,
                index_map_contents(*old(slots)),
                span,
                dst,
                opt_view(f),
            ).0);
        },
    }
}

/// Pushes what replaces `s` and updates the slots.
fn rewrite_statement(
    out: &mut Vec<Statement>,
    v: &Vec<(String, Type)>,
    base: usize,
    aliases: &IndexSet,
    origin: usize,
    slots: &mut IndexMap,
    s: Statement,
    ctx: Ghost<RewriteCtx>,
)
    requires
        ctx_ok(ctx@, v@),
        ctx@.base == base,
        ctx@.aliases == index_set_contents(*aliases),
        ctx@.origin == origin,
    ensures
        ({
            let (more, s2) = rewrite_step(ctx@, index_map_contents(*old(slots)), s);
            &&& final(out)@ == old(out)@ + more
            &&& index_map_contents(*final(slots)) == s2
        }),
{
    let alloc = allocation_target(&s);
    if alloc == Some(origin) {
        push_storage_starts(out, v, base, s.span, ctx);
        push_zero_fill(out, v, base, s.span, ctx);
        match &s.kind {
            StatementKind::Assign(_, Rvalue::Aggregate(AggregateKind::Dict, ops)) => {
                push_dict_inits(out, v, base, s.span, ops, ctx);
            },
            StatementKind::Assign(_, Rvalue::Aggregate(_, ops)) => {
                push_list_inits(out, v, base, s.span, ops, ctx);
            },
            _ => {},
        }
        return;
    }
    proof {
        if allocates(s, origin) {
            assert(alloc is Some);
        }
    }
    let ghost before = out@;
    let handled = match &s.kind {
        StatementKind::SetAttr(op, f, val) => if reads_alias_of(aliases, op) {
            push_store(out, v, base, slots, s.span, Some(f.clone()), val, ctx);
            true
        } else {
            false
        },
        StatementKind::Assign(dst, Rvalue::GetAttr(op, f)) => if reads_alias_of(aliases, op) {
            push_read(out, v, base, slots, s.span, *dst, Some(f.clone()), ctx);
            true
        } else {
            false
        },
        StatementKind::SetIndex(op, idx, val, _) => if reads_alias_of(aliases, op) {
            push_store(out, v, base, slots, s.span, index_field_of(idx), val, ctx);
            true
        } else {
            false
        },
        StatementKind::Assign(dst, Rvalue::GetIndex(op, idx, _)) => if reads_alias_of(aliases, op) {
            push_read(out, v, base, slots, s.span, *dst, index_field_of(idx), ctx);
            true
        } else {
            false
        },
        StatementKind::Assign(dst, Rvalue::Use(op)) => aliases.contains(dst.0) && reads_alias_of(aliases, op),
        StatementKind::Drop(l) => if aliases.contains(l.0) {
            push_field_drops(out, v, base, s.span, ctx);
            true
        } else {
            false
        },
        StatementKind::StorageLive(l) => aliases.contains(l.0),
        StatementKind::StorageDead(l) => aliases.contains(l.0),
        _ => false,
    };
    if !handled {
        if let StatementKind::Assign(dst, rv) = &s.kind {
            let src = match rv {
                Rvalue::Use(Operand::Copy(x)) => Some(x.0),
                Rvalue::Use(Operand::Move(x)) => Some(x.0),
                _ => None,
            };
            match src {
                Some(x) => match slots.get(x) {
                    Some(i) => {
                        slots.insert(dst.0, i);
                    },
                    None => {
                        slots.remove(dst.0);
                    },
                },
                None => {
                    slots.remove(dst.0);
                },
            }
        }
        out.push(s);
        assert(out@ =~= before + seq![s]);
    } else {
        proof {
            match s.kind {
                StatementKind::Assign(dst, Rvalue::Use(op)) => {
                    assert(out@ =~= before + Seq::<Statement>::empty());
                },
                StatementKind::StorageLive(_) => {
                    assert(out@ =~= before + Seq::<Statement>::empty());
                },
                StatementKind::StorageDead(_) => {
                    assert(out@ =~= before + Seq::<Statement>::empty());
                },
                _ => {},
            }
        }
    }
}

/// The rewrite of one block's statements.
fn rewrite_statements(
    stmts: &mut Vec<Statement>,
    v: &Vec<(String, Type)>,
    base: usize,
    aliases: &IndexSet,
    origin: usize,
    ctx: Ghost<RewriteCtx>,
)
    requires
        ctx_ok(ctx@, v@),
        ctx@.base == base,
        ctx@.aliases == index_set_contents(*aliases),
        ctx@.origin == origin,
    ensures
        final(stmts)@ == rewrite_block(ctx@, old(stmts)@),
{
    let ghost orig = stmts@;
    let n = stmts.len();
    let mut out: Vec<Statement> = Vec::new();
    let mut slots = IndexMap::new();
    assert(index_map_contents(slots) =~= Map::<usize, usize>::empty());
    let mut j: usize = 0;
    while j < n
        invariant
            ctx_ok(ctx@, v@),
            ctx@.base == base,
            ctx@.aliases == index_set_contents(*aliases),
            ctx@.origin == origin,
            n == orig.len(),
            stmts@.len() == n,
            0 <= j <= n,
            forall|k: int| j <= k < n ==> stmts@[k] == orig[k],
            out@ == rewrite_prefix(ctx@, orig, j as int).0,
            index_map_contents(slots) == rewrite_prefix(ctx@, orig, j as int).1,
        decreases n - j,
    {
        let mut st = Statement {
            kind: StatementKind::StorageLive(Local(0)),
            span: Span::default(),
        };
        stmts.set_and_swap(j, &mut st);
        assert(st == orig[j as int]);
        rewrite_statement(&mut out, v, base, aliases, origin, &mut slots, st, ctx);
        j = j + 1;
    }
    *stmts = out;
}

/// The declaration of the local holding a field of type `t`.
pub open spec fn field_decl(d: LocalDecl, t: Type) -> bool {
    &&& (same_type_shape(d.ty, t) && type_view(d.ty) == type_view(t))
    &&& d.name is None
    &&& d.span == Span { file_id: 0, line: 0, col: 0, start: 0, end: 0 }
    &&& d.is_mut
    &&& d.is_owning
}

/// The candidate's aliases are all locals of the frame: none is the return
/// slot or a parameter.
pub open spec fn stays_local(f: MirFunction, aliases: Set<usize>) -> bool {
    forall|a: usize| aliases.contains(a) ==> a > f.arg_count
}

/// Scalarizing candidate `c` of `f` gives `g`: when the candidate's aliases
/// stay local, every statement mentioning them is understood, it has
/// fields, and their locals can be numbered, `g` declares one local per
/// field after `f`'s and has every block rewritten; otherwise `g` is `f`.
pub open spec fn scalarized(f: MirFunction, c: usize, g: MirFunction) -> bool {
    let stmts = flat(f.basic_blocks@);
    exists|aliases: Set<usize>|
        #[trigger] alias_set(stmts, c, aliases) && {
            let fields = field_list(f.locals@, aliases, stmts);
            let base = f.locals@.len();
            let ctx = RewriteCtx { aliases, origin: c, fields, base };
            if stays_local(f, aliases) && scalarizable(aliases, c, stmts, None) && fields.len() > 0 && base
                + fields.len() <= usize::MAX {
                &&& g.name == f.name
                &&& g.arg_count == f.arg_count
                &&& g.vararg_idx == f.vararg_idx
                &&& g.kwarg_idx == f.kwarg_idx
                &&& g.param_names == f.param_names
                &&& g.is_async == f.is_async
                &&& g.locals@.len() == base + fields.len()
                &&& g.locals@.subrange(0, base as int) == f.locals@
                &&& forall|k: int| 0 <= k < fields.len() ==> field_decl(#[trigger] g.locals@[base + k], fields[k].1)
                &&& g.basic_blocks@.len() == f.basic_blocks@.len()
                &&& forall|b: int|
                    0 <= b < f.basic_blocks@.len() ==> {
                        &&& #[trigger] g.basic_blocks@[b].terminator == f.basic_blocks@[b].terminator
                        &&& g.basic_blocks@[b].statements@ == rewrite_block(ctx, f.basic_blocks@[b].statements@)
                    }
            } else {
                g == f
            }
        }
}

/// Scalarizes candidate `c`; true when it did.
fn scalarize_candidate(func: &mut MirFunction, c: usize) -> (done: bool)
    ensures
        scalarized(*old(func), c, *final(func)),
        done == (final(func).locals@.len() > old(func).locals@.len()),
{
    let ghost f = *func;
    let ghost stmts = flat(f.basic_blocks@);
    let aliases = alias_closure(func, c);
    let ghost al = index_set_contents(aliases);
    assert(alias_set(stmts, c, al));
    let members = aliases.to_vec();
    let mut k: usize = 0;
    while k < members.len()
        invariant
            members@.to_set() == al,
            0 <= k <= members@.len(),
            forall|q: int| 0 <= q < k ==> members@[q] > func.arg_count,
            *func == f,
            stmts == flat(f.basic_blocks@),
            alias_set(stmts, c, al),
        decreases members.len() - k,
    {
        if members[k] <= func.arg_count {
            proof {
                assert(members@.to_set().contains(members@[k as int]));
                assert(!stays_local(f, al));
            }
            return false;
        }
        k = k + 1;
    }
    proof {
        assert forall|a: usize| al.contains(a) implies a > f.arg_count by {
            assert(members@.to_set().contains(a));
            let q = choose|q: int| 0 <= q < members@.len() && members@[q] == a;
        }
    }
    if !can_scalarize(func, &aliases, c) {
        return false;
    }
    let v = collect_fields(func, &aliases);
    let ghost fields = field_list(f.locals@, al, stmts);
    if v.len() == 0 {
        return false;
    }
    let base = func.locals.len();
    if base > usize::MAX - v.len() {
        return false;
    }
    let ghost ctx = RewriteCtx { aliases: al, origin: c, fields, base: base as nat };
    proof {
        lemma_field_list_distinct(f.locals@, al, stmts);
    }
    let mut k: usize = 0;
    while k < v.len()
        invariant
            fields_match(v@, fields),
            0 <= k <= v@.len(),
            base == f.locals@.len(),
            func.locals@.len() == base + k,
            func.locals@.subrange(0, base as int) == f.locals@,
            forall|q: int| 0 <= q < k ==> field_decl(#[trigger] func.locals@[base + q], fields[q].1),
            func.basic_blocks@ == f.basic_blocks@,
            func.name == f.name,
            func.arg_count == f.arg_count,
            func.vararg_idx == f.vararg_idx,
            func.kwarg_idx == f.kwarg_idx,
            func.param_names == f.param_names,
            func.is_async == f.is_async,
        decreases v.len() - k,
    {
        let ghost before = func.locals@;
        assert((same_type_shape(v@[k as int].1, fields[k as int].1) && type_view(v@[k as int].1) == type_view(fields[k as int].1)));
        let ty = copy_type(&v[k].1);
        func.locals.push(LocalDecl { ty, name: None, span: Span::default(), is_mut: true, is_owning: true });
        proof {
            assert(func.locals@.subrange(0, base as int) =~= f.locals@) by {
                assert forall|q: int| 0 <= q < base implies func.locals@[q] == f.locals@[q] by {
                    assert(before.subrange(0, base as int)[q] == before[q]);
                }
            }
        }
        k = k + 1;
    }
    let ghost blocks = func.basic_blocks@;
    let mut b: usize = 0;
    while b < func.basic_blocks.len()
        invariant
            ctx_ok(ctx, v@),
            ctx == (RewriteCtx { aliases: al, origin: c, fields, base: base as nat }),
            al == index_set_contents(aliases),
            blocks == f.basic_blocks@,
            func.basic_blocks@.len() == blocks.len(),
            0 <= b <= blocks.len(),
            forall|q: int| b <= q < blocks.len() ==> #[trigger] func.basic_blocks@[q] == blocks[q],
            forall|q: int|
                0 <= q < b ==> {
                    &&& #[trigger] func.basic_blocks@[q].terminator == blocks[q].terminator
                    &&& func.basic_blocks@[q].statements@ == rewrite_block(ctx, blocks[q].statements@)
                },
            func.locals@.len() == base + v@.len(),
            func.locals@.subrange(0, base as int) == f.locals@,
            forall|q: int| 0 <= q < v@.len() ==> field_decl(#[trigger] func.locals@[base + q], fields[q].1),
            func.name == f.name,
            func.arg_count == f.arg_count,
            func.vararg_idx == f.vararg_idx,
            func.kwarg_idx == f.kwarg_idx,
            func.param_names == f.param_names,
            func.is_async == f.is_async,
        decreases blocks.len() - b,
    {
        let mut bb = BasicBlock { statements: Vec::new(), terminator: None };
        func.basic_blocks.set_and_swap(b, &mut bb);
        rewrite_statements(&mut bb.statements, &v, base, &aliases, c, Ghost(ctx));
        func.basic_blocks.set_and_swap(b, &mut bb);
        b = b + 1;
    }
    true
}

impl Transform for ScalarizeStructs {
    open spec fn accepts(&self, func: MirFunction) -> bool {
        true
    }

    /// Scalarizes each candidate in turn: the locals allocated into exactly
    /// once, in an order (that of a hash map's keys) which is not stated.
    #[verifier::spinoff_prover]
    #[verifier::rlimit(30)]
    fn run(&self, func: &mut MirFunction) -> (changed: bool)
        ensures
            exists|order: Seq<usize>, steps: Seq<MirFunction>|
                {
                    &&& order.no_duplicates()
                    &&& forall|l: usize|
                        #[trigger] order.contains(l) <==> alloc_count(flat(old(func).basic_blocks@), l) == 1
                    &&& steps.len() == order.len() + 1
                    &&& steps[0] == *old(func)
                    &&& steps[order.len() as int] == *final(func)
                    &&& forall|k: int| 0 <= k < order.len() ==> scalarized(#[trigger] steps[k], order[k], steps[k + 1])
                    &&& changed == exists|k: int|
                        0 <= k < order.len() && #[trigger] steps[k + 1].locals@.len() > steps[k].locals@.len()
                },
    {
        let cands = find_candidates(func);
        let ghost mut steps: Seq<MirFunction> = seq![*func];
        let mut changed = false;
        let mut k: usize = 0;
        while k < cands.len()
            invariant
                0 <= k <= cands@.len(),
                steps.len() == k + 1,
                steps[0] == *old(func),
                steps[k as int] == *func,
                forall|q: int| 0 <= q < k ==> scalarized(#[trigger] steps[q], cands@[q], steps[q + 1]),
                changed == exists|q: int| 0 <= q < k && #[trigger] steps[q + 1].locals@.len() > steps[q].locals@.len(),
            decreases cands.len() - k,
        {
            let done = scalarize_candidate(func, cands[k]);
            proof {
                steps = steps.push(*func);
            }
            if done {
                changed = true;
            }
            proof {
                assert(steps[k as int + 1].locals@.len() > steps[k as int].locals@.len() <==> done);
            }
            k = k + 1;
        }
        changed
    }
}

} // verus!
