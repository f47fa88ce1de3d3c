//! Instrumentation for the debugger. An instrumented function calls a hook
//! on entry (with its id) and for each argument shown to the debugger,
//! before the first statement of each new source line, after each store to
//! a shown local, and before each return; each hook call's result goes to
//! a fresh sink local.

use crate::fx::{index_map_contents, line_set_contents, IndexMap, LineSet};
use crate::ir::{
    same_signature, type_view, BasicBlock, Constant, Local, LocalDecl, MirFunction, Operand, Rvalue, Span,
    Statement, StatementKind, TerminatorKind, Type,
};
use vstd::prelude::*;

verus! {

/// A local shown to the debugger.
#[derive(Debug, Clone)]
pub struct CellInfo {
    pub name: String,
    pub local: usize,
    pub ty: Type,
}

/// An instrumented function: its name, its id, and its shown locals.
#[derive(Debug, Clone)]
pub struct DebugFnInfo {
    pub name: String,
    pub fn_id: u32,
    pub cells: Vec<CellInfo>,
}

/// What instrumenting a program records: the instrumented functions, and
/// the keys of every source line given a stop point.
pub struct DebugProgramInfo {
    pub functions: Vec<DebugFnInfo>,
    pub lines: LineSet,
}

/// The span of compiler-made code, with no source position.
pub open spec fn no_span() -> Span {
    Span { file_id: 0, line: 0, col: 0, start: 0, end: 0 }
}

/// Some statement of the function has a source position.
pub open spec fn has_source_span(f: MirFunction) -> bool {
    exists|b: int, k: int|
        0 <= b < f.basic_blocks@.len() && 0 <= k < f.basic_blocks@[b].statements@.len()
            && (#[trigger] f.basic_blocks@[b].statements@[k]).span != no_span()
}

/// The function is instrumented: it is not async and has source positions.
pub open spec fn instrumentable(f: MirFunction) -> bool {
    !f.is_async && has_source_span(f)
}

/// A local shown to the debugger: named, and not a vector.
pub open spec fn is_cell(d: LocalDecl) -> bool {
    d.name is Some && !(d.ty is Vector)
}

/// The indices of the shown locals, in order.
pub open spec fn cell_locals(locals: Seq<LocalDecl>) -> Seq<usize>
    decreases locals.len(),
{
    if locals.len() == 0 {
        seq![]
    } else {
        let r = cell_locals(locals.drop_last());
        if is_cell(locals.last()) {
            r.push((locals.len() - 1) as usize)
        } else {
            r
        }
    }
}

/// `cells` describes the shown locals of `locals`, in order: each by its
/// index, its name, and a copy of its type.
pub open spec fn cells_of(locals: Seq<LocalDecl>, cells: Seq<CellInfo>) -> bool {
    let ls = cell_locals(locals);
    &&& cells.len() == ls.len()
    &&& forall|j: int|
        0 <= j < cells.len() ==> {
            &&& (#[trigger] cells[j]).local == ls[j]
            &&& locals[ls[j] as int].name matches Some(n) && cells[j].name@ == n@
            &&& type_view(cells[j].ty) == type_view(locals[ls[j] as int].ty)
        }
}

/// The position of the last cell of `cells` for local `l`.
pub open spec fn cell_index(cells: Seq<CellInfo>, l: usize) -> Option<int>
    decreases cells.len(),
{
    if cells.len() == 0 {
        None
    } else if cells.last().local == l {
        Some(cells.len() - 1)
    } else {
        cell_index(cells.drop_last(), l)
    }
}

/// The key of a source line: the file id shifted into the high half, the
/// line number below it.
pub open spec fn line_key(s: Span) -> i64 {
    ((s.file_id as i64) << 32u64) | (s.line as i64)
}

/// Within its bounds, the key of a line is the file id times 2^32 plus the
/// line number.
pub proof fn lemma_line_key_value(s: Span)
    requires
        s.file_id < 0x8000_0000,
        s.line < 0x1_0000_0000,
    ensures
        line_key(s) == s.file_id * 0x1_0000_0000 + s.line,
{
    let f = s.file_id;
    let l = s.line;
    assert(((f as i64) << 32u64) | (l as i64) == (f as i64) * 0x1_0000_0000i64 + (l as i64)) by (bit_vector)
        requires
            f < 0x8000_0000,
            l < 0x1_0000_0000,
    ;
    assert((f as i64) * 0x1_0000_0000i64 + (l as i64) == f * 0x1_0000_0000 + l) by (bit_vector)
        requires
            f < 0x8000_0000,
            l < 0x1_0000_0000,
    ;
}

/// The debugger hooks.
#[derive(Debug, Clone, Copy, PartialEq, Eq, Structural)]
pub enum HookKind {
    Enter,
    Stmt,
    Store,
    Exit,
}

/// The runtime function a hook calls.
pub open spec fn hook_name(k: HookKind) -> Seq<char> {
    match k {
        HookKind::Enter => "__olive_debug_enter"@,
        HookKind::Stmt => "__olive_debug_stmt"@,
        HookKind::Store => "__olive_debug_store"@,
        HookKind::Exit => "__olive_debug_exit"@,
    }
}

/// One statement of an instrumented block: a hook call with its arguments
/// and span, or a statement of the original block.
pub enum DebugEntry {
    Hook(HookKind, Seq<Operand>, Span),
    Keep(Statement),
}

/// The entries for `stmts`, `last` being the key of the last line given a
/// stop point in the block: a line hook before a statement with a source
/// position on another line, the statement, and a store hook after an
/// assignment to a shown local.
pub open spec fn stmt_entries(stmts: Seq<Statement>, cells: Seq<CellInfo>, last: Option<i64>) -> Seq<DebugEntry>
    decreases stmts.len(),
{
    if stmts.len() == 0 {
        seq![]
    } else {
        let s = stmts[0];
        let new_line = s.span != no_span() && last != Some(line_key(s.span));
        let pre = if new_line {
            seq![DebugEntry::Hook(HookKind::Stmt, seq![Operand::Constant(Constant::Int(line_key(s.span)))], s.span)]
        } else {
            seq![]
        };
        let next = if new_line {
            Some(line_key(s.span))
        } else {
            last
        };
        let post = match s.kind {
            StatementKind::Assign(l, _) => match cell_index(cells, l.0) {
                Some(ci) => seq![
                    DebugEntry::Hook(
                        HookKind::Store,
                        seq![Operand::Constant(Constant::Int(ci as i64)), Operand::Copy(l)],
                        s.span,
                    ),
                ],
                None => seq![],
            },
            _ => seq![],
        };
        pre + seq![DebugEntry::Keep(s)] + post + stmt_entries(stmts.drop_first(), cells, next)
    }
}

/// The keys of the lines `stmts` gives stop points, as `stmt_entries` does.
pub open spec fn stmt_lines(stmts: Seq<Statement>, last: Option<i64>) -> Set<i64>
    decreases stmts.len(),
{
    if stmts.len() == 0 {
        Set::empty()
    } else {
        let s = stmts[0];
        let new_line = s.span != no_span() && last != Some(line_key(s.span));
        if new_line {
            stmt_lines(stmts.drop_first(), Some(line_key(s.span))).insert(line_key(s.span))
        } else {
            stmt_lines(stmts.drop_first(), last)
        }
    }
}

/// The store hooks for the arguments `1..=n` shown to the debugger.
pub open spec fn arg_stores(cells: Seq<CellInfo>, n: nat) -> Seq<DebugEntry>
    decreases n,
{
    if n == 0 {
        seq![]
    } else {
        arg_stores(cells, (n - 1) as nat) + match cell_index(cells, n as usize) {
            Some(ci) => seq![
                DebugEntry::Hook(
                    HookKind::Store,
                    seq![Operand::Constant(Constant::Int(ci as i64)), Operand::Copy(Local(n as usize))],
                    no_span(),
                ),
            ],
            None => seq![],
        }
    }
}

/// The entries of the entry block that precede its statements.
pub open spec fn prelude_entries(fn_id: u32, arg_count: usize, cells: Seq<CellInfo>) -> Seq<DebugEntry> {
    seq![DebugEntry::Hook(HookKind::Enter, seq![Operand::Constant(Constant::Int(fn_id as i64))], no_span())]
        + arg_stores(cells, arg_count as nat)
}

/// The entries of block `b` of `f` once instrumented: the prelude in the
/// entry block, the statements with their hooks, and an exit hook before a
/// return.
pub open spec fn block_entries(f: MirFunction, b: int, fn_id: u32, cells: Seq<CellInfo>) -> Seq<DebugEntry> {
    let bb = f.basic_blocks@[b];
    (if b == 0 {
        prelude_entries(fn_id, f.arg_count, cells)
    } else {
        seq![]
    }) + stmt_entries(bb.statements@, cells, None) + match bb.terminator {
        Some(t) => if t.kind is Return {
            seq![DebugEntry::Hook(HookKind::Exit, seq![], t.span)]
        } else {
            seq![]
        },
        None => seq![],
    }
}

/// The number of hook calls among `es`.
pub open spec fn hooks(es: Seq<DebugEntry>) -> nat
    decreases es.len(),
{
    if es.len() == 0 {
        0
    } else {
        hooks(es.drop_last()) + if es.last() is Hook {
            1nat
        } else {
            0nat
        }
    }
}

/// The number of hook calls in the blocks of `f` before block `b`.
pub open spec fn hooks_before(f: MirFunction, b: int, fn_id: u32, cells: Seq<CellInfo>) -> nat
    decreases b,
{
    if b <= 0 {
        0
    } else {
        hooks_before(f, b - 1, fn_id, cells) + hooks(block_entries(f, b - 1, fn_id, cells))
    }
}

/// The keys of the lines the blocks of `f` before block `b` give stop points.
pub open spec fn lines_before(f: MirFunction, b: int) -> Set<i64>
    decreases b,
{
    if b <= 0 {
        Set::empty()
    } else {
        lines_before(f, b - 1).union(stmt_lines(f.basic_blocks@[b - 1].statements@, None))
    }
}

/// `s` is entry `e`, a hook call putting its result in local `sink`.
pub open spec fn entry_is(s: Statement, e: DebugEntry, sink: nat) -> bool {
    match e {
        DebugEntry::Keep(x) => s == x,
        DebugEntry::Hook(k, args, span) => s.span == span && (s.kind matches StatementKind::Assign(
            l,
            Rvalue::Call { func: Operand::Constant(Constant::Function(n)), args: a },
        ) && l.0 == sink && n@ == hook_name(k) && a@ == args),
    }
}

/// `out` holds the entries `es`, the hook calls' sinks numbered from `s0`
/// in order.
pub open spec fn entries_match(out: Seq<Statement>, es: Seq<DebugEntry>, s0: nat) -> bool
    decreases es.len(),
{
    if es.len() == 0 {
        out.len() == 0
    } else {
        &&& out.len() == es.len()
        &&& entries_match(out.drop_last(), es.drop_last(), s0)
        &&& entry_is(out.last(), es.last(), s0 + hooks(es.drop_last()))
    }
}

/// A sink local: an immutable, unnamed local of the null type.
pub open spec fn sink_local(d: LocalDecl) -> bool {
    &&& d.ty == Type::Null
    &&& d.name is None
    &&& d.span == no_span()
    &&& !d.is_mut
    &&& d.is_owning
}

/// `g` is `f` instrumented as function `fn_id` with the shown locals
/// `cells`: each block holds `block_entries`, the sinks numbered after the
/// existing locals in block order, and declared as sink locals.
pub open spec fn instrumented(f: MirFunction, fn_id: u32, cells: Seq<CellInfo>, g: MirFunction) -> bool {
    let n = f.basic_blocks@.len();
    let nl = f.locals@.len();
    &&& same_signature(g, f)
    &&& g.basic_blocks@.len() == n
    &&& forall|b: int|
        0 <= b < n ==> {
            &&& (#[trigger] g.basic_blocks@[b]).terminator == f.basic_blocks@[b].terminator
            &&& entries_match(
                g.basic_blocks@[b].statements@,
                block_entries(f, b, fn_id, cells),
                nl + hooks_before(f, b, fn_id, cells),
            )
        }
    &&& g.locals@.len() == nl + hooks_before(f, n as int, fn_id, cells)
    &&& g.locals@.subrange(0, nl as int) == f.locals@
    &&& forall|x: int| nl <= x < g.locals@.len() ==> sink_local(#[trigger] g.locals@[x])
}

/// The statements of the blocks of `f` from block `b` on.
pub open spec fn stmts_from(f: MirFunction, b: int) -> nat
    decreases f.basic_blocks@.len() - b,
{
    if b < 0 || b >= f.basic_blocks@.len() {
        0
    } else {
        f.basic_blocks@[b].statements@.len() + stmts_from(f, b + 1)
    }
}

/// Room for the sinks: the locals index range holds every local the
/// instrumentation can add.
pub open spec fn debug_room(f: MirFunction) -> bool {
    f.locals@.len() + f.arg_count + 2 * stmts_from(f, 0) + f.basic_blocks@.len() + 2 < usize::MAX
}

proof fn lemma_hooks_append(a: Seq<DebugEntry>, b: Seq<DebugEntry>)
    ensures
        hooks(a + b) == hooks(a) + hooks(b),
    decreases b.len(),
{
    if b.len() == 0 {
        assert(a + b =~= a);
    } else {
        assert((a + b).drop_last() =~= a + b.drop_last());
        lemma_hooks_append(a, b.drop_last());
    }
}

proof fn lemma_arg_store_hooks(cells: Seq<CellInfo>, n: nat)
    ensures
        hooks(arg_stores(cells, n)) <= n,
    decreases n,
{
    if n > 0 {
        lemma_arg_store_hooks(cells, (n - 1) as nat);
        let tail = match cell_index(cells, n as usize) {
            Some(ci) => seq![
                DebugEntry::Hook(
                    HookKind::Store,
                    seq![Operand::Constant(Constant::Int(ci as i64)), Operand::Copy(Local(n as usize))],
                    no_span(),
                ),
            ],
            None => seq![],
        };
        lemma_hooks_append(arg_stores(cells, (n - 1) as nat), tail);
        reveal_with_fuel(hooks, 2);
    }
}

proof fn lemma_hooks_single(e: DebugEntry)
    ensures
        hooks(seq![e]) == if e is Hook {
            1nat
        } else {
            0nat
        },
{
    reveal_with_fuel(hooks, 2);
    assert(seq![e].drop_last() =~= Seq::<DebugEntry>::empty());
    assert(seq![e].last() == e);
}

/// Appending a statement that is entry `e` keeps `entries_match`.
proof fn lemma_entries_push(out: Seq<Statement>, es: Seq<DebugEntry>, s0: nat, x: Statement, e: DebugEntry)
    requires
        entries_match(out, es, s0),
        entry_is(x, e, s0 + hooks(es)),
    ensures
        entries_match(out.push(x), es.push(e), s0),
        hooks(es.push(e)) == hooks(es) + if e is Hook {
            1nat
        } else {
            0nat
        },
{
    assert(out.push(x).drop_last() =~= out);
    assert(es.push(e).drop_last() =~= es);
    if es.len() == 0 {
        assert(out.len() == 0);
    }
}

fn is_no_span(sp: &Span) -> (r: bool)
    ensures
        r == (*sp == no_span()),
{
    sp.file_id == 0 && sp.line == 0 && sp.col == 0 && sp.start == 0 && sp.end == 0
}

/// Whether some statement of the function has a source position.
fn has_real_span(func: &MirFunction) -> (r: bool)
    ensures
        r == has_source_span(*func),
{
    let mut b: usize = 0;
    while b < func.basic_blocks.len()
        invariant
            0 <= b <= func.basic_blocks@.len(),
            forall|x: int, k: int|
                0 <= x < b && 0 <= k < func.basic_blocks@[x].statements@.len() ==> (
                #[trigger] func.basic_blocks@[x].statements@[k]).span == no_span(),
        decreases func.basic_blocks.len() - b,
    {
        let stmts = &func.basic_blocks[b].statements;
        let mut k: usize = 0;
        while k < stmts.len()
            invariant
                0 <= k <= stmts@.len(),
                b < func.basic_blocks@.len(),
                stmts@ == func.basic_blocks@[b as int].statements@,
                forall|j: int| 0 <= j < k ==> (#[trigger] stmts@[j]).span == no_span(),
            decreases stmts.len() - k,
        {
            if !is_no_span(&stmts[k].span) {
                assert(func.basic_blocks@[b as int].statements@[k as int].span != no_span());
                return true;
            }
            k = k + 1;
        }
        b = b + 1;
    }
    false
}

/// The shown locals of the function, in order.
fn named_cells(func: &MirFunction) -> (cells: Vec<CellInfo>)
    ensures
        cells_of(func.locals@, cells@),
{
    let ghost ls = func.locals@;
    let mut cells: Vec<CellInfo> = Vec::new();
    let mut idx: usize = 0;
    while idx < func.locals.len()
        invariant
            ls == func.locals@,
            0 <= idx <= ls.len(),
            cells@.len() == cell_locals(ls.subrange(0, idx as int)).len(),
            forall|j: int|
                0 <= j < cells@.len() ==> {
                    &&& (#[trigger] cells@[j]).local == cell_locals(ls.subrange(0, idx as int))[j]
                    &&& cells@[j].local < idx
                    &&& ls[cells@[j].local as int].name matches Some(n) && cells@[j].name@ == n@
                    &&& type_view(cells@[j].ty) == type_view(ls[cells@[j].local as int].ty)
                },
        decreases ls.len() - idx,
    {
        let decl = &func.locals[idx];
        assert(ls.subrange(0, idx + 1).drop_last() =~= ls.subrange(0, idx as int));
        let vector = match &decl.ty {
            Type::Vector(..) => true,
            _ => false,
        };
        match &decl.name {
            Some(n) => {
                if !vector {
                    cells.push(CellInfo { name: n.clone(), local: idx, ty: decl.ty.clone() });
                }
            },
            None => {},
        }
        idx = idx + 1;
    }
    assert(ls.subrange(0, ls.len() as int) =~= ls);
    cells
}

/// The key of the span's source line, as `line_key` says.
fn pack_line(span: &Span) -> (k: i64)
    ensures
        k == line_key(*span),
{
    ((span.file_id as i64) << 32u64) | (span.line as i64)
}

/// Declares a fresh sink local.
fn alloc_sink(func: &mut MirFunction) -> (l: Local)
    requires
        old(func).locals@.len() < usize::MAX,
    ensures
        l.0 == old(func).locals@.len(),
        final(func).locals@ == old(func).locals@.push(final(func).locals@[l.0 as int]),
        sink_local(final(func).locals@[l.0 as int]),
        final(func).basic_blocks@ == old(func).basic_blocks@,
        same_signature(*final(func), *old(func)),
{
    let id = func.locals.len();
    func.locals.push(LocalDecl { ty: Type::Null, name: None, span: Span::default(), is_mut: false, is_owning: true });
    Local(id)
}

/// A call of the hook `name` with `args`, its result going to a fresh sink.
fn call_stmt(func: &mut MirFunction, name: &str, args: Vec<Operand>, span: Span) -> (s: Statement)
    requires
        old(func).locals@.len() < usize::MAX,
    ensures
        s.span == span,
        s.kind matches StatementKind::Assign(
            l,
            Rvalue::Call { func: Operand::Constant(Constant::Function(n)), args: a },
        ) && l.0 == old(func).locals@.len() && n@ == name@ && a@ == args@,
        final(func).locals@ == old(func).locals@.push(final(func).locals@[old(func).locals@.len() as int]),
        sink_local(final(func).locals@[old(func).locals@.len() as int]),
        final(func).basic_blocks@ == old(func).basic_blocks@,
        same_signature(*final(func), *old(func)),
{
    let sink = alloc_sink(func);
    Statement {
        kind: StatementKind::Assign(
            sink,
            Rvalue::Call { func: Operand::Constant(Constant::Function(name.to_string())), args },
        ),
        span,
    }
}

/// `m` maps each local with a cell to the position `cell_index` gives.
pub open spec fn cell_map(m: Map<usize, usize>, cells: Seq<CellInfo>) -> bool {
    forall|l: usize|
        #![trigger cell_index(cells, l)]
        (m.contains_key(l) <==> cell_index(cells, l) is Some) && (m.contains_key(l) ==> m[l] == cell_index(
            cells,
            l,
        )->0)
}

/// The map from each shown local to its cell's position.
fn cell_positions(cells: &Vec<CellInfo>) -> (m: IndexMap)
    ensures
        cell_map(index_map_contents(m), cells@),
{
    let mut m = IndexMap::new();
    let mut k: usize = 0;
    while k < cells.len()
        invariant
            0 <= k <= cells@.len(),
            cell_map(index_map_contents(m), cells@.subrange(0, k as int)),
        decreases cells.len() - k,
    {
        m.insert(cells[k].local, k);
        proof {
            let c2 = cells@.subrange(0, k + 1);
            assert(c2.drop_last() =~= cells@.subrange(0, k as int));
            assert forall|l: usize| #![trigger cell_index(c2, l)]
                (index_map_contents(m).contains_key(l) <==> cell_index(c2, l) is Some) && (index_map_contents(
                    m,
                ).contains_key(l) ==> index_map_contents(m)[l] == cell_index(c2, l)->0) by {
                assert(cell_index(c2, l) == cell_index(cells@.subrange(0, k as int), l) || l == cells@[k as int].local);
            }
        }
        k = k + 1;
    }
    assert(cells@.subrange(0, cells@.len() as int) =~= cells@);
    m
}

/// The position of the cell of local `l`, as `cell_index` says.
fn cell_of(m: &IndexMap, l: usize, Ghost(cells): Ghost<Seq<CellInfo>>) -> (r: Option<usize>)
    requires
        cell_map(index_map_contents(*m), cells),
    ensures
        r is Some == cell_index(cells, l) is Some,
        r matches Some(j) ==> cell_index(cells, l) == Some(j as int),
{
    let r = m.get(l);
    assert(cell_index(cells, l) is Some ==> index_map_contents(*m).contains_key(l));
    r
}

/// The entry hook and the store hooks of the shown arguments.
fn build_entry_prelude(
    func: &mut MirFunction,
    fn_id: u32,
    arg_count: usize,
    cell_pos: &IndexMap,
    Ghost(cells): Ghost<Seq<CellInfo>>,
) -> (out: Vec<Statement>)
    requires
        cell_map(index_map_contents(*cell_pos), cells),
        old(func).locals@.len() + arg_count + 1 < usize::MAX,
    ensures
        entries_match(out@, prelude_entries(fn_id, arg_count, cells), old(func).locals@.len() as nat),
        final(func).locals@.len() == old(func).locals@.len() + hooks(prelude_entries(fn_id, arg_count, cells)),
        final(func).locals@.subrange(0, old(func).locals@.len() as int) == old(func).locals@,
        forall|x: int|
            old(func).locals@.len() <= x < final(func).locals@.len() ==> sink_local(#[trigger] final(func).locals@[x]),
        final(func).basic_blocks@ == old(func).basic_blocks@,
        same_signature(*final(func), *old(func)),
{
    let ghost l0 = func.locals@;
    let mut args: Vec<Operand> = Vec::new();
    args.push(Operand::Constant(Constant::Int(fn_id as i64)));
    assert(args@ =~= seq![Operand::Constant(Constant::Int(fn_id as i64))]);
    let enter = call_stmt(func, "__olive_debug_enter", args, Span::default());
    let mut out: Vec<Statement> = Vec::new();
    let ghost e0 = DebugEntry::Hook(HookKind::Enter, seq![Operand::Constant(Constant::Int(fn_id as i64))], no_span());
    proof {
        lemma_entries_push(seq![], seq![], l0.len() as nat, enter, e0);
    }
    out.push(enter);
    assert(out@ =~= seq![enter]);
    assert(seq![e0] =~= Seq::<DebugEntry>::empty().push(e0));
    let mut k: usize = 0;
    while k < arg_count
        invariant
            0 <= k <= arg_count,
            cell_map(index_map_contents(*cell_pos), cells),
            l0.len() + arg_count + 1 < usize::MAX,
            entries_match(out@, seq![e0] + arg_stores(cells, k as nat), l0.len() as nat),
            func.locals@.len() == l0.len() + hooks(seq![e0] + arg_stores(cells, k as nat)),
            hooks(arg_stores(cells, k as nat)) <= k,
            func.locals@.subrange(0, l0.len() as int) == l0,
            forall|x: int| l0.len() <= x < func.locals@.len() ==> sink_local(#[trigger] func.locals@[x]),
            func.basic_blocks@ == old(func).basic_blocks@,
            same_signature(*func, *old(func)),
        decreases arg_count - k,
    {
        let local_idx = k + 1;
        let ghost before = seq![e0] + arg_stores(cells, k as nat);
        proof {
            lemma_hooks_append(seq![e0], arg_stores(cells, k as nat));
            lemma_hooks_single(e0);
        }
        match cell_of(cell_pos, local_idx, Ghost(cells)) {
            Some(cell_idx) => {
                let mut a: Vec<Operand> = Vec::new();
                a.push(Operand::Constant(Constant::Int(cell_idx as i64)));
                a.push(Operand::Copy(Local(local_idx)));
                assert(a@ =~= seq![Operand::Constant(Constant::Int(cell_idx as i64)), Operand::Copy(Local(local_idx))]);
                let ghost lb = func.locals@;
                let st = call_stmt(func, "__olive_debug_store", a, Span::default());
                let ghost e = DebugEntry::Hook(
                    HookKind::Store,
                    seq![Operand::Constant(Constant::Int(cell_idx as i64)), Operand::Copy(Local(local_idx))],
                    no_span(),
                );
                proof {
                    lemma_entries_push(out@, before, l0.len() as nat, st, e);
                    assert(before.push(e) =~= seq![e0] + arg_stores(cells, (k + 1) as nat));
                    assert(arg_stores(cells, (k + 1) as nat) =~= arg_stores(cells, k as nat).push(e));
                    lemma_hooks_append(arg_stores(cells, k as nat), seq![e]);
                    lemma_hooks_single(e);
                    assert(arg_stores(cells, k as nat) + seq![e] =~= arg_stores(cells, k as nat).push(e));
                    assert(func.locals@.subrange(0, l0.len() as int) =~= l0) by {
                        assert forall|x: int| 0 <= x < l0.len() implies func.locals@[x] == l0[x] by {
                            assert(lb.subrange(0, l0.len() as int)[x] == lb[x]);
                        }
                    }
                }
                out.push(st);
            },
            None => {
                proof {
                    assert(arg_stores(cells, (k + 1) as nat) =~= arg_stores(cells, k as nat));
                }
            },
        }
        k = k + 1;
    }
    out
}

/// The hooks of one statement, given the key of the last line given a stop
/// point: `(line hook, new last key, store hook)`, as `stmt_entries` says.
pub open spec fn step_entries(s: Statement, cells: Seq<CellInfo>, last: Option<i64>) -> (Seq<DebugEntry>, Option<i64>, Seq<DebugEntry>) {
    let new_line = s.span != no_span() && last != Some(line_key(s.span));
    let pre = if new_line {
        seq![DebugEntry::Hook(HookKind::Stmt, seq![Operand::Constant(Constant::Int(line_key(s.span)))], s.span)]
    } else {
        seq![]
    };
    let next = if new_line {
        Some(line_key(s.span))
    } else {
        last
    };
    let post = match s.kind {
        StatementKind::Assign(l, _) => match cell_index(cells, l.0) {
            Some(ci) => seq![
                DebugEntry::Hook(
                    HookKind::Store,
                    seq![Operand::Constant(Constant::Int(ci as i64)), Operand::Copy(l)],
                    s.span,
                ),
            ],
            None => seq![],
        },
        _ => seq![],
    };
    (pre, next, post)
}

/// Rebuilds `original` after `rebuilt` with the hooks `stmt_entries`
/// gives, recording the lines given stop points in `lines`.
fn instrument_statements(
    func: &mut MirFunction,
    original: Vec<Statement>,
    rebuilt: Vec<Statement>,
    cell_pos: &IndexMap,
    lines: &mut LineSet,
    Ghost(cells): Ghost<Seq<CellInfo>>,
    Ghost(pre): Ghost<Seq<DebugEntry>>,
    Ghost(s0): Ghost<nat>,
) -> (out: Vec<Statement>)
    requires
        cell_map(index_map_contents(*cell_pos), cells),
        entries_match(rebuilt@, pre, s0),
        old(func).locals@.len() == s0 + hooks(pre),
        old(func).locals@.len() + 2 * original@.len() < usize::MAX,
    ensures
        entries_match(out@, pre + stmt_entries(original@, cells, None), s0),
        final(func).locals@.len() == s0 + hooks(pre + stmt_entries(original@, cells, None)),
        final(func).locals@.subrange(0, old(func).locals@.len() as int) == old(func).locals@,
        forall|x: int|
            old(func).locals@.len() <= x < final(func).locals@.len() ==> sink_local(#[trigger] final(func).locals@[x]),
        line_set_contents(*final(lines)) == line_set_contents(*old(lines)).union(stmt_lines(original@, None)),
        final(func).basic_blocks@ == old(func).basic_blocks@,
        same_signature(*final(func), *old(func)),
{
    let ghost orig = original@;
    let ghost l0 = func.locals@;
    let ghost lines0 = line_set_contents(*lines);
    let mut rest = original;
    let mut out = rebuilt;
    let mut last: Option<i64> = None;
    let ghost mut done: Seq<DebugEntry> = seq![];
    let ghost mut seen: Set<i64> = Set::empty();
    proof {
        assert(done + stmt_entries(orig, cells, None) =~= stmt_entries(orig, cells, None));
        assert(pre + done =~= pre);
        assert(seen.union(stmt_lines(orig, None)) =~= stmt_lines(orig, None));
        assert(lines0.union(seen) =~= lines0);
    }
    while rest.len() > 0
        invariant
            cell_map(index_map_contents(*cell_pos), cells),
            stmt_entries(orig, cells, None) == done + stmt_entries(rest@, cells, last),
            stmt_lines(orig, None) == seen.union(stmt_lines(rest@, last)),
            entries_match(out@, pre + done, s0),
            func.locals@.len() == s0 + hooks(pre + done),
            func.locals@.len() + 2 * rest@.len() < usize::MAX,
            line_set_contents(*lines) == lines0.union(seen),
            func.locals@.subrange(0, l0.len() as int) == l0,
            l0.len() <= func.locals@.len(),
            forall|x: int| l0.len() <= x < func.locals@.len() ==> sink_local(#[trigger] func.locals@[x]),
            func.basic_blocks@ == old(func).basic_blocks@,
            same_signature(*func, *old(func)),
        decreases rest.len(),
    {
        let ghost rest0 = rest@;
        let ghost last0 = last;
        let ghost step = step_entries(rest0[0], cells, last0);
        let stmt = rest.remove(0);
        proof {
            assert(rest0.drop_first() =~= rest@);
            assert(stmt_entries(rest0, cells, last0) == step.0 + seq![DebugEntry::Keep(stmt)] + step.2 + stmt_entries(
                rest@,
                cells,
                step.1,
            ));
        }
        let ghost e1 = pre + done;
        if !is_no_span(&stmt.span) {
            let packed = pack_line(&stmt.span);
            let fresh = match last {
                Some(x) => x != packed,
                None => true,
            };
            if fresh {
                lines.insert(packed);
                let mut a: Vec<Operand> = Vec::new();
                a.push(Operand::Constant(Constant::Int(packed)));
                assert(a@ =~= seq![Operand::Constant(Constant::Int(packed))]);
                let ghost lb = func.locals@;
                let st = call_stmt(func, "__olive_debug_stmt", a, stmt.span);
                proof {
                    lemma_entries_push(out@, e1, s0, st, step.0[0]);
                    assert(func.locals@.subrange(0, l0.len() as int) =~= l0) by {
                        assert forall|x: int| 0 <= x < l0.len() implies func.locals@[x] == l0[x] by {
                            assert(lb.subrange(0, l0.len() as int)[x] == lb[x]);
                        }
                    }
                    e1 = e1.push(step.0[0]);
                }
                out.push(st);
                last = Some(packed);
            }
        }
        proof {
            assert(e1 =~= pre + done + step.0);
            assert(last == step.1);
        }
        let store: Option<(usize, Local)> = match &stmt.kind {
            StatementKind::Assign(local, _) => match cell_of(cell_pos, local.0, Ghost(cells)) {
                Some(ci) => Some((ci, *local)),
                None => None,
            },
            _ => None,
        };
        let span = stmt.span;
        proof {
            lemma_entries_push(out@, e1, s0, stmt, DebugEntry::Keep(stmt));
            e1 = e1.push(DebugEntry::Keep(stmt));
        }
        out.push(stmt);
        match store {
            Some((ci, local)) => {
                let mut a: Vec<Operand> = Vec::new();
                a.push(Operand::Constant(Constant::Int(ci as i64)));
                a.push(Operand::Copy(local));
                assert(a@ =~= seq![Operand::Constant(Constant::Int(ci as i64)), Operand::Copy(local)]);
                let ghost lb = func.locals@;
                let st = call_stmt(func, "__olive_debug_store", a, span);
                proof {
                    lemma_entries_push(out@, e1, s0, st, step.2[0]);
                    assert(func.locals@.subrange(0, l0.len() as int) =~= l0) by {
                        assert forall|x: int| 0 <= x < l0.len() implies func.locals@[x] == l0[x] by {
                            assert(lb.subrange(0, l0.len() as int)[x] == lb[x]);
                        }
                    }
                    e1 = e1.push(step.2[0]);
                }
                out.push(st);
            },
            None => {},
        }
        proof {
            assert(e1 =~= pre + (done + step.0 + seq![DebugEntry::Keep(stmt)] + step.2));
            assert(stmt_entries(orig, cells, None) =~= (done + step.0 + seq![DebugEntry::Keep(stmt)] + step.2)
                + stmt_entries(rest@, cells, last));
            done = done + step.0 + seq![DebugEntry::Keep(stmt)] + step.2;
            let new_line = stmt.span != no_span() && last0 != Some(line_key(stmt.span));
            if new_line {
                assert(stmt_lines(rest0, last0) == stmt_lines(rest@, last).insert(line_key(stmt.span)));
                seen = seen.insert(line_key(stmt.span));
            } else {
                assert(stmt_lines(rest0, last0) == stmt_lines(rest@, last));
            }
            assert(stmt_lines(orig, None) =~= seen.union(stmt_lines(rest@, last)));
            assert(line_set_contents(*lines) =~= lines0.union(seen));
        }
    }
    proof {
        assert(stmt_entries(rest@, cells, last) =~= Seq::<DebugEntry>::empty());
        assert(done =~= stmt_entries(orig, cells, None));
        assert(stmt_lines(rest@, last) =~= Set::<i64>::empty());
        assert(seen =~= stmt_lines(orig, None));
    }
    out
}

proof fn lemma_stmt_entry_hooks(stmts: Seq<Statement>, cells: Seq<CellInfo>, last: Option<i64>)
    ensures
        hooks(stmt_entries(stmts, cells, last)) <= 2 * stmts.len(),
    decreases stmts.len(),
{
    if stmts.len() > 0 {
        let step = step_entries(stmts[0], cells, last);
        lemma_stmt_entry_hooks(stmts.drop_first(), cells, step.1);
        let rest = stmt_entries(stmts.drop_first(), cells, step.1);
        assert(stmt_entries(stmts, cells, last) == step.0 + seq![DebugEntry::Keep(stmts[0])] + step.2 + rest);
        lemma_hooks_append(step.0 + seq![DebugEntry::Keep(stmts[0])] + step.2, rest);
        lemma_hooks_append(step.0 + seq![DebugEntry::Keep(stmts[0])], step.2);
        lemma_hooks_append(step.0, seq![DebugEntry::Keep(stmts[0])]);
        lemma_hooks_single(DebugEntry::Keep(stmts[0]));
        if step.0.len() > 0 {
            lemma_hooks_single(step.0[0]);
            assert(step.0 =~= seq![step.0[0]]);
        } else {
            assert(step.0 =~= Seq::<DebugEntry>::empty());
        }
        if step.2.len() > 0 {
            lemma_hooks_single(step.2[0]);
            assert(step.2 =~= seq![step.2[0]]);
        } else {
            assert(step.2 =~= Seq::<DebugEntry>::empty());
        }
    }
}

/// Instruments one function as `instrumented` says, recording the lines
/// given stop points in `lines`.
fn instrument_function(func: &mut MirFunction, fn_id: u32, cells: &Vec<CellInfo>, lines: &mut LineSet)
    requires
        debug_room(*old(func)),
        old(func).basic_blocks@.len() > 0,
    ensures
        instrumented(*old(func), fn_id, cells@, *final(func)),
        line_set_contents(*final(lines)) == line_set_contents(*old(lines)).union(
            lines_before(*old(func), old(func).basic_blocks@.len() as int),
        ),
{
    let ghost f = *func;
    let ghost nl = f.locals@.len();
    let ghost lines0 = line_set_contents(*lines);
    let cell_pos = cell_positions(cells);
    let arg_count = func.arg_count;
    let prelude = build_entry_prelude(func, fn_id, arg_count, &cell_pos, Ghost(cells@));
    proof {
        lemma_hooks_single(
            DebugEntry::Hook(HookKind::Enter, seq![Operand::Constant(Constant::Int(fn_id as i64))], no_span()),
        );
        lemma_hooks_append(
            seq![DebugEntry::Hook(HookKind::Enter, seq![Operand::Constant(Constant::Int(fn_id as i64))], no_span())],
            arg_stores(cells@, arg_count as nat),
        );
        lemma_arg_store_hooks(cells@, arg_count as nat);
        assert(lines0.union(lines_before(f, 0)) =~= lines0);
    }
    let mut entry_prelude: Option<Vec<Statement>> = Some(prelude);
    let n = func.basic_blocks.len();
    let mut b: usize = 0;
    while b < n
        invariant
            0 <= b <= n,
            n == f.basic_blocks@.len(),
            n > 0,
            nl == f.locals@.len(),
            debug_room(f),
            cell_map(index_map_contents(cell_pos), cells@),
            same_signature(*func, f),
            func.basic_blocks@.len() == n,
            forall|x: int|
                0 <= x < b ==> {
                    &&& (#[trigger] func.basic_blocks@[x]).terminator == f.basic_blocks@[x].terminator
                    &&& entries_match(
                        func.basic_blocks@[x].statements@,
                        block_entries(f, x, fn_id, cells@),
                        nl + hooks_before(f, x, fn_id, cells@),
                    )
                },
            forall|x: int| b <= x < n ==> #[trigger] func.basic_blocks@[x] == f.basic_blocks@[x],
            b == 0 ==> (entry_prelude matches Some(p) && entries_match(
                p@,
                prelude_entries(fn_id, f.arg_count, cells@),
                nl,
            )),
            b == 0 ==> func.locals@.len() == nl + hooks(prelude_entries(fn_id, f.arg_count, cells@)),
            hooks(prelude_entries(fn_id, f.arg_count, cells@)) <= f.arg_count + 1,
            b > 0 ==> entry_prelude is None && func.locals@.len() == nl + hooks_before(f, b as int, fn_id, cells@),
            func.locals@.len() + 2 * stmts_from(f, b as int) + (n - b) + 1 < usize::MAX,
            line_set_contents(*lines) == lines0.union(lines_before(f, b as int)),
            func.locals@.subrange(0, nl as int) == f.locals@,
            nl <= func.locals@.len(),
            forall|x: int| nl <= x < func.locals@.len() ==> sink_local(#[trigger] func.locals@[x]),
        decreases n - b,
    {
        let ghost fb0 = func.basic_blocks@;
        let ghost lb0 = func.locals@;
        let mut bb = BasicBlock { statements: Vec::new(), terminator: None };
        func.basic_blocks.set_and_swap(b, &mut bb);
        let BasicBlock { statements: original, terminator } = bb;
        let rebuilt = match entry_prelude.take() {
            Some(p) => p,
            None => Vec::new(),
        };
        let ghost pre = if b == 0 {
            prelude_entries(fn_id, f.arg_count, cells@)
        } else {
            seq![]
        };
        let ghost s0 = nl + hooks_before(f, b as int, fn_id, cells@);
        proof {
            assert(original@ == f.basic_blocks@[b as int].statements@);
            assert(stmts_from(f, b as int) == original@.len() + stmts_from(f, b + 1));
            if b > 0 {
                assert(rebuilt@ =~= Seq::<Statement>::empty());
            }
        }
        let mut out = instrument_statements(
            func,
            original,
            rebuilt,
            &cell_pos,
            lines,
            Ghost(cells@),
            Ghost(pre),
            Ghost(s0),
        );
        proof {
            lemma_stmt_entry_hooks(f.basic_blocks@[b as int].statements@, cells@, None);
            lemma_hooks_append(pre, stmt_entries(f.basic_blocks@[b as int].statements@, cells@, None));
        }
        let ghost es = pre + stmt_entries(f.basic_blocks@[b as int].statements@, cells@, None);
        let ghost lm = func.locals@;
        proof {
            assert forall|x: int| nl <= x < lm.len() implies sink_local(#[trigger] lm[x]) by {
                if x < lb0.len() {
                    assert(lm.subrange(0, lb0.len() as int)[x] == lm[x]);
                }
            }
        }
        let exit_span = match &terminator {
            Some(t) => match &t.kind {
                TerminatorKind::Return => Some(t.span),
                _ => None,
            },
            None => None,
        };
        match exit_span {
            Some(span) => {
                let ghost lb = func.locals@;
                let no_args: Vec<Operand> = Vec::new();
                assert(no_args@ =~= Seq::<Operand>::empty());
                let exit = call_stmt(func, "__olive_debug_exit", no_args, span);
                proof {
                    let e = DebugEntry::Hook(HookKind::Exit, seq![], span);
                    lemma_entries_push(out@, es, s0, exit, e);
                    assert(func.locals@.subrange(0, nl as int) =~= f.locals@) by {
                        assert forall|x: int| 0 <= x < nl implies func.locals@[x] == f.locals@[x] by {
                            assert(lb.subrange(0, nl as int)[x] == lb[x]);
                        }
                    }
                    assert(es.push(e) =~= block_entries(f, b as int, fn_id, cells@));
                }
                out.push(exit);
            },
            None => {
                proof {
                    assert(es =~= block_entries(f, b as int, fn_id, cells@));
                }
            },
        }
        let mut nb = BasicBlock { statements: out, terminator };
        func.basic_blocks.set_and_swap(b, &mut nb);
        proof {
            assert forall|x: int| nl <= x < func.locals@.len() implies sink_local(#[trigger] func.locals@[x]) by {
                if x < lm.len() {
                    assert(func.locals@[x] == lm[x]);
                }
            }
            assert(lines_before(f, b + 1) == lines_before(f, b as int).union(
                stmt_lines(f.basic_blocks@[b as int].statements@, None),
            ));
            assert(line_set_contents(*lines) =~= lines0.union(lines_before(f, b + 1)));
            assert(hooks_before(f, b + 1, fn_id, cells@) == hooks_before(f, b as int, fn_id, cells@) + hooks(
                block_entries(f, b as int, fn_id, cells@),
            ));
            assert forall|x: int| 0 <= x < b + 1 implies {
                &&& (#[trigger] func.basic_blocks@[x]).terminator == f.basic_blocks@[x].terminator
                &&& entries_match(
                    func.basic_blocks@[x].statements@,
                    block_entries(f, x, fn_id, cells@),
                    nl + hooks_before(f, x, fn_id, cells@),
                )
            } by {
                if x < b {
                    assert(func.basic_blocks@[x] == fb0[x]);
                }
            }
        }
        b = b + 1;
    }
}

/// The positions of the instrumentable functions of `fs`, in order.
pub open spec fn instrumentable_ids(fs: Seq<MirFunction>) -> Seq<int>
    decreases fs.len(),
{
    if fs.len() == 0 {
        seq![]
    } else {
        let r = instrumentable_ids(fs.drop_last());
        if instrumentable(fs.last()) {
            r.push(fs.len() - 1)
        } else {
            r
        }
    }
}

/// The keys of the lines given stop points in the instrumentable functions
/// of `fs`.
pub open spec fn program_lines(fs: Seq<MirFunction>) -> Set<i64>
    decreases fs.len(),
{
    if fs.len() == 0 {
        Set::empty()
    } else {
        let r = program_lines(fs.drop_last());
        if instrumentable(fs.last()) {
            r.union(lines_before(fs.last(), fs.last().basic_blocks@.len() as int))
        } else {
            r
        }
    }
}

proof fn lemma_ids_bound(fs: Seq<MirFunction>)
    ensures
        forall|j: int| 0 <= j < instrumentable_ids(fs).len() ==> 0 <= #[trigger] instrumentable_ids(fs)[j] < fs.len(),
    decreases fs.len(),
{
    if fs.len() > 0 {
        lemma_ids_bound(fs.drop_last());
        let r = instrumentable_ids(fs.drop_last());
        assert forall|j: int| 0 <= j < instrumentable_ids(fs).len() implies 0 <= #[trigger] instrumentable_ids(fs)[j]
            < fs.len() by {
            if j < r.len() {
                assert(instrumentable_ids(fs)[j] == r[j]);
            }
        }
    }
}

/// Instruments every function that is not async and has source positions,
/// function `i` with id `i` and its shown locals; the other functions stay
/// as they are. The result lists the instrumented functions in order and
/// the keys of all lines given stop points.
pub fn instrument(functions: &mut Vec<MirFunction>) -> (program: DebugProgramInfo)
    requires
        forall|i: int| 0 <= i < old(functions)@.len() ==> debug_room(#[trigger] old(functions)@[i]),
    ensures
        final(functions)@.len() == old(functions)@.len(),
        forall|i: int|
            0 <= i < old(functions)@.len() && !instrumentable(#[trigger] old(functions)@[i]) ==> final(functions)@[i]
                == old(functions)@[i],
        program.functions@.len() == instrumentable_ids(old(functions)@).len(),
        forall|j: int|
            0 <= j < program.functions@.len() ==> {
                let i = instrumentable_ids(old(functions)@)[j];
                &&& (#[trigger] program.functions@[j]).fn_id == i as u32
                &&& program.functions@[j].name@ == old(functions)@[i].name@
                &&& cells_of(old(functions)@[i].locals@, program.functions@[j].cells@)
                &&& instrumented(old(functions)@[i], i as u32, program.functions@[j].cells@, final(functions)@[i])
            },
        line_set_contents(program.lines) == program_lines(old(functions)@),
{
    let ghost fs0 = functions@;
    let mut infos: Vec<DebugFnInfo> = Vec::new();
    let mut lines = LineSet::new();
    let mut fn_id: usize = 0;
    proof {
        assert(fs0.subrange(0, 0) =~= Seq::<MirFunction>::empty());
    }
    while fn_id < functions.len()
        invariant
            0 <= fn_id <= fs0.len(),
            functions@.len() == fs0.len(),
            forall|i: int| 0 <= i < fs0.len() ==> debug_room(#[trigger] fs0[i]),
            forall|i: int| fn_id <= i < fs0.len() ==> #[trigger] functions@[i] == fs0[i],
            forall|i: int| 0 <= i < fn_id && !instrumentable(#[trigger] fs0[i]) ==> functions@[i] == fs0[i],
            infos@.len() == instrumentable_ids(fs0.subrange(0, fn_id as int)).len(),
            forall|j: int|
                0 <= j < infos@.len() ==> {
                    let i = instrumentable_ids(fs0.subrange(0, fn_id as int))[j];
                    &&& 0 <= i < fn_id
                    &&& (#[trigger] infos@[j]).fn_id == i as u32
                    &&& infos@[j].name@ == fs0[i].name@
                    &&& cells_of(fs0[i].locals@, infos@[j].cells@)
                    &&& instrumented(fs0[i], i as u32, infos@[j].cells@, functions@[i])
                },
            line_set_contents(lines) == program_lines(fs0.subrange(0, fn_id as int)),
        decreases fs0.len() - fn_id,
    {
        let ghost pre = fs0.subrange(0, fn_id as int);
        let ghost cur = fs0.subrange(0, fn_id + 1);
        proof {
            assert(cur.drop_last() =~= pre);
            assert(cur.last() == fs0[fn_id as int]);
            lemma_ids_bound(pre);
        }
        let ghost before = functions@;
        let mut func = MirFunction {
            name: String::new(),
            locals: Vec::new(),
            basic_blocks: Vec::new(),
            arg_count: 0,
            vararg_idx: None,
            kwarg_idx: None,
            param_names: Vec::new(),
            is_async: false,
        };
        functions.set_and_swap(fn_id, &mut func);
        let ghost f = func;
        if !func.is_async && has_real_span(&func) {
            let cells = named_cells(&func);
            instrument_function(&mut func, fn_id as u32, &cells, &mut lines);
            let name = func.name.clone();
            infos.push(DebugFnInfo { name, fn_id: fn_id as u32, cells });
        }
        functions.set_and_swap(fn_id, &mut func);
        proof {
            assert(f == fs0[fn_id as int]);
            assert forall|j: int| 0 <= j < infos@.len() implies {
                let i = instrumentable_ids(cur)[j];
                &&& 0 <= i < fn_id + 1
                &&& (#[trigger] infos@[j]).fn_id == i as u32
                &&& infos@[j].name@ == fs0[i].name@
                &&& cells_of(fs0[i].locals@, infos@[j].cells@)
                &&& instrumented(fs0[i], i as u32, infos@[j].cells@, functions@[i])
            } by {
                if j < instrumentable_ids(pre).len() {
                    let i = instrumentable_ids(pre)[j];
                    assert(instrumentable_ids(cur)[j] == i);
                    assert(functions@[i] == before[i]);
                }
            }
        }
        fn_id = fn_id + 1;
    }
    proof {
        assert(fs0.subrange(0, fs0.len() as int) =~= fs0);
    }
    DebugProgramInfo { functions: infos, lines }
}

} // verus!
