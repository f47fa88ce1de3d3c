//! Whole-program summaries for ownership: which parameters of each function
//! escape into storage that outlives the call.
//!
//! Only calls of named functions are followed; a call through a function
//! value is not seen by the escape analysis.

use crate::fx::{EscapeTable, NameSet};
use crate::ir::{spec_is_move_type, Constant, MirFunction, Operand, Rvalue, Statement, StatementKind, Type};
use crate::optimizations::drop_hooks::{in_body, stmt_at};
use vstd::prelude::*;
use vstd::string::StringExecFns;

verus! {

/// Whether argument `pos` of the runtime function `name` is stored by it.
pub open spec fn runtime_escape_spec(name: Seq<char>, pos: int) -> bool {
    ||| name == "__olive_list_append"@ && pos == 1
    ||| name == "__olive_list_insert"@ && pos == 2
    ||| name == "__olive_obj_set"@ && pos == 2
    ||| name == "__olive_set_add"@ && pos == 1
    ||| name == "__olive_chan_send"@ && pos == 1
    ||| name == "__olive_mutex_new"@ && pos == 0
    ||| name == "__olive_mutex_unlock"@ && pos == 1
    ||| name == "__olive_pool_run"@ && pos == 1
    ||| name == "__olive_pool_run_sync"@ && pos == 1
}

fn is_named(name: &String, lit: &str) -> (r: bool)
    ensures
        r == (name@ == lit@),
{
    let s = String::from_str(lit);
    *name == s
}

/// Whether the runtime function `name` stores its argument `pos`.
pub fn runtime_escape(name: &str, pos: usize) -> (r: bool)
    ensures
        r == runtime_escape_spec(name@, pos as int),
{
    let name = &String::from_str(name);
    (is_named(name, "__olive_list_append") && pos == 1) || (is_named(name, "__olive_list_insert") && pos
        == 2) || (is_named(name, "__olive_obj_set") && pos == 2) || (is_named(name, "__olive_set_add")
        && pos == 1) || (is_named(name, "__olive_chan_send") && pos == 1) || (is_named(
        name,
        "__olive_mutex_new",
    ) && pos == 0) || (is_named(name, "__olive_mutex_unlock") && pos == 1) || (is_named(
        name,
        "__olive_pool_run",
    ) && pos == 1) || (is_named(name, "__olive_pool_run_sync") && pos == 1)
}

/// The bit that parameter `i` (counted from 0) is tracked by: its own for
/// the first 63, the last one shared by all others.
pub open spec fn param_bit(i: int) -> int {
    if i < 63 {
        i
    } else {
        63
    }
}

/// Local `l` holds parameter bit `j` on entry: it is parameter `l - 1`.
pub open spec fn seeded(f: MirFunction, l: int, j: int) -> bool {
    1 <= l <= f.arg_count && l < f.locals@.len() && j == param_bit(l - 1)
}

/// The operand reads local `l`.
pub open spec fn reads_local(op: Operand, l: int) -> bool {
    match op {
        Operand::Copy(x) => x.0 == l,
        Operand::Move(x) => x.0 == l,
        _ => false,
    }
}

/// `s` copies local `src` into local `dst`, both among the `n` locals.
pub open spec fn copy_edge(s: Statement, n: int, dst: int, src: int) -> bool {
    match s.kind {
        StatementKind::Assign(d, Rvalue::Use(op)) => d.0 == dst && dst < n && reads_local(op, src) && src < n,
        _ => false,
    }
}

/// `s` holds every parameter bit on entry and passes the bits of a copied
/// local on to its destination.
pub open spec fn taint_closed(f: MirFunction, s: Set<(int, int)>) -> bool {
    &&& forall|l: int, j: int| #[trigger] seeded(f, l, j) ==> s.contains((l, j))
    &&& forall|b: int, i: int, d: int, x: int, j: int|
        #![trigger copy_edge(stmt_at(f, b, i), f.locals@.len() as int, d, x), s.contains((x, j))]
        in_body(f, b, i) && copy_edge(stmt_at(f, b, i), f.locals@.len() as int, d, x) && s.contains((x, j))
            ==> s.contains((d, j))
}

/// Local `l` may hold (an alias of) a parameter tracked by bit `j`.
pub open spec fn tainted(f: MirFunction, l: int, j: int) -> bool {
    forall|s: Set<(int, int)>| #[trigger] taint_closed(f, s) ==> s.contains((l, j))
}

/// Whether argument `k` of a call of `callee` is stored by the callee,
/// given the escape flags `e`.
pub open spec fn arg_escapes(e: Map<Seq<char>, Seq<bool>>, callee: Seq<char>, k: int) -> bool {
    runtime_escape_spec(callee, k) || (e.contains_key(callee) && k < e[callee].len() && e[callee][k])
}

/// `s` stores what local `l` holds beyond the frame: into an attribute, an
/// element, through a pointer, into an aggregate, or as an argument that the
/// callee stores.
pub open spec fn escape_use(e: Map<Seq<char>, Seq<bool>>, s: Statement, l: int) -> bool {
    match s.kind {
        StatementKind::SetAttr(_, _, val) => reads_local(val, l),
        StatementKind::SetIndex(_, _, val, _) => reads_local(val, l),
        StatementKind::PtrStore(_, val) => reads_local(val, l),
        StatementKind::Assign(_, Rvalue::Aggregate(_, ops)) => exists|k: int|
            0 <= k < ops@.len() && reads_local(#[trigger] ops@[k], l),
        StatementKind::Assign(_, Rvalue::Call { func: Operand::Constant(Constant::Function(callee)), args }) => exists|k: int|
            0 <= k < args@.len() && reads_local(#[trigger] args@[k], l) && arg_escapes(e, callee@, k),
        _ => false,
    }
}

/// Parameter bit `j` of `f` reaches a store beyond the frame.
pub open spec fn escapes_bit(f: MirFunction, e: Map<Seq<char>, Seq<bool>>, j: int) -> bool {
    exists|b: int, i: int, l: int|
        in_body(f, b, i) && 0 <= l < f.locals@.len() && #[trigger] escape_use(e, stmt_at(f, b, i), l)
            && tainted(f, l, j)
}

/// Parameter `i` of the async function `f` lives in the task's own frame,
/// so nothing the task stores is the caller's: every parameter but one of a
/// foreign struct type.
pub open spec fn async_param_kept(f: MirFunction, i: int) -> bool {
    f.is_async && !(i + 1 < f.locals@.len() && is_foreign_struct(f.locals@[i + 1].ty))
}

/// The type is a struct declared outside the program.
pub open spec fn is_foreign_struct(t: Type) -> bool {
    match t {
        Type::Struct(_, _, foreign) => foreign,
        _ => false,
    }
}

/// Which parameters of `f` escape, given the escape flags `e` of the
/// functions it calls.
pub open spec fn params_escaping_spec(f: MirFunction, e: Map<Seq<char>, Seq<bool>>) -> Seq<bool> {
    Seq::new(f.arg_count as nat, |i: int| !async_param_kept(f, i) && escapes_bit(f, e, param_bit(i)))
}

/// The number of unset flags in `r`.
pub open spec fn row_unset(r: Seq<bool>) -> nat
    decreases r.len(),
{
    if r.len() == 0 {
        0
    } else {
        row_unset(r.drop_last()) + if r.last() {
            0nat
        } else {
            1nat
        }
    }
}

/// The number of unset flags in the first `k` rows of `t`.
pub open spec fn unset(t: Seq<Vec<bool>>, k: int) -> nat
    decreases k,
{
    if k <= 0 {
        0
    } else {
        unset(t, k - 1) + row_unset(t[k - 1]@)
    }
}

proof fn lemma_row_unset_set(r: Seq<bool>, j: int)
    requires
        0 <= j < r.len(),
        !r[j],
    ensures
        row_unset(r.update(j, true)) + 1 == row_unset(r),
    decreases r.len(),
{
    if j < r.len() - 1 {
        assert(r.update(j, true).drop_last() =~= r.drop_last().update(j, true));
        lemma_row_unset_set(r.drop_last(), j);
    } else {
        assert(r.update(j, true).drop_last() =~= r.drop_last());
    }
}

proof fn lemma_unset_set(t: Seq<Vec<bool>>, u: Seq<Vec<bool>>, d: int, j: int, k: int)
    requires
        0 <= d < t.len(),
        t.len() == u.len(),
        0 <= j < t[d]@.len(),
        !t[d]@[j],
        u[d]@ == t[d]@.update(j, true),
        forall|q: int| 0 <= q < t.len() && q != d ==> u[q]@ == t[q]@,
        0 <= k <= t.len(),
    ensures
        d < k ==> unset(u, k) + 1 == unset(t, k),
        d >= k ==> unset(u, k) == unset(t, k),
    decreases k,
{
    if k > 0 {
        lemma_unset_set(t, u, d, j, k - 1);
        if k - 1 == d {
            lemma_row_unset_set(t[d]@, j);
        }
    }
}

/// The parameter bits each local may hold, before copies are followed.
fn seed_taint(f: &MirFunction) -> (t: Vec<Vec<bool>>)
    ensures
        t@.len() == f.locals@.len(),
        forall|l: int| 0 <= l < t@.len() ==> (#[trigger] t@[l])@.len() == 64,
        forall|l: int, j: int| 0 <= l < t@.len() && 0 <= j < 64 ==> (t@[l]@[j] <==> seeded(*f, l, j)),
{
    let n = f.locals.len();
    let mut t: Vec<Vec<bool>> = Vec::new();
    let mut l: usize = 0;
    while l < n
        invariant
            n == f.locals@.len(),
            0 <= l <= n,
            t@.len() == l,
            forall|q: int| 0 <= q < l ==> (#[trigger] t@[q])@.len() == 64,
            forall|q: int, j: int| 0 <= q < l && 0 <= j < 64 ==> (t@[q]@[j] <==> seeded(*f, q, j)),
        decreases n - l,
    {
        let mut row: Vec<bool> = Vec::new();
        let mut j: usize = 0;
        while j < 64
            invariant
                n == f.locals@.len(),
                l < n,
                0 <= j <= 64,
                row@.len() == j,
                forall|q: int| 0 <= q < j ==> (row@[q] <==> seeded(*f, l as int, q)),
            decreases 64 - j,
        {
            let bit: usize = if l >= 1 && l - 1 < 63 {
                l - 1
            } else {
                63
            };
            row.push(l >= 1 && l <= f.arg_count && j == bit);
            j = j + 1;
        }
        t.push(row);
        l = l + 1;
    }
    t
}

/// Follows copies until the parameter bits of every local are those it may
/// hold.
fn close_taint(f: &MirFunction, t: &mut Vec<Vec<bool>>)
    requires
        old(t)@.len() == f.locals@.len(),
        forall|l: int| 0 <= l < old(t)@.len() ==> (#[trigger] old(t)@[l])@.len() == 64,
        forall|l: int, j: int| 0 <= l < old(t)@.len() && 0 <= j < 64 ==> (old(t)@[l]@[j] <==> seeded(*f, l, j)),
    ensures
        final(t)@.len() == f.locals@.len(),
        forall|l: int| 0 <= l < final(t)@.len() ==> (#[trigger] final(t)@[l])@.len() == 64,
        forall|l: int, j: int|
            0 <= l < final(t)@.len() && 0 <= j < 64 ==> (final(t)@[l]@[j] <==> tainted(*f, l, j)),
{
    let n = f.locals.len();
    let ghost ff = *f;
    proof {
        assert forall|l: int, j: int| 0 <= l < n && 0 <= j < 64 && t@[l]@[j] implies tainted(ff, l, j) by {
            assert forall|s: Set<(int, int)>| #[trigger] taint_closed(ff, s) implies s.contains((l, j)) by {
                assert(seeded(ff, l, j));
            }
        }
    }
    let mut changed = true;
    while changed
        invariant
            ff == *f,
            n == f.locals@.len(),
            t@.len() == n,
            forall|l: int| 0 <= l < t@.len() ==> (#[trigger] t@[l])@.len() == 64,
            forall|l: int, j: int| 0 <= l < n && 0 <= j < 64 && seeded(ff, l, j) ==> t@[l]@[j],
            forall|l: int, j: int| 0 <= l < n && 0 <= j < 64 && t@[l]@[j] ==> tainted(ff, l, j),
            !changed ==> forall|b: int, i: int, d: int, x: int, j: int|
                in_body(ff, b, i) && copy_edge(stmt_at(ff, b, i), n as int, d, x) && 0 <= j < 64 && t@[x]@[j]
                    ==> t@[d]@[j],
        decreases unset(t@, n as int) + if changed {
            1int
        } else {
            0int
        },
    {
        changed = false;
        let ghost start = t@;
        let mut b: usize = 0;
        while b < f.basic_blocks.len()
            invariant
                ff == *f,
                n == f.locals@.len(),
                t@.len() == n,
                0 <= b <= f.basic_blocks@.len(),
                forall|l: int| 0 <= l < t@.len() ==> (#[trigger] t@[l])@.len() == 64,
                forall|l: int, j: int| 0 <= l < n && 0 <= j < 64 && seeded(ff, l, j) ==> t@[l]@[j],
                forall|l: int, j: int| 0 <= l < n && 0 <= j < 64 && t@[l]@[j] ==> tainted(ff, l, j),
                changed ==> unset(t@, n as int) < unset(start, n as int),
                !changed ==> t@ == start,
                !changed ==> forall|b2: int, i: int, d: int, x: int, j: int|
                    in_body(ff, b2, i) && b2 < b && copy_edge(stmt_at(ff, b2, i), n as int, d, x) && 0 <= j < 64
                        && t@[x]@[j] ==> t@[d]@[j],
            decreases f.basic_blocks.len() - b,
        {
            let mut i: usize = 0;
            while i < f.basic_blocks[b].statements.len()
                invariant
                    ff == *f,
                    n == f.locals@.len(),
                    t@.len() == n,
                    0 <= b < f.basic_blocks@.len(),
                    0 <= i <= f.basic_blocks@[b as int].statements@.len(),
                    forall|l: int| 0 <= l < t@.len() ==> (#[trigger] t@[l])@.len() == 64,
                    forall|l: int, j: int| 0 <= l < n && 0 <= j < 64 && seeded(ff, l, j) ==> t@[l]@[j],
                    forall|l: int, j: int| 0 <= l < n && 0 <= j < 64 && t@[l]@[j] ==> tainted(ff, l, j),
                    changed ==> unset(t@, n as int) < unset(start, n as int),
                    !changed ==> t@ == start,
                    !changed ==> forall|b2: int, i2: int, d: int, x: int, j: int|
                        in_body(ff, b2, i2) && (b2 < b || (b2 == b && i2 < i)) && copy_edge(
                            stmt_at(ff, b2, i2),
                            n as int,
                            d,
                            x,
                        ) && 0 <= j < 64 && t@[x]@[j] ==> t@[d]@[j],
                decreases f.basic_blocks@[b as int].statements@.len() - i,
            {
                let ghost changed0 = changed;
                let ghost t0 = t@;
                assert(!changed0 ==> forall|b2: int, i2: int, d: int, x: int, j: int|
                    in_body(ff, b2, i2) && (b2 < b || (b2 == b && i2 < i)) && copy_edge(
                        stmt_at(ff, b2, i2),
                        n as int,
                        d,
                        x,
                    ) && 0 <= j < 64 && t0[x]@[j] ==> t0[d]@[j]);
                let edge: Option<(usize, usize)> = match &f.basic_blocks[b].statements[i].kind {
                    StatementKind::Assign(d, Rvalue::Use(Operand::Copy(x))) => Some((d.0, x.0)),
                    StatementKind::Assign(d, Rvalue::Use(Operand::Move(x))) => Some((d.0, x.0)),
                    _ => None,
                };
                assert(in_body(ff, b as int, i as int));
                if let Some((d, x)) = edge {
                    if d < n && x < n {
                        assert(copy_edge(stmt_at(ff, b as int, i as int), n as int, d as int, x as int));
                        let mut j: usize = 0;
                        while j < 64
                            invariant
                                ff == *f,
                                n == f.locals@.len(),
                                t@.len() == n,
                                d < n,
                                x < n,
                                in_body(ff, b as int, i as int),
                                copy_edge(stmt_at(ff, b as int, i as int), n as int, d as int, x as int),
                                0 <= j <= 64,
                                forall|l: int| 0 <= l < t@.len() ==> (#[trigger] t@[l])@.len() == 64,
                                forall|l: int, j2: int| 0 <= l < n && 0 <= j2 < 64 && seeded(ff, l, j2) ==> t@[l]@[j2],
                                forall|l: int, j2: int| 0 <= l < n && 0 <= j2 < 64 && t@[l]@[j2] ==> tainted(ff, l, j2),
                                changed ==> unset(t@, n as int) < unset(start, n as int),
                                !changed ==> t@ == start,
                                !changed ==> forall|q: int| 0 <= q < j && t@[x as int]@[q] ==> t@[d as int]@[q],
                                changed0 ==> changed,
                            decreases 64 - j,
                        {
                            if t[x][j] && !t[d][j] {
                                let ghost before = t@;
                                proof {
                                    assert(tainted(ff, x as int, j as int));
                                    assert forall|s: Set<(int, int)>| #[trigger] taint_closed(ff, s) implies s.contains(
                                        (d as int, j as int),
                                    ) by {
                                        assert(s.contains((x as int, j as int)));
                                    }
                                }
                                let mut row: Vec<bool> = Vec::new();
                                t.set_and_swap(d, &mut row);
                                row.set(j, true);
                                t.set_and_swap(d, &mut row);
                                proof {
                                    lemma_unset_set(before, t@, d as int, j as int, n as int);
                                }
                                changed = true;
                            }
                            j = j + 1;
                        }
                    }
                }
                proof {
                    assert forall|d2: int, x2: int, j2: int|
                        !changed && copy_edge(stmt_at(ff, b as int, i as int), n as int, d2, x2) && 0 <= j2 < 64
                            && t@[x2]@[j2] implies t@[d2]@[j2] by {
                        match edge {
                            Some((d, x)) => {
                                assert(d2 == d && x2 == x);
                            },
                            None => {},
                        }
                    }
                    assert forall|b2: int, i2: int, d: int, x: int, j: int|
                        !changed && in_body(ff, b2, i2) && (b2 < b || (b2 == b && i2 < i + 1)) && copy_edge(
                            stmt_at(ff, b2, i2),
                            n as int,
                            d,
                            x,
                        ) && 0 <= j < 64 && t@[x]@[j] implies t@[d]@[j] by {
                        if b2 == b && i2 == i {
                        } else {
                            assert(!changed0);
                            assert(t0 == t@);
                            assert(t0[x]@[j] ==> t0[d]@[j]);
                        }
                    }
                }
                i = i + 1;
            }
            b = b + 1;
        }
    }
    proof {
        let s = Set::new(|p: (int, int)| 0 <= p.0 < n && 0 <= p.1 < 64 && t@[p.0]@[p.1]);
        assert forall|l: int, j: int| #[trigger] seeded(ff, l, j) implies s.contains((l, j)) by {
        }
        assert(taint_closed(ff, s));
        assert forall|l: int, j: int| 0 <= l < n && 0 <= j < 64 && tainted(ff, l, j) implies t@[l]@[j] by {
            assert(s.contains((l, j)));
        }
    }
}


/// Sets `stored[l]` when `op` reads local `l`.
fn note_operand(op: &Operand, stored: &mut Vec<bool>)
    ensures
        final(stored)@.len() == old(stored)@.len(),
        forall|l: int|
            0 <= l < old(stored)@.len() ==> final(stored)@[l] == (old(stored)@[l] || reads_local(*op, l)),
{
    match op {
        Operand::Copy(x) => {
            if x.0 < stored.len() {
                stored.set(x.0, true);
            }
        },
        Operand::Move(x) => {
            if x.0 < stored.len() {
                stored.set(x.0, true);
            }
        },
        _ => {},
    }
}

/// Sets `stored[l]` for every local `l` whose value `s` stores beyond the
/// frame.
fn note_stores(s: &Statement, e: &EscapeTable, stored: &mut Vec<bool>)
    ensures
        final(stored)@.len() == old(stored)@.len(),
        forall|l: int|
            0 <= l < old(stored)@.len() ==> final(stored)@[l] == (old(stored)@[l] || escape_use(e@, *s, l)),
{
    let ghost s0 = stored@;
    match &s.kind {
        StatementKind::SetAttr(_, _, val) => {
            note_operand(val, stored);
            assert forall|l: int| 0 <= l < s0.len() implies stored@[l] == (s0[l] || escape_use(e@, *s, l)) by {
                assert(escape_use(e@, *s, l) == reads_local(*val, l));
            }
        },
        StatementKind::SetIndex(_, _, val, _) => {
            note_operand(val, stored);
            assert forall|l: int| 0 <= l < s0.len() implies stored@[l] == (s0[l] || escape_use(e@, *s, l)) by {
                assert(escape_use(e@, *s, l) == reads_local(*val, l));
            }
        },
        StatementKind::PtrStore(_, val) => {
            note_operand(val, stored);
            assert forall|l: int| 0 <= l < s0.len() implies stored@[l] == (s0[l] || escape_use(e@, *s, l)) by {
                assert(escape_use(e@, *s, l) == reads_local(*val, l));
            }
        },
        StatementKind::Assign(_, Rvalue::Aggregate(_, ops)) => {
            let mut k: usize = 0;
            while k < ops.len()
                invariant
                    0 <= k <= ops@.len(),
                    stored@.len() == s0.len(),
                    forall|l: int|
                        #![trigger stored@[l]]
                        0 <= l < s0.len() ==> stored@[l] == (s0[l] || exists|k2: int|
                            0 <= k2 < k && reads_local(#[trigger] ops@[k2], l)),
                decreases ops.len() - k,
            {
                let ghost m1 = stored@;
                note_operand(&ops[k], stored);
                proof {
                    assert forall|l: int| 0 <= l < s0.len() implies stored@[l] == (s0[l] || exists|k2: int|
                        0 <= k2 < k + 1 && reads_local(#[trigger] ops@[k2], l)) by {
                        if exists|k2: int| 0 <= k2 < k + 1 && reads_local(#[trigger] ops@[k2], l) {
                            let k2 = choose|k2: int| 0 <= k2 < k + 1 && reads_local(#[trigger] ops@[k2], l);
                            if k2 < k {
                                assert(0 <= k2 < k && reads_local(ops@[k2], l));
                            }
                        }
                        if reads_local(ops@[k as int], l) {
                            assert(0 <= k < k + 1 && reads_local(ops@[k as int], l));
                        }
                    }
                }
                k = k + 1;
            }
            proof {
                assert forall|l: int| 0 <= l < s0.len() implies stored@[l] == (s0[l] || escape_use(e@, *s, l)) by {
                    assert(stored@[l] == (s0[l] || exists|k2: int|
                        0 <= k2 < ops@.len() && reads_local(#[trigger] ops@[k2], l)));
                    assert(escape_use(e@, *s, l) == exists|k2: int|
                        0 <= k2 < ops@.len() && reads_local(#[trigger] ops@[k2], l));
                }
            }
        },
        StatementKind::Assign(_, Rvalue::Call { func: Operand::Constant(Constant::Function(callee)), args }) => {
            let mut k: usize = 0;
            while k < args.len()
                invariant
                    0 <= k <= args@.len(),
                    stored@.len() == s0.len(),
                    forall|l: int|
                        #![trigger stored@[l]]
                        0 <= l < s0.len() ==> stored@[l] == (s0[l] || exists|k2: int|
                            0 <= k2 < k && reads_local(#[trigger] args@[k2], l) && arg_escapes(e@, callee@, k2)),
                decreases args.len() - k,
            {
                let kept = match e.flags(callee.as_str()) {
                    Some(v) => k < v.len() && v[k],
                    None => false,
                };
                let esc = runtime_escape(callee.as_str(), k) || kept;
                assert(esc == arg_escapes(e@, callee@, k as int));
                let ghost m1 = stored@;
                if esc {
                    note_operand(&args[k], stored);
                }
                proof {
                    assert forall|l: int| 0 <= l < s0.len() implies stored@[l] == (s0[l] || exists|k2: int|
                        0 <= k2 < k + 1 && reads_local(#[trigger] args@[k2], l) && arg_escapes(e@, callee@, k2)) by {
                        if exists|k2: int|
                            0 <= k2 < k + 1 && reads_local(#[trigger] args@[k2], l) && arg_escapes(e@, callee@, k2) {
                            let k2 = choose|k2: int|
                                0 <= k2 < k + 1 && reads_local(#[trigger] args@[k2], l) && arg_escapes(e@, callee@, k2);
                            if k2 < k {
                                assert(0 <= k2 < k && reads_local(args@[k2], l) && arg_escapes(e@, callee@, k2));
                            }
                        }
                        if esc && reads_local(args@[k as int], l) {
                            assert(0 <= k < k + 1 && reads_local(args@[k as int], l) && arg_escapes(e@, callee@, k as int));
                        }
                        if m1[l] && !s0[l] {
                            let k2 = choose|k2: int|
                                0 <= k2 < k && reads_local(#[trigger] args@[k2], l) && arg_escapes(e@, callee@, k2);
                            assert(0 <= k2 < k + 1 && reads_local(args@[k2], l) && arg_escapes(e@, callee@, k2));
                        }
                    }
                }
                k = k + 1;
            }
            proof {
                assert forall|l: int| 0 <= l < s0.len() implies stored@[l] == (s0[l] || escape_use(e@, *s, l)) by {
                    assert(stored@[l] == (s0[l] || exists|k2: int|
                        0 <= k2 < args@.len() && reads_local(#[trigger] args@[k2], l) && arg_escapes(e@, callee@, k2)));
                    assert(escape_use(e@, *s, l) == exists|k2: int|
                        0 <= k2 < args@.len() && reads_local(#[trigger] args@[k2], l) && arg_escapes(e@, callee@, k2));
                }
            }
        },
        _ => {
            assert forall|l: int| 0 <= l < s0.len() implies !escape_use(e@, *s, l) by {}
        },
    }
}

/// Which parameters of `func` escape, given the escape flags `e` of the
/// functions it calls.
fn params_escaping(func: &MirFunction, e: &EscapeTable) -> (r: Vec<bool>)
    ensures
        r@ == params_escaping_spec(*func, e@),
{
    let n = func.locals.len();
    let mut t = seed_taint(func);
    close_taint(func, &mut t);
    let ghost ff = *func;
    let mut stored: Vec<bool> = Vec::new();
    let mut l: usize = 0;
    while l < n
        invariant
            0 <= l <= n,
            stored@.len() == l,
            forall|q: int| 0 <= q < l ==> !stored@[q],
        decreases n - l,
    {
        stored.push(false);
        l = l + 1;
    }
    let mut b: usize = 0;
    while b < func.basic_blocks.len()
        invariant
            ff == *func,
            n == func.locals@.len(),
            0 <= b <= func.basic_blocks@.len(),
            stored@.len() == n,
            forall|q: int|
                0 <= q < n ==> stored@[q] == exists|b2: int, i2: int|
                    in_body(ff, b2, i2) && b2 < b && #[trigger] escape_use(e@, stmt_at(ff, b2, i2), q),
        decreases func.basic_blocks.len() - b,
    {
        let mut i: usize = 0;
        while i < func.basic_blocks[b].statements.len()
            invariant
                ff == *func,
                n == func.locals@.len(),
                0 <= b < func.basic_blocks@.len(),
                0 <= i <= func.basic_blocks@[b as int].statements@.len(),
                stored@.len() == n,
                forall|q: int|
                    0 <= q < n ==> stored@[q] == exists|b2: int, i2: int|
                        in_body(ff, b2, i2) && (b2 < b || (b2 == b && i2 < i)) && #[trigger] escape_use(
                            e@,
                            stmt_at(ff, b2, i2),
                            q,
                        ),
            decreases func.basic_blocks@[b as int].statements@.len() - i,
        {
            let ghost m1 = stored@;
            note_stores(&func.basic_blocks[b].statements[i], e, &mut stored);
            proof {
                assert forall|q: int| 0 <= q < n implies stored@[q] == exists|b2: int, i2: int|
                    in_body(ff, b2, i2) && (b2 < b || (b2 == b && i2 < i + 1)) && #[trigger] escape_use(
                        e@,
                        stmt_at(ff, b2, i2),
                        q,
                    ) by {
                    if escape_use(e@, stmt_at(ff, b as int, i as int), q) {
                        assert(in_body(ff, b as int, i as int));
                    }
                    if exists|b2: int, i2: int|
                        in_body(ff, b2, i2) && (b2 < b || (b2 == b && i2 < i + 1)) && #[trigger] escape_use(
                            e@,
                            stmt_at(ff, b2, i2),
                            q,
                        ) {
                        let (b2, i2) = choose|b2: int, i2: int|
                            in_body(ff, b2, i2) && (b2 < b || (b2 == b && i2 < i + 1)) && #[trigger] escape_use(
                                e@,
                                stmt_at(ff, b2, i2),
                                q,
                            );
                        if !(b2 == b && i2 == i) {
                            assert(in_body(ff, b2, i2) && (b2 < b || (b2 == b && i2 < i)) && escape_use(
                                e@,
                                stmt_at(ff, b2, i2),
                                q,
                            ));
                        }
                    }
                }
            }
            i = i + 1;
        }
        b = b + 1;
    }
    let mut r: Vec<bool> = Vec::new();
    let mut p: usize = 0;
    while p < func.arg_count
        invariant
            ff == *func,
            n == func.locals@.len(),
            0 <= p <= func.arg_count,
            r@.len() == p,
            stored@.len() == n,
            t@.len() == n,
            forall|q: int| 0 <= q < t@.len() ==> (#[trigger] t@[q])@.len() == 64,
            forall|q: int, j: int| 0 <= q < t@.len() && 0 <= j < 64 ==> (t@[q]@[j] <==> tainted(ff, q, j)),
            forall|q: int|
                0 <= q < n ==> stored@[q] == exists|b2: int, i2: int|
                    in_body(ff, b2, i2) && #[trigger] escape_use(e@, stmt_at(ff, b2, i2), q),
            forall|q: int| 0 <= q < p ==> r@[q] == (!async_param_kept(ff, q) && escapes_bit(ff, e@, param_bit(q))),
        decreases func.arg_count - p,
    {
        let j: usize = if p < 63 {
            p
        } else {
            63
        };
        let mut found = false;
        let mut q: usize = 0;
        while q < n
            invariant
                0 <= q <= n,
                j < 64,
                stored@.len() == n,
                t@.len() == n,
                forall|q2: int| 0 <= q2 < t@.len() ==> (#[trigger] t@[q2])@.len() == 64,
                found == exists|q2: int| 0 <= q2 < q && stored@[q2] && #[trigger] t@[q2]@[j as int],
            decreases n - q,
        {
            if stored[q] && t[q][j] {
                found = true;
            }
            q = q + 1;
        }
        proof {
            if found {
                let q2 = choose|q2: int| 0 <= q2 < n && stored@[q2] && #[trigger] t@[q2]@[j as int];
                let (b2, i2) = choose|b2: int, i2: int|
                    in_body(ff, b2, i2) && #[trigger] escape_use(e@, stmt_at(ff, b2, i2), q2);
                assert(in_body(ff, b2, i2) && 0 <= q2 < ff.locals@.len() && escape_use(e@, stmt_at(ff, b2, i2), q2)
                    && tainted(ff, q2, j as int));
            }
            if escapes_bit(ff, e@, j as int) {
                let (b2, i2, q2) = choose|b2: int, i2: int, q2: int|
                    in_body(ff, b2, i2) && 0 <= q2 < ff.locals@.len() && #[trigger] escape_use(
                        e@,
                        stmt_at(ff, b2, i2),
                        q2,
                    ) && tainted(ff, q2, j as int);
                assert(stored@[q2]);
                assert(t@[q2]@[j as int]);
            }
        }
        let kept = func.is_async && !(p + 1 < n && match &func.locals[p + 1].ty {
            Type::Struct(_, _, foreign) => *foreign,
            _ => false,
        });
        assert(kept == async_param_kept(ff, p as int));
        assert(found == escapes_bit(ff, e@, param_bit(p as int)));
        r.push(found && !kept);
        p = p + 1;
    }
    assert(r@.len() == params_escaping_spec(ff, e@).len());
    assert forall|q: int| 0 <= q < r@.len() implies r@[q] == params_escaping_spec(ff, e@)[q] by {
        assert(r@[q] == (!async_param_kept(ff, q) && escapes_bit(ff, e@, param_bit(q))));
        assert(params_escaping_spec(ff, e@)[q] == (!async_param_kept(ff, q) && escapes_bit(ff, e@, param_bit(q))));
    }
    assert(r@ =~= params_escaping_spec(ff, e@));
    r
}


/// The table the fixpoint starts from: each function of `fs` with no
/// parameter flagged, a later function of a name replacing an earlier one.
pub open spec fn initial_escapes(fs: Seq<MirFunction>) -> Map<Seq<char>, Seq<bool>>
    decreases fs.len(),
{
    if fs.len() == 0 {
        Map::empty()
    } else {
        initial_escapes(fs.drop_last()).insert(
            fs.last().name@,
            Seq::new(fs.last().arg_count as nat, |i: int| false),
        )
    }
}

/// Functions of one name take the same number of parameters.
pub open spec fn arity_consistent(fs: Seq<MirFunction>) -> bool {
    forall|a: int, b: int|
        0 <= a < fs.len() && 0 <= b < fs.len() && fs[a].name@ == fs[b].name@ ==> fs[a].arg_count
            == fs[b].arg_count
}

/// `e` lists exactly the functions of `fs`, with one flag per parameter.
pub open spec fn escape_shape(fs: Seq<MirFunction>, e: Map<Seq<char>, Seq<bool>>) -> bool {
    &&& forall|name: Seq<char>|
        e.contains_key(name) <==> exists|k: int| 0 <= k < fs.len() && #[trigger] fs[k].name@ == name
    &&& forall|k: int| 0 <= k < fs.len() ==> (#[trigger] e[fs[k].name@]).len() == fs[k].arg_count
}

/// Every flag set in `a` is set in `b`.
pub open spec fn flags_within(a: Map<Seq<char>, Seq<bool>>, b: Map<Seq<char>, Seq<bool>>) -> bool {
    forall|name: Seq<char>, i: int|
        #![trigger a[name][i]]
        a.contains_key(name) && 0 <= i < a[name].len() && a[name][i] ==> b.contains_key(name) && i
            < b[name].len() && b[name][i]
}

/// `e` lists the functions of `fs` and flags every parameter that escapes
/// given `e`.
pub open spec fn escapes_closed(fs: Seq<MirFunction>, e: Map<Seq<char>, Seq<bool>>) -> bool {
    &&& escape_shape(fs, e)
    &&& forall|k: int, i: int|
        0 <= k < fs.len() && 0 <= i < fs[k].arg_count && #[trigger] params_escaping_spec(fs[k], e)[i]
            ==> e[fs[k].name@][i]
}

/// More flags in the table make no parameter stop escaping.
pub proof fn lemma_escaping_monotone(f: MirFunction, a: Map<Seq<char>, Seq<bool>>, b: Map<Seq<char>, Seq<bool>>, i: int)
    requires
        flags_within(a, b),
        0 <= i < f.arg_count,
        params_escaping_spec(f, a)[i],
    ensures
        params_escaping_spec(f, b)[i],
{
    let j = param_bit(i);
    assert(!async_param_kept(f, i) && escapes_bit(f, a, j));
    let (bb, ii, l) = choose|bb: int, ii: int, l: int|
        in_body(f, bb, ii) && 0 <= l < f.locals@.len() && #[trigger] escape_use(a, stmt_at(f, bb, ii), l)
            && tainted(f, l, j);
    let s = stmt_at(f, bb, ii);
    match s.kind {
        StatementKind::Assign(_, Rvalue::Call { func: Operand::Constant(Constant::Function(callee)), args }) => {
            let k = choose|k: int|
                0 <= k < args@.len() && reads_local(#[trigger] args@[k], l) && arg_escapes(a, callee@, k);
            if !runtime_escape_spec(callee@, k) {
                assert(a[callee@][k]);
            }
            assert(arg_escapes(b, callee@, k));
            assert(escape_use(b, s, l));
        },
        _ => {
            assert(escape_use(b, s, l));
        },
    }
    assert(escapes_bit(f, b, j));
}

/// Unset flags in the rows of `e` named by the first `k` functions.
pub open spec fn table_unset(fs: Seq<MirFunction>, e: Map<Seq<char>, Seq<bool>>, k: int) -> nat
    decreases k,
{
    if k <= 0 {
        0
    } else {
        table_unset(fs, e, k - 1) + row_unset(e[fs[k - 1].name@])
    }
}

proof fn lemma_row_unset_mono(a: Seq<bool>, b: Seq<bool>)
    requires
        a.len() == b.len(),
        forall|i: int| 0 <= i < a.len() && a[i] ==> b[i],
    ensures
        row_unset(b) <= row_unset(a),
        (exists|i: int| 0 <= i < a.len() && !a[i] && b[i]) ==> row_unset(b) < row_unset(a),
    decreases a.len(),
{
    if a.len() > 0 {
        lemma_row_unset_mono(a.drop_last(), b.drop_last());
        if exists|i: int| 0 <= i < a.len() && !a[i] && b[i] {
            let i = choose|i: int| 0 <= i < a.len() && !a[i] && b[i];
            if i < a.len() - 1 {
                assert(!a.drop_last()[i] && b.drop_last()[i]);
            }
        }
    }
}

proof fn lemma_table_unset_update(fs: Seq<MirFunction>, e: Map<Seq<char>, Seq<bool>>, name: Seq<char>, v: Seq<bool>, k: int)
    requires
        0 <= k <= fs.len(),
        e.contains_key(name),
        e[name].len() == v.len(),
        forall|i: int| 0 <= i < v.len() && e[name][i] ==> v[i],
    ensures
        table_unset(fs, e.insert(name, v), k) <= table_unset(fs, e, k),
        (exists|i: int| 0 <= i < v.len() && !e[name][i] && v[i]) && (exists|q: int| 0 <= q < k && fs[q].name@ == name)
            ==> table_unset(fs, e.insert(name, v), k) < table_unset(fs, e, k),
    decreases k,
{
    if k > 0 {
        lemma_table_unset_update(fs, e, name, v, k - 1);
        if fs[k - 1].name@ == name {
            lemma_row_unset_mono(e[name], v);
        }
    }
}

/// The escape flags of every function's parameters: the least table that
/// lists the functions of `functions` and flags each parameter that the
/// function stores (or passes to a store) beyond its frame, given the
/// table.
pub fn compute_param_escapes(functions: &[MirFunction]) -> (r: EscapeTable)
    requires
        arity_consistent(functions@),
    ensures
        escapes_closed(functions@, r@),
        forall|e: Map<Seq<char>, Seq<bool>>| #[trigger] escapes_closed(functions@, e) ==> flags_within(r@, e),
{
    let ghost fs = functions@;
    let n = functions.len();
    let mut esc = EscapeTable::new();
    let mut k: usize = 0;
    while k < n
        invariant
            fs == functions@,
            n == fs.len(),
            arity_consistent(fs),
            0 <= k <= n,
            forall|name: Seq<char>|
                esc@.contains_key(name) <==> exists|q: int| 0 <= q < k && #[trigger] fs[q].name@ == name,
            forall|q: int| 0 <= q < k ==> (#[trigger] esc@[fs[q].name@]).len() == fs[q].arg_count,
            forall|name: Seq<char>, i: int|
                #![trigger esc@[name][i]]
                esc@.contains_key(name) && 0 <= i < esc@[name].len() ==> !esc@[name][i],
        decreases n - k,
    {
        let mut flags: Vec<bool> = Vec::new();
        let mut i: usize = 0;
        while i < functions[k].arg_count
            invariant
                k < functions@.len(),
                0 <= i <= functions@[k as int].arg_count,
                flags@.len() == i,
                forall|q: int| 0 <= q < i ==> !flags@[q],
            decreases functions@[k as int].arg_count - i,
        {
            flags.push(false);
            i = i + 1;
        }
        let ghost before = esc@;
        esc.insert(functions[k].name.clone(), flags);
        proof {
            assert(esc@ == before.insert(fs[k as int].name@, flags@));
            assert forall|name: Seq<char>|
                esc@.contains_key(name) <==> exists|q: int| 0 <= q < k + 1 && #[trigger] fs[q].name@ == name by {
                if esc@.contains_key(name) && name != fs[k as int].name@ {
                    assert(before.contains_key(name));
                    let q = choose|q: int| 0 <= q < k && #[trigger] fs[q].name@ == name;
                    assert(0 <= q < k + 1);
                }
                if name == fs[k as int].name@ {
                    assert(0 <= k < k + 1 && fs[k as int].name@ == name);
                }
                if exists|q: int| 0 <= q < k + 1 && #[trigger] fs[q].name@ == name {
                    let q = choose|q: int| 0 <= q < k + 1 && #[trigger] fs[q].name@ == name;
                    if q < k {
                        assert(exists|q2: int| 0 <= q2 < k && #[trigger] fs[q2].name@ == name);
                        assert(before.contains_key(name));
                    }
                }
            }
        }
        k = k + 1;
    }
    let mut changed = true;
    while changed
        invariant
            fs == functions@,
            n == fs.len(),
            arity_consistent(fs),
            escape_shape(fs, esc@),
            forall|e: Map<Seq<char>, Seq<bool>>| #[trigger] escapes_closed(fs, e) ==> flags_within(esc@, e),
            !changed ==> forall|q: int, i: int|
                0 <= q < n && 0 <= i < fs[q].arg_count && #[trigger] params_escaping_spec(fs[q], esc@)[i]
                    ==> esc@[fs[q].name@][i],
        decreases table_unset(fs, esc@, n as int) + if changed {
            1int
        } else {
            0int
        },
    {
        changed = false;
        let ghost start = esc@;
        let mut k: usize = 0;
        while k < n
            invariant
                fs == functions@,
                n == fs.len(),
                arity_consistent(fs),
                0 <= k <= n,
                escape_shape(fs, esc@),
                forall|e: Map<Seq<char>, Seq<bool>>| #[trigger] escapes_closed(fs, e) ==> flags_within(esc@, e),
                changed ==> table_unset(fs, esc@, n as int) < table_unset(fs, start, n as int),
                !changed ==> esc@ == start,
                !changed ==> forall|q: int, i: int|
                    0 <= q < k && 0 <= i < fs[q].arg_count && #[trigger] params_escaping_spec(fs[q], esc@)[i]
                        ==> esc@[fs[q].name@][i],
            decreases n - k,
        {
            let ghost e0 = esc@;
            let ghost name = fs[k as int].name@;
            let updated = params_escaping(&functions[k], &esc);
            assert(esc@.contains_key(name));
            let cur = esc.flags(functions[k].name.as_str()).unwrap();
            let mut next: Vec<bool> = Vec::new();
            let mut grew = false;
            let mut i: usize = 0;
            while i < cur.len()
                invariant
                    cur@ == e0[name],
                    cur@.len() == fs[k as int].arg_count,
                    updated@.len() == fs[k as int].arg_count,
                    0 <= i <= cur@.len(),
                    next@.len() == i,
                    forall|q: int| 0 <= q < i ==> next@[q] == (cur@[q] || updated@[q]),
                    grew == exists|q: int| 0 <= q < i && updated@[q] && !cur@[q],
                decreases cur.len() - i,
            {
                let u = updated[i];
                let c = cur[i];
                if u && !c {
                    grew = true;
                }
                next.push(c || u);
                i = i + 1;
            }
            let ghost nv = next@;
            esc.insert(functions[k].name.clone(), next);
            proof {
                assert(esc@ == e0.insert(name, nv));
                assert forall|e: Map<Seq<char>, Seq<bool>>| #[trigger] escapes_closed(fs, e) implies flags_within(esc@, e) by {
                    assert(flags_within(e0, e));
                    assert forall|nm: Seq<char>, i: int|
                        esc@.contains_key(nm) && 0 <= i < esc@[nm].len() && #[trigger] esc@[nm][i] implies e.contains_key(nm)
                            && i < e[nm].len() && e[nm][i] by {
                        if nm == name {
                            if !e0[name][i] {
                                assert(updated@[i]);
                                lemma_escaping_monotone(fs[k as int], e0, e, i);
                            } else {
                                assert(e0[nm][i]);
                            }
                        } else {
                            assert(e0[nm][i]);
                        }
                    }
                }
                lemma_table_unset_update(fs, e0, name, nv, n as int);
                if grew {
                    let q = choose|q: int| 0 <= q < cur@.len() && updated@[q] && !cur@[q];
                    assert(0 <= q < nv.len() && !e0[name][q] && nv[q]);
                    assert(0 <= k < n && fs[k as int].name@ == name);
                } else {
                    assert(nv =~= e0[name]);
                    assert(esc@ =~= e0);
                }
                assert forall|q: int|
                    0 <= q < fs.len() implies (#[trigger] esc@[fs[q].name@]).len() == fs[q].arg_count by {
                    if fs[q].name@ == name {
                        assert(fs[q].arg_count == fs[k as int].arg_count);
                    }
                }
            }
            changed = changed || grew;
            k = k + 1;
        }
    }
    esc
}


/// `r` makes its destination hold a value owned elsewhere when its source
/// does (`src_in`): a copy or move of a local, a read out of a container or
/// an object, or the result of a function in `borrowed`.
pub open spec fn borrows_from(r: Rvalue, n: int, borrowed: Set<Seq<char>>, s: Set<int>) -> bool {
    match r {
        Rvalue::Use(op) => exists|x: int| 0 <= x < n && reads_local(op, x) && #[trigger] s.contains(x),
        Rvalue::GetIndex(_, _, _) => true,
        Rvalue::GetAttr(_, _) => true,
        Rvalue::PtrLoad(_) => true,
        Rvalue::FatPtrData(_) => true,
        Rvalue::VTableLoad { .. } => true,
        Rvalue::Call { func: Operand::Constant(Constant::Function(name)), .. } => borrowed.contains(name@),
        _ => false,
    }
}

/// `s` holds the parameters and every local assigned from what `s` holds.
pub open spec fn borrow_closed(f: MirFunction, borrowed: Set<Seq<char>>, s: Set<int>) -> bool {
    let n = f.locals@.len() as int;
    &&& forall|l: int| 1 <= l <= f.arg_count && l < n ==> #[trigger] s.contains(l)
    &&& forall|b: int, i: int|
        #![trigger stmt_at(f, b, i)]
        in_body(f, b, i) ==> match stmt_at(f, b, i).kind {
            StatementKind::Assign(d, r) => d.0 < n && borrows_from(r, n, borrowed, s) ==> s.contains(d.0 as int),
            _ => true,
        }
}

/// Local `l` may hold a value owned elsewhere.
pub open spec fn holds_borrow(f: MirFunction, borrowed: Set<Seq<char>>, l: int) -> bool {
    forall|s: Set<int>| #[trigger] borrow_closed(f, borrowed, s) ==> s.contains(l)
}

/// `f` may return a borrow instead of a fresh value, given the functions
/// `borrowed` that do: it is not async, returns a heap value, and its return
/// local may hold a value owned elsewhere.
pub open spec fn returns_borrow_spec(f: MirFunction, borrowed: Set<Seq<char>>) -> bool {
    &&& !f.is_async
    &&& f.locals@.len() > 0
    &&& spec_is_move_type(f.locals@[0].ty)
    &&& holds_borrow(f, borrowed, 0)
}

/// Whether `func` may return a borrow, given the functions `borrowed` that do.
fn returns_borrow(func: &MirFunction, borrowed: &NameSet) -> (r: bool)
    ensures
        r == returns_borrow_spec(*func, borrowed@),
{
    if func.is_async || func.locals.len() == 0 || !func.locals[0].ty.is_move_type() {
        return false;
    }
    let n = func.locals.len();
    let ghost ff = *func;
    let ghost bs = borrowed@;
    let mut tainted: Vec<bool> = Vec::new();
    let mut l: usize = 0;
    while l < n
        invariant
            ff == *func,
            n == ff.locals@.len(),
            0 <= l <= n,
            tainted@.len() == l,
            forall|q: int| 0 <= q < l ==> (tainted@[q] <==> 1 <= q <= ff.arg_count),
        decreases n - l,
    {
        tainted.push(l >= 1 && l <= func.arg_count);
        l = l + 1;
    }
    proof {
        assert forall|q: int| 0 <= q < n && tainted@[q] implies holds_borrow(ff, bs, q) by {
            assert forall|s: Set<int>| #[trigger] borrow_closed(ff, bs, s) implies s.contains(q) by {}
        }
    }
    let mut changed = true;
    while changed
        invariant
            ff == *func,
            bs == borrowed@,
            n == ff.locals@.len(),
            tainted@.len() == n,
            forall|q: int| 1 <= q <= ff.arg_count && q < n ==> tainted@[q],
            forall|q: int| 0 <= q < n && tainted@[q] ==> holds_borrow(ff, bs, q),
            !changed ==> forall|b: int, i: int|
                #![trigger stmt_at(ff, b, i)]
                in_body(ff, b, i) ==> match stmt_at(ff, b, i).kind {
                    StatementKind::Assign(d, r) => d.0 < n && borrows_from(
                        r,
                        n as int,
                        bs,
                        Set::new(|x: int| 0 <= x < n && tainted@[x]),
                    ) ==> tainted@[d.0 as int],
                    _ => true,
                },
        decreases row_unset(tainted@) + if changed {
            1int
        } else {
            0int
        },
    {
        changed = false;
        let ghost start = tainted@;
        let mut b: usize = 0;
        while b < func.basic_blocks.len()
            invariant
                ff == *func,
                bs == borrowed@,
                n == ff.locals@.len(),
                tainted@.len() == n,
                0 <= b <= ff.basic_blocks@.len(),
                forall|q: int| 1 <= q <= ff.arg_count && q < n ==> tainted@[q],
                forall|q: int| 0 <= q < n && tainted@[q] ==> holds_borrow(ff, bs, q),
                changed ==> row_unset(tainted@) < row_unset(start),
                !changed ==> tainted@ == start,
                !changed ==> forall|b2: int, i: int|
                    #![trigger stmt_at(ff, b2, i)]
                    in_body(ff, b2, i) && b2 < b ==> match stmt_at(ff, b2, i).kind {
                        StatementKind::Assign(d, r) => d.0 < n && borrows_from(
                            r,
                            n as int,
                            bs,
                            Set::new(|x: int| 0 <= x < n && tainted@[x]),
                        ) ==> tainted@[d.0 as int],
                        _ => true,
                    },
            decreases ff.basic_blocks@.len() - b,
        {
            let mut i: usize = 0;
            while i < func.basic_blocks[b].statements.len()
                invariant
                    ff == *func,
                    bs == borrowed@,
                    n == ff.locals@.len(),
                    tainted@.len() == n,
                    0 <= b < ff.basic_blocks@.len(),
                    0 <= i <= ff.basic_blocks@[b as int].statements@.len(),
                    forall|q: int| 1 <= q <= ff.arg_count && q < n ==> tainted@[q],
                    forall|q: int| 0 <= q < n && tainted@[q] ==> holds_borrow(ff, bs, q),
                    changed ==> row_unset(tainted@) < row_unset(start),
                    !changed ==> tainted@ == start,
                    !changed ==> forall|b2: int, i2: int|
                        #![trigger stmt_at(ff, b2, i2)]
                        in_body(ff, b2, i2) && (b2 < b || (b2 == b && i2 < i)) ==> match stmt_at(ff, b2, i2).kind {
                            StatementKind::Assign(d, r) => d.0 < n && borrows_from(
                                r,
                                n as int,
                                bs,
                                Set::new(|x: int| 0 <= x < n && tainted@[x]),
                            ) ==> tainted@[d.0 as int],
                            _ => true,
                        },
                decreases ff.basic_blocks@[b as int].statements@.len() - i,
            {
                let ghost t0 = tainted@;
                let ghost c0 = changed;
                assert(in_body(ff, b as int, i as int));
                if let StatementKind::Assign(d, r) = &func.basic_blocks[b].statements[i].kind {
                    if d.0 < n && !tainted[d.0] {
                        let from = match r {
                            Rvalue::Use(Operand::Copy(x)) => x.0 < n && tainted[x.0],
                            Rvalue::Use(Operand::Move(x)) => x.0 < n && tainted[x.0],
                            Rvalue::GetIndex(_, _, _) => true,
                            Rvalue::GetAttr(_, _) => true,
                            Rvalue::PtrLoad(_) => true,
                            Rvalue::FatPtrData(_) => true,
                            Rvalue::VTableLoad { .. } => true,
                            Rvalue::Call { func: Operand::Constant(Constant::Function(name)), .. } => borrowed.contains(
                                name.as_str(),
                            ),
                            _ => false,
                        };
                        let ghost ts = Set::new(|x: int| 0 <= x < n && tainted@[x]);
                        assert(from == borrows_from(*r, n as int, bs, ts)) by {
                            match r {
                                Rvalue::Use(op) => {
                                    if borrows_from(*r, n as int, bs, ts) {
                                        let x = choose|x: int| 0 <= x < n && reads_local(*op, x) && #[trigger] ts.contains(x);
                                    }
                                    match op {
                                        Operand::Copy(x) => {
                                            if x.0 < n && tainted@[x.0 as int] {
                                                assert(ts.contains(x.0 as int));
                                                assert(reads_local(*op, x.0 as int));
                                            }
                                        },
                                        Operand::Move(x) => {
                                            if x.0 < n && tainted@[x.0 as int] {
                                                assert(ts.contains(x.0 as int));
                                                assert(reads_local(*op, x.0 as int));
                                            }
                                        },
                                        _ => {},
                                    }
                                },
                                _ => {},
                            }
                        }
                        if from {
                            proof {
                                assert forall|s: Set<int>| #[trigger] borrow_closed(ff, bs, s) implies s.contains(
                                    d.0 as int,
                                ) by {
                                    assert(forall|x: int| 0 <= x < n && #[trigger] ts.contains(x) ==> s.contains(x));
                                    match r {
                                        Rvalue::Use(op) => {
                                            let x = choose|x: int| 0 <= x < n && reads_local(*op, x) && #[trigger] ts.contains(x);
                                            assert(s.contains(x));
                                            assert(borrows_from(*r, n as int, bs, s));
                                        },
                                        _ => {
                                            assert(borrows_from(*r, n as int, bs, s));
                                        },
                                    }
                                    assert(in_body(ff, b as int, i as int));
                                    assert(stmt_at(ff, b as int, i as int) == func.basic_blocks@[b as int].statements@[i as int]);
                                    assert(stmt_at(ff, b as int, i as int).kind == StatementKind::Assign(*d, *r));
                                }
                                lemma_row_unset_set(tainted@, d.0 as int);
                            }
                            tainted.set(d.0, true);
                            changed = true;
                        }
                    }
                }
                proof {
                    if !changed {
                        assert(tainted@ == t0);
                        assert forall|b2: int, i2: int|
                            #![trigger stmt_at(ff, b2, i2)]
                            in_body(ff, b2, i2) && (b2 < b || (b2 == b && i2 < i + 1)) implies match stmt_at(ff, b2, i2).kind {
                                StatementKind::Assign(d, r) => d.0 < n && borrows_from(
                                    r,
                                    n as int,
                                    bs,
                                    Set::new(|x: int| 0 <= x < n && tainted@[x]),
                                ) ==> tainted@[d.0 as int],
                                _ => true,
                            } by {
                            if b2 == b && i2 == i {
                            } else {
                                assert(!c0);
                            }
                        }
                    }
                }
                i = i + 1;
            }
            b = b + 1;
        }
    }
    proof {
        let s = Set::new(|x: int| 0 <= x < n && tainted@[x]);
        assert(borrow_closed(ff, bs, s));
        if holds_borrow(ff, bs, 0) {
            assert(s.contains(0));
        }
    }
    tainted[0]
}


/// `b` holds every function of `fs` that may return a borrow given `b`.
pub open spec fn borrowed_closed(fs: Seq<MirFunction>, b: Set<Seq<char>>) -> bool {
    forall|k: int| 0 <= k < fs.len() && #[trigger] returns_borrow_spec(fs[k], b) ==> b.contains(fs[k].name@)
}

/// Knowing more functions that return borrows makes no function stop
/// returning one.
pub proof fn lemma_returns_borrow_monotone(f: MirFunction, a: Set<Seq<char>>, b: Set<Seq<char>>)
    requires
        a.subset_of(b),
        returns_borrow_spec(f, a),
    ensures
        returns_borrow_spec(f, b),
{
    let n = f.locals@.len() as int;
    assert forall|s: Set<int>| #[trigger] borrow_closed(f, b, s) implies s.contains(0) by {
        assert forall|b2: int, i2: int| #![trigger stmt_at(f, b2, i2)] in_body(f, b2, i2) implies match stmt_at(
            f,
            b2,
            i2,
        ).kind {
            StatementKind::Assign(d, r) => d.0 < n && borrows_from(r, n, a, s) ==> s.contains(d.0 as int),
            _ => true,
        } by {
            match stmt_at(f, b2, i2).kind {
                StatementKind::Assign(d, r) => {
                    if d.0 < n && borrows_from(r, n, a, s) {
                        assert(borrows_from(r, n, b, s));
                    }
                },
                _ => {},
            }
        }
        assert(borrow_closed(f, a, s));
    }
}

/// Positions among the first `k` functions whose name `b` lacks.
pub open spec fn names_missing(fs: Seq<MirFunction>, b: Set<Seq<char>>, k: int) -> nat
    decreases k,
{
    if k <= 0 {
        0
    } else {
        names_missing(fs, b, k - 1) + if b.contains(fs[k - 1].name@) {
            0nat
        } else {
            1nat
        }
    }
}

proof fn lemma_names_missing_insert(fs: Seq<MirFunction>, b: Set<Seq<char>>, name: Seq<char>, k: int)
    requires
        0 <= k <= fs.len(),
    ensures
        names_missing(fs, b.insert(name), k) <= names_missing(fs, b, k),
        !b.contains(name) && (exists|q: int| 0 <= q < k && fs[q].name@ == name) ==> names_missing(
            fs,
            b.insert(name),
            k,
        ) < names_missing(fs, b, k),
    decreases k,
{
    if k > 0 {
        lemma_names_missing_insert(fs, b, name, k - 1);
        if !b.contains(name) && (exists|q: int| 0 <= q < k && fs[q].name@ == name) {
            if fs[k - 1].name@ != name {
                let q = choose|q: int| 0 <= q < k && fs[q].name@ == name;
                assert(0 <= q < k - 1);
            }
        }
    }
}

/// The functions that may return a borrow of a value owned elsewhere
/// instead of a fresh value: the least set that holds every function of
/// `functions` that may, given the set.
pub fn compute_borrowed_returns(functions: &[MirFunction]) -> (r: NameSet)
    ensures
        borrowed_closed(functions@, r@),
        forall|b: Set<Seq<char>>| #[trigger] borrowed_closed(functions@, b) ==> r@.subset_of(b),
{
    let ghost fs = functions@;
    let n = functions.len();
    let mut borrowed = NameSet::new();
    let mut changed = true;
    while changed
        invariant
            fs == functions@,
            n == fs.len(),
            forall|b: Set<Seq<char>>| #[trigger] borrowed_closed(fs, b) ==> borrowed@.subset_of(b),
            !changed ==> borrowed_closed(fs, borrowed@),
        decreases names_missing(fs, borrowed@, n as int) + if changed {
            1int
        } else {
            0int
        },
    {
        changed = false;
        let ghost start = borrowed@;
        let mut k: usize = 0;
        while k < n
            invariant
                fs == functions@,
                n == fs.len(),
                0 <= k <= n,
                forall|b: Set<Seq<char>>| #[trigger] borrowed_closed(fs, b) ==> borrowed@.subset_of(b),
                changed ==> names_missing(fs, borrowed@, n as int) < names_missing(fs, start, n as int),
                !changed ==> borrowed@ == start,
                !changed ==> forall|q: int|
                    0 <= q < k && #[trigger] returns_borrow_spec(fs[q], borrowed@) ==> borrowed@.contains(fs[q].name@),
            decreases n - k,
        {
            let ghost b0 = borrowed@;
            if !borrowed.contains(functions[k].name.as_str()) && returns_borrow(&functions[k], &borrowed) {
                borrowed.insert(functions[k].name.clone());
                proof {
                    assert forall|b: Set<Seq<char>>| #[trigger] borrowed_closed(fs, b) implies borrowed@.subset_of(b) by {
                        assert(b0.subset_of(b));
                        lemma_returns_borrow_monotone(fs[k as int], b0, b);
                        assert(b.contains(fs[k as int].name@));
                    }
                    lemma_names_missing_insert(fs, b0, fs[k as int].name@, n as int);
                    assert(0 <= k < n && fs[k as int].name@ == fs[k as int].name@);
                }
                changed = true;
            }
            k = k + 1;
        }
    }
    borrowed
}

} // verus!
