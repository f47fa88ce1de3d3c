//! Drop hooks: after ownership inference, a `Drop` of a struct that defines
//! `__drop__` becomes a call of that method.

use crate::ir::{
    copy_type, type_view, BasicBlock, BasicBlockId, Constant, Local, MirFunction, Operand, Rvalue,
    Span, Statement, StatementKind, Terminator, TerminatorKind, Type,
};
use crate::optimizations::ownership::{owning_temp, push_local};
use vstd::hash_set::StringHashSet;
use vstd::prelude::*;
use vstd::string::{StrSliceExecFns, StringExecFns};

verus! {

/// The suffix of the name of a struct's drop method.
pub open spec fn drop_suffix() -> Seq<char> {
    seq![':', ':', '_', '_', 'd', 'r', 'o', 'p', '_', '_']
}

/// The struct a function named `name` is the `__drop__` method of, if any:
/// `name` with the suffix `::__drop__` removed.
pub open spec fn drop_struct_name(name: Seq<char>) -> Option<Seq<char>> {
    let n = name.len();
    if n >= 10 && name.subrange(n - 10, n as int) == drop_suffix() {
        Some(name.subrange(0, n - 10))
    } else {
        None
    }
}

/// `name` without its `::__drop__` suffix, when it has one.
pub fn strip_drop_suffix(name: &str) -> (r: Option<&str>)
    ensures
        r matches Some(s) ==> drop_struct_name(name@) == Some(s@),
        r is None ==> drop_struct_name(name@) is None,
{
    let suffix = "::__drop__";
    proof {
        reveal_strlit("::__drop__");
    }
    assert(suffix@ == drop_suffix());
    let n = name.unicode_len();
    if n < 10 {
        return None;
    }
    let mut k: usize = 0;
    while k < 10
        invariant
            n == name@.len(),
            n >= 10,
            0 <= k <= 10,
            suffix@ == drop_suffix(),
            forall|q: int| 0 <= q < k ==> name@[n - 10 + q] == drop_suffix()[q],
        decreases 10 - k,
    {
        if name.get_char(n - 10 + k) != suffix.get_char(k) {
            assert(name@.subrange(n - 10, n as int)[k as int] != drop_suffix()[k as int]);
            return None;
        }
        k = k + 1;
    }
    assert(name@.subrange(n - 10, n as int) =~= drop_suffix());
    Some(name.substring_char(0, n - 10))
}

/// The names of the structs that define `__drop__`, read off the names of
/// all functions ending in `::__drop__`.
pub fn collect_struct_has_drop(functions: &[MirFunction]) -> (result: StringHashSet)
    ensures
        forall|s: Seq<char>|
            result@.contains(s) <==> exists|i: int|
                0 <= i < functions@.len() && drop_struct_name(#[trigger] functions@[i].name@) == Some(
                    s,
                ),
{
    let mut result = StringHashSet::new();
    let mut i: usize = 0;
    while i < functions.len()
        invariant
            0 <= i <= functions@.len(),
            forall|s: Seq<char>|
                result@.contains(s) <==> exists|k: int|
                    0 <= k < i && drop_struct_name(#[trigger] functions@[k].name@) == Some(s),
        decreases functions.len() - i,
    {
        if let Some(name) = strip_drop_suffix(functions[i].name.as_str()) {
            result.insert(String::from_str(name));
        }
        proof {
            assert forall|s: Seq<char>|
                result@.contains(s) <==> exists|k: int|
                    0 <= k < i + 1 && drop_struct_name(#[trigger] functions@[k].name@) == Some(
                        s,
                    ) by {
                if drop_struct_name(functions@[i as int].name@) == Some(s) {
                    assert(result@.contains(s));
                }
            }
        }
        i = i + 1;
    }
    result
}


/// The decimal digits of `n`.
pub open spec fn decimal(n: nat) -> Seq<char>
    decreases n,
{
    if n < 10 {
        seq![(48 + n) as char]
    } else {
        decimal(n / 10) + seq![(48 + n % 10) as char]
    }
}

/// The parts joined with `sep` between each two.
pub open spec fn joined(parts: Seq<Seq<char>>, sep: Seq<char>) -> Seq<char>
    decreases parts.len(),
{
    if parts.len() == 0 {
        Seq::empty()
    } else if parts.len() == 1 {
        parts[0]
    } else {
        joined(parts.drop_last(), sep) + sep + parts.last()
    }
}

/// How a type is spelled inside the name of a monomorphized struct: its
/// written form (`list[int]`, `dict[str, int]`, `A | B`, `(int) -> str`)
/// with brackets, commas, parentheses and colons turned into `_`, spaces
/// dropped, `->` written `_to_`, `&` `ref_`, `*` `ptr_` and `|` `_or_`.
pub open spec fn spelling(t: Type) -> Seq<char>
    decreases t,
{
    match t {
        Type::Int => "int"@,
        Type::I8 => "i8"@,
        Type::I16 => "i16"@,
        Type::I32 => "i32"@,
        Type::U8 => "u8"@,
        Type::U16 => "u16"@,
        Type::U32 => "u32"@,
        Type::U64 => "u64"@,
        Type::Usize => "usize"@,
        Type::Float => "float"@,
        Type::F32 => "f32"@,
        Type::Bool => "bool"@,
        Type::Str => "str"@,
        Type::Bytes => "bytes"@,
        Type::Null => "None"@,
        Type::Any => "Any"@,
        Type::PyObject => "object"@,
        Type::IntegerLiteral => "int"@,
        Type::FloatLiteral => "float"@,
        Type::List(b) => "list_"@ + spelling(*b) + "_"@,
        Type::SetOf(b) => "set_"@ + spelling(*b) + "_"@,
        Type::Dict(k, v) => "dict_"@ + spelling(*k) + "_"@ + spelling(*v) + "_"@,
        Type::Tuple(ts) => "tuple_"@ + joined(spellings(ts), "_"@) + "_"@,
        Type::Struct(n, ts, _) => if ts@.len() == 0 {
            n@
        } else {
            n@ + "_"@ + joined(spellings(ts), "_"@) + "_"@
        },
        Type::Enum(n, ts) => if ts@.len() == 0 {
            n@
        } else {
            n@ + "_"@ + joined(spellings(ts), "_"@) + "_"@
        },
        Type::Union(ts) => joined(spellings(ts), "_or_"@),
        Type::Ref(b) => "ref_"@ + spelling(*b),
        Type::MutRef(b) => "ref_mut"@ + spelling(*b),
        Type::Ptr(b) => "ptr_"@ + spelling(*b),
        Type::Fn(ps, r) => "_"@ + joined(spellings(ps), "_"@) + "__to_"@ + spelling(*r),
        Type::Param(n) => n@,
        Type::PyNamed(n) => n@,
        Type::Vector(b, w) => "vec_"@ + spelling(*b) + "_"@ + decimal(w as nat) + "_"@,
    }
}

/// The spellings of a list of types, in order.
pub open spec fn spellings(ts: Vec<Type>) -> Seq<Seq<char>>
    decreases ts,
{
    Seq::new(
        ts@.len(),
        |i: int|
            if 0 <= i < ts@.len() {
                spelling(ts@[i])
            } else {
                Seq::empty()
            },
    )
}

/// The name under which the struct `name` applied to `args` is compiled:
/// `name` itself without arguments, else `name`, `_` and the arguments'
/// spellings joined with `_`.
pub open spec fn mono_name(name: Seq<char>, args: Seq<Type>) -> Seq<char> {
    if args.len() == 0 {
        name
    } else {
        name + "_"@ + joined(Seq::new(args.len(), |i: int| spelling(args[i])), "_"@)
    }
}

/// The one-character text of the digit `d`.
fn digit_text(d: usize) -> (r: &'static str)
    requires
        d < 10,
    ensures
        r@ == seq![(48 + d) as char],
{
    proof {
        reveal_strlit("0");
        reveal_strlit("1");
        reveal_strlit("2");
        reveal_strlit("3");
        reveal_strlit("4");
        reveal_strlit("5");
        reveal_strlit("6");
        reveal_strlit("7");
        reveal_strlit("8");
        reveal_strlit("9");
    }
    if d == 0 {
        "0"
    } else if d == 1 {
        "1"
    } else if d == 2 {
        "2"
    } else if d == 3 {
        "3"
    } else if d == 4 {
        "4"
    } else if d == 5 {
        "5"
    } else if d == 6 {
        "6"
    } else if d == 7 {
        "7"
    } else if d == 8 {
        "8"
    } else {
        "9"
    }
}

/// Appends the decimal digits of `n`.
fn append_decimal(n: usize, out: &mut String)
    ensures
        final(out)@ == old(out)@ + decimal(n as nat),
    decreases n,
{
    if n >= 10 {
        append_decimal(n / 10, out);
    }
    out.append(digit_text(n % 10));
}

/// Appends the spelling of `t`.
fn append_spelling(t: &Type, out: &mut String)
    ensures
        final(out)@ =~= old(out)@ + spelling(*t),
    decreases t,
{
    match t {
        Type::Int => out.append("int"),
        Type::I8 => out.append("i8"),
        Type::I16 => out.append("i16"),
        Type::I32 => out.append("i32"),
        Type::U8 => out.append("u8"),
        Type::U16 => out.append("u16"),
        Type::U32 => out.append("u32"),
        Type::U64 => out.append("u64"),
        Type::Usize => out.append("usize"),
        Type::Float => out.append("float"),
        Type::F32 => out.append("f32"),
        Type::Bool => out.append("bool"),
        Type::Str => out.append("str"),
        Type::Bytes => out.append("bytes"),
        Type::Null => out.append("None"),
        Type::Any => out.append("Any"),
        Type::PyObject => out.append("object"),
        Type::IntegerLiteral => out.append("int"),
        Type::FloatLiteral => out.append("float"),
        Type::List(b) => {
            out.append("list_");
            append_spelling(&**b, out);
            out.append("_");
        },
        Type::SetOf(b) => {
            out.append("set_");
            append_spelling(&**b, out);
            out.append("_");
        },
        Type::Dict(k, v) => {
            out.append("dict_");
            append_spelling(&**k, out);
            out.append("_");
            append_spelling(&**v, out);
            out.append("_");
        },
        Type::Tuple(ts) => {
            out.append("tuple_");
            append_joined(ts, "_", out);
            out.append("_");
        },
        Type::Struct(n, ts, _) => {
            out.append(n.as_str());
            if ts.len() > 0 {
                out.append("_");
                append_joined(ts, "_", out);
                out.append("_");
            }
        },
        Type::Enum(n, ts) => {
            out.append(n.as_str());
            if ts.len() > 0 {
                out.append("_");
                append_joined(ts, "_", out);
                out.append("_");
            }
        },
        Type::Union(ts) => append_joined(ts, "_or_", out),
        Type::Ref(b) => {
            out.append("ref_");
            append_spelling(&**b, out);
        },
        Type::MutRef(b) => {
            out.append("ref_mut");
            append_spelling(&**b, out);
        },
        Type::Ptr(b) => {
            out.append("ptr_");
            append_spelling(&**b, out);
        },
        Type::Fn(ps, r) => {
            out.append("_");
            append_joined(ps, "_", out);
            out.append("__to_");
            append_spelling(&**r, out);
        },
        Type::Param(n) => out.append(n.as_str()),
        Type::PyNamed(n) => out.append(n.as_str()),
        Type::Vector(b, w) => {
            out.append("vec_");
            append_spelling(&**b, out);
            out.append("_");
            append_decimal(*w, out);
            out.append("_");
        },
    }
}

/// Appends the spellings of `ts` joined with `sep`.
fn append_joined(ts: &Vec<Type>, sep: &str, out: &mut String)
    ensures
        final(out)@ =~= old(out)@ + joined(spellings(*ts), sep@),
    decreases ts,
{
    let ghost start = out@;
    let ghost parts = spellings(*ts);
    let mut i: usize = 0;
    while i < ts.len()
        invariant
            0 <= i <= ts@.len(),
            parts == spellings(*ts),
            parts.len() == ts@.len(),
            out@ =~= start + joined(parts.take(i as int), sep@),
        decreases ts.len() - i,
    {
        let ghost before = out@;
        if i > 0 {
            out.append(sep);
        }
        assert(decreases_to!(*ts => ts[i as int]));
        append_spelling(&ts[i], out);
        proof {
            assert(parts.take(i + 1).drop_last() =~= parts.take(i as int));
            assert(parts[i as int] == spelling(ts@[i as int]));
            if i == 0 {
                assert(parts.take(1) =~= seq![parts[0]]);
            }
        }
        i = i + 1;
    }
    assert(parts.take(ts@.len() as int) =~= parts);
}

/// The name under which the struct `struct_name` applied to `type_args` is
/// compiled.
pub fn monomorphized_name(struct_name: &str, type_args: &[Type]) -> (r: String)
    ensures
        r@ == mono_name(struct_name@, type_args@),
{
    let mut out = String::from_str(struct_name);
    if type_args.len() == 0 {
        return out;
    }
    out.append("_");
    let ghost start = out@;
    let ghost parts = Seq::new(type_args@.len(), |i: int| spelling(type_args@[i]));
    let mut i: usize = 0;
    while i < type_args.len()
        invariant
            0 <= i <= type_args@.len(),
            parts == Seq::new(type_args@.len(), |i: int| spelling(type_args@[i])),
            out@ =~= start + joined(parts.take(i as int), "_"@),
        decreases type_args.len() - i,
    {
        if i > 0 {
            out.append("_");
        }
        append_spelling(&type_args[i], &mut out);
        proof {
            assert(parts.take(i + 1).drop_last() =~= parts.take(i as int));
            if i == 0 {
                assert(parts.take(1) =~= seq![parts[0]]);
            }
        }
        i = i + 1;
    }
    assert(parts.take(type_args@.len() as int) =~= parts);
    out
}


/// The local a statement drops, if it is a drop.
pub open spec fn dropped_local(s: Statement) -> Option<Local> {
    match s.kind {
        StatementKind::Drop(l) => Some(l),
        _ => None,
    }
}

/// The statement at position `i` of block `b`.
pub open spec fn stmt_at(f: MirFunction, b: int, i: int) -> Statement {
    f.basic_blocks@[b].statements@[i]
}

/// Whether `(b, i)` is the position of a statement of `f`.
pub open spec fn in_body(f: MirFunction, b: int, i: int) -> bool {
    0 <= b < f.basic_blocks@.len() && 0 <= i < f.basic_blocks@[b].statements@.len()
}

/// The name of the drop method of the struct compiled as `m`.
pub open spec fn hook_name(m: Seq<char>) -> Seq<char> {
    m + "::__drop__"@
}

/// The members of a union that are structs, in order.
pub open spec fn struct_members(ms: Seq<Type>) -> Seq<Type>
    decreases ms.len(),
{
    if ms.len() == 0 {
        ms
    } else if ms.last() is Struct {
        struct_members(ms.drop_last()).push(ms.last())
    } else {
        struct_members(ms.drop_last())
    }
}

/// The drop method of the struct `name` applied to `args`, when `has` lists
/// it and `f` is not that struct's own `__drop__`.
pub open spec fn struct_hook(f: MirFunction, has: Set<Seq<char>>, name: Seq<char>, args: Seq<Type>) -> Option<Seq<char>> {
    if has.contains(mono_name(name, args)) && drop_struct_name(f.name@) != Some(name) {
        Some(hook_name(mono_name(name, args)))
    } else {
        None
    }
}

/// The drop method that a drop of `l` calls outright: `l` holds a struct
/// with a drop method.
pub open spec fn plain_hook(f: MirFunction, has: Set<Seq<char>>, l: Local) -> Option<Seq<char>> {
    match f.locals@[l.0 as int].ty {
        Type::Struct(n, args, _) => struct_hook(f, has, n@, args@),
        _ => None,
    }
}

/// The drop method, and the struct type it is for, that a drop of `l` calls
/// when its value turns out to be a struct: `l` holds a union whose one
/// struct member has a drop method.
pub open spec fn union_hook(f: MirFunction, has: Set<Seq<char>>, l: Local) -> Option<(Seq<char>, Type)> {
    match f.locals@[l.0 as int].ty {
        Type::Union(ms) => {
            let sm = struct_members(ms@);
            if sm.len() == 1 {
                match sm[0] {
                    Type::Struct(n, args, _) => match struct_hook(f, has, n@, args@) {
                        Some(h) => Some((h, sm[0])),
                        None => None,
                    },
                    _ => None,
                }
            } else {
                None
            }
        },
        _ => None,
    }
}

/// Whether the statement at `(b, i)` drops a struct with a drop method.
pub open spec fn is_plain_site(f: MirFunction, has: Set<Seq<char>>, b: int, i: int) -> bool {
    match dropped_local(stmt_at(f, b, i)) {
        Some(l) => plain_hook(f, has, l) is Some,
        None => false,
    }
}

/// Whether the statement at `(b, i)` drops a union with a drop method.
pub open spec fn is_union_site(f: MirFunction, has: Set<Seq<char>>, b: int, i: int) -> bool {
    match dropped_local(stmt_at(f, b, i)) {
        Some(l) => union_hook(f, has, l) is Some,
        None => false,
    }
}

/// How many of the first `k` statements of block `b` drop a struct with a
/// drop method.
pub open spec fn hooks_in(f: MirFunction, has: Set<Seq<char>>, b: int, k: int) -> nat
    decreases k,
{
    if k <= 0 {
        0
    } else {
        hooks_in(f, has, b, k - 1) + if is_plain_site(f, has, b, k - 1) {
            1nat
        } else {
            0nat
        }
    }
}

/// How many statements of the blocks before `b` drop a struct with a drop
/// method.
pub open spec fn hooks_before(f: MirFunction, has: Set<Seq<char>>, b: int) -> nat
    decreases b,
{
    if b <= 0 {
        0
    } else {
        hooks_before(f, has, b - 1) + hooks_in(f, has, b - 1, f.basic_blocks@[b - 1].statements@.len() as int)
    }
}

/// How many such drops come before `(b, i)`, blocks in order and statements
/// in order within a block.
pub open spec fn hook_rank(f: MirFunction, has: Set<Seq<char>>, b: int, i: int) -> nat {
    hooks_before(f, has, b) + hooks_in(f, has, b, i)
}

/// The positions among the first `k` statements of block `b` that drop a
/// union with a drop method.
pub open spec fn unions_in(f: MirFunction, has: Set<Seq<char>>, b: int, k: int) -> Seq<(int, int)>
    decreases k,
{
    if k <= 0 {
        Seq::empty()
    } else if is_union_site(f, has, b, k - 1) {
        unions_in(f, has, b, k - 1).push((b, k - 1))
    } else {
        unions_in(f, has, b, k - 1)
    }
}

/// The positions in the blocks before `b` that drop a union with a drop
/// method, in order.
pub open spec fn unions_before(f: MirFunction, has: Set<Seq<char>>, b: int) -> Seq<(int, int)>
    decreases b,
{
    if b <= 0 {
        Seq::empty()
    } else {
        unions_before(f, has, b - 1) + unions_in(f, has, b - 1, f.basic_blocks@[b - 1].statements@.len() as int)
    }
}

/// Whether position `p` comes before `q`.
pub open spec fn lex_lt(p: (int, int), q: (int, int)) -> bool {
    p.0 < q.0 || (p.0 == q.0 && p.1 < q.1)
}

/// Whether `s`, at `span`, calls the function named `name` with `args` and
/// stores the result in `dst`.
pub open spec fn is_call_into(s: Statement, span: Span, dst: Local, name: Seq<char>, args: Seq<Operand>) -> bool {
    s.span == span && match s.kind {
        StatementKind::Assign(
            d,
            Rvalue::Call { func: Operand::Constant(Constant::Function(fname)), args: a },
        ) => d == dst && fname@ == name && a@ == args,
        _ => false,
    }
}

/// `g` has the name, parameters and flags of `f`.
pub open spec fn same_header(f: MirFunction, g: MirFunction) -> bool {
    &&& g.name == f.name
    &&& g.arg_count == f.arg_count
    &&& g.vararg_idx == f.vararg_idx
    &&& g.kwarg_idx == f.kwarg_idx
    &&& g.param_names@ == f.param_names@
    &&& g.is_async == f.is_async
}

/// What becomes of the statement at `(b, i)` of `f` when drops of structs
/// with a drop method are lowered: such a drop becomes a call of the method
/// on the moved value, into the fresh local numbered by the drop's rank.
pub open spec fn lowered_stmt(f: MirFunction, has: Set<Seq<char>>, b: int, i: int, s: Statement) -> bool {
    if is_plain_site(f, has, b, i) {
        let l = dropped_local(stmt_at(f, b, i)).unwrap();
        is_call_into(
            s,
            stmt_at(f, b, i).span,
            Local((f.locals@.len() + hook_rank(f, has, b, i)) as usize),
            plain_hook(f, has, l).unwrap(),
            seq![Operand::Move(l)],
        )
    } else {
        s == stmt_at(f, b, i)
    }
}

/// `g` is `f` with every drop of a struct with a drop method replaced by a
/// call of that method, each into a fresh owning local of type `Any`.
pub open spec fn plain_lowered(f: MirFunction, has: Set<Seq<char>>, g: MirFunction) -> bool {
    &&& same_header(f, g)
    &&& g.locals@ == f.locals@ + Seq::new(
        hooks_before(f, has, f.basic_blocks@.len() as int),
        |k: int| owning_temp(Type::Any),
    )
    &&& g.basic_blocks@.len() == f.basic_blocks@.len()
    &&& forall|b: int|
        0 <= b < f.basic_blocks@.len() ==> {
            &&& #[trigger] g.basic_blocks@[b].terminator == f.basic_blocks@[b].terminator
            &&& g.basic_blocks@[b].statements@.len() == f.basic_blocks@[b].statements@.len()
        }
    &&& forall|b: int, i: int| in_body(f, b, i) ==> lowered_stmt(f, has, b, i, #[trigger] stmt_at(g, b, i))
}

/// Whether `t`, at `span`, goes to `yes` when `flag` is 1 and to `no`
/// otherwise.
pub open spec fn branches_on(t: Option<Terminator>, span: Span, flag: Local, yes: BasicBlockId, no: BasicBlockId) -> bool {
    match t {
        Some(t) => t.span == span && match t.kind {
            TerminatorKind::SwitchInt { discr, targets, otherwise } => discr == Operand::Copy(flag)
                && targets@ == seq![(1i64, yes)] && otherwise == no,
            _ => false,
        },
        None => false,
    }
}

/// `g` is `f` with block `b` split before its statement `idx`, a drop of the
/// union local `l`: block `b` keeps the statements before it, asks
/// `__olive_any_is_struct_box` whether `l` holds a struct and branches; a
/// new block peels the struct out with `__olive_struct_unbox_take`, calls
/// its drop method `name` and zeroes `l`; both paths go on to a second new
/// block that holds the drop and the rest of the old block.
pub open spec fn union_split(f: MirFunction, b: int, idx: int, name: Seq<char>, l: Local, st: Type, g: MirFunction) -> bool {
    let n = f.basic_blocks@.len() as int;
    let nl = f.locals@.len() as int;
    let span = stmt_at(f, b, idx).span;
    let ob = f.basic_blocks@[b];
    let sb = g.basic_blocks@[n + 1];
    &&& same_header(f, g)
    &&& g.locals@.len() == nl + 3
    &&& g.locals@.subrange(0, nl) == f.locals@
    &&& g.locals@[nl] == owning_temp(g.locals@[nl].ty)
    &&& type_view(g.locals@[nl].ty) == type_view(st)
    &&& g.locals@[nl + 1] == owning_temp(Type::Any)
    &&& g.locals@[nl + 2] == owning_temp(Type::Bool)
    &&& g.basic_blocks@.len() == n + 2
    &&& forall|c: int| 0 <= c < n && c != b ==> #[trigger] g.basic_blocks@[c] == f.basic_blocks@[c]
    &&& g.basic_blocks@[b].statements@.len() == idx + 1
    &&& g.basic_blocks@[b].statements@.subrange(0, idx) == ob.statements@.subrange(0, idx)
    &&& is_call_into(
        g.basic_blocks@[b].statements@[idx],
        span,
        Local((nl + 2) as usize),
        "__olive_any_is_struct_box"@,
        seq![Operand::Copy(l)],
    )
    &&& branches_on(
        g.basic_blocks@[b].terminator,
        span,
        Local((nl + 2) as usize),
        BasicBlockId((n + 1) as usize),
        BasicBlockId(n as usize),
    )
    &&& g.basic_blocks@[n].statements@ == ob.statements@.subrange(idx, ob.statements@.len() as int)
    &&& g.basic_blocks@[n].terminator == ob.terminator
    &&& sb.statements@.len() == 3
    &&& is_call_into(sb.statements@[0], span, Local(nl as usize), "__olive_struct_unbox_take"@, seq![Operand::Copy(l)])
    &&& is_call_into(sb.statements@[1], span, Local((nl + 1) as usize), name, seq![Operand::Move(Local(nl as usize))])
    &&& sb.statements@[2] == Statement {
        kind: StatementKind::Assign(l, Rvalue::Use(Operand::Constant(Constant::Int(0)))),
        span,
    }
    &&& sb.terminator == Some(
        Terminator { kind: TerminatorKind::Goto { target: BasicBlockId(n as usize) }, span },
    )
}

/// The split of `f` for the union drop that `f0` has at position `p`.
pub open spec fn union_step(f: MirFunction, f0: MirFunction, has: Set<Seq<char>>, p: (int, int), g: MirFunction) -> bool {
    let l = dropped_local(stmt_at(f0, p.0, p.1)).unwrap();
    let h = union_hook(f0, has, l).unwrap();
    union_split(f, p.0, p.1, h.0, l, h.1, g)
}

/// `states` runs from `f` to `g` through the splits for the union drops of
/// `f0` at `sites`, done in that order.
pub open spec fn union_chain(f: MirFunction, f0: MirFunction, has: Set<Seq<char>>, sites: Seq<(int, int)>, states: Seq<MirFunction>, g: MirFunction) -> bool {
    &&& states.len() == sites.len() + 1
    &&& states[0] == f
    &&& states.last() == g
    &&& forall|j: int| 0 <= j < sites.len() ==> union_step(#[trigger] states[j], f0, has, sites[j], states[j + 1])
}

/// `g` is `f` after the splits for the union drops of `f0` at `sites`, done
/// in that order.
pub open spec fn union_lowered(f: MirFunction, f0: MirFunction, has: Set<Seq<char>>, sites: Seq<(int, int)>, g: MirFunction) -> bool {
    exists|states: Seq<MirFunction>| union_chain(f, f0, has, sites, states, g)
}

/// Drop hooks are lowered from `f` to `g` given the compiled names `has` of
/// the structs that define `__drop__`: nothing changes when there are none;
/// else struct drops become calls of the drop method, and then each union
/// drop, from the last to the first, gets its guarded call.
pub open spec fn drop_hooks_lowered(f: MirFunction, has: Set<Seq<char>>, g: MirFunction) -> bool {
    if has.is_empty() {
        g == f
    } else {
        exists|mid: MirFunction|
            plain_lowered(f, has, mid) && union_lowered(
                mid,
                f,
                has,
                unions_before(f, has, f.basic_blocks@.len() as int).reverse(),
                g,
            )
    }
}

/// Every drop of `f` names one of its locals.
pub open spec fn drops_in_range(f: MirFunction) -> bool {
    forall|b: int, i: int|
        in_body(f, b, i) && (#[trigger] dropped_local(stmt_at(f, b, i))) is Some ==> dropped_local(
            stmt_at(f, b, i),
        ).unwrap().0 < f.locals@.len()
}

/// The drops of `f` name its locals, and the locals and blocks that lowering
/// adds can be numbered.
pub open spec fn drop_hooks_fit(f: MirFunction, has: Set<Seq<char>>) -> bool {
    let nb = f.basic_blocks@.len() as int;
    &&& drops_in_range(f)
    &&& f.locals@.len() + hooks_before(f, has, nb) + 3 * unions_before(f, has, nb).len() < usize::MAX
    &&& f.basic_blocks@.len() + 2 * unions_before(f, has, nb).len() < usize::MAX
}


/// The text of an optional string.
pub open spec fn opt_view(o: Option<String>) -> Option<Seq<char>> {
    match o {
        Some(s) => Some(s@),
        None => None,
    }
}

/// A drop of a struct with a drop method: where it is, the method it gets
/// and the dropped local.
struct HookSite {
    bb: usize,
    idx: usize,
    drop_fn: String,
    local: Local,
}

/// A drop of a union with a struct member that has a drop method: where it
/// is, the method, the dropped local and the struct member's type.
struct UnionHookSite {
    bb: usize,
    idx: usize,
    drop_fn: String,
    local: Local,
    struct_ty: Type,
}

/// `e` is the `k`-th struct drop with a drop method of `f`.
spec fn plain_entry(f: MirFunction, has: Set<Seq<char>>, e: HookSite, k: int) -> bool {
    &&& in_body(f, e.bb as int, e.idx as int)
    &&& dropped_local(stmt_at(f, e.bb as int, e.idx as int)) == Some(e.local)
    &&& plain_hook(f, has, e.local) == Some(e.drop_fn@)
    &&& hook_rank(f, has, e.bb as int, e.idx as int) == k
}

/// `e` is a union drop with a drop method of `f`.
spec fn union_entry(f: MirFunction, has: Set<Seq<char>>, e: UnionHookSite) -> bool {
    &&& in_body(f, e.bb as int, e.idx as int)
    &&& dropped_local(stmt_at(f, e.bb as int, e.idx as int)) == Some(e.local)
    &&& union_hook(f, has, e.local) is Some
    &&& union_hook(f, has, e.local).unwrap().0 == e.drop_fn@
    &&& type_view(union_hook(f, has, e.local).unwrap().1) == type_view(e.struct_ty)
}

spec fn site_pos(e: UnionHookSite) -> (int, int) {
    (e.bb as int, e.idx as int)
}

/// The struct whose drop method `name` is, if it is one.
fn self_struct_of(name: &String) -> (r: Option<String>)
    ensures
        opt_view(r) == drop_struct_name(name@),
{
    match strip_drop_suffix(name.as_str()) {
        Some(s) => Some(String::from_str(s)),
        None => None,
    }
}

/// The drop method of the struct `name` applied to `args`, if `has` lists
/// it and `f`, whose own struct is `me`, is not that struct's `__drop__`.
fn drop_hook_for(f: &MirFunction, has: &StringHashSet, me: &Option<String>, name: &String, args: &Vec<Type>) -> (r: Option<String>)
    requires
        opt_view(*me) == drop_struct_name(f.name@),
    ensures
        opt_view(r) == struct_hook(*f, has@, name@, args@),
{
    let m = monomorphized_name(name.as_str(), args.as_slice());
    let outside = match me {
        Some(s) => !(*s == *name),
        None => true,
    };
    if has.contains(m.as_str()) && outside {
        let mut d = m;
        d.append("::__drop__");
        Some(d)
    } else {
        None
    }
}

/// What a drop of `l` becomes: a call of a struct's drop method, or a
/// guarded call for a union with one struct member.
fn classify_drop(f: &MirFunction, has: &StringHashSet, me: &Option<String>, l: Local) -> (r: (Option<String>, Option<(String, Type)>))
    requires
        l.0 < f.locals@.len(),
        opt_view(*me) == drop_struct_name(f.name@),
    ensures
        opt_view(r.0) == plain_hook(*f, has@, l),
        r.1 is Some <==> union_hook(*f, has@, l) is Some,
        r.1 matches Some(p) ==> union_hook(*f, has@, l).unwrap().0 == p.0@ && type_view(
            union_hook(*f, has@, l).unwrap().1,
        ) == type_view(p.1),
{
    match &f.locals[l.0].ty {
        Type::Struct(name, args, _) => (drop_hook_for(f, has, me, name, args), None),
        Type::Union(members) => {
            let mut count: usize = 0;
            let mut first: usize = 0;
            let mut i: usize = 0;
            while i < members.len()
                invariant
                    0 <= i <= members@.len(),
                    count <= i,
                    count == struct_members(members@.take(i as int)).len(),
                    count > 0 ==> first < i && struct_members(members@.take(i as int))[0]
                        == members@[first as int],
                decreases members.len() - i,
            {
                proof {
                    assert(members@.take(i + 1).drop_last() =~= members@.take(i as int));
                }
                if let Type::Struct(..) = &members[i] {
                    if count == 0 {
                        first = i;
                    }
                    count = count + 1;
                }
                i = i + 1;
            }
            proof {
                assert(members@.take(members@.len() as int) =~= members@);
            }
            if count == 1 {
                match &members[first] {
                    Type::Struct(name, args, _) => match drop_hook_for(f, has, me, name, args) {
                        Some(d) => (None, Some((d, copy_type(&members[first])))),
                        None => (None, None),
                    },
                    _ => (None, None),
                }
            } else {
                (None, None)
            }
        },
        _ => (None, None),
    }
}

/// The drops of `f` that get a drop method: struct drops in order, each at
/// the index of its rank, and union drops in order.
fn find_hook_sites(f: &MirFunction, has: &StringHashSet, me: &Option<String>) -> (r: (Vec<HookSite>, Vec<UnionHookSite>))
    requires
        opt_view(*me) == drop_struct_name(f.name@),
        drops_in_range(*f),
    ensures
        r.0@.len() == hooks_before(*f, has@, f.basic_blocks@.len() as int),
        forall|k: int| 0 <= k < r.0@.len() ==> plain_entry(*f, has@, #[trigger] r.0@[k], k),
        forall|b: int, i: int|
            in_body(*f, b, i) && #[trigger] is_plain_site(*f, has@, b, i) ==> hook_rank(*f, has@, b, i)
                < r.0@.len() && r.0@[hook_rank(*f, has@, b, i) as int].bb == b && r.0@[hook_rank(
                *f,
                has@,
                b,
                i,
            ) as int].idx == i,
        r.1@.len() == unions_before(*f, has@, f.basic_blocks@.len() as int).len(),
        forall|k: int|
            0 <= k < r.1@.len() ==> union_entry(*f, has@, #[trigger] r.1@[k]) && site_pos(r.1@[k])
                == unions_before(*f, has@, f.basic_blocks@.len() as int)[k],
        forall|k1: int, k2: int|
            0 <= k1 < k2 < r.1@.len() ==> lex_lt(site_pos(#[trigger] r.1@[k1]), site_pos(#[trigger] r.1@[k2])),
{
    let ghost hs = has@;
    let mut plain: Vec<HookSite> = Vec::new();
    let mut unions: Vec<UnionHookSite> = Vec::new();
    let mut b: usize = 0;
    while b < f.basic_blocks.len()
        invariant
            0 <= b <= f.basic_blocks@.len(),
            hs == has@,
            opt_view(*me) == drop_struct_name(f.name@),
            drops_in_range(*f),
            plain@.len() == hooks_before(*f, hs, b as int),
            forall|k: int| 0 <= k < plain@.len() ==> plain_entry(*f, hs, #[trigger] plain@[k], k),
            forall|b2: int, i2: int|
                in_body(*f, b2, i2) && b2 < b && #[trigger] is_plain_site(*f, hs, b2, i2) ==> hook_rank(
                    *f,
                    hs,
                    b2,
                    i2,
                ) < plain@.len() && plain@[hook_rank(*f, hs, b2, i2) as int].bb == b2 && plain@[hook_rank(
                    *f,
                    hs,
                    b2,
                    i2,
                ) as int].idx == i2,
            unions@.len() == unions_before(*f, hs, b as int).len(),
            forall|k: int|
                0 <= k < unions@.len() ==> union_entry(*f, hs, #[trigger] unions@[k]) && site_pos(unions@[k])
                    == unions_before(*f, hs, b as int)[k],
            forall|k1: int, k2: int|
                0 <= k1 < k2 < unions@.len() ==> lex_lt(site_pos(#[trigger] unions@[k1]), site_pos(#[trigger] unions@[k2])),
            forall|k: int| 0 <= k < unions@.len() ==> (#[trigger] unions@[k]).bb < b,
        decreases f.basic_blocks.len() - b,
    {
        let ghost ub = unions_before(*f, hs, b as int);
        let mut i: usize = 0;
        while i < f.basic_blocks[b].statements.len()
            invariant
                0 <= b < f.basic_blocks@.len(),
                0 <= i <= f.basic_blocks@[b as int].statements@.len(),
                hs == has@,
                opt_view(*me) == drop_struct_name(f.name@),
                drops_in_range(*f),
                ub == unions_before(*f, hs, b as int),
                plain@.len() == hooks_before(*f, hs, b as int) + hooks_in(*f, hs, b as int, i as int),
                forall|k: int| 0 <= k < plain@.len() ==> plain_entry(*f, hs, #[trigger] plain@[k], k),
                forall|b2: int, i2: int|
                    in_body(*f, b2, i2) && (b2 < b || (b2 == b && i2 < i)) && #[trigger] is_plain_site(
                        *f,
                        hs,
                        b2,
                        i2,
                    ) ==> hook_rank(*f, hs, b2, i2) < plain@.len() && plain@[hook_rank(*f, hs, b2, i2) as int].bb
                        == b2 && plain@[hook_rank(*f, hs, b2, i2) as int].idx == i2,
                unions@.len() == (ub + unions_in(*f, hs, b as int, i as int)).len(),
                forall|k: int|
                    0 <= k < unions@.len() ==> union_entry(*f, hs, #[trigger] unions@[k]) && site_pos(unions@[k])
                        == (ub + unions_in(*f, hs, b as int, i as int))[k],
                forall|k1: int, k2: int|
                    0 <= k1 < k2 < unions@.len() ==> lex_lt(
                        site_pos(#[trigger] unions@[k1]),
                        site_pos(#[trigger] unions@[k2]),
                    ),
                forall|k: int|
                    0 <= k < unions@.len() ==> lex_lt(site_pos(#[trigger] unions@[k]), (b as int, i as int)),
            decreases f.basic_blocks@[b as int].statements@.len() - i,
        {
            let ghost u0 = unions@;
            let ghost p0 = plain@;
            if let StatementKind::Drop(l) = &f.basic_blocks[b].statements[i].kind {
                let l = *l;
                assert(dropped_local(stmt_at(*f, b as int, i as int)) == Some(l));
                assert(in_body(*f, b as int, i as int));
                let (p, u) = classify_drop(f, has, me, l);
                match p {
                    Some(d) => {
                        plain.push(HookSite { bb: b, idx: i, drop_fn: d, local: l });
                    },
                    None => {},
                }
                match u {
                    Some((d, t)) => {
                        unions.push(UnionHookSite { bb: b, idx: i, drop_fn: d, local: l, struct_ty: t });
                    },
                    None => {},
                }
            }
            proof {
                assert(is_plain_site(*f, hs, b as int, i as int) ==> plain@ == p0.push(plain@.last()));
                assert(!is_plain_site(*f, hs, b as int, i as int) ==> plain@ == p0);
                assert(is_union_site(*f, hs, b as int, i as int) ==> unions@ == u0.push(unions@.last()));
                assert(!is_union_site(*f, hs, b as int, i as int) ==> unions@ == u0);
                assert(ub + unions_in(*f, hs, b as int, i + 1) =~= if is_union_site(*f, hs, b as int, i as int) {
                    (ub + unions_in(*f, hs, b as int, i as int)).push((b as int, i as int))
                } else {
                    ub + unions_in(*f, hs, b as int, i as int)
                });
            }
            i = i + 1;
        }
        proof {
            assert(unions_before(*f, hs, b + 1) == ub + unions_in(
                *f,
                hs,
                b as int,
                f.basic_blocks@[b as int].statements@.len() as int,
            ));
        }
        b = b + 1;
    }
    (plain, unions)
}

/// Replaces the statement at position `i` of block `b`.
fn set_statement(func: &mut MirFunction, b: usize, i: usize, s: Statement)
    requires
        b < old(func).basic_blocks@.len(),
        i < old(func).basic_blocks@[b as int].statements@.len(),
    ensures
        final(func).name == old(func).name,
        final(func).locals == old(func).locals,
        final(func).arg_count == old(func).arg_count,
        final(func).vararg_idx == old(func).vararg_idx,
        final(func).kwarg_idx == old(func).kwarg_idx,
        final(func).param_names == old(func).param_names,
        final(func).is_async == old(func).is_async,
        final(func).basic_blocks@.len() == old(func).basic_blocks@.len(),
        forall|c: int|
            0 <= c < old(func).basic_blocks@.len() && c != b ==> #[trigger] final(func).basic_blocks@[c]
                == old(func).basic_blocks@[c],
        final(func).basic_blocks@[b as int].terminator == old(func).basic_blocks@[b as int].terminator,
        final(func).basic_blocks@[b as int].statements@ == old(func).basic_blocks@[b as int].statements@.update(
            i as int,
            s,
        ),
{
    let mut bb = BasicBlock { statements: Vec::new(), terminator: None };
    func.basic_blocks.set_and_swap(b, &mut bb);
    bb.statements.set(i, s);
    func.basic_blocks.set_and_swap(b, &mut bb);
}

/// One more struct drop turned into its call keeps every other statement
/// as it was.
proof fn lemma_hook_step(f0: MirFunction, has: Set<Seq<char>>, sites: Seq<HookSite>, k: int, head: MirFunction, g: MirFunction, st: Statement)
    requires
        0 <= k < sites.len(),
        forall|q: int| 0 <= q < sites.len() ==> plain_entry(f0, has, #[trigger] sites[q], q),
        forall|b: int, i: int|
            in_body(f0, b, i) && #[trigger] is_plain_site(f0, has, b, i) ==> hook_rank(f0, has, b, i)
                < sites.len() && sites[hook_rank(f0, has, b, i) as int].bb == b && sites[hook_rank(
                f0,
                has,
                b,
                i,
            ) as int].idx == i,
        g.basic_blocks@.len() == head.basic_blocks@.len(),
        head.basic_blocks@.len() == f0.basic_blocks@.len(),
        forall|c: int|
            0 <= c < head.basic_blocks@.len() ==> (#[trigger] head.basic_blocks@[c]).statements@.len()
                == f0.basic_blocks@[c].statements@.len(),
        forall|c: int|
            0 <= c < head.basic_blocks@.len() && c != sites[k].bb ==> #[trigger] g.basic_blocks@[c]
                == head.basic_blocks@[c],
        g.basic_blocks@[sites[k].bb as int].statements@ == head.basic_blocks@[sites[k].bb as int].statements@.update(
            sites[k].idx as int,
            st,
        ),
        lowered_stmt(f0, has, sites[k].bb as int, sites[k].idx as int, st),
        forall|b: int, i: int|
            in_body(f0, b, i) ==> if is_plain_site(f0, has, b, i) && hook_rank(f0, has, b, i) < k {
                lowered_stmt(f0, has, b, i, #[trigger] stmt_at(head, b, i))
            } else {
                stmt_at(head, b, i) == stmt_at(f0, b, i)
            },
    ensures
        forall|b: int, i: int|
            in_body(f0, b, i) ==> if is_plain_site(f0, has, b, i) && hook_rank(f0, has, b, i) < k + 1 {
                lowered_stmt(f0, has, b, i, #[trigger] stmt_at(g, b, i))
            } else {
                stmt_at(g, b, i) == stmt_at(f0, b, i)
            },
{
    let b0 = sites[k].bb as int;
    let i0 = sites[k].idx as int;
    assert(plain_entry(f0, has, sites[k], k));
    assert forall|b: int, i: int| in_body(f0, b, i) implies if is_plain_site(f0, has, b, i) && hook_rank(f0, has, b, i)
        < k + 1 {
        lowered_stmt(f0, has, b, i, #[trigger] stmt_at(g, b, i))
    } else {
        stmt_at(g, b, i) == stmt_at(f0, b, i)
    } by {
        if b == b0 && i == i0 {
        } else {
            if b != b0 && 0 <= b < head.basic_blocks@.len() {
                assert(g.basic_blocks@[b] == head.basic_blocks@[b]);
            }
            assert(stmt_at(g, b, i) == stmt_at(head, b, i));
            if is_plain_site(f0, has, b, i) && hook_rank(f0, has, b, i) == k {
                assert(sites[k].bb == b && sites[k].idx == i);
            }
        }
    }
}

/// Turns each listed struct drop into a call of its drop method into a
/// fresh local, in order.
#[verifier::rlimit(100)]
#[verifier::spinoff_prover]
fn apply_hook_sites(func: &mut MirFunction, sites: &Vec<HookSite>, Ghost(has): Ghost<Set<Seq<char>>>)
    requires
        sites@.len() == hooks_before(*old(func), has, old(func).basic_blocks@.len() as int),
        forall|k: int| 0 <= k < sites@.len() ==> plain_entry(*old(func), has, #[trigger] sites@[k], k),
        forall|b: int, i: int|
            in_body(*old(func), b, i) && #[trigger] is_plain_site(*old(func), has, b, i) ==> hook_rank(
                *old(func),
                has,
                b,
                i,
            ) < sites@.len() && sites@[hook_rank(*old(func), has, b, i) as int].bb == b && sites@[hook_rank(
                *old(func),
                has,
                b,
                i,
            ) as int].idx == i,
        old(func).locals@.len() + sites@.len() < usize::MAX,
    ensures
        plain_lowered(*old(func), has, *final(func)),
{
    let ghost f0 = *func;
    let n0 = func.locals.len();
    let mut k: usize = 0;
    while k < sites.len()
        invariant
            0 <= k <= sites@.len(),
            n0 == f0.locals@.len(),
            sites@.len() == hooks_before(f0, has, f0.basic_blocks@.len() as int),
            forall|q: int| 0 <= q < sites@.len() ==> plain_entry(f0, has, #[trigger] sites@[q], q),
            forall|b: int, i: int|
                in_body(f0, b, i) && #[trigger] is_plain_site(f0, has, b, i) ==> hook_rank(f0, has, b, i)
                    < sites@.len() && sites@[hook_rank(f0, has, b, i) as int].bb == b && sites@[hook_rank(
                    f0,
                    has,
                    b,
                    i,
                ) as int].idx == i,
            f0.locals@.len() + sites@.len() < usize::MAX,
            same_header(f0, *func),
            func.locals@ == f0.locals@ + Seq::new(k as nat, |q: int| owning_temp(Type::Any)),
            func.basic_blocks@.len() == f0.basic_blocks@.len(),
            forall|b: int|
                0 <= b < f0.basic_blocks@.len() ==> {
                    &&& #[trigger] func.basic_blocks@[b].terminator == f0.basic_blocks@[b].terminator
                    &&& func.basic_blocks@[b].statements@.len() == f0.basic_blocks@[b].statements@.len()
                },
            forall|b: int, i: int|
                in_body(f0, b, i) ==> if is_plain_site(f0, has, b, i) && hook_rank(f0, has, b, i) < k {
                    lowered_stmt(f0, has, b, i, #[trigger] stmt_at(*func, b, i))
                } else {
                    stmt_at(*func, b, i) == stmt_at(f0, b, i)
                },
        decreases sites.len() - k,
    {
        let ghost head = *func;
        let b = sites[k].bb;
        let i = sites[k].idx;
        let l = sites[k].local;
        let name = sites[k].drop_fn.clone();
        assert(plain_entry(f0, has, sites@[k as int], k as int));
        assert(is_plain_site(f0, has, b as int, i as int));
        assert(func.basic_blocks@[b as int].terminator == f0.basic_blocks@[b as int].terminator);
        assert(stmt_at(*func, b as int, i as int) == stmt_at(f0, b as int, i as int));
        let span = func.basic_blocks[b].statements[i].span;
        let tmp = push_local(func, Type::Any);
        let mut args: Vec<Operand> = Vec::new();
        args.push(Operand::Move(l));
        let st = Statement {
            kind: StatementKind::Assign(
                tmp,
                Rvalue::Call { func: Operand::Constant(Constant::Function(name)), args },
            ),
            span,
        };
        let ghost before = *func;
        proof {
            assert(before.basic_blocks@ == head.basic_blocks@);
            assert(lowered_stmt(f0, has, b as int, i as int, st));
            assert forall|c: int| 0 <= c < head.basic_blocks@.len() implies (#[trigger] head.basic_blocks@[c]).statements@.len()
                == f0.basic_blocks@[c].statements@.len() by {
                assert(head.basic_blocks@[c].terminator == f0.basic_blocks@[c].terminator);
            }
        }
        set_statement(func, b, i, st);
        proof {
            assert(func.locals@ =~= f0.locals@ + Seq::new((k + 1) as nat, |q: int| owning_temp(Type::Any)));
            lemma_hook_step(f0, has, sites@, k as int, head, *func, st);
        }
        k = k + 1;
    }
    proof {
        assert forall|b: int, i: int| in_body(f0, b, i) implies lowered_stmt(f0, has, b, i, #[trigger] stmt_at(*func, b, i)) by {
            if is_plain_site(f0, has, b, i) {
                assert(hook_rank(f0, has, b, i) < k);
            }
        }
    }
}

/// Splits block `b` before the union drop at `idx` and inserts the guarded
/// call of the struct member's drop method `drop_fn`.
fn insert_union_drop_hook(func: &mut MirFunction, b: usize, idx: usize, drop_fn: String, local: Local, struct_ty: Type)
    requires
        b < old(func).basic_blocks@.len(),
        idx < old(func).basic_blocks@[b as int].statements@.len(),
        old(func).locals@.len() + 3 < usize::MAX,
        old(func).basic_blocks@.len() + 2 < usize::MAX,
    ensures
        union_split(*old(func), b as int, idx as int, drop_fn@, local, struct_ty, *final(func)),
{
    let ghost f0 = *func;
    let ghost st0 = struct_ty;
    let span = func.basic_blocks[b].statements[idx].span;
    let n = func.basic_blocks.len();
    let mut bb = BasicBlock { statements: Vec::new(), terminator: None };
    func.basic_blocks.set_and_swap(b, &mut bb);
    let tail = bb.statements.split_off(idx);
    let term = bb.terminator.take();
    func.basic_blocks.push(BasicBlock { statements: tail, terminator: term });
    let inner = push_local(func, struct_ty);
    let sink = push_local(func, Type::Any);
    let mut a1: Vec<Operand> = Vec::new();
    a1.push(Operand::Copy(local));
    let mut a2: Vec<Operand> = Vec::new();
    a2.push(Operand::Move(inner));
    let mut stmts: Vec<Statement> = Vec::new();
    stmts.push(
        Statement {
            kind: StatementKind::Assign(
                inner,
                Rvalue::Call {
                    func: Operand::Constant(Constant::Function(String::from_str("__olive_struct_unbox_take"))),
                    args: a1,
                },
            ),
            span,
        },
    );
    stmts.push(
        Statement {
            kind: StatementKind::Assign(
                sink,
                Rvalue::Call { func: Operand::Constant(Constant::Function(drop_fn)), args: a2 },
            ),
            span,
        },
    );
    stmts.push(
        Statement {
            kind: StatementKind::Assign(local, Rvalue::Use(Operand::Constant(Constant::Int(0)))),
            span,
        },
    );
    func.basic_blocks.push(
        BasicBlock {
            statements: stmts,
            terminator: Some(Terminator { kind: TerminatorKind::Goto { target: BasicBlockId(n) }, span }),
        },
    );
    let is_struct = push_local(func, Type::Bool);
    let mut a3: Vec<Operand> = Vec::new();
    a3.push(Operand::Copy(local));
    bb.statements.push(
        Statement {
            kind: StatementKind::Assign(
                is_struct,
                Rvalue::Call {
                    func: Operand::Constant(Constant::Function(String::from_str("__olive_any_is_struct_box"))),
                    args: a3,
                },
            ),
            span,
        },
    );
    let mut targets: Vec<(i64, BasicBlockId)> = Vec::new();
    targets.push((1i64, BasicBlockId(n + 1)));
    bb.terminator = Some(
        Terminator {
            kind: TerminatorKind::SwitchInt { discr: Operand::Copy(is_struct), targets, otherwise: BasicBlockId(n) },
            span,
        },
    );
    func.basic_blocks.set_and_swap(b, &mut bb);
    proof {
        assert(func.locals@.subrange(0, f0.locals@.len() as int) =~= f0.locals@);
        assert(func.basic_blocks@[b as int].statements@.subrange(0, idx as int) =~= f0.basic_blocks@[b as int].statements@.subrange(0, idx as int));
    }
}

/// After ownership inference, replaces each drop of a struct that defines
/// `__drop__` (its compiled name listed in `has_drop`) by a call of that
/// method, except inside the struct's own `__drop__`. A drop of a union
/// whose one struct member has such a method gets the call behind a test of
/// what the union holds, and keeps its ordinary drop for the other members.
pub fn lower_drop_hooks(func: &mut MirFunction, has_drop: &StringHashSet)
    requires
        !has_drop@.is_empty() ==> drop_hooks_fit(*old(func), has_drop@),
    ensures
        drop_hooks_lowered(*old(func), has_drop@, *final(func)),
{
    if has_drop.is_empty() {
        return;
    }
    let ghost f0 = *func;
    let ghost hs = has_drop@;
    let me = self_struct_of(&func.name);
    let (plain, unions) = find_hook_sites(&*func, has_drop, &me);
    apply_hook_sites(func, &plain, Ghost(hs));
    let ghost mid = *func;
    let ghost mut states: Seq<MirFunction> = seq![mid];
    let ghost ps = unions_before(f0, hs, f0.basic_blocks@.len() as int);
    let nu = unions.len();
    proof {
        assert forall|q: int| 0 <= q < nu implies (#[trigger] unions@[q]).bb < f0.basic_blocks@.len()
            && unions@[q].idx < func.basic_blocks@[unions@[q].bb as int].statements@.len() by {
            assert(union_entry(f0, hs, unions@[q]));
            assert(func.basic_blocks@[unions@[q].bb as int].terminator
                == f0.basic_blocks@[unions@[q].bb as int].terminator);
        }
    }
    let mut k = nu;
    while k > 0
        invariant
            0 <= k <= nu,
            nu == unions@.len(),
            nu == ps.len(),
            plain_lowered(f0, hs, mid),
            forall|q: int|
                0 <= q < unions@.len() ==> union_entry(f0, hs, #[trigger] unions@[q]) && site_pos(unions@[q])
                    == ps[q],
            forall|k1: int, k2: int|
                0 <= k1 < k2 < unions@.len() ==> lex_lt(site_pos(#[trigger] unions@[k1]), site_pos(#[trigger] unions@[k2])),
            union_chain(mid, f0, hs, ps.reverse().take((nu - k) as int), states, *func),
            func.basic_blocks@.len() >= f0.basic_blocks@.len(),
            forall|q: int|
                0 <= q < k ==> (#[trigger] unions@[q]).bb < f0.basic_blocks@.len() && unions@[q].idx
                    < func.basic_blocks@[unions@[q].bb as int].statements@.len(),
            func.locals@.len() + 3 * k < usize::MAX,
            func.basic_blocks@.len() + 2 * k < usize::MAX,
        decreases k,
    {
        k = k - 1;
        let ghost cur = *func;
        assert(union_entry(f0, hs, unions@[k as int]));
        let b = unions[k].bb;
        let i = unions[k].idx;
        let l = unions[k].local;
        let name = unions[k].drop_fn.clone();
        let ty = copy_type(&unions[k].struct_ty);
        insert_union_drop_hook(func, b, i, name, l, ty);
        proof {
            assert(union_step(cur, f0, hs, ps[k as int], *func));
            let ghost old_states = states;
            states = states.push(*func);
            assert(ps.reverse().take((nu - k - 1) as int).push(ps[k as int]) =~= ps.reverse().take((nu - k) as int));
            assert forall|j: int| 0 <= j < nu - k implies union_step(#[trigger] states[j], f0, hs, ps.reverse().take((nu - k) as int)[j], states[j + 1]) by {
                if j < nu - k - 1 {
                    assert(states[j] == old_states[j]);
                    assert(states[j + 1] == old_states[j + 1]);
                }
            }
            assert forall|q: int| 0 <= q < k implies (#[trigger] unions@[q]).bb < f0.basic_blocks@.len() && unions@[q].idx
                    < func.basic_blocks@[unions@[q].bb as int].statements@.len() by {
                assert(lex_lt(site_pos(unions@[q]), site_pos(unions@[k as int])));
                if unions@[q].bb != b {
                    assert(func.basic_blocks@[unions@[q].bb as int] == cur.basic_blocks@[unions@[q].bb as int]);
                }
            }
        }
    }
    proof {
        assert(ps.reverse().take(nu as int) =~= ps.reverse());
        assert(union_chain(mid, f0, hs, ps.reverse(), states, *func));
    }
}

} // verus!
