//! The MIR data model: locals, operands, rvalues, statements, terminators,
//! basic blocks and functions, with the source types and spans they carry.

use vstd::prelude::*;
use vstd::string::StringExecFns;

verus! {

/// A source position attached to every statement and terminator.
#[derive(Debug, Clone, Copy, PartialEq, Eq, Hash)]
pub struct Span {
    pub file_id: usize,
    pub line: usize,
    pub col: usize,
    pub start: usize,
    pub end: usize,
}

impl Default for Span {
    fn default() -> (s: Self)
        ensures
            s == (Span { file_id: 0, line: 0, col: 0, start: 0, end: 0 }),
    {
        Span { file_id: 0, line: 0, col: 0, start: 0, end: 0 }
    }
}

/// Binary operators of the source language.
#[derive(Debug, Clone, Copy, PartialEq, Eq, Hash, Structural)]
pub enum BinOp {
    Add,
    Sub,
    Mul,
    Div,
    Mod,
    Pow,
    Eq,
    NotEq,
    Lt,
    LtEq,
    Gt,
    GtEq,
    And,
    Or,
    Shl,
    Shr,
    In,
}

/// Unary operators of the source language.
#[derive(Debug, Clone, Copy, PartialEq, Eq, Hash, Structural)]
pub enum UnaryOp {
    Neg,
    Not,
    Pos,
}

/// Static types of locals.
#[derive(Debug, PartialEq, Eq, Hash)]
pub enum Type {
    Int,
    I8,
    I16,
    I32,
    U8,
    U16,
    U32,
    U64,
    Usize,
    Float,
    F32,
    Bool,
    Str,
    Bytes,
    Null,
    Any,
    PyObject,
    IntegerLiteral,
    FloatLiteral,
    List(Box<Type>),
    SetOf(Box<Type>),
    Dict(Box<Type>, Box<Type>),
    Tuple(Vec<Type>),
    Struct(String, Vec<Type>, bool),
    Enum(String, Vec<Type>),
    Union(Vec<Type>),
    Ref(Box<Type>),
    MutRef(Box<Type>),
    Ptr(Box<Type>),
    Fn(Vec<Type>, Box<Type>),
    Param(String),
    PyNamed(String),
    Vector(Box<Type>, usize),
}


/// A type as a value: its names as character sequences and its parts as
/// sequences, so that two types compare by what they say.
pub enum TypeView {
    Int,
    I8,
    I16,
    I32,
    U8,
    U16,
    U32,
    U64,
    Usize,
    Float,
    F32,
    Bool,
    Str,
    Bytes,
    Null,
    Any,
    PyObject,
    IntegerLiteral,
    FloatLiteral,
    List(Box<TypeView>),
    SetOf(Box<TypeView>),
    Dict(Box<TypeView>, Box<TypeView>),
    Tuple(Seq<TypeView>),
    Struct(Seq<char>, Seq<TypeView>, bool),
    Enum(Seq<char>, Seq<TypeView>),
    Union(Seq<TypeView>),
    Ref(Box<TypeView>),
    MutRef(Box<TypeView>),
    Ptr(Box<TypeView>),
    Fn(Seq<TypeView>, Box<TypeView>),
    Param(Seq<char>),
    PyNamed(Seq<char>),
    Vector(Box<TypeView>, usize),
}

/// The value a type stands for.
pub open spec fn type_view(t: Type) -> TypeView
    decreases t,
{
    match t {
        Type::Int => TypeView::Int,
        Type::I8 => TypeView::I8,
        Type::I16 => TypeView::I16,
        Type::I32 => TypeView::I32,
        Type::U8 => TypeView::U8,
        Type::U16 => TypeView::U16,
        Type::U32 => TypeView::U32,
        Type::U64 => TypeView::U64,
        Type::Usize => TypeView::Usize,
        Type::Float => TypeView::Float,
        Type::F32 => TypeView::F32,
        Type::Bool => TypeView::Bool,
        Type::Str => TypeView::Str,
        Type::Bytes => TypeView::Bytes,
        Type::Null => TypeView::Null,
        Type::Any => TypeView::Any,
        Type::PyObject => TypeView::PyObject,
        Type::IntegerLiteral => TypeView::IntegerLiteral,
        Type::FloatLiteral => TypeView::FloatLiteral,
        Type::List(b) => TypeView::List(Box::new(type_view(*b))),
        Type::SetOf(b) => TypeView::SetOf(Box::new(type_view(*b))),
        Type::Dict(k, v) => TypeView::Dict(Box::new(type_view(*k)), Box::new(type_view(*v))),
        Type::Tuple(ts) => TypeView::Tuple(types_view(ts)),
        Type::Struct(n, ts, ffi) => TypeView::Struct(n@, types_view(ts), ffi),
        Type::Enum(n, ts) => TypeView::Enum(n@, types_view(ts)),
        Type::Union(ts) => TypeView::Union(types_view(ts)),
        Type::Ref(b) => TypeView::Ref(Box::new(type_view(*b))),
        Type::MutRef(b) => TypeView::MutRef(Box::new(type_view(*b))),
        Type::Ptr(b) => TypeView::Ptr(Box::new(type_view(*b))),
        Type::Fn(ps, r) => TypeView::Fn(types_view(ps), Box::new(type_view(*r))),
        Type::Param(n) => TypeView::Param(n@),
        Type::PyNamed(n) => TypeView::PyNamed(n@),
        Type::Vector(b, w) => TypeView::Vector(Box::new(type_view(*b)), w),
    }
}

/// The values a list of types stands for.
pub open spec fn types_view(ts: Vec<Type>) -> Seq<TypeView>
    decreases ts,
{
    Seq::new(
        ts@.len(),
        |i: int|
            if 0 <= i < ts@.len() {
                type_view(ts@[i])
            } else {
                TypeView::Int
            },
    )
}

/// Whether a non-union type owns a heap allocation that a `Drop` releases.
pub open spec fn spec_is_heap_type(t: Type) -> bool {
    match t {
        Type::Str | Type::Bytes | Type::PyObject | Type::List(_) | Type::SetOf(_) | Type::Dict(
            _,
            _,
        ) | Type::Tuple(_) | Type::Struct(_, _, _) | Type::Enum(_, _) | Type::Fn(_, _) => true,
        _ => false,
    }
}

/// Whether values of the type own a heap allocation that a `Drop` releases:
/// a heap type, or a union with a heap-typed member.
pub open spec fn spec_is_move_type(t: Type) -> bool {
    match t {
        Type::Union(members) => exists|i: int|
            0 <= i < members@.len() && #[trigger] spec_is_heap_type(members@[i]),
        _ => spec_is_heap_type(t),
    }
}

/// Whether values of the type are Python objects.
pub open spec fn spec_is_py_value(t: Type) -> bool {
    t is PyObject || t is PyNamed
}

impl Type {
    fn is_heap_type(&self) -> (r: bool)
        ensures
            r == spec_is_heap_type(*self),
    {
        match self {
            Type::Str | Type::Bytes | Type::PyObject | Type::List(_) | Type::SetOf(_) | Type::Dict(
                _,
                _,
            ) | Type::Tuple(_) | Type::Struct(_, _, _) | Type::Enum(_, _) | Type::Fn(_, _) => true,
            _ => false,
        }
    }

    pub fn is_move_type(&self) -> (r: bool)
        ensures
            r == spec_is_move_type(*self),
    {
        match self {
            Type::Union(members) => {
                let mut i: usize = 0;
                while i < members.len()
                    invariant
                        0 <= i <= members.len(),
                        *self == Type::Union(*members),
                        forall|j: int| 0 <= j < i ==> !spec_is_heap_type(#[trigger] members@[j]),
                    decreases members.len() - i,
                {
                    if members[i].is_heap_type() {
                        assert((*self)->Union_0@[i as int] == members@[i as int]);
                        return true;
                    }
                    i = i + 1;
                }
                false
            },
            _ => self.is_heap_type(),
        }
    }

    pub fn is_py_value(&self) -> (r: bool)
        ensures
            r == spec_is_py_value(*self),
    {
        matches!(self, Type::PyObject | Type::PyNamed(_))
    }
}

/// The variant of a type, as a number.
pub open spec fn type_tag(t: Type) -> int {
    match t {
        Type::Int => 0,
        Type::I8 => 1,
        Type::I16 => 2,
        Type::I32 => 3,
        Type::U8 => 4,
        Type::U16 => 5,
        Type::U32 => 6,
        Type::U64 => 7,
        Type::Usize => 8,
        Type::Float => 9,
        Type::F32 => 10,
        Type::Bool => 11,
        Type::Str => 12,
        Type::Bytes => 13,
        Type::Null => 14,
        Type::Any => 15,
        Type::PyObject => 16,
        Type::IntegerLiteral => 17,
        Type::FloatLiteral => 18,
        Type::List(_) => 19,
        Type::SetOf(_) => 20,
        Type::Dict(_, _) => 21,
        Type::Tuple(_) => 22,
        Type::Struct(_, _, _) => 23,
        Type::Enum(_, _) => 24,
        Type::Union(_) => 25,
        Type::Ref(_) => 26,
        Type::MutRef(_) => 27,
        Type::Ptr(_) => 28,
        Type::Fn(_, _) => 29,
        Type::Param(_) => 30,
        Type::PyNamed(_) => 31,
        Type::Vector(_, _) => 32,
    }
}

/// `a` and `b` are the same variant and agree on owning heap data (what a
/// copy of a type keeps that later passes read).
pub open spec fn same_type_shape(a: Type, b: Type) -> bool {
    &&& type_tag(a) == type_tag(b)
    &&& spec_is_move_type(a) == spec_is_move_type(b)
}

proof fn lemma_tag_heap(a: Type, b: Type)
    requires
        type_tag(a) == type_tag(b),
    ensures
        spec_is_heap_type(a) == spec_is_heap_type(b),
{
}

/// A copy of a type.
pub fn copy_type(t: &Type) -> (r: Type)
    ensures
        same_type_shape(r, *t),
        type_view(r) == type_view(*t),
    decreases t,
{
    match t {
        Type::Int => Type::Int,
        Type::I8 => Type::I8,
        Type::I16 => Type::I16,
        Type::I32 => Type::I32,
        Type::U8 => Type::U8,
        Type::U16 => Type::U16,
        Type::U32 => Type::U32,
        Type::U64 => Type::U64,
        Type::Usize => Type::Usize,
        Type::Float => Type::Float,
        Type::F32 => Type::F32,
        Type::Bool => Type::Bool,
        Type::Str => Type::Str,
        Type::Bytes => Type::Bytes,
        Type::Null => Type::Null,
        Type::Any => Type::Any,
        Type::PyObject => Type::PyObject,
        Type::IntegerLiteral => Type::IntegerLiteral,
        Type::FloatLiteral => Type::FloatLiteral,
        Type::List(b) => Type::List(Box::new(copy_type(&**b))),
        Type::SetOf(b) => Type::SetOf(Box::new(copy_type(&**b))),
        Type::Dict(k, v) => Type::Dict(Box::new(copy_type(&**k)), Box::new(copy_type(&**v))),
        Type::Tuple(ts) => Type::Tuple(clone_types(ts)),
        Type::Struct(n, ts, ffi) => Type::Struct(n.clone(), clone_types(ts), *ffi),
        Type::Enum(n, ts) => Type::Enum(n.clone(), clone_types(ts)),
        Type::Union(ts) => {
            let us = clone_types(ts);
            proof {
                if exists|i: int| 0 <= i < ts@.len() && #[trigger] spec_is_heap_type(ts@[i]) {
                    let i = choose|i: int| 0 <= i < ts@.len() && #[trigger] spec_is_heap_type(ts@[i]);
                    lemma_tag_heap(us@[i], ts@[i]);
                }
                if exists|i: int| 0 <= i < us@.len() && #[trigger] spec_is_heap_type(us@[i]) {
                    let i = choose|i: int| 0 <= i < us@.len() && #[trigger] spec_is_heap_type(us@[i]);
                    lemma_tag_heap(us@[i], ts@[i]);
                }
                assert(us@.len() == ts@.len());
                assert((exists|i: int| 0 <= i < ts@.len() && #[trigger] spec_is_heap_type(ts@[i])) == (exists|
                    i: int,
                | 0 <= i < us@.len() && #[trigger] spec_is_heap_type(us@[i])));
                let u1 = Type::Union(us);
                assert(u1->Union_0@ == us@);
                assert(spec_is_move_type(u1) == (exists|i: int|
                    0 <= i < us@.len() && #[trigger] spec_is_heap_type(us@[i])));
                assert(spec_is_move_type(Type::Union(us)) == spec_is_move_type(Type::Union(*ts)));
            }
            Type::Union(us)
        },
        Type::Ref(b) => Type::Ref(Box::new(copy_type(&**b))),
        Type::MutRef(b) => Type::MutRef(Box::new(copy_type(&**b))),
        Type::Ptr(b) => Type::Ptr(Box::new(copy_type(&**b))),
        Type::Fn(ps, r) => Type::Fn(clone_types(ps), Box::new(copy_type(&**r))),
        Type::Param(n) => Type::Param(n.clone()),
        Type::PyNamed(n) => Type::PyNamed(n.clone()),
        Type::Vector(b, w) => Type::Vector(Box::new(copy_type(&**b)), *w),
    }
}

impl Clone for Type {
    fn clone(&self) -> (r: Self)
        ensures
            same_type_shape(r, *self),
            type_view(r) == type_view(*self),
    {
        copy_type(self)
    }
}

/// An element-wise copy of a list of types.
pub fn clone_types(ts: &Vec<Type>) -> (r: Vec<Type>)
    ensures
        r@.len() == ts@.len(),
        forall|i: int| 0 <= i < ts@.len() ==> same_type_shape(#[trigger] r@[i], ts@[i]),
        types_view(r) == types_view(*ts),
    decreases ts,
{
    let mut out: Vec<Type> = Vec::new();
    let mut i: usize = 0;
    while i < ts.len()
        invariant
            0 <= i <= ts.len(),
            out@.len() == i,
            forall|k: int| 0 <= k < i ==> same_type_shape(#[trigger] out@[k], ts@[k]),
            forall|k: int| 0 <= k < i ==> type_view(#[trigger] out@[k]) == type_view(ts@[k]),
        decreases ts.len() - i,
    {
        assert(decreases_to!(*ts => ts[i as int]));
        out.push(copy_type(&ts[i]));
        i = i + 1;
    }
    assert(types_view(out) =~= types_view(*ts));
    out
}

/// A function-local variable slot.
#[derive(Debug, Clone, Copy, PartialEq, Eq, Hash, Structural)]
pub struct Local(pub usize);

/// The index of a basic block in its function.
#[derive(Debug, Clone, Copy, PartialEq, Eq, Hash, Structural)]
pub struct BasicBlockId(pub usize);

/// A value read by an rvalue: a copy or move of a local, or a constant.
#[derive(Debug, PartialEq, Eq, Hash)]
pub enum Operand {
    Copy(Local),
    Move(Local),
    Constant(Constant),
}

/// Compile-time constants. A `Float` holds the bits of an `f64`.
#[derive(Debug, PartialEq, Eq, Hash)]
pub enum Constant {
    Int(i64),
    Float(u64),
    Str(String),
    Bool(bool),
    Function(String),
    GlobalData(String),
    NoneValue,
}

/// What an `Aggregate` rvalue builds.
#[derive(Debug, Clone, Copy, PartialEq, Eq, Hash, Structural)]
pub enum AggregateKind {
    Tuple,
    List,
    SetOf,
    Dict,
    EnumVariant(i64, usize),
    FatPtr,
}

/// The right-hand side of an assignment.
#[derive(Debug, Clone, PartialEq, Eq, Hash)]
pub enum Rvalue {
    Use(Operand),
    BinaryOp(BinOp, Operand, Operand),
    UnaryOp(UnaryOp, Operand),
    Call { func: Operand, args: Vec<Operand> },
    Aggregate(AggregateKind, Vec<Operand>),
    Cast(Operand, Type),
    GetAttr(Operand, String),
    /// Indexed read `obj[idx]`; the flag is set once the index is proven in range.
    GetIndex(Operand, Operand, bool),
    GetTag(Operand),
    GetTypeId(Operand),
    Ref(Local),
    MutRef(Local),
    VectorSplat(Operand, usize),
    VectorLoad(Operand, Operand, usize),
    VectorFMA(Operand, Operand, Operand),
    /// Horizontal fold of a vector's lanes with an associative int op.
    VectorReduce(BinOp, Operand, usize),
    PtrLoad(Operand),
    FatPtrData(Operand),
    VTableLoad { vtable: Operand, method_idx: usize },
    /// Generation word of a slab object, captured when a borrow is created.
    GenOf(Operand),
}

/// A statement with its source position.
#[derive(Debug, Clone, PartialEq, Eq)]
pub struct Statement {
    pub kind: StatementKind,
    pub span: Span,
}

#[derive(Debug, Clone, PartialEq, Eq)]
pub enum StatementKind {
    Assign(Local, Rvalue),
    SetAttr(Operand, String, Operand),
    /// Indexed write `obj[idx] = val`; the flag is set once the index is proven in range.
    SetIndex(Operand, Operand, Operand, bool),
    StorageLive(Local),
    StorageDead(Local),
    Drop(Local),
    VectorStore(Operand, Operand, Operand),
    PtrStore(Operand, Operand),
    /// Faults unless `value` is null or its generation still matches `generation`.
    GenCheck { value: Local, generation: Local },
}

#[derive(Debug, Clone, PartialEq, Eq)]
pub enum TerminatorKind {
    Goto { target: BasicBlockId },
    SwitchInt { discr: Operand, targets: Vec<(i64, BasicBlockId)>, otherwise: BasicBlockId },
    Return,
    Unreachable,
}

#[derive(Debug, Clone, PartialEq, Eq)]
pub struct Terminator {
    pub kind: TerminatorKind,
    pub span: Span,
}

#[derive(Debug, Clone, PartialEq, Eq)]
pub struct BasicBlock {
    pub statements: Vec<Statement>,
    pub terminator: Option<Terminator>,
}

#[derive(Debug, Clone, PartialEq, Eq)]
pub struct LocalDecl {
    pub ty: Type,
    pub name: Option<String>,
    pub span: Span,
    pub is_mut: bool,
    pub is_owning: bool,
}

#[derive(Debug, Clone, PartialEq, Eq)]
pub struct MirFunction {
    pub name: String,
    pub locals: Vec<LocalDecl>,
    pub basic_blocks: Vec<BasicBlock>,
    pub arg_count: usize,
    pub vararg_idx: Option<usize>,
    pub kwarg_idx: Option<usize>,
    pub param_names: Vec<String>,
    pub is_async: bool,
}

impl Clone for Constant {
    fn clone(&self) -> (r: Self)
        ensures
            r == *self,
    {
        match self {
            Constant::Int(i) => Constant::Int(*i),
            Constant::Float(b) => Constant::Float(*b),
            Constant::Str(s) => Constant::Str(s.clone()),
            Constant::Bool(b) => Constant::Bool(*b),
            Constant::Function(s) => Constant::Function(s.clone()),
            Constant::GlobalData(s) => Constant::GlobalData(s.clone()),
            Constant::NoneValue => Constant::NoneValue,
        }
    }
}

impl Clone for Operand {
    fn clone(&self) -> (r: Self)
        ensures
            r == *self,
    {
        match self {
            Operand::Copy(l) => Operand::Copy(*l),
            Operand::Move(l) => Operand::Move(*l),
            Operand::Constant(c) => Operand::Constant(c.clone()),
        }
    }
}

/// An element-wise copy of a list of operands.
pub fn clone_operands(ops: &Vec<Operand>) -> (r: Vec<Operand>)
    ensures
        r@ == ops@,
{
    let mut out: Vec<Operand> = Vec::new();
    let mut i: usize = 0;
    while i < ops.len()
        invariant
            0 <= i <= ops.len(),
            out@ == ops@.subrange(0, i as int),
        decreases ops.len() - i,
    {
        out.push(ops[i].clone());
        i = i + 1;
    }
    assert(out@ =~= ops@);
    out
}


/// `a` and `b` are the same rvalue: equal parts, lists of operands equal
/// element by element, and cast targets equal as types.
pub open spec fn same_rvalue(a: Rvalue, b: Rvalue) -> bool {
    match (a, b) {
        (Rvalue::Call { func: f1, args: a1 }, Rvalue::Call { func: f2, args: a2 }) => f1 == f2 && a1@ == a2@,
        (Rvalue::Aggregate(k1, o1), Rvalue::Aggregate(k2, o2)) => k1 == k2 && o1@ == o2@,
        (Rvalue::Cast(o1, t1), Rvalue::Cast(o2, t2)) => o1 == o2 && type_view(t1) == type_view(t2),
        (Rvalue::Call { .. }, _) | (Rvalue::Aggregate(..), _) | (Rvalue::Cast(..), _) => false,
        _ => a == b,
    }
}

/// `a` and `b` are the same statement: same span, and same kind, with an
/// assignment's rvalue compared as `same_rvalue` says.
pub open spec fn same_statement(a: Statement, b: Statement) -> bool {
    &&& a.span == b.span
    &&& match (a.kind, b.kind) {
        (StatementKind::Assign(d1, r1), StatementKind::Assign(d2, r2)) => d1 == d2 && same_rvalue(r1, r2),
        (StatementKind::Assign(..), _) => false,
        _ => a.kind == b.kind,
    }
}

/// A copy of an rvalue.
pub fn copy_rvalue(rv: &Rvalue) -> (r: Rvalue)
    ensures
        same_rvalue(*rv, r),
{
    match rv {
        Rvalue::Use(o) => Rvalue::Use(o.clone()),
        Rvalue::BinaryOp(op, x, y) => Rvalue::BinaryOp(*op, x.clone(), y.clone()),
        Rvalue::UnaryOp(op, o) => Rvalue::UnaryOp(*op, o.clone()),
        Rvalue::Call { func, args } => Rvalue::Call { func: func.clone(), args: clone_operands(args) },
        Rvalue::Aggregate(k, ops) => Rvalue::Aggregate(*k, clone_operands(ops)),
        Rvalue::Cast(o, t) => Rvalue::Cast(o.clone(), copy_type(t)),
        Rvalue::GetAttr(o, n) => Rvalue::GetAttr(o.clone(), n.clone()),
        Rvalue::GetIndex(x, y, u) => Rvalue::GetIndex(x.clone(), y.clone(), *u),
        Rvalue::GetTag(o) => Rvalue::GetTag(o.clone()),
        Rvalue::GetTypeId(o) => Rvalue::GetTypeId(o.clone()),
        Rvalue::Ref(l) => Rvalue::Ref(*l),
        Rvalue::MutRef(l) => Rvalue::MutRef(*l),
        Rvalue::VectorSplat(o, w) => Rvalue::VectorSplat(o.clone(), *w),
        Rvalue::VectorLoad(x, y, w) => Rvalue::VectorLoad(x.clone(), y.clone(), *w),
        Rvalue::VectorFMA(x, y, z) => Rvalue::VectorFMA(x.clone(), y.clone(), z.clone()),
        Rvalue::VectorReduce(op, o, w) => Rvalue::VectorReduce(*op, o.clone(), *w),
        Rvalue::PtrLoad(o) => Rvalue::PtrLoad(o.clone()),
        Rvalue::FatPtrData(o) => Rvalue::FatPtrData(o.clone()),
        Rvalue::VTableLoad { vtable, method_idx } => Rvalue::VTableLoad { vtable: vtable.clone(), method_idx: *method_idx },
        Rvalue::GenOf(o) => Rvalue::GenOf(o.clone()),
    }
}

/// A copy of a statement.
pub fn copy_statement(s: &Statement) -> (r: Statement)
    ensures
        same_statement(*s, r),
{
    let kind = match &s.kind {
        StatementKind::Assign(d, rv) => StatementKind::Assign(*d, copy_rvalue(rv)),
        StatementKind::SetAttr(o, n, v) => StatementKind::SetAttr(o.clone(), n.clone(), v.clone()),
        StatementKind::SetIndex(o, i, v, u) => StatementKind::SetIndex(o.clone(), i.clone(), v.clone(), *u),
        StatementKind::StorageLive(l) => StatementKind::StorageLive(*l),
        StatementKind::StorageDead(l) => StatementKind::StorageDead(*l),
        StatementKind::Drop(l) => StatementKind::Drop(*l),
        StatementKind::VectorStore(a, b, c) => StatementKind::VectorStore(a.clone(), b.clone(), c.clone()),
        StatementKind::PtrStore(a, b) => StatementKind::PtrStore(a.clone(), b.clone()),
        StatementKind::GenCheck { value, generation } => StatementKind::GenCheck { value: *value, generation: *generation },
    };
    Statement { kind, span: s.span }
}

/// A copy of a list of statements, statement by statement.
pub fn copy_statements(ss: &Vec<Statement>) -> (r: Vec<Statement>)
    ensures
        r@.len() == ss@.len(),
        forall|i: int| 0 <= i < ss@.len() ==> same_statement(ss@[i], #[trigger] r@[i]),
{
    let mut out: Vec<Statement> = Vec::new();
    let mut i: usize = 0;
    while i < ss.len()
        invariant
            0 <= i <= ss@.len(),
            out@.len() == i,
            forall|k: int| 0 <= k < i ==> same_statement(ss@[k], #[trigger] out@[k]),
        decreases ss.len() - i,
    {
        out.push(copy_statement(&ss[i]));
        i = i + 1;
    }
    out
}

/// Everything of a function but its blocks is the same in `a` and `b`.
pub open spec fn same_except_blocks(a: MirFunction, b: MirFunction) -> bool {
    &&& a.name == b.name
    &&& a.locals@ == b.locals@
    &&& a.arg_count == b.arg_count
    &&& a.vararg_idx == b.vararg_idx
    &&& a.kwarg_idx == b.kwarg_idx
    &&& a.param_names@ == b.param_names@
    &&& a.is_async == b.is_async
}

/// Everything of a function but its locals and blocks is the same in `a` and `b`.
pub open spec fn same_signature(a: MirFunction, b: MirFunction) -> bool {
    &&& a.name == b.name
    &&& a.arg_count == b.arg_count
    &&& a.vararg_idx == b.vararg_idx
    &&& a.kwarg_idx == b.kwarg_idx
    &&& a.param_names@ == b.param_names@
    &&& a.is_async == b.is_async
}

/// The local an operand reads, if any.
pub open spec fn operand_local(op: Operand) -> Option<usize> {
    match op {
        Operand::Copy(l) => Some(l.0),
        Operand::Move(l) => Some(l.0),
        Operand::Constant(_) => None,
    }
}

/// The type declared for local `l`, when it is declared.
pub open spec fn local_type(locals: Seq<LocalDecl>, l: usize) -> Option<Type> {
    if l < locals.len() {
        Some(locals[l as int].ty)
    } else {
        None
    }
}

/// `new` is `old` with every statement replaced by its image under `f`;
/// terminators and the number of blocks stay as they were.
pub open spec fn rewrites_statements(
    old: Seq<BasicBlock>,
    new: Seq<BasicBlock>,
    f: spec_fn(Statement) -> Statement,
) -> bool {
    &&& new.len() == old.len()
    &&& forall|i: int|
        0 <= i < old.len() ==> {
            &&& #[trigger] new[i].terminator == old[i].terminator
            &&& new[i].statements@ == old[i].statements@.map_values(f)
        }
}

/// Some statement of `blocks` satisfies `p`.
pub open spec fn some_statement(blocks: Seq<BasicBlock>, p: spec_fn(Statement) -> bool) -> bool {
    exists|i: int, j: int|
        0 <= i < blocks.len() && 0 <= j < blocks[i].statements@.len() && #[trigger] p(
            blocks[i].statements@[j],
        )
}

/// Two constants are the same value (strings compared by their characters).
pub open spec fn same_constant(a: Constant, b: Constant) -> bool {
    match (a, b) {
        (Constant::Int(x), Constant::Int(y)) => x == y,
        (Constant::Float(x), Constant::Float(y)) => x == y,
        (Constant::Str(x), Constant::Str(y)) => x@ == y@,
        (Constant::Bool(x), Constant::Bool(y)) => x == y,
        (Constant::Function(x), Constant::Function(y)) => x@ == y@,
        (Constant::GlobalData(x), Constant::GlobalData(y)) => x@ == y@,
        (Constant::NoneValue, Constant::NoneValue) => true,
        _ => false,
    }
}

/// Two operands are the same (what `==` on operands decides).
pub open spec fn same_operand(a: Operand, b: Operand) -> bool {
    match (a, b) {
        (Operand::Copy(x), Operand::Copy(y)) => x == y,
        (Operand::Move(x), Operand::Move(y)) => x == y,
        (Operand::Constant(x), Operand::Constant(y)) => same_constant(x, y),
        _ => false,
    }
}

pub fn constant_eq(a: &Constant, b: &Constant) -> (r: bool)
    ensures
        r == same_constant(*a, *b),
{
    match (a, b) {
        (Constant::Int(x), Constant::Int(y)) => *x == *y,
        (Constant::Float(x), Constant::Float(y)) => *x == *y,
        (Constant::Str(x), Constant::Str(y)) => *x == *y,
        (Constant::Bool(x), Constant::Bool(y)) => *x == *y,
        (Constant::Function(x), Constant::Function(y)) => *x == *y,
        (Constant::GlobalData(x), Constant::GlobalData(y)) => *x == *y,
        (Constant::NoneValue, Constant::NoneValue) => true,
        _ => false,
    }
}

pub fn operand_eq(a: &Operand, b: &Operand) -> (r: bool)
    ensures
        r == same_operand(*a, *b),
{
    match (a, b) {
        (Operand::Copy(x), Operand::Copy(y)) => x.0 == y.0,
        (Operand::Move(x), Operand::Move(y)) => x.0 == y.0,
        (Operand::Constant(x), Operand::Constant(y)) => constant_eq(x, y),
        _ => false,
    }
}

/// The local an operand reads, if any.
pub fn operand_local_of(op: &Operand) -> (r: Option<Local>)
    ensures
        r matches Some(l) ==> operand_local(*op) == Some(l.0),
        r is None ==> operand_local(*op) is None,
{
    match op {
        Operand::Copy(l) | Operand::Move(l) => Some(*l),
        Operand::Constant(_) => None,
    }
}

/// Whether `name` spells `lit`.
pub fn is_named(name: &String, lit: &str) -> (r: bool)
    ensures
        r == (name@ == lit@),
{
    let lit_string = String::from_str(lit);
    *name == lit_string
}

} // verus!
