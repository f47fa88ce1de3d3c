//! Hash sets and maps keyed by local or block indices or by names, backed
//! by `rustc_hash::FxHashSet` and `rustc_hash::FxHashMap`.
//!
//! Each collection is held in a private field and described by a name for
//! its contents; every operation the passes use is a small wrapper whose
//! contract says what it does to those contents.

use crate::ir::{Constant, Operand};
use rustc_hash::{FxHashMap, FxHashSet};
use vstd::prelude::*;

verus! {

/// A set of indices of locals or basic blocks.
#[verifier::external_body]
pub struct IndexSet {
    inner: FxHashSet<usize>,
}

/// The indices an `IndexSet` holds.
pub uninterp spec fn index_set_contents(s: IndexSet) -> Set<usize>;

impl View for IndexSet {
    type V = Set<usize>;

    open spec fn view(&self) -> Set<usize> {
        index_set_contents(*self)
    }
}

impl IndexSet {
    /// `FxHashSet::default`: a set with nothing in it.
    #[verifier::external_body]
    pub fn new() -> (s: IndexSet)
        ensures
            index_set_contents(s) == Set::<usize>::empty(),
            index_set_contents(s).finite(),
    {
        IndexSet { inner: FxHashSet::default() }
    }

    /// `FxHashSet::insert`: adds `k`; true when it was not there before.
    #[verifier::external_body]
    pub fn insert(&mut self, k: usize) -> (added: bool)
        ensures
            index_set_contents(*final(self)) == index_set_contents(*old(self)).insert(k),
            added == !index_set_contents(*old(self)).contains(k),
            index_set_contents(*final(self)).finite(),
    {
        self.inner.insert(k)
    }

    /// `FxHashSet::contains`.
    #[verifier::external_body]
    pub fn contains(&self, k: usize) -> (r: bool)
        ensures
            r == index_set_contents(*self).contains(k),
    {
        self.inner.contains(&k)
    }

    /// `FxHashSet::iter`, collected: every element once, in the set's
    /// iteration order, which depends on the hasher and is not stated.
    #[verifier::external_body]
    pub fn to_vec(&self) -> (v: Vec<usize>)
        ensures
            v@.to_set() == index_set_contents(*self),
            v@.no_duplicates(),
    {
        self.inner.iter().copied().collect()
    }

    /// `FxHashSet::clone`: a set with the same elements.
    #[verifier::external_body]
    pub fn duplicate(&self) -> (r: IndexSet)
        ensures
            index_set_contents(r) == index_set_contents(*self),
    {
        IndexSet { inner: self.inner.clone() }
    }

    /// `==` on `FxHashSet`: true when both sets hold the same elements.
    #[verifier::external_body]
    pub fn equals(&self, other: &IndexSet) -> (r: bool)
        ensures
            r == (index_set_contents(*self) == index_set_contents(*other)),
    {
        self.inner == other.inner
    }

    /// `FxHashSet::len`: the number of elements.
    #[verifier::external_body]
    pub fn len(&self) -> (n: usize)
        ensures
            n == index_set_contents(*self).len(),
    {
        self.inner.len()
    }

    /// `FxHashSet::remove`: takes `k` out; true when it was there.
    #[verifier::external_body]
    pub fn remove(&mut self, k: usize) -> (removed: bool)
        ensures
            index_set_contents(*final(self)) == index_set_contents(*old(self)).remove(k),
            removed == index_set_contents(*old(self)).contains(k),
    {
        self.inner.remove(&k)
    }
}

/// A map from local or block indices to indices or counts.
#[verifier::external_body]
pub struct IndexMap {
    inner: FxHashMap<usize, usize>,
}

/// The entries an `IndexMap` holds.
pub uninterp spec fn index_map_contents(m: IndexMap) -> Map<usize, usize>;

impl View for IndexMap {
    type V = Map<usize, usize>;

    open spec fn view(&self) -> Map<usize, usize> {
        index_map_contents(*self)
    }
}

impl IndexMap {
    /// `FxHashMap::default`: a map with no entries.
    #[verifier::external_body]
    pub fn new() -> (r: IndexMap)
        ensures
            index_map_contents(r).dom().is_empty(),
    {
        IndexMap { inner: FxHashMap::default() }
    }

    /// `FxHashMap::insert`: maps `k` to `v`, replacing any earlier value.
    #[verifier::external_body]
    pub fn insert(&mut self, k: usize, v: usize)
        ensures
            index_map_contents(*final(self)) == index_map_contents(*old(self)).insert(k, v),
    {
        self.inner.insert(k, v);
    }

    /// `FxHashMap::keys`, collected: every key once, in the map's iteration
    /// order, which depends on the hasher and is not stated.
    #[verifier::external_body]
    pub fn keys(&self) -> (v: Vec<usize>)
        ensures
            v@.to_set() == index_map_contents(*self).dom(),
            v@.no_duplicates(),
    {
        self.inner.keys().copied().collect()
    }

    /// `FxHashMap::len`: the number of entries.
    #[verifier::external_body]
    pub fn len(&self) -> (n: usize)
        ensures
            n == index_map_contents(*self).dom().len(),
    {
        self.inner.len()
    }

    /// `FxHashMap::remove`: takes out the entry for `k`.
    #[verifier::external_body]
    pub fn remove(&mut self, k: usize)
        ensures
            index_map_contents(*final(self)) == index_map_contents(*old(self)).remove(k),
    {
        self.inner.remove(&k);
    }

    /// `FxHashMap::get`, with the value copied out.
    #[verifier::external_body]
    pub fn get(&self, k: usize) -> (r: Option<usize>)
        ensures
            r == (if index_map_contents(*self).contains_key(k) {
                Some(index_map_contents(*self)[k])
            } else {
                None
            }),
    {
        self.inner.get(&k).copied()
    }
}

/// A map from local indices to constants.
#[verifier::external_body]
pub struct ConstMap {
    inner: FxHashMap<usize, Constant>,
}

/// The entries a `ConstMap` holds.
pub uninterp spec fn const_map_contents(m: ConstMap) -> Map<usize, Constant>;

impl View for ConstMap {
    type V = Map<usize, Constant>;

    open spec fn view(&self) -> Map<usize, Constant> {
        const_map_contents(*self)
    }
}

impl ConstMap {
    /// `FxHashMap::default`: a map with no entries.
    #[verifier::external_body]
    pub fn new() -> (r: ConstMap)
        ensures
            const_map_contents(r).dom().is_empty(),
    {
        ConstMap { inner: FxHashMap::default() }
    }

    /// `FxHashMap::insert`: maps `k` to `c`, replacing any earlier value.
    #[verifier::external_body]
    pub fn insert(&mut self, k: usize, c: Constant)
        ensures
            const_map_contents(*final(self)) == const_map_contents(*old(self)).insert(k, c),
    {
        self.inner.insert(k, c);
    }

    /// `FxHashMap::get`.
    #[verifier::external_body]
    pub fn get(&self, k: usize) -> (r: Option<&Constant>)
        ensures
            r == (if const_map_contents(*self).contains_key(k) {
                Some(&const_map_contents(*self)[k])
            } else {
                None
            }),
    {
        self.inner.get(&k)
    }

    /// `FxHashMap::remove`: takes out the entry for `k`.
    #[verifier::external_body]
    pub fn remove(&mut self, k: usize)
        ensures
            const_map_contents(*final(self)) == const_map_contents(*old(self)).remove(k),
    {
        self.inner.remove(&k);
    }
}

/// A map from local indices to operands.
#[verifier::external_body]
pub struct OperandMap {
    inner: FxHashMap<usize, Operand>,
}

/// The entries an `OperandMap` holds.
pub uninterp spec fn operand_map_contents(m: OperandMap) -> Map<usize, Operand>;

impl View for OperandMap {
    type V = Map<usize, Operand>;

    open spec fn view(&self) -> Map<usize, Operand> {
        operand_map_contents(*self)
    }
}

impl OperandMap {
    /// `FxHashMap::default`: a map with no entries.
    #[verifier::external_body]
    pub fn new() -> (r: OperandMap)
        ensures
            operand_map_contents(r).dom().is_empty(),
    {
        OperandMap { inner: FxHashMap::default() }
    }

    /// `FxHashMap::insert`: maps `k` to `o`, replacing any earlier value.
    #[verifier::external_body]
    pub fn insert(&mut self, k: usize, o: Operand)
        ensures
            operand_map_contents(*final(self)) == operand_map_contents(*old(self)).insert(k, o),
    {
        self.inner.insert(k, o);
    }

    /// `FxHashMap::get`.
    #[verifier::external_body]
    pub fn get(&self, k: usize) -> (r: Option<&Operand>)
        ensures
            r == (if operand_map_contents(*self).contains_key(k) {
                Some(&operand_map_contents(*self)[k])
            } else {
                None
            }),
    {
        self.inner.get(&k)
    }

    /// `FxHashMap::clear`: removes every entry.
    #[verifier::external_body]
    pub fn clear(&mut self)
        ensures
            operand_map_contents(*final(self)).dom().is_empty(),
    {
        self.inner.clear();
    }
}

/// The method names of each vtable, by the vtable's name.
#[verifier::external_body]
pub struct VTables {
    inner: FxHashMap<String, Vec<String>>,
}

/// The method lists a `VTables` holds, names taken as character sequences.
pub uninterp spec fn vtables_contents(v: VTables) -> Map<Seq<char>, Seq<Seq<char>>>;

impl View for VTables {
    type V = Map<Seq<char>, Seq<Seq<char>>>;

    open spec fn view(&self) -> Map<Seq<char>, Seq<Seq<char>>> {
        vtables_contents(*self)
    }
}

impl VTables {
    /// `FxHashMap::default`: no vtables.
    #[verifier::external_body]
    pub fn new() -> (r: VTables)
        ensures
            vtables_contents(r).dom().is_empty(),
    {
        VTables { inner: FxHashMap::default() }
    }

    /// `FxHashMap::insert`: records `methods` as the vtable `name`, replacing
    /// any earlier list.
    #[verifier::external_body]
    pub fn insert(&mut self, name: String, methods: Vec<String>)
        ensures
            vtables_contents(*final(self)) == vtables_contents(*old(self)).insert(
                name@,
                methods@.map_values(|m: String| m@),
            ),
    {
        self.inner.insert(name, methods);
    }

    /// `FxHashMap::is_empty`: true when there are no vtables.
    #[verifier::external_body]
    pub fn is_empty(&self) -> (r: bool)
        ensures
            r == vtables_contents(*self).dom().is_empty(),
    {
        self.inner.is_empty()
    }

    /// `FxHashMap::get`: the methods of the vtable `name`, if it is known.
    #[verifier::external_body]
    pub fn methods(&self, name: &str) -> (r: Option<&Vec<String>>)
        ensures
            r is Some == vtables_contents(*self).contains_key(name@),
            r matches Some(ms) ==> ms@.map_values(|m: String| m@) == vtables_contents(*self)[name@],
    {
        self.inner.get(name)
    }
}

/// A set of packed source-line keys.
#[verifier::external_body]
pub struct LineSet {
    inner: FxHashSet<i64>,
}

/// The keys a `LineSet` holds.
pub uninterp spec fn line_set_contents(s: LineSet) -> Set<i64>;

impl View for LineSet {
    type V = Set<i64>;

    open spec fn view(&self) -> Set<i64> {
        line_set_contents(*self)
    }
}

impl LineSet {
    /// `FxHashSet::default`: a set with nothing in it.
    #[verifier::external_body]
    pub fn new() -> (s: LineSet)
        ensures
            line_set_contents(s) == Set::<i64>::empty(),
    {
        LineSet { inner: FxHashSet::default() }
    }

    /// `FxHashSet::insert`: adds `k`.
    #[verifier::external_body]
    pub fn insert(&mut self, k: i64)
        ensures
            line_set_contents(*final(self)) == line_set_contents(*old(self)).insert(k),
    {
        self.inner.insert(k);
    }
}


/// The escape flags of each function's parameters, by the function's name.
#[verifier::external_body]
pub struct EscapeTable {
    inner: FxHashMap<String, Vec<bool>>,
}

/// The flags an `EscapeTable` holds, names taken as character sequences.
pub uninterp spec fn escape_table_contents(t: EscapeTable) -> Map<Seq<char>, Seq<bool>>;

impl View for EscapeTable {
    type V = Map<Seq<char>, Seq<bool>>;

    open spec fn view(&self) -> Map<Seq<char>, Seq<bool>> {
        escape_table_contents(*self)
    }
}

impl EscapeTable {
    /// `FxHashMap::default`: no functions.
    #[verifier::external_body]
    pub fn new() -> (r: EscapeTable)
        ensures
            escape_table_contents(r).dom().is_empty(),
    {
        EscapeTable { inner: FxHashMap::default() }
    }

    /// `FxHashMap::insert`: records `flags` for the function `name`,
    /// replacing any earlier ones.
    #[verifier::external_body]
    pub fn insert(&mut self, name: String, flags: Vec<bool>)
        ensures
            escape_table_contents(*final(self)) == escape_table_contents(*old(self)).insert(name@, flags@),
    {
        self.inner.insert(name, flags);
    }

    /// `FxHashMap::get`: the flags of the function `name`, if it is listed.
    #[verifier::external_body]
    pub fn flags(&self, name: &str) -> (r: Option<&Vec<bool>>)
        ensures
            r is Some == escape_table_contents(*self).contains_key(name@),
            r matches Some(v) ==> v@ == escape_table_contents(*self)[name@],
    {
        self.inner.get(name)
    }
}


/// A set of function names.
#[verifier::external_body]
pub struct NameSet {
    inner: FxHashSet<String>,
}

/// The names a `NameSet` holds, as character sequences.
pub uninterp spec fn name_set_contents(s: NameSet) -> Set<Seq<char>>;

impl View for NameSet {
    type V = Set<Seq<char>>;

    open spec fn view(&self) -> Set<Seq<char>> {
        name_set_contents(*self)
    }
}

impl NameSet {
    /// `FxHashSet::default`: no names.
    #[verifier::external_body]
    pub fn new() -> (r: NameSet)
        ensures
            name_set_contents(r).is_empty(),
    {
        NameSet { inner: FxHashSet::default() }
    }

    /// `FxHashSet::insert`: adds `name`.
    #[verifier::external_body]
    pub fn insert(&mut self, name: String)
        ensures
            name_set_contents(*final(self)) == name_set_contents(*old(self)).insert(name@),
    {
        self.inner.insert(name);
    }

    /// `FxHashSet::contains`: whether `name` is in the set.
    #[verifier::external_body]
    pub fn contains(&self, name: &str) -> (r: bool)
        ensures
            r == name_set_contents(*self).contains(name@),
    {
        self.inner.contains(name)
    }
}

} // verus!
