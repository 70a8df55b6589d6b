//! Symbols and the table that finds the slot of a symbol's book.

use vstd::prelude::*;
use intmap::IntMap;

verus! {

#[verifier::external_type_specification]
#[verifier::external_body]
#[verifier::reject_recursive_types(V)]
pub struct ExIntMap<V>(IntMap<V>);

/// The entries of an `IntMap`: which keys it holds, and the value of each.
pub uninterp spec fn table_entries(t: IntMap<usize>) -> Map<u64, usize>;

/// `IntMap::with_capacity`: a map that holds no entry.
#[verifier::external_body]
fn table_with_capacity(n: usize) -> (t: IntMap<usize>)
    requires
        65536 >= n,
    ensures
        table_entries(t).dom() == Set::<u64>::empty(),
{
    IntMap::with_capacity(n)
}

/// `IntMap::insert`: afterwards `key` has the value `value` and every other
/// key what it had; returns the value that `key` had before, if any.
#[verifier::external_body]
fn table_insert(t: &mut IntMap<usize>, key: u64, value: usize) -> (prev: Option<usize>)
    ensures
        table_entries(*final(t)) == table_entries(*old(t)).insert(key, value),
        prev == if table_entries(*old(t)).contains_key(key) {
            Some(table_entries(*old(t))[key])
        } else {
            None::<usize>
        },
{
    t.insert(key, value)
}

/// `IntMap::get`: the value of `key`, if the map holds the key.
#[verifier::external_body]
fn table_get(t: &IntMap<usize>, key: u64) -> (r: Option<usize>)
    ensures
        r == if table_entries(*t).contains_key(key) {
            Some(table_entries(*t)[key])
        } else {
            None::<usize>
        },
{
    t.get(key).copied()
}

/// `IntMap::remove`: afterwards the map does not hold `key` and every other
/// key has what it had; returns the value that `key` had, if any.
#[verifier::external_body]
fn table_remove(t: &mut IntMap<usize>, key: u64) -> (prev: Option<usize>)
    ensures
        table_entries(*final(t)) == table_entries(*old(t)).remove(key),
        prev == if table_entries(*old(t)).contains_key(key) {
            Some(table_entries(*old(t))[key])
        } else {
            None::<usize>
        },
{
    t.remove(key)
}

/// A traded instrument, by its number.
#[derive(Debug, Clone, Copy, PartialEq, Eq, Structural)]
pub struct Symbol(pub u64);

impl Symbol {
    /// Bitcoin against tether.
    pub fn btcusdt() -> (s: Symbol)
        ensures
            s == Symbol(0),
    {
        Symbol(0)
    }

    /// Ether against tether.
    pub fn ethusdt() -> (s: Symbol)
        ensures
            s == Symbol(1),
    {
        Symbol(1)
    }

    /// Ada against tether.
    pub fn adausdt() -> (s: Symbol)
        ensures
            s == Symbol(2),
    {
        Symbol(2)
    }

    /// The symbol with number `id`, if it is one of the known instruments.
    pub fn from_repr(id: u64) -> (r: Option<Symbol>)
        ensures
            r == if id <= 2 {
                Some(Symbol(id))
            } else {
                None::<Symbol>
            },
    {
        if id <= 2 {
            Some(Symbol(id))
        } else {
            None
        }
    }

    /// The symbol's number.
    pub fn id(self) -> (id: u64)
        ensures
            id == self.0,
    {
        self.0
    }

    /// The ticker of a known instrument.
    pub fn ticker(self) -> (r: Option<&'static str>)
        ensures
            r.is_some() == (self.0 <= 2),
            self.0 == 0 ==> r.unwrap()@ == "BTCUSDT"@,
            self.0 == 1 ==> r.unwrap()@ == "ETHUSDT"@,
            self.0 == 2 ==> r.unwrap()@ == "ADAUSDT"@,
    {
        if self.0 == 0 {
            Some("BTCUSDT")
        } else if self.0 == 1 {
            Some("ETHUSDT")
        } else if self.0 == 2 {
            Some("ADAUSDT")
        } else {
            None
        }
    }
}

/// Finds for each registered symbol the slot in which its entry is kept.
pub struct SymbolTable {
    table: IntMap<usize>,
}

impl SymbolTable {
    /// The slot of each registered symbol, by the symbol's number.
    pub closed spec fn entries(&self) -> Map<u64, usize> {
        table_entries(self.table)
    }

    /// The slot that the table holds for `symbol`, if any.
    pub open spec fn lookup(&self, symbol: Symbol) -> Option<usize> {
        if self.entries().contains_key(symbol.0) {
            Some(self.entries()[symbol.0])
        } else {
            None
        }
    }

    /// A table without symbols.
    pub fn new() -> (t: SymbolTable)
        ensures
            t.entries() == Map::<u64, usize>::empty(),
    {
        let t = SymbolTable { table: table_with_capacity(20) };
        assert(t.entries() =~= Map::<u64, usize>::empty());
        t
    }

    /// Gives `symbol` the slot `value`; returns the slot it had before, if any.
    pub fn insert(&mut self, symbol: Symbol, value: usize) -> (prev: Option<usize>)
        ensures
            final(self).entries() == old(self).entries().insert(symbol.0, value),
            prev == old(self).lookup(symbol),
    {
        table_insert(&mut self.table, symbol.0, value)
    }

    /// The slot of `symbol`, if it is registered.
    pub fn get(&self, symbol: Symbol) -> (r: Option<usize>)
        ensures
            r == self.lookup(symbol),
    {
        table_get(&self.table, symbol.0)
    }

    /// Forgets `symbol`; returns the slot it had, if any.
    pub fn remove(&mut self, symbol: Symbol) -> (prev: Option<usize>)
        ensures
            final(self).entries() == old(self).entries().remove(symbol.0),
            prev == old(self).lookup(symbol),
    {
        table_remove(&mut self.table, symbol.0)
    }
}

} // verus!
