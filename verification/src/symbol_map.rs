//! A map from symbols to values, kept as a list of entries in ascending order
//! of their symbols, so that two maps with the same contents are the same
//! value and a walk over the entries always takes the same course.

use vstd::prelude::*;
use crate::nfa::Terminal;

verus! {

/// Whether some entry carries `symbol`.
pub open spec fn has_symbol<V>(entries: Seq<(Terminal, V)>, symbol: Terminal) -> bool {
    exists|i: int| 0 <= i < entries.len() && (#[trigger] entries[i]).0 == symbol
}

/// The position of an entry that carries `symbol`, if there is one.
pub open spec fn symbol_index<V>(entries: Seq<(Terminal, V)>, symbol: Terminal) -> int {
    choose|i: int| 0 <= i < entries.len() && (#[trigger] entries[i]).0 == symbol
}

/// The symbols grow strictly from each entry to the next.
pub open spec fn ascending<V>(entries: Seq<(Terminal, V)>) -> bool {
    forall|i: int, j: int|
        0 <= i < j < entries.len() ==> (#[trigger] entries[i]).0 < (#[trigger] entries[j]).0
}

/// The map that a list of entries stands for.
pub open spec fn entries_map<V>(entries: Seq<(Terminal, V)>) -> Map<Terminal, V> {
    Map::new(
        |symbol: Terminal| has_symbol(entries, symbol),
        |symbol: Terminal| entries[symbol_index(entries, symbol)].1,
    )
}

/// In an ascending list each symbol stands at one position only, so the map
/// of the list holds exactly the list's entries.
pub proof fn lemma_entry_in_map<V>(entries: Seq<(Terminal, V)>, i: int)
    requires
        ascending(entries),
        0 <= i < entries.len(),
    ensures
        has_symbol(entries, entries[i].0),
        symbol_index(entries, entries[i].0) == i,
        entries_map(entries).contains_key(entries[i].0),
        entries_map(entries)[entries[i].0] == entries[i].1,
{
}

/// Every key of the map of a list stands at some position of the list.
pub proof fn lemma_key_has_entry<V>(entries: Seq<(Terminal, V)>, symbol: Terminal)
    requires
        ascending(entries),
        entries_map(entries).contains_key(symbol),
    ensures
        0 <= symbol_index(entries, symbol) < entries.len(),
        entries[symbol_index(entries, symbol)].0 == symbol,
        entries[symbol_index(entries, symbol)].1 == entries_map(entries)[symbol],
{
}

/// Putting an entry at the place that keeps the list ascending adds its
/// symbol to the map.
proof fn lemma_insert_entry<V>(entries: Seq<(Terminal, V)>, at: int, symbol: Terminal, value: V)
    requires
        ascending(entries),
        0 <= at <= entries.len(),
        forall|i: int| 0 <= i < at ==> (#[trigger] entries[i]).0 < symbol,
        forall|i: int| at <= i < entries.len() ==> symbol < (#[trigger] entries[i]).0,
    ensures
        ascending(entries.insert(at, (symbol, value))),
        entries_map(entries.insert(at, (symbol, value))) == entries_map(entries).insert(
            symbol,
            value,
        ),
        !entries_map(entries).contains_key(symbol),
{
    let grown = entries.insert(at, (symbol, value));
    assert forall|i: int, j: int| 0 <= i < j < grown.len() implies (#[trigger] grown[i]).0 < (
    #[trigger] grown[j]).0 by {}
    let left = entries_map(grown);
    let right = entries_map(entries).insert(symbol, value);
    assert forall|k: Terminal| left.contains_key(k) <==> right.contains_key(k) by {
        if right.contains_key(k) {
            if k == symbol {
                assert(grown[at].0 == k);
            } else {
                let i = symbol_index(entries, k);
                if i < at {
                    assert(grown[i] == entries[i]);
                } else {
                    assert(grown[i + 1] == entries[i]);
                }
            }
        }
    }
    assert forall|k: Terminal| left.contains_key(k) implies left[k] == right[k] by {}
}

/// Taking an entry out of an ascending list takes its symbol out of the map.
proof fn lemma_remove_entry<V>(entries: Seq<(Terminal, V)>, at: int)
    requires
        ascending(entries),
        0 <= at < entries.len(),
    ensures
        ascending(entries.remove(at)),
        entries_map(entries.remove(at)) == entries_map(entries).remove(entries[at].0),
{
    let shrunk = entries.remove(at);
    let symbol = entries[at].0;
    assert forall|i: int, j: int| 0 <= i < j < shrunk.len() implies (#[trigger] shrunk[i]).0 < (
    #[trigger] shrunk[j]).0 by {}
    let left = entries_map(shrunk);
    let right = entries_map(entries).remove(symbol);
    assert forall|k: Terminal| left.contains_key(k) <==> right.contains_key(k) by {
        if right.contains_key(k) {
            let i0 = symbol_index(entries, k);
            let i = if i0 < at { i0 } else { i0 - 1 };
            assert(shrunk[i] == entries[i0]);
        }
    }
    assert forall|k: Terminal| left.contains_key(k) implies left[k] == right[k] by {}
}

/// A finite map from symbols to values of type `V`.
#[derive(Debug, PartialEq, Eq)]
pub struct SymbolMap<V> {
    entries: Vec<(Terminal, V)>,
}

impl<V> View for SymbolMap<V> {
    type V = Map<Terminal, V>;

    open spec fn view(&self) -> Map<Terminal, V> {
        entries_map(self.entries())
    }
}

impl<V> SymbolMap<V> {
    /// The entries of the map, in the order in which [`SymbolMap::nth`]
    /// hands them out.
    pub closed spec fn entries(&self) -> Seq<(Terminal, V)> {
        self.entries@
    }

    /// Holds of every map: its entries stand in ascending order of their
    /// symbols.
    #[verifier::type_invariant]
    pub open spec fn well_formed(&self) -> bool {
        ascending(self.entries())
    }

    /// The empty map.
    pub fn new() -> (map: Self)
        ensures
            map.entries() == Seq::<(Terminal, V)>::empty(),
            map@ == Map::<Terminal, V>::empty(),
    {
        let map = SymbolMap { entries: Vec::new() };
        map
    }

    /// The number of entries.
    pub fn len(&self) -> (len: usize)
        ensures
            len == self.entries().len(),
    {
        self.entries.len()
    }

    /// The position of the first entry whose symbol is not below `symbol`.
    fn position(&self, symbol: Terminal) -> (at: usize)
        ensures
            at <= self.entries().len(),
            forall|i: int| 0 <= i < at ==> (#[trigger] self.entries()[i]).0 < symbol,
            forall|i: int|
                at <= i < self.entries().len() ==> symbol <= (#[trigger] self.entries()[i]).0,
    {
        proof {
            use_type_invariant(self);
        }
        let mut at: usize = 0;
        while at < self.entries.len() && self.entries[at].0 < symbol
            invariant
                at <= self.entries@.len(),
                forall|i: int| 0 <= i < at ==> (#[trigger] self.entries@[i]).0 < symbol,
            decreases self.entries@.len() - at,
        {
            at = at + 1;
        }
        at
    }

    /// Whether the map has an entry for `symbol`.
    pub fn contains_key(&self, symbol: Terminal) -> (found: bool)
        ensures
            found == self@.contains_key(symbol),
    {
        proof {
            use_type_invariant(self);
        }
        let at = self.position(symbol);
        let found = at < self.entries.len() && self.entries[at].0 == symbol;
        found
    }

    /// The value that `symbol` maps to, if it maps to any.
    pub fn get(&self, symbol: Terminal) -> (value: Option<&V>)
        ensures
            match value {
                Some(v) => self@.contains_key(symbol) && *v == self@[symbol],
                None => !self@.contains_key(symbol),
            },
    {
        proof {
            use_type_invariant(self);
        }
        let at = self.position(symbol);
        if at < self.entries.len() && self.entries[at].0 == symbol {
            Some(&self.entries[at].1)
        } else {
            None
        }
    }

    /// The entry at place `index` in ascending order of the symbols, if the
    /// map has that many entries.
    pub fn nth(&self, index: usize) -> (entry: Option<(Terminal, &V)>)
        ensures
            match entry {
                Some((symbol, value)) => index < self.entries().len() && symbol
                    == self.entries()[index as int].0 && *value == self.entries()[index as int].1,
                None => index >= self.entries().len(),
            },
    {
        if index < self.entries.len() {
            Some((self.entries[index].0, &self.entries[index].1))
        } else {
            None
        }
    }

    /// Takes the entry for `symbol` out of the map and returns its value.
    pub fn remove(&mut self, symbol: Terminal) -> (value: Option<V>)
        ensures
            final(self)@ == old(self)@.remove(symbol),
            value == if old(self)@.contains_key(symbol) {
                Some(old(self)@[symbol])
            } else {
                None
            },
    {
        proof {
            use_type_invariant(&*self);
        }
        let at = self.position(symbol);
        if at < self.entries.len() && self.entries[at].0 == symbol {
            proof {
                lemma_remove_entry(self.entries(), at as int);
            }
            // The fields are changed outside `self`, which is well formed whenever it
            // is whole.
            let mut taken = SymbolMap::new();
            core::mem::swap(self, &mut taken);
            let SymbolMap { mut entries } = taken;
            let entry = entries.remove(at);
            *self = SymbolMap { entries };
            Some(entry.1)
        } else {
            None
        }
    }

    /// Maps `symbol` to `value` and returns the value that it mapped to
    /// before, if any.
    pub fn insert(&mut self, symbol: Terminal, value: V) -> (before: Option<V>)
        ensures
            final(self)@ == old(self)@.insert(symbol, value),
            before == if old(self)@.contains_key(symbol) {
                Some(old(self)@[symbol])
            } else {
                None
            },
    {
        let before = self.remove(symbol);
        proof {
            use_type_invariant(&*self);
        }
        let at = self.position(symbol);
        proof {
            assert forall|i: int| at <= i < self.entries().len() implies symbol < (
            #[trigger] self.entries()[i]).0 by {
                lemma_entry_in_map(self.entries(), i);
            }
            lemma_insert_entry(self.entries(), at as int, symbol, value);
        }
        // The fields are changed outside `self`, which is well formed whenever it
        // is whole.
        let mut taken = SymbolMap::new();
        core::mem::swap(self, &mut taken);
        let SymbolMap { mut entries } = taken;
        entries.insert(at, (symbol, value));
        *self = SymbolMap { entries };
        before
    }
}

} // verus!
