//! The symbol table: a mapping from live variable names to their slot
//! indices. A name is present at most once while live; inserting a present
//! name and removing an absent one are semantic errors, raised by the code
//! generator.

use vstd::prelude::*;
use vstd::hash_map::StringHashMap;
use crate::errors::CompileError;
use crate::slots::free_index;

verus! {

/// The mapping from live variable names to slot indices.
pub struct SymbolTable {
    table: StringHashMap<usize>,
}

impl View for SymbolTable {
    type V = Map<Seq<char>, usize>;

    closed spec fn view(&self) -> Map<Seq<char>, usize> {
        self.table@
    }
}

impl SymbolTable {
    /// An empty table: no name is live.
    pub fn new() -> (t: Self)
        ensures
            t@ == Map::<Seq<char>, usize>::empty(),
    {
        SymbolTable { table: StringHashMap::new() }
    }

    /// Whether `name` is live.
    pub fn contains(&self, name: &str) -> (b: bool)
        ensures
            b == self@.contains_key(name@),
    {
        self.table.contains_key(name)
    }

    /// The slot of a live name.
    pub fn get(&self, name: &str) -> (r: Option<usize>)
        ensures
            match r {
                Some(slot) => self@.contains_key(name@) && slot == self@[name@],
                None => !self@.contains_key(name@),
            },
    {
        match self.table.get(name) {
            Some(slot) => Some(*slot),
            None => None,
        }
    }

    /// Binds `name` to `slot`.
    pub fn insert(&mut self, name: String, slot: usize)
        ensures
            final(self)@ == old(self)@.insert(name@, slot),
    {
        self.table.insert(name, slot);
    }

    /// Drops `name` from the table.
    pub fn remove(&mut self, name: &str)
        ensures
            final(self)@ == old(self)@.remove(name@),
    {
        self.table.remove(name);
    }
}

/// Releases a variable: marks its slot free and removes its name from the
/// symbol table. Freeing a name that is not live fails with the semantic
/// error and mutates neither the symbol table nor the slot table.
pub fn free(var_mem_addr_table: &mut SymbolTable, malloc: &mut Vec<bool>, name: String) -> (r:
    Result<(), CompileError>)
    requires
        old(var_mem_addr_table)@.contains_key(name@) ==> (old(var_mem_addr_table)@[name@] as int)
            < old(malloc)@.len(),
    ensures
        match r {
            Ok(()) => old(var_mem_addr_table)@.contains_key(name@) && final(var_mem_addr_table)@
                == old(var_mem_addr_table)@.remove(name@) && final(malloc)@ == old(
                malloc,
            )@.update(old(var_mem_addr_table)@[name@] as int, false),
            Err(e) => !old(var_mem_addr_table)@.contains_key(name@) && e
                == CompileError::FreedUndefined && final(var_mem_addr_table)@ == old(
                var_mem_addr_table,
            )@ && final(malloc)@ == old(malloc)@,
        },
{
    match var_mem_addr_table.get(name.as_str()) {
        Some(slot) => {
            free_index(malloc, slot);
            var_mem_addr_table.remove(name.as_str());
            Ok(())
        },
        None => Err(CompileError::FreedUndefined),
    }
}

} // verus!
