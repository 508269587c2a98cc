//! An address-range symbol table.
use vstd::prelude::*;

verus! {

/// A named region of memory: `size` bytes starting at `address`.
pub struct Symbol {
    pub name: String,
    pub address: u64,
    pub size: u64,
}

impl Symbol {
    /// The symbol's region covers `addr`.
    pub open spec fn covers(&self, addr: u64) -> bool {
        self.address <= addr && (addr as int) < self.address as int + self.size as int
    }
}

/// Symbols in the order in which they were added.
pub struct SymbolMap {
    pub symbols: Vec<Symbol>,
}

impl SymbolMap {
    /// An empty map.
    pub fn new() -> (r: SymbolMap)
        ensures
            r.symbols@.len() == 0,
    {
        SymbolMap { symbols: Vec::new() }
    }

    /// Appends a symbol after those already present.
    pub fn add_symbol(&mut self, name: String, address: u64, size: u64)
        ensures
            final(self).symbols@ == old(self).symbols@.push(
                Symbol { name: name, address: address, size: size },
            ),
    {
        self.symbols.push(Symbol { name: name, address: address, size: size });
    }

    /// The first symbol, in order of addition, whose region covers `address`.
    pub fn find_symbol(&self, address: u64) -> (r: Option<&Symbol>)
        ensures
            match r {
                Some(s) => exists|i: int|
                    0 <= i < self.symbols@.len() && self.symbols@[i] == *s && s.covers(address)
                        && forall|j: int| 0 <= j < i ==> !self.symbols@[j].covers(address),
                None => forall|j: int|
                    0 <= j < self.symbols@.len() ==> !self.symbols@[j].covers(address),
            },
    {
        let mut i: usize = 0;
        while i < self.symbols.len()
            invariant
                i <= self.symbols@.len(),
                forall|j: int| 0 <= j < i ==> !self.symbols@[j].covers(address),
            decreases self.symbols@.len() - i,
        {
            let s = &self.symbols[i];
            if s.address <= address && address - s.address < s.size {
                return Some(s);
            }
            i = i + 1;
        }
        None
    }
}

} // verus!
