//! Symbols, numbered.

use vstd::prelude::*;

verus! {

/// The number of a symbol.
pub type Atom = u32;

/// The names of the symbols of a database, indexed by atom.
#[derive(Debug)]
pub struct Nameset {
    pub names: Vec<Vec<u8>>,
}

impl View for Nameset {
    type V = Seq<Seq<u8>>;

    open spec fn view(&self) -> Seq<Seq<u8>> {
        self.names@.map_values(|name: Vec<u8>| name@)
    }
}

impl Nameset {
    /// The name of an atom.
    pub fn atom_name(&self, atom: Atom) -> (name: &[u8])
        requires
            atom < self@.len(),
        ensures
            name@ == self@[atom as int],
    {
        self.names[atom as usize].as_slice()
    }
}

} // verus!
