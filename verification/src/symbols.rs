//! The catalogue of inline symbols that can be drawn.

use vstd::prelude::*;

verus! {

/// One symbol of the catalogue, by its name.
#[derive(Default, Debug, Clone, PartialEq)]
pub struct Symbol {
    pub symbol: String,
}

/// The symbols for which artwork is at hand.
#[derive(Default, Debug, Clone, PartialEq)]
pub struct Symbols {
    pub data: Vec<Symbol>,
}

impl Symbols {
    /// Whether the catalogue holds a symbol of exactly this name.
    pub open spec fn knows(&self, name: Seq<char>) -> bool {
        exists|i: int| 0 <= i < self.data@.len() && (#[trigger] self.data@[i]).symbol@ == name
    }

    /// Whether the catalogue holds a symbol of exactly this name.
    pub fn contains(&self, name: &str) -> (found: bool)
        ensures
            found == self.knows(name@),
    {
        let wanted = name.to_owned();
        for i in 0..self.data.len()
            invariant
                wanted@ == name@,
                forall|k: int| 0 <= k < i ==> (#[trigger] self.data@[k]).symbol@ != name@,
        {
            if self.data[i].symbol == wanted {
                return true;
            }
        }
        false
    }
}

} // verus!
