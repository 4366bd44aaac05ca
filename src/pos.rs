use vstd::prelude::*;

verus! {

/// The two child slots of a node, used as a side selector.
pub struct Pos {}

impl Pos {
    pub const LEFT: usize = 0;
    pub const RIGHT: usize = 1;
}

} // verus!
