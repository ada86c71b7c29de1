use vstd::prelude::*;

verus! {

/// A trust assertion carried by an edge: a closed enumeration, mapped to
/// fixed wire byte values independent of the in-memory representation.
#[derive(Debug, Clone, Copy, PartialEq, Eq, Structural)]
pub enum Relation {
    /// A positive trust signal.
    Follow,
    /// A negative trust signal.
    Mute,
}

impl Relation {
    /// The fixed byte value used for this relation both in the arena and on
    /// the wire.
    pub open spec fn spec_byte(self) -> u8 {
        match self {
            Relation::Follow => 0,
            Relation::Mute => 1,
        }
    }

    /// Returns the fixed byte value of this relation.
    pub fn as_byte(self) -> (r: u8)
        ensures
            r == self.spec_byte(),
    {
        match self {
            Relation::Follow => 0,
            Relation::Mute => 1,
        }
    }
}

} // verus!
