use vstd::prelude::*;

pub mod cnf;
pub mod laws;
pub mod layout;
pub mod parse;
pub mod qry;
pub mod select;
pub mod write;

verus! {

/// Identifier of a stored value; assigned in insertion order, starting at 1.
#[derive(Clone, Copy, PartialEq, Eq, Debug, Structural)]
pub struct ID(pub u32);

/// A stored payload: a byte string of at most 251 bytes.
pub struct Value(pub Vec<u8>);

/// The name of a tag.
pub struct TagName(pub String);

impl TagName {
    pub open spec fn view(&self) -> Seq<char> {
        self.0@
    }

    /// A copy of the name.
    pub fn duplicate(&self) -> (r: TagName)
        ensures
            r@ == self@,
    {
        TagName(self.0.clone())
    }
}

} // verus!
