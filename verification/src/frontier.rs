use crate::id::Id;
use vstd::prelude::*;

verus! {

/// The most recent operation of a document.
#[derive(Default, Clone, Debug)]
pub struct Frontier {
    pub id: Id,
}

impl Frontier {
    /// Creates a new frontier at the given id.
    pub fn new(id: Id) -> (r: Self)
        ensures
            r.id == id,
    {
        Frontier { id }
    }

    /// The id of the frontier.
    pub fn id(&self) -> (r: Id)
        ensures
            r == self.id,
    {
        self.id
    }
}

} // verus!
