//! The row type of a todo list, keyed by its id.
use vstd::prelude::*;

verus! {

/// A todo: its id, which keys it in a list, and its name.
#[derive(Clone, Debug, Hash)]
pub struct Todo {
    id: usize,
    name: String,
}

impl Todo {
    pub closed spec fn spec_id(self) -> usize {
        self.id
    }

    pub closed spec fn spec_name(self) -> Seq<char> {
        self.name@
    }

    pub fn new(id: usize, name: String) -> (t: Todo)
        ensures
            t.spec_id() == id,
            t.spec_name() == name@,
    {
        Todo { id, name }
    }

    pub fn id(&self) -> (r: usize)
        ensures
            r == self.spec_id(),
    {
        self.id
    }

    pub fn name(&self) -> (r: &String)
        ensures
            r@ == self.spec_name(),
    {
        &self.name
    }
}

} // verus!
