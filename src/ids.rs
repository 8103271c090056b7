//! Identifiers for the objects of one session.

use vstd::prelude::*;

verus! {

/// Hands out identifiers 1, 2, 3, ... in increasing order, so that none is
/// handed out twice.
#[derive(Clone, Copy, Debug)]
pub struct IdGenerator {
    id: i32,
}

impl IdGenerator {
    /// The identifier handed out last; 0 before the first one.
    pub closed spec fn last(&self) -> int {
        self.id as int
    }

    /// A generator whose first identifier will be 1.
    pub fn new() -> (r: IdGenerator)
        ensures
            r.last() == 0,
    {
        IdGenerator { id: 0 }
    }

    /// Whether another identifier fits in an `i32`.
    pub fn has_next(&self) -> (r: bool)
        ensures
            r == (self.last() < i32::MAX),
    {
        self.id < i32::MAX
    }

    /// The next identifier: one more than the last one.
    pub fn get_id(&mut self) -> (r: i32)
        requires
            old(self).last() < i32::MAX,
        ensures
            r == old(self).last() + 1,
            final(self).last() == r,
    {
        self.id = self.id + 1;
        self.id
    }
}

} // verus!
