use vstd::prelude::*;

verus! {

/// A unique activity id within a plan.
#[derive(Clone, Copy, Debug, PartialEq, Eq, PartialOrd, Ord, Hash, Structural)]
pub struct ActivityId(pub u32);

impl ActivityId {
    pub fn new(id: u32) -> (r: ActivityId)
        ensures
            r.0 == id,
    {
        ActivityId(id)
    }
}

/// A human-readable name of a kind of activity, used to label its failures.
pub trait ActivityLabel {
    fn label(&self) -> String;
}

} // verus!
