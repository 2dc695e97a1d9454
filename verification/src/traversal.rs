use vstd::prelude::*;
use crate::area::Area;

verus! {

/// How a query region selects entries.
#[derive(Clone, Copy, Debug, PartialEq, Eq, Structural)]
pub enum Traversal {
    /// Every entry whose region intersects the query region.
    Overlapping,
    /// Only the entries whose region lies within the query region.
    Strict,
}

impl Traversal {
    /// Whether a query for `bounding_box` selects an entry at `fragment`.
    pub open spec fn spec_eval(&self, bounding_box: Area, fragment: Area) -> bool {
        match *self {
            Traversal::Overlapping => bounding_box.intersects(fragment),
            Traversal::Strict => bounding_box.contains(fragment),
        }
    }

    #[verifier::when_used_as_spec(spec_eval)]
    pub fn eval(&self, bounding_box: Area, fragment: Area) -> (b: bool)
        ensures
            b == self.spec_eval(bounding_box, fragment),
    {
        match *self {
            Traversal::Overlapping => bounding_box.intersects(fragment),
            Traversal::Strict => bounding_box.contains(fragment),
        }
    }
}

} // verus!
