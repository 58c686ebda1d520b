use vstd::prelude::*;

verus! {

/// An unordered pair of frame handles, stored with the lower handle first.
#[derive(Copy, Clone, Debug, PartialEq, Eq, PartialOrd, Ord, Hash, Structural)]
pub struct Pair(pub usize, pub usize);

impl Pair {
    /// The canonical pair of two frame handles.
    pub open spec fn spec_new(a: usize, b: usize) -> Pair {
        if a <= b {
            Pair(a, b)
        } else {
            Pair(b, a)
        }
    }

    /// A pair is canonical when its lower handle comes first.
    pub open spec fn is_canonical(self) -> bool {
        self.0 <= self.1
    }

    /// Creates a new pair, canonicalizing the order of the two handles.
    pub fn new(a: usize, b: usize) -> (r: Pair)
        ensures
            r == Pair::spec_new(a, b),
            r.is_canonical(),
            r.0 == if a <= b { a } else { b },
            r.1 == if a <= b { b } else { a },
    {
        if a <= b {
            Pair(a, b)
        } else {
            Pair(b, a)
        }
    }
}

/// The pair of two handles does not depend on their order, and its first
/// handle is never above its second.
pub proof fn pair_is_symmetric(a: usize, b: usize)
    ensures
        Pair::spec_new(a, b) == Pair::spec_new(b, a),
        Pair::spec_new(a, b).is_canonical(),
        Pair::spec_new(a, b).0 <= Pair::spec_new(a, b).1,
{
}

} // verus!
