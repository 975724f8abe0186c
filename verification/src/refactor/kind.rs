use vstd::prelude::*;

verus! {

/// The colour of a cube. Red absorbs green, green absorbs blue and blue absorbs red;
/// cubes of one colour link together; white does neither.
#[derive(Clone, Copy, Debug, PartialEq, Eq, Hash, Structural)]
pub enum Kind {
    White,
    Red,
    Blue,
    Green,
}

pub open spec fn spec_absorbable(a: Kind, b: Kind) -> bool {
    match a {
        Kind::White => false,
        Kind::Red => b == Kind::Green,
        Kind::Blue => b == Kind::Red,
        Kind::Green => b == Kind::Blue,
    }
}

pub open spec fn spec_linkable(a: Kind, b: Kind) -> bool {
    a != Kind::White && a == b
}

impl Kind {
    pub fn absorbable(self, that: Self) -> (r: bool)
        ensures
            r == spec_absorbable(self, that),
    {
        match self {
            Kind::White => false,
            Kind::Red => matches!(that, Kind::Green),
            Kind::Blue => matches!(that, Kind::Red),
            Kind::Green => matches!(that, Kind::Blue),
        }
    }

    pub fn linkable(self, that: Self) -> (r: bool)
        ensures
            r == spec_linkable(self, that),
    {
        match self {
            Kind::White => false,
            Kind::Red => matches!(that, Kind::Red),
            Kind::Blue => matches!(that, Kind::Blue),
            Kind::Green => matches!(that, Kind::Green),
        }
    }
}

/// Between two coloured cubes exactly one holds: they link, the first absorbs the
/// second, or the second absorbs the first. White takes part in none of these.
pub proof fn lemma_kind_trichotomy(a: Kind, b: Kind)
    ensures
        a != Kind::White && b != Kind::White ==> (spec_linkable(a, b) && !spec_absorbable(a, b)
            && !spec_absorbable(b, a)) || (!spec_linkable(a, b) && spec_absorbable(a, b)
            && !spec_absorbable(b, a)) || (!spec_linkable(a, b) && !spec_absorbable(a, b)
            && spec_absorbable(b, a)),
        a == Kind::White ==> !spec_linkable(a, b) && !spec_absorbable(a, b) && !spec_absorbable(b, a),
        spec_linkable(a, b) == spec_linkable(b, a),
{
}

} // verus!
