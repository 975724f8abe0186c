use vstd::prelude::*;

verus! {

/// The colour of a cube. A colour absorbs itself and every colour after it in
/// the order red, blue, green; white absorbs nothing.
#[derive(Clone, Copy, Debug, PartialEq, Eq, Structural)]
pub enum Kind {
    White,
    Red,
    Blue,
    Green,
}

/// Whether a cube of kind `a` can absorb one of kind `b`.
pub open spec fn spec_absorbable(a: Kind, b: Kind) -> bool {
    match a {
        Kind::White => false,
        Kind::Red => b == Kind::Red || b == Kind::Blue || b == Kind::Green,
        Kind::Blue => b == Kind::Blue || b == Kind::Green,
        Kind::Green => b == Kind::Green,
    }
}

/// `a` absorbs `b` and `b` does not absorb `a`.
pub open spec fn spec_absorbable_actively(a: Kind, b: Kind) -> bool {
    spec_absorbable(a, b) && !spec_absorbable(b, a)
}

impl Kind {
    /// Whether the cube can change: every colour but white.
    pub fn unstable(&self) -> (r: bool)
        ensures
            r == (*self != Kind::White),
    {
        match self {
            Kind::White => false,
            _ => true,
        }
    }

    pub fn absorbable(&self, that: Self) -> (r: bool)
        ensures
            r == spec_absorbable(*self, that),
    {
        match self {
            Kind::White => false,
            Kind::Red => matches!(that, Kind::Red | Kind::Blue | Kind::Green),
            Kind::Blue => matches!(that, Kind::Blue | Kind::Green),
            Kind::Green => matches!(that, Kind::Green),
        }
    }

    pub fn absorbable_actively(&self, that: Self) -> (r: bool)
        ensures
            r == spec_absorbable_actively(*self, that),
    {
        self.absorbable(that) && !that.absorbable(*self)
    }
}

/// Absorbing is transitive, and a coloured cube absorbs its own colour.
pub proof fn lemma_absorbable_preorder(a: Kind, b: Kind, c: Kind)
    ensures
        spec_absorbable(a, b) && spec_absorbable(b, c) ==> spec_absorbable(a, c),
        a != Kind::White ==> spec_absorbable(a, a),
{
}

/// Absorbing actively is a strict order: irreflexive, asymmetric and transitive, and
/// any two different colours are ordered by it.
pub proof fn lemma_absorbable_actively_strict(a: Kind, b: Kind, c: Kind)
    ensures
        !spec_absorbable_actively(a, a),
        spec_absorbable_actively(a, b) ==> !spec_absorbable_actively(b, a),
        spec_absorbable_actively(a, b) && spec_absorbable_actively(b, c)
            ==> spec_absorbable_actively(a, c),
        a != b && a != Kind::White && b != Kind::White ==> spec_absorbable_actively(a, b)
            || spec_absorbable_actively(b, a),
{
}

} // verus!
