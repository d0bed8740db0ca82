//! The canvas corners floating overlays (the streaming HUD, the minimap, a
//! legend) are anchored to.
use vstd::prelude::*;

verus! {

/// Which canvas corner an overlay is pinned to.
#[derive(Clone, Copy, PartialEq, Eq, Debug, Structural)]
pub enum Anchor {
    /// Below the top ruler and right of the left ruler.
    TopLeft,
    /// Below the top ruler, against the right edge.
    TopRight,
    /// Right of the left ruler, against the bottom edge.
    BottomLeft,
    /// Against the bottom and right edges.
    BottomRight,
}

impl Anchor {
    /// Whether the anchor is on the top edge (overlays stack downward from it).
    pub fn is_top(self) -> (r: bool)
        ensures
            r == (self == Anchor::TopLeft || self == Anchor::TopRight),
    {
        match self {
            Anchor::TopLeft | Anchor::TopRight => true,
            _ => false,
        }
    }

    /// Whether the anchor is on the left edge.
    pub fn is_left(self) -> (r: bool)
        ensures
            r == (self == Anchor::TopLeft || self == Anchor::BottomLeft),
    {
        match self {
            Anchor::TopLeft | Anchor::BottomLeft => true,
            _ => false,
        }
    }
}

} // verus!
