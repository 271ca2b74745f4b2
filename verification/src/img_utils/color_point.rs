//! The entries of a palette.

use crate::img_utils::rgb_color::RgbColor;
use vstd::prelude::*;

verus! {

/// One entry of a palette: a color, and how many of the distinct colors of
/// the image were grouped under it, out of how many in all.
#[derive(Debug, Clone, Copy, PartialEq, Eq, Structural)]
pub struct ColorPoint {
    pub color: RgbColor,
    pub members: usize,
    pub total: usize,
}

impl ColorPoint {
    /// The share of the distinct colors that were grouped under this one.
    pub open spec fn weight(self) -> real {
        (self.members as real) / (self.total as real)
    }

    /// The total is positive, so that the weight is a number.
    pub open spec fn wf(self) -> bool {
        self.total > 0
    }

    /// Whether the weight of this point is strictly less than that of
    /// `other`.
    pub fn lighter_than(&self, other: &ColorPoint) -> (less: bool)
        requires
            self.wf(),
            other.wf(),
        ensures
            less == (self.weight() < other.weight()),
    {
        assert(self.members * other.total <= u128::MAX && other.members * self.total <= u128::MAX)
            by (nonlinear_arith)
            requires
                self.members <= u64::MAX,
                self.total <= u64::MAX,
                other.members <= u64::MAX,
                other.total <= u64::MAX,
        ;
        proof {
            lemma_weight_order(*self, *other);
        }
        (self.members as u128) * (other.total as u128) < (other.members as u128) * (
        self.total as u128)
    }

    pub fn new(color: RgbColor, members: usize, total: usize) -> (point: Self)
        ensures
            point == (ColorPoint { color, members, total }),
    {
        Self { color, members, total }
    }

    /// The number of channels of the color.
    pub fn color_dim() -> (d: usize)
        ensures
            d == 3,
    {
        RgbColor::dim()
    }
}

/// Weights compare as their cross products do.
pub proof fn lemma_weight_order(a: ColorPoint, b: ColorPoint)
    requires
        a.wf(),
        b.wf(),
    ensures
        (a.weight() < b.weight()) == (a.members * b.total < b.members * a.total),
{
    let am = a.members as nat;
    let at = a.total as nat;
    let bm = b.members as nat;
    let bt = b.total as nat;
    assert(((am as real) / (at as real) < (bm as real) / (bt as real)) == (am * bt < bm * at))
        by (nonlinear_arith)
        requires
            at > 0,
            bt > 0,
    ;
}

} // verus!
