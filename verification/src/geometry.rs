//! Areas, intersections and the intersection-over-union of boxes, in exact
//! integer arithmetic.

use crate::formats::CanonicalBox;
use vstd::prelude::*;

verus! {

/// An exact fraction. A value that this module returns has a positive
/// denominator and a numerator that is not larger.
#[derive(Clone, Copy, Debug, PartialEq, Eq, Structural)]
pub struct Ratio {
    pub numerator: u128,
    pub denominator: u128,
}

impl Ratio {
    /// The fraction zero, written `0 / 1`.
    pub open spec fn zero() -> Ratio {
        Ratio { numerator: 0, denominator: 1 }
    }

    /// Whether the fraction is written with a positive denominator and lies
    /// between zero and one, both included.
    pub open spec fn is_proportion(self) -> bool {
        0 < self.denominator && self.numerator <= self.denominator
    }

    /// Whether the fraction is one.
    pub open spec fn is_one(self) -> bool {
        0 < self.denominator && self.numerator == self.denominator
    }
}

/// The larger of two numbers.
pub open spec fn larger(a: u32, b: u32) -> u32 {
    if a >= b {
        a
    } else {
        b
    }
}

/// The smaller of two numbers.
pub open spec fn smaller(a: u32, b: u32) -> u32 {
    if a <= b {
        a
    } else {
        b
    }
}

impl CanonicalBox {
    /// Whether each maximum is at least its minimum.
    pub open spec fn spec_is_well_formed(self) -> bool {
        self.x_min <= self.x_max && self.y_min <= self.y_max
    }

    /// Whether each maximum is at least its minimum.
    #[verifier::when_used_as_spec(spec_is_well_formed)]
    pub fn is_well_formed(self) -> (out: bool)
        ensures
            out == self.spec_is_well_formed(),
    {
        self.x_min <= self.x_max && self.y_min <= self.y_max
    }

    /// The box's area in square pixels: width times height, and zero for a
    /// box with a corner pair the wrong way round.
    pub open spec fn spec_area(self) -> nat {
        if self.is_well_formed() {
            ((self.x_max - self.x_min) * (self.y_max - self.y_min)) as nat
        } else {
            0
        }
    }

    /// The box's area in square pixels.
    pub fn area(self) -> (out: u64)
        ensures
            out == self.spec_area(),
    {
        if self.is_well_formed() {
            let width: u64 = (self.x_max - self.x_min) as u64;
            let height: u64 = (self.y_max - self.y_min) as u64;
            assert(width * height <= 0xffff_ffff * 0xffff_ffff) by (nonlinear_arith)
                requires
                    width <= 0xffff_ffff,
                    height <= 0xffff_ffff,
            ;
            width * height
        } else {
            0
        }
    }

    /// The rectangle that two boxes share: the larger of the minima and the
    /// smaller of the maxima. It is well formed exactly when the boxes touch
    /// or overlap.
    pub open spec fn spec_intersection(self, other: CanonicalBox) -> CanonicalBox {
        CanonicalBox {
            x_min: larger(self.x_min, other.x_min),
            y_min: larger(self.y_min, other.y_min),
            x_max: smaller(self.x_max, other.x_max),
            y_max: smaller(self.y_max, other.y_max),
        }
    }

    /// The rectangle that two boxes share.
    #[verifier::when_used_as_spec(spec_intersection)]
    pub fn intersection(self, other: CanonicalBox) -> (out: CanonicalBox)
        ensures
            out == self.spec_intersection(other),
    {
        CanonicalBox {
            x_min: if self.x_min >= other.x_min {
                self.x_min
            } else {
                other.x_min
            },
            y_min: if self.y_min >= other.y_min {
                self.y_min
            } else {
                other.y_min
            },
            x_max: if self.x_max <= other.x_max {
                self.x_max
            } else {
                other.x_max
            },
            y_max: if self.y_max <= other.y_max {
                self.y_max
            } else {
                other.y_max
            },
        }
    }
}

/// The intersection-over-union of two boxes and, where they touch or
/// overlap, the area of each.
///
/// Where the shared rectangle is not well formed the result is zero and no
/// areas are given. Otherwise the result is the shared area over the area
/// that the two boxes cover together, `area(a) + area(b) - shared`; where
/// that is zero (two boxes without area) the result is zero.
pub open spec fn iou_of(a: CanonicalBox, b: CanonicalBox) -> (Ratio, Option<(u64, u64)>) {
    let shared = a.intersection(b);
    if !shared.is_well_formed() {
        (Ratio::zero(), None)
    } else {
        let covered = a.spec_area() + b.spec_area() - shared.spec_area();
        let ratio = if covered == 0 {
            Ratio::zero()
        } else {
            Ratio { numerator: shared.spec_area() as u128, denominator: covered as u128 }
        };
        (ratio, Some((a.spec_area() as u64, b.spec_area() as u64)))
    }
}

/// Where two boxes touch or overlap, both are well formed and the shared
/// rectangle is no larger than either.
pub proof fn lemma_shared_within(a: CanonicalBox, b: CanonicalBox)
    requires
        a.intersection(b).is_well_formed(),
    ensures
        a.is_well_formed(),
        b.is_well_formed(),
        a.intersection(b).spec_area() <= a.spec_area() <= 0xffff_ffff * 0xffff_ffff,
        a.intersection(b).spec_area() <= b.spec_area() <= 0xffff_ffff * 0xffff_ffff,
{
    let s = a.intersection(b);
    lemma_area_grows(s.x_max - s.x_min, s.y_max - s.y_min, a.x_max - a.x_min, a.y_max - a.y_min);
    lemma_area_grows(s.x_max - s.x_min, s.y_max - s.y_min, b.x_max - b.x_min, b.y_max - b.y_min);
    lemma_area_grows(a.x_max - a.x_min, a.y_max - a.y_min, 0xffff_ffff, 0xffff_ffff);
    lemma_area_grows(b.x_max - b.x_min, b.y_max - b.y_min, 0xffff_ffff, 0xffff_ffff);
}

/// A rectangle that is no wider and no higher than another has no more area.
pub proof fn lemma_area_grows(w1: int, h1: int, w2: int, h2: int)
    requires
        0 <= w1 <= w2,
        0 <= h1 <= h2,
    ensures
        w1 * h1 <= w2 * h2,
{
    assert(w1 * h1 <= w2 * h2) by (nonlinear_arith)
        requires
            0 <= w1 <= w2,
            0 <= h1 <= h2,
    ;
}

/// The intersection-over-union is a fraction between zero and one.
pub proof fn law_iou_is_a_proportion(a: CanonicalBox, b: CanonicalBox)
    ensures
        iou_of(a, b).0.is_proportion(),
{
    if a.intersection(b).is_well_formed() {
        lemma_shared_within(a, b);
    }
}

/// The areas are given exactly when the boxes touch or overlap, and then
/// they are the areas of the two boxes, in order.
pub proof fn law_areas_when_shared(a: CanonicalBox, b: CanonicalBox)
    ensures
        iou_of(a, b).1 is Some <==> a.intersection(b).is_well_formed(),
        iou_of(a, b).1 matches Some(areas) ==> areas.0 == a.spec_area() && areas.1
            == b.spec_area(),
{
    if a.intersection(b).is_well_formed() {
        lemma_shared_within(a, b);
    }
}

/// A box with area has intersection-over-union one with itself.
pub proof fn law_iou_with_itself(a: CanonicalBox)
    requires
        a.x_min < a.x_max,
        a.y_min < a.y_max,
    ensures
        iou_of(a, a).0.is_one(),
        iou_of(a, a).1 == Some((a.spec_area() as u64, a.spec_area() as u64)),
{
    assert(a.intersection(a) == a);
    lemma_shared_within(a, a);
    assert(0 < (a.x_max - a.x_min) * (a.y_max - a.y_min)) by (nonlinear_arith)
        requires
            a.x_min < a.x_max,
            a.y_min < a.y_max,
    ;
}

/// Two boxes of which one lies wholly to one side of the other share
/// nothing: the result is zero and no areas are given.
pub proof fn law_iou_of_disjoint(a: CanonicalBox, b: CanonicalBox)
    requires
        a.x_max < b.x_min || b.x_max < a.x_min || a.y_max < b.y_min || b.y_max < a.y_min,
    ensures
        iou_of(a, b) == (Ratio::zero(), None::<(u64, u64)>),
{
}

/// A box with a corner pair the wrong way round shares nothing with any
/// box: the result is zero and no areas are given.
pub proof fn law_iou_of_inverted(a: CanonicalBox, b: CanonicalBox)
    requires
        !a.is_well_formed() || !b.is_well_formed(),
    ensures
        iou_of(a, b) == (Ratio::zero(), None::<(u64, u64)>),
        iou_of(b, a) == (Ratio::zero(), None::<(u64, u64)>),
{
}

/// The order of the two boxes changes the order of the areas and nothing
/// else.
pub proof fn law_iou_is_symmetric(a: CanonicalBox, b: CanonicalBox)
    ensures
        iou_of(a, b).0 == iou_of(b, a).0,
        iou_of(a, b).1 is None <==> iou_of(b, a).1 is None,
        iou_of(a, b).1 matches Some(areas) ==> iou_of(b, a).1 == Some((areas.1, areas.0)),
{
    assert(a.intersection(b) == b.intersection(a));
}

/// Computes the intersection-over-union of two boxes as an exact fraction
/// and, where they touch or overlap, the area of each.
pub fn compute_iou(a: CanonicalBox, b: CanonicalBox) -> (out: (Ratio, Option<(u64, u64)>))
    ensures
        out == iou_of(a, b),
        out.0.is_proportion(),
{
    let shared = a.intersection(b);
    if !shared.is_well_formed() {
        return (Ratio { numerator: 0, denominator: 1 }, None);
    }
    proof {
        lemma_shared_within(a, b);
    }
    let shared_area = shared.area();
    let area_a = a.area();
    let area_b = b.area();
    let covered: u128 = area_a as u128 + area_b as u128 - shared_area as u128;
    let ratio = if covered == 0 {
        Ratio { numerator: 0, denominator: 1 }
    } else {
        Ratio { numerator: shared_area as u128, denominator: covered }
    };
    (ratio, Some((area_a, area_b)))
}

} // verus!
