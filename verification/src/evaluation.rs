//! A predicted box held against its ground truth.

use crate::formats::{BoxVariant, CanonicalBox, ImageSize};
use crate::geometry::{compute_iou, iou_of, Ratio};
use vstd::prelude::*;

verus! {

/// What comparing two boxes gives: both boxes as absolute corners, their
/// intersection-over-union and, where they touch or overlap, their areas.
#[derive(Clone, Copy, Debug, PartialEq, Eq)]
pub struct Evaluation {
    pub predicted: CanonicalBox,
    pub truth: CanonicalBox,
    pub iou: Ratio,
    pub areas: Option<(u64, u64)>,
}

/// The comparison of a predicted box with its ground truth in an image of
/// the given size: both are converted, then measured against each other.
/// There is none where the corners of either cannot be written in 32 bits.
pub open spec fn evaluation_of(
    predicted: BoxVariant,
    truth: BoxVariant,
    image_size: ImageSize,
) -> Option<Evaluation> {
    if predicted.converts() && truth.converts() {
        let p = predicted.canonical(image_size);
        let t = truth.canonical(image_size);
        Some(Evaluation { predicted: p, truth: t, iou: iou_of(p, t).0, areas: iou_of(p, t).1 })
    } else {
        None
    }
}

/// Converts a predicted box and its ground truth to absolute corners and
/// computes their intersection-over-union.
pub fn evaluate(predicted: BoxVariant, truth: BoxVariant, image_size: ImageSize) -> (out: Option<
    Evaluation,
>)
    ensures
        out == evaluation_of(predicted, truth, image_size),
        out matches Some(e) ==> e.iou.is_proportion(),
{
    if !predicted.converts() || !truth.converts() {
        return None;
    }
    let p = predicted.to_canonical(image_size);
    let t = truth.to_canonical(image_size);
    let (iou, areas) = compute_iou(p, t);
    Some(Evaluation { predicted: p, truth: t, iou, areas })
}

/// A box compared with itself in the format of absolute corners has
/// intersection-over-union one, where it has area.
pub proof fn law_a_perfect_prediction_scores_one(corners: CanonicalBox, image_size: ImageSize)
    requires
        corners.x_min < corners.x_max,
        corners.y_min < corners.y_max,
    ensures
        evaluation_of(pascal_of(corners), pascal_of(corners), image_size) matches Some(e)
            && e.iou.is_one() && e.predicted == corners && e.truth == corners,
{
    crate::formats::law_pascal_converts_to_itself(corners, image_size);
    crate::geometry::law_iou_with_itself(corners);
}

/// A box of absolute corners as the format of that name writes it.
pub open spec fn pascal_of(corners: CanonicalBox) -> BoxVariant {
    BoxVariant::Pascal {
        x_min: corners.x_min,
        y_min: corners.y_min,
        x_max: corners.x_max,
        y_max: corners.y_max,
    }
}

} // verus!
