//! Boxes of each format converted to absolute corners.

use bbox_iou::binary32::Binary32;
use bbox_iou::formats::{BoxVariant, CanonicalBox, ImageSize};

fn bits(value: f32) -> Binary32 {
    Binary32 { bits: value.to_bits() }
}

fn size(width: u32, height: u32) -> ImageSize {
    ImageSize { width, height }
}

fn corners(x_min: u32, y_min: u32, x_max: u32, y_max: u32) -> CanonicalBox {
    CanonicalBox { x_min, y_min, x_max, y_max }
}

fn albumentations(x_min: f32, y_min: f32, x_max: f32, y_max: f32) -> BoxVariant {
    BoxVariant::Albumentations {
        norm_x_min: bits(x_min),
        norm_y_min: bits(y_min),
        norm_x_max: bits(x_max),
        norm_y_max: bits(y_max),
    }
}

fn yolo(x_center: f32, y_center: f32, width: f32, height: f32) -> BoxVariant {
    BoxVariant::Yolo {
        norm_x_center: bits(x_center),
        norm_y_center: bits(y_center),
        norm_width: bits(width),
        norm_height: bits(height),
    }
}

/// The conversion of a normalized corner box in the machine's arithmetic.
fn machine_albumentations(b: [f32; 4], s: ImageSize) -> CanonicalBox {
    corners(
        (b[0] * s.width as f32) as u32,
        (b[1] * s.height as f32) as u32,
        (b[2] * s.width as f32) as u32,
        (b[3] * s.height as f32) as u32,
    )
}

/// The conversion of a normalized centre box in the machine's arithmetic.
fn machine_yolo(b: [f32; 4], s: ImageSize) -> CanonicalBox {
    let x_center = b[0] * s.width as f32;
    let y_center = b[1] * s.height as f32;
    let width = b[2] * s.width as f32;
    let height = b[3] * s.height as f32;
    corners(
        (x_center - (width / 2.0)) as u32,
        (y_center - (height / 2.0)) as u32,
        (x_center + (width / 2.0)) as u32,
        (y_center + (height / 2.0)) as u32,
    )
}

#[test]
fn pascal_is_the_identity_for_any_image_size() {
    let boxes = [
        (0, 0, 0, 0),
        (10, 20, 30, 40),
        (30, 40, 10, 20),
        (u32::MAX, 0, u32::MAX, u32::MAX),
    ];
    let sizes = [size(0, 0), size(1, 1), size(100, 200), size(u32::MAX, 7)];
    for (x_min, y_min, x_max, y_max) in boxes {
        for s in sizes {
            let variant = BoxVariant::Pascal { x_min, y_min, x_max, y_max };
            assert!(variant.converts());
            assert_eq!(variant.to_canonical(s), corners(x_min, y_min, x_max, y_max));
            assert_eq!(
                variant.checked_to_canonical(s),
                Some(corners(x_min, y_min, x_max, y_max))
            );
        }
    }
}

#[test]
fn coco_adds_the_size_to_the_corner() {
    let variant = BoxVariant::Coco { x_min: 10, y_min: 20, width: 30, height: 40 };
    assert_eq!(variant.to_canonical(size(100, 100)), corners(10, 20, 40, 60));
    let flat = BoxVariant::Coco { x_min: 5, y_min: 6, width: 0, height: 0 };
    assert_eq!(flat.to_canonical(size(0, 0)), corners(5, 6, 5, 6));
    let edge = BoxVariant::Coco { x_min: u32::MAX - 3, y_min: 1, width: 3, height: u32::MAX - 1 };
    assert!(edge.converts());
    assert_eq!(
        edge.checked_to_canonical(size(1, 1)),
        Some(corners(u32::MAX - 3, 1, u32::MAX, u32::MAX))
    );
}

#[test]
fn coco_round_trip_gives_the_box_back() {
    let boxes = [
        corners(0, 0, 0, 0),
        corners(10, 20, 30, 40),
        corners(7, 7, 7, 9),
        corners(0, 0, u32::MAX, u32::MAX),
        corners(u32::MAX, u32::MAX, u32::MAX, u32::MAX),
    ];
    for p in boxes {
        for s in [size(0, 0), size(640, 480), size(u32::MAX, u32::MAX)] {
            let variant = BoxVariant::Coco {
                x_min: p.x_min,
                y_min: p.y_min,
                width: p.x_max - p.x_min,
                height: p.y_max - p.y_min,
            };
            assert!(variant.converts());
            assert_eq!(variant.to_canonical(s), p);
        }
    }
}

#[test]
fn coco_beyond_the_last_pixel_does_not_convert() {
    let wide = BoxVariant::Coco { x_min: u32::MAX, y_min: 0, width: 1, height: 0 };
    assert!(!wide.converts());
    assert_eq!(wide.checked_to_canonical(size(10, 10)), None);
    let high = BoxVariant::Coco { x_min: 0, y_min: 2, width: 0, height: u32::MAX - 1 };
    assert!(!high.converts());
    assert_eq!(high.checked_to_canonical(size(10, 10)), None);
    let both = BoxVariant::Coco { x_min: u32::MAX, y_min: u32::MAX, width: u32::MAX, height: u32::MAX };
    assert_eq!(both.checked_to_canonical(size(10, 10)), None);
}

#[test]
fn yolo_of_whole_values_is_exact() {
    // Centre (50, 50) and size (20, 20) in a 100 by 100 image.
    assert_eq!(yolo(0.5, 0.5, 0.2, 0.2).to_canonical(size(100, 100)), corners(40, 40, 60, 60));
}

#[test]
fn albumentations_scales_each_corner() {
    assert_eq!(
        albumentations(0.1, 0.1, 0.5, 0.5).to_canonical(size(100, 200)),
        corners(10, 20, 50, 100)
    );
}

#[test]
fn albumentations_drops_the_fraction() {
    assert_eq!(
        albumentations(0.0, 0.999, 0.333, 1.0).to_canonical(size(10, 10)),
        corners(0, 9, 3, 10)
    );
    assert_eq!(
        albumentations(0.26, 0.74, 0.51, 0.99).to_canonical(size(3, 7)),
        machine_albumentations([0.26, 0.74, 0.51, 0.99], size(3, 7))
    );
}

#[test]
fn normalized_boxes_always_convert() {
    for variant in [
        albumentations(f32::NAN, -1.0, f32::INFINITY, 2.0),
        yolo(f32::NEG_INFINITY, 1e30, f32::NAN, 0.0),
    ] {
        assert!(variant.converts());
        let s = size(100, 100);
        assert_eq!(variant.checked_to_canonical(s), Some(variant.to_canonical(s)));
    }
    assert_eq!(
        albumentations(f32::NAN, -1.0, f32::INFINITY, 2.0).to_canonical(size(100, 100)),
        corners(0, 0, u32::MAX, 200)
    );
}

#[test]
fn a_zero_sized_image_gives_a_point_at_the_origin() {
    assert_eq!(albumentations(0.1, 0.2, 0.8, 0.9).to_canonical(size(0, 0)), corners(0, 0, 0, 0));
    assert_eq!(yolo(0.5, 0.5, 0.2, 0.2).to_canonical(size(0, 0)), corners(0, 0, 0, 0));
}

#[test]
fn yolo_drops_the_fraction_of_each_edge_on_its_own() {
    // Centre 1.5 and width 2 in one dimension: the edges are 0.5 and 2.5,
    // so the box is 2 pixels wide where the nominal width rounds to 2, and
    // centre 1.75 and width 2.5 gives edges 0.5 and 3.0: 3 pixels.
    assert_eq!(yolo(0.15, 0.175, 0.2, 0.25).to_canonical(size(10, 10)), corners(0, 0, 2, 3));
    // An extent that reaches below zero stops at zero.
    assert_eq!(yolo(0.1, 0.1, 0.5, 0.5).to_canonical(size(100, 100)), corners(0, 0, 35, 35));
}

#[test]
fn yolo_agrees_with_the_machine_on_a_grid() {
    let steps: Vec<f32> = (0..=40).map(|i| i as f32 / 40.0).collect();
    for s in [size(1, 3), size(100, 200), size(640, 480), size(1920, 1081), size(4097, 33)] {
        for &c in &steps {
            for &e in &steps {
                let expected = machine_yolo([c, e, e, c], s);
                assert_eq!(yolo(c, e, e, c).to_canonical(s), expected, "{} {} {:?}", c, e, s);
            }
        }
    }
}

#[test]
fn albumentations_agrees_with_the_machine_on_a_grid() {
    let steps: Vec<f32> = (0..=200).map(|i| i as f32 / 200.0).collect();
    for s in [size(1, 3), size(100, 200), size(640, 480), size(1920, 1081), size(4097, 33)] {
        for &a in &steps {
            let b = 1.0 - a;
            let expected = machine_albumentations([a, b, b, a], s);
            assert_eq!(albumentations(a, b, b, a).to_canonical(s), expected, "{} {:?}", a, s);
        }
    }
}
