//! The library's binary32 arithmetic against the machine's.

use bbox_iou::binary32::Binary32;

fn machine_scale(bits: u32, dimension: u32) -> u32 {
    (f32::from_bits(bits) * dimension as f32) as u32
}

fn machine_span(center: u32, extent: u32, dimension: u32) -> (u32, u32) {
    let c = f32::from_bits(center) * dimension as f32;
    let w = f32::from_bits(extent) * dimension as f32;
    ((c - (w / 2.0)) as u32, (c + (w / 2.0)) as u32)
}

struct Stream(u64);

impl Stream {
    fn next(&mut self) -> u64 {
        let mut x = self.0;
        x ^= x << 13;
        x ^= x >> 7;
        x ^= x << 17;
        self.0 = x;
        x
    }

    fn word(&mut self) -> u32 {
        (self.next() >> 32) as u32
    }

    /// A dimension of a random number of binary digits.
    fn dimension(&mut self) -> u32 {
        let digits = self.next() % 33;
        if digits == 0 {
            0
        } else {
            (self.next() >> (64 - digits)) as u32
        }
    }

    /// The bits of a number between 0 and 2.
    fn fraction(&mut self) -> u32 {
        let unit = (self.next() >> 11) as f64 / (1u64 << 53) as f64;
        ((unit * 2.0) as f32).to_bits()
    }
}

fn check_scale(bits: u32, dimension: u32) {
    assert_eq!(
        Binary32 { bits }.scale(dimension),
        machine_scale(bits, dimension),
        "bits {:#010x} dimension {}",
        bits,
        dimension
    );
}

fn check_span(center: u32, extent: u32, dimension: u32) {
    assert_eq!(
        Binary32 { bits: center }.span(Binary32 { bits: extent }, dimension),
        machine_span(center, extent, dimension),
        "center {:#010x} extent {:#010x} dimension {}",
        center,
        extent,
        dimension
    );
}

const EDGES: [u32; 28] = [
    0x0000_0000,
    0x8000_0000,
    0x0000_0001,
    0x8000_0001,
    0x007f_ffff,
    0x0080_0000,
    0x0080_0001,
    0x00ff_ffff,
    0x3380_0000,
    0x3400_0000,
    0x3f00_0000,
    0x3f7f_ffff,
    0x3f80_0000,
    0x3f80_0001,
    0xbf80_0000,
    0x3fc0_0000,
    0x4000_0000,
    0x4b00_0000,
    0x4b7f_ffff,
    0x4f00_0000,
    0x4f7f_ffff,
    0x4f80_0000,
    0x7f7f_ffff,
    0xff7f_ffff,
    0x7f80_0000,
    0xff80_0000,
    0x7fc0_0000,
    0xffc0_0001,
];

const SIZES: [u32; 16] = [
    0,
    1,
    2,
    3,
    100,
    200,
    640,
    1080,
    0x00ff_ffff,
    0x0100_0000,
    0x0100_0001,
    0x0100_0003,
    0x7fff_ffff,
    0x8000_0000,
    0xffff_ff7f,
    0xffff_ffff,
];

#[test]
fn scale_agrees_on_edge_patterns() {
    for bits in EDGES {
        for dimension in SIZES {
            check_scale(bits, dimension);
        }
    }
}

#[test]
fn span_agrees_on_edge_patterns() {
    for center in EDGES {
        for extent in EDGES {
            for dimension in SIZES {
                check_span(center, extent, dimension);
            }
        }
    }
}

#[test]
fn scale_agrees_on_arbitrary_patterns() {
    let mut stream = Stream(0x9e37_79b9_7f4a_7c15);
    for _ in 0..200_000 {
        let bits = stream.word();
        let dimension = stream.dimension();
        check_scale(bits, dimension);
    }
}

#[test]
fn scale_agrees_on_fractions() {
    let mut stream = Stream(0x2545_f491_4f6c_dd1d);
    for _ in 0..200_000 {
        let bits = stream.fraction();
        let dimension = stream.dimension();
        check_scale(bits, dimension);
    }
}

#[test]
fn scale_agrees_on_every_hundredth_of_small_sizes() {
    for hundredths in 0..=100u32 {
        let bits = (hundredths as f32 / 100.0).to_bits();
        for dimension in 0..=2000u32 {
            check_scale(bits, dimension);
        }
    }
}

#[test]
fn span_agrees_on_arbitrary_patterns() {
    let mut stream = Stream(0xd1b5_4a32_d192_ed03);
    for _ in 0..200_000 {
        let center = stream.word();
        let extent = stream.word();
        let dimension = stream.dimension();
        check_span(center, extent, dimension);
    }
}

#[test]
fn span_agrees_on_fractions() {
    let mut stream = Stream(0x94d0_49bb_1331_11eb);
    for _ in 0..200_000 {
        let center = stream.fraction();
        let extent = stream.fraction();
        let dimension = stream.dimension();
        check_span(center, extent, dimension);
    }
}

#[test]
fn span_agrees_on_nearby_exponents() {
    // Centre and half extent of close or equal magnitude: differences that
    // cancel, and sums that carry.
    let mut stream = Stream(0xbf58_476d_1ce4_e5b9);
    for _ in 0..200_000 {
        let center = stream.word() & 0x7fff_ffff;
        let shift = (stream.next() % 7) as i64 - 3;
        let exponent = ((center >> 23) as i64 + 1 + shift).clamp(0, 254) as u32;
        let extent = (exponent << 23) | (stream.word() & 0x007f_ffff);
        for dimension in [1u32, 2, 3, 1000] {
            check_span(center, extent, dimension);
        }
    }
}

#[test]
fn span_agrees_on_far_exponents() {
    // One operand far below the other's last binary digit.
    let mut stream = Stream(0x1234_5678_9abc_def1);
    for _ in 0..100_000 {
        let center = stream.word();
        let extent = stream.word() & 0x8fff_ffff;
        check_span(center, extent, 1);
        check_span(extent, center, 1);
    }
}

#[test]
fn scale_rounds_the_product_before_it_drops_the_fraction() {
    // 0.29 is stored a little below 29/100; times 100 the product rounds up
    // to 29 exactly, so no pixel is lost.
    assert_eq!(Binary32 { bits: 0.29f32.to_bits() }.scale(100), 29);
    assert_eq!(Binary32 { bits: 0.1f32.to_bits() }.scale(100), 10);
    assert_eq!(Binary32 { bits: 0.5f32.to_bits() }.scale(200), 100);
    assert_eq!(Binary32 { bits: 0.999f32.to_bits() }.scale(100), 99);
}

#[test]
fn scale_saturates() {
    assert_eq!(Binary32 { bits: (-0.5f32).to_bits() }.scale(100), 0);
    assert_eq!(Binary32 { bits: f32::NAN.to_bits() }.scale(100), 0);
    assert_eq!(Binary32 { bits: f32::INFINITY.to_bits() }.scale(100), u32::MAX);
    assert_eq!(Binary32 { bits: f32::NEG_INFINITY.to_bits() }.scale(100), 0);
    assert_eq!(Binary32 { bits: f32::INFINITY.to_bits() }.scale(0), 0);
    assert_eq!(Binary32 { bits: 2.0f32.to_bits() }.scale(u32::MAX), u32::MAX);
    assert_eq!(Binary32 { bits: 1.0f32.to_bits() }.scale(u32::MAX), u32::MAX);
    assert_eq!(Binary32 { bits: 1.0f32.to_bits() }.scale(0xffff_ff00), 0xffff_ff00);
}
