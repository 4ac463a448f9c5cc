use polylight::color::{bt709, srgb, ColorSpace, Xyz, BT709_BLUE, BT709_GREEN, BT709_RED, D65};
use polylight::spectrum::integrate;
use polylight::transfer::Oetf;

const NM: i64 = 1_000_000;

fn linear_bt709() -> ColorSpace {
    ColorSpace::new(BT709_RED, BT709_GREEN, BT709_BLUE, D65, Oetf::Linear)
}

#[test]
fn standard_chromaticities() {
    assert_eq!(BT709_RED, [6400, 3300]);
    assert_eq!(BT709_GREEN, [3000, 6000]);
    assert_eq!(BT709_BLUE, [1500, 600]);
    assert_eq!(D65, [3127, 3290]);
}

#[test]
fn bt709_matrix_columns() {
    let space = linear_bt709();
    assert_eq!(Xyz { x: 1_000_000, y: 0, z: 0 }.to_linear(space), [3_240_970, -969_244, 55_630, 0]);
    assert_eq!(Xyz { x: 0, y: 1_000_000, z: 0 }.to_linear(space), [-1_537_383, 1_875_968, -203_977, 0]);
    assert_eq!(Xyz { x: 0, y: 0, z: 1_000_000 }.to_linear(space), [-498_611, 41_555, 1_056_972, 0]);
}

#[test]
fn bt709_matrix_is_the_published_one() {
    // ITU-R BT.709 with D65, to four places
    let published = [
        [3.2410, -1.5374, -0.4986],
        [-0.9692, 1.8760, 0.0416],
        [0.0556, -0.2040, 1.0570],
    ];
    let space = bt709();
    let columns = [
        Xyz { x: 1_000_000, y: 0, z: 0 }.to_linear(space),
        Xyz { x: 0, y: 1_000_000, z: 0 }.to_linear(space),
        Xyz { x: 0, y: 0, z: 1_000_000 }.to_linear(space),
    ];
    for row in 0..3 {
        for column in 0..3 {
            let got = columns[column][row] as f64 / 1e6;
            assert!((got - published[row][column]).abs() < 1e-4, "{} {}", row, column);
        }
    }
}

#[test]
fn the_matrix_follows_the_construction_in_steps() {
    // the rows by cross products and scale factors, in floating point
    let (r, g, b, w) = ([0.64, 0.33], [0.30, 0.60], [0.15, 0.06], [0.3127, 0.3290]);
    let z = |c: [f64; 2]| 1.0 - (c[0] + c[1]);
    let row = |p: [f64; 2], q: [f64; 2]| {
        let x = p[1] * z(q) - q[1] * z(p);
        let y = q[0] * z(p) - p[0] * z(q);
        let zz = p[0] * q[1] - q[0] * p[1];
        let scale = (x * w[0] + y * w[1] + zz * z(w)) / w[1];
        [x / scale, y / scale, zz / scale]
    };
    let expected = [row(g, b), row(b, r), row(r, g)];
    let space = linear_bt709();
    let v = Xyz { x: 412_456, y: 212_673, z: 19_334 };
    let got = v.to_linear(space);
    for channel in 0..3 {
        let e = expected[channel][0] * 412_456.0 + expected[channel][1] * 212_673.0
            + expected[channel][2] * 19_334.0;
        assert!((got[channel] as f64 - e).abs() <= 0.51, "channel {}", channel);
    }
    assert_eq!(got, [1_000_157, 1, 0, 0]);
}

#[test]
fn white_maps_to_white() {
    let space = linear_bt709();
    // the white point itself, at a luminance of 1.00016
    let white = Xyz { x: 3127 * 304, y: 3290 * 304, z: 3583 * 304 };
    assert_eq!(white.to_linear(space), [1_000_160, 1_000_160, 1_000_160, 0]);
    // the white point at luminance one, to the nearest millionth
    let white = Xyz { x: 950_456, y: 1_000_000, z: 1_089_058 };
    let rgb = white.to_linear(space);
    for channel in 0..3 {
        assert!((rgb[channel] - 1_000_000).abs() <= 2);
    }
    assert_eq!(rgb[3], 0);
}

#[test]
fn white_of_any_luminance_is_grey() {
    let space = linear_bt709();
    for k in [-5_i64, 0, 1, 77, 12_345, 1_000_000_000] {
        let white = Xyz { x: 3127 * k, y: 3290 * k, z: 3583 * k };
        assert_eq!(white.to_linear(space), [3290 * k, 3290 * k, 3290 * k, 0]);
    }
}

#[test]
fn white_maps_to_white_in_another_space() {
    // primaries of a wide gamut, white point E, both made up of round numbers
    let w = [3333, 3333];
    let space = ColorSpace::new([7000, 3000], [2000, 7000], [1500, 500], w, Oetf::Linear);
    let white = Xyz { x: 3333 * 300, y: 3333 * 300, z: 3334 * 300 };
    assert_eq!(white.to_linear(space), [999_900, 999_900, 999_900, 0]);
}

#[test]
fn deep_red_is_out_of_gamut() {
    let xyz = integrate(&[(700 * NM, 1_000_000)]);
    assert_eq!(xyz, Xyz { x: 5_612, y: 4_305, z: 0 });
    let rgb = xyz.to_linear(bt709());
    assert_eq!(rgb, [11_570, 2_637, -566, 0]);
    assert!(rgb[0] > rgb[1] && rgb[0] > rgb[2]);
    assert!(rgb[1] < 0 || rgb[2] < 0);
}

#[test]
fn construction_is_repeatable() {
    let first = ColorSpace::new(BT709_RED, BT709_GREEN, BT709_BLUE, D65, Oetf::Bt709);
    let second = ColorSpace::new(BT709_RED, BT709_GREEN, BT709_BLUE, D65, Oetf::Bt709);
    assert_eq!(first, second);
    assert_eq!(first, bt709());
    assert_eq!(bt709(), bt709());
    assert_ne!(bt709(), srgb());
    assert_ne!(first, linear_bt709());
}

#[test]
fn the_standard_spaces_share_their_matrix() {
    let v = Xyz { x: 500_000, y: 500_000, z: 500_000 };
    assert_eq!(v.to_linear(bt709()), [602_488, 474_139, 454_312, 0]);
    assert_eq!(v.to_linear(srgb()), v.to_linear(bt709()));
    assert_eq!(v.to_linear(linear_bt709()), v.to_linear(bt709()));
    assert_eq!(bt709().oetf(), Oetf::Bt709);
    assert_eq!(srgb().oetf(), Oetf::Srgb);
    assert_eq!(linear_bt709().oetf(), Oetf::Linear);
}

#[test]
fn primaries_the_other_way_round_exchange_channels() {
    let swapped = ColorSpace::new(BT709_RED, BT709_BLUE, BT709_GREEN, D65, Oetf::Linear);
    let v = Xyz { x: 1_000_000, y: 0, z: 0 };
    assert_eq!(v.to_linear(swapped), [3_240_970, 55_630, -969_244, 0]);
}

#[test]
fn well_posed_spaces() {
    assert!(ColorSpace::is_well_posed(BT709_RED, BT709_GREEN, BT709_BLUE, D65));
    assert!(ColorSpace::is_well_posed(BT709_RED, BT709_BLUE, BT709_GREEN, D65));
    assert!(ColorSpace::is_well_posed([7000, 3000], [2000, 7000], [1500, 500], [3333, 3333]));
    assert!(ColorSpace::is_well_posed([7347, 2653], [0, 10000], [1, -770], [3217, 3377]));
}

#[test]
fn degenerate_spaces() {
    // a white point without luminance
    assert!(!ColorSpace::is_well_posed(BT709_RED, BT709_GREEN, BT709_BLUE, [3127, 0]));
    // two primaries in one place
    assert!(!ColorSpace::is_well_posed(BT709_RED, BT709_RED, BT709_BLUE, D65));
    assert!(!ColorSpace::is_well_posed(BT709_RED, BT709_GREEN, BT709_GREEN, D65));
    // the white point on the line between two primaries
    assert!(!ColorSpace::is_well_posed([6000, 3000], [2000, 7000], [1500, 500], [4000, 5000]));
    // everything at the origin
    assert!(!ColorSpace::is_well_posed([0, 0], [0, 0], [0, 0], [0, 0]));
}

#[test]
fn extreme_chromaticities_are_taken() {
    let (low, high) = (i16::MIN, i16::MAX);
    if ColorSpace::is_well_posed([high, low], [low, high], [low, low], [high, high]) {
        let space = ColorSpace::new([high, low], [low, high], [low, low], [high, high], Oetf::Linear);
        let rgb = Xyz { x: i64::MAX, y: i64::MIN, z: i64::MAX }.to_linear(space);
        assert_eq!(rgb[3], 0);
    }
}

#[test]
fn a_projection_out_of_range_saturates() {
    // the white point next to the line between red and green: the scale
    // factor of blue is small, and its row has entries in the hundreds
    let space = ColorSpace::new([6000, 3000], [2000, 7000], [1500, 500], [4000, 5001], Oetf::Linear);
    assert_eq!(
        Xyz { x: 1_000_000, y: 0, z: 0 }.to_linear(space),
        [1_982_610, -839_184, 500_100_000, 0]
    );
    assert_eq!(
        Xyz { x: i64::MAX, y: 0, z: 0 }.to_linear(space),
        [i64::MAX, -7_740_104_706_153_752_326, i64::MAX, 0]
    );
    assert_eq!(
        Xyz { x: i64::MIN, y: 0, z: 0 }.to_linear(space),
        [i64::MIN, 7_740_104_706_153_752_327, i64::MIN, 0]
    );
    assert_eq!(
        Xyz { x: 0, y: 0, z: i64::MAX }.to_linear(space),
        [-3_130_096_030_465_030_688, 494_049_236_563_005_468, i64::MIN, 0]
    );
}
