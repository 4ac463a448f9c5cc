//! Tristimulus values, and the colour spaces that they are shown in.

use vstd::prelude::*;
use crate::matrix::{
    lemma_row_known, lemma_row_of_white, matrix_row, row_apply, well_posed, Row, RowView,
    CHROMA_SCALE,
};
use crate::spectrum::{integrate, spec_integrate};
use crate::transfer::{lemma_encode_zero, spec_encode, Oetf};

verus! {

/// A CIE 1931 tristimulus value, in millionths.
#[derive(Clone, Copy, Debug, PartialEq, Eq)]
pub struct Xyz {
    /// The component X.
    pub x: i64,
    /// The component Y, the luminance.
    pub y: i64,
    /// The component Z.
    pub z: i64,
}

/// A spectral power distribution: samples `(wavelength, power)`, the
/// wavelength in millionths of a nanometre and the power in millionths. The
/// samples need not be evenly spaced, nor sorted.
pub struct Spd<'a>(pub &'a [(i64, i64)]);

impl<'a> From<Spd<'a>> for Xyz {
    fn from(value: Spd<'a>) -> (xyz: Xyz) {
        integrate(value.0)
    }
}

impl<'a> vstd::std_specs::convert::FromSpecImpl<Spd<'a>> for Xyz {
    open spec fn obeys_from_spec() -> bool {
        true
    }

    open spec fn from_spec(value: Spd<'a>) -> Xyz {
        spec_integrate(value.0@)
    }
}

/// A colour space: a matrix from XYZ to the linear RGB of its primaries, and
/// the transfer function that encodes a channel. It is made once and never
/// changes.
#[derive(Clone, Copy, Debug, PartialEq, Eq)]
pub struct ColorSpace {
    red: Row,
    green: Row,
    blue: Row,
    oetf: Oetf,
}

/// What a colour space holds: three matrix rows and a transfer function.
pub struct ColorSpaceView {
    pub red: RowView,
    pub green: RowView,
    pub blue: RowView,
    pub oetf: Oetf,
}

/// The colour space of the primaries `r`, `g`, `b` and the white point `w`.
pub open spec fn color_space_model(
    r: [i16; 2],
    g: [i16; 2],
    b: [i16; 2],
    w: [i16; 2],
    oetf: Oetf,
) -> ColorSpaceView {
    ColorSpaceView {
        red: matrix_row(g, b, w),
        green: matrix_row(b, r, w),
        blue: matrix_row(r, g, w),
        oetf,
    }
}

/// The linear RGB of a tristimulus value in a colour space.
pub open spec fn linear_rgb(space: ColorSpaceView, v: Xyz) -> (int, int, int) {
    (
        row_apply(space.red, v.x as int, v.y as int, v.z as int),
        row_apply(space.green, v.x as int, v.y as int, v.z as int),
        row_apply(space.blue, v.x as int, v.y as int, v.z as int),
    )
}

impl View for ColorSpace {
    type V = ColorSpaceView;

    closed spec fn view(&self) -> ColorSpaceView {
        ColorSpaceView {
            red: self.red.view(),
            green: self.green.view(),
            blue: self.blue.view(),
            oetf: self.oetf,
        }
    }
}

impl ColorSpace {
    #[verifier::type_invariant]
    spec fn wf(self) -> bool {
        self.red.wf() && self.green.wf() && self.blue.wf()
    }

    /// Tells whether primaries and white point define a colour space.
    pub fn is_well_posed(r: [i16; 2], g: [i16; 2], b: [i16; 2], w: [i16; 2]) -> (ok: bool)
        ensures
            ok == well_posed(r, g, b, w),
    {
        w[1] != 0 && Row::scale(g, b, w) != 0 && Row::scale(b, r, w) != 0 && Row::scale(r, g, w)
            != 0
    }

    /// Derives the colour space of the primaries `r`, `g`, `b` and the white
    /// point `w`, each a chromaticity `(x, y)` in ten-thousandths.
    pub fn new(r: [i16; 2], g: [i16; 2], b: [i16; 2], w: [i16; 2], oetf: Oetf) -> (space:
        ColorSpace)
        requires
            well_posed(r, g, b, w),
        ensures
            space@ == color_space_model(r, g, b, w, oetf),
    {
        ColorSpace { red: Row::new(g, b, w), green: Row::new(b, r, w), blue: Row::new(r, g, w), oetf }
    }

    /// The transfer function of the colour space.
    pub fn oetf(&self) -> (oetf: Oetf)
        ensures
            oetf == self@.oetf,
    {
        self.oetf
    }
}

impl Xyz {
    /// Projects into the linear RGB of a colour space. The result is red,
    /// green, blue and an unused fourth component, which is zero. A component
    /// below zero or above one is out of the gamut; it is not clamped.
    pub fn to_linear(self, color_space: ColorSpace) -> (rgb: [i64; 4])
        ensures
            rgb[0] == linear_rgb(color_space@, self).0,
            rgb[1] == linear_rgb(color_space@, self).1,
            rgb[2] == linear_rgb(color_space@, self).2,
            rgb[3] == 0,
    {
        proof {
            use_type_invariant(&color_space);
        }
        [
            color_space.red.apply(self),
            color_space.green.apply(self),
            color_space.blue.apply(self),
            0,
        ]
    }

    /// Projects into a colour space and encodes each channel with its
    /// transfer function, one channel apart from the other. The result is
    /// red, green, blue and an unused fourth component, which is zero.
    pub fn to_nonlinear(self, color_space: ColorSpace) -> (rgb: [i64; 4])
        ensures
            rgb[0] == spec_encode(color_space@.oetf, linear_rgb(color_space@, self).0),
            rgb[1] == spec_encode(color_space@.oetf, linear_rgb(color_space@, self).1),
            rgb[2] == spec_encode(color_space@.oetf, linear_rgb(color_space@, self).2),
            rgb[3] == 0,
    {
        let linear: [i64; 4] = self.to_linear(color_space);
        let oetf: Oetf = color_space.oetf();
        proof {
            lemma_encode_zero(oetf);
        }
        [oetf.encode(linear[0]), oetf.encode(linear[1]), oetf.encode(linear[2]), oetf.encode(linear[3])]
    }
}

/// The chromaticity of the CIE standard illuminant D65.
pub const D65: [i16; 2] = [3127, 3290];

/// The red primary of ITU-R BT.709, which sRGB shares.
pub const BT709_RED: [i16; 2] = [6400, 3300];

/// The green primary of ITU-R BT.709, which sRGB shares.
pub const BT709_GREEN: [i16; 2] = [3000, 6000];

/// The blue primary of ITU-R BT.709, which sRGB shares.
pub const BT709_BLUE: [i16; 2] = [1500, 600];

/// The primaries of BT.709 and the white point D65 define a colour space,
/// with these rows: the matrix from XYZ to linear BT.709.
pub proof fn lemma_bt709_matrix()
    ensures
        well_posed(BT709_RED, BT709_GREEN, BT709_BLUE, D65),
        matrix_row(BT709_GREEN, BT709_BLUE, D65) == (RowView {
            x: 153_972_000_000,
            y: -73_038_000_000,
            z: -23_688_000_000,
            den: 47_508_000_000,
        }),
        matrix_row(BT709_BLUE, BT709_RED, D65) == (RowView {
            x: -85_178_100_000,
            y: 164_861_900_000,
            z: 3_651_900_000,
            den: 87_881_000_000,
        }),
        matrix_row(BT709_RED, BT709_GREEN, D65) == (RowView {
            x: 4_935_000_000,
            y: -18_095_000_000,
            z: 93_765_000_000,
            den: 88_711_000_000,
        }),
{
    assert(matrix_row(BT709_GREEN, BT709_BLUE, D65) == (RowView {
        x: 153_972_000_000,
        y: -73_038_000_000,
        z: -23_688_000_000,
        den: 47_508_000_000,
    })) by {
        lemma_row_known(
            BT709_GREEN, BT709_BLUE, D65,
            3000, 6000, 1000,
            1500, 600, 7900,
            3127, 3290, 3583,
            46_800_000, -22_200_000, -7_200_000,
            47_508_000_000,
            153_972_000_000, -73_038_000_000, -23_688_000_000,
        );
    }
    assert(matrix_row(BT709_BLUE, BT709_RED, D65) == (RowView {
        x: -85_178_100_000,
        y: 164_861_900_000,
        z: 3_651_900_000,
        den: 87_881_000_000,
    })) by {
        lemma_row_known(
            BT709_BLUE, BT709_RED, D65,
            1500, 600, 7900,
            6400, 3300, 300,
            3127, 3290, 3583,
            -25_890_000, 50_110_000, 1_110_000,
            87_881_000_000,
            -85_178_100_000, 164_861_900_000, 3_651_900_000,
        );
    }
    assert(matrix_row(BT709_RED, BT709_GREEN, D65) == (RowView {
        x: 4_935_000_000,
        y: -18_095_000_000,
        z: 93_765_000_000,
        den: 88_711_000_000,
    })) by {
        lemma_row_known(
            BT709_RED, BT709_GREEN, D65,
            6400, 3300, 300,
            3000, 6000, 1000,
            3127, 3290, 3583,
            1_500_000, -5_500_000, 28_500_000,
            88_711_000_000,
            4_935_000_000, -18_095_000_000, 93_765_000_000,
        );
    }
}

/// The colour space of ITU-R BT.709: its primaries, the white point D65 and
/// its transfer function.
pub fn bt709() -> (space: ColorSpace)
    ensures
        space@ == color_space_model(BT709_RED, BT709_GREEN, BT709_BLUE, D65, Oetf::Bt709),
{
    proof {
        lemma_bt709_matrix();
    }
    ColorSpace::new(BT709_RED, BT709_GREEN, BT709_BLUE, D65, Oetf::Bt709)
}

/// The colour space of W3C sRGB: the primaries of BT.709, the white point D65
/// and the transfer function of sRGB.
pub fn srgb() -> (space: ColorSpace)
    ensures
        space@ == color_space_model(BT709_RED, BT709_GREEN, BT709_BLUE, D65, Oetf::Srgb),
{
    proof {
        lemma_bt709_matrix();
    }
    ColorSpace::new(BT709_RED, BT709_GREEN, BT709_BLUE, D65, Oetf::Srgb)
}

/// A colour space is determined by what it was made from: two colour spaces
/// made from the same primaries, white point and transfer function are equal
/// in every field.
pub proof fn lemma_construction_is_deterministic(
    first: ColorSpace,
    second: ColorSpace,
    r: [i16; 2],
    g: [i16; 2],
    b: [i16; 2],
    w: [i16; 2],
    oetf: Oetf,
)
    requires
        first@ == color_space_model(r, g, b, w, oetf),
        second@ == color_space_model(r, g, b, w, oetf),
    ensures
        first == second,
{
    first.red.lemma_view_is_injective(second.red);
    first.green.lemma_view_is_injective(second.green);
    first.blue.lemma_view_is_injective(second.blue);
}

/// A tristimulus value with the chromaticity of the white point maps to equal
/// red, green and blue, each its luminance `y`: white stays white.
pub proof fn lemma_white_point_fidelity(
    r: [i16; 2],
    g: [i16; 2],
    b: [i16; 2],
    w: [i16; 2],
    oetf: Oetf,
    v: Xyz,
)
    requires
        well_posed(r, g, b, w),
        v.x * w[1] == v.y * w[0],
        v.z * w[1] == v.y * (CHROMA_SCALE - w[0] - w[1]),
    ensures
        linear_rgb(color_space_model(r, g, b, w, oetf), v) == (v.y as int, v.y as int, v.y as int),
{
    lemma_row_of_white(g, b, w, v);
    lemma_row_of_white(b, r, w, v);
    lemma_row_of_white(r, g, w, v);
}

} // verus!
