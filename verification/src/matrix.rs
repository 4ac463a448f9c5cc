//! The rows of a matrix from XYZ to RGB, derived from chromaticities.
//!
//! A row is kept as three numerators over one denominator, so that nothing
//! is rounded before the row is applied.

use vstd::prelude::*;
use crate::color::Xyz;
use crate::fixed::{clamp_i64, div_round, lemma_round_div_bounds, round_div, saturate};

verus! {

/// The number of units in 1.0 of a chromaticity coordinate: ten-thousandths.
pub const CHROMA_SCALE: i64 = 10_000;

/// The `(x, y, z)` of a chromaticity `(x, y)`, with `z = 1 - x - y`.
pub open spec fn chroma_xyz(c: [i16; 2]) -> (int, int, int) {
    (c[0] as int, c[1] as int, CHROMA_SCALE - c[0] - c[1])
}

/// The cross product of two vectors.
pub open spec fn cross(p: (int, int, int), q: (int, int, int)) -> (int, int, int) {
    (p.1 * q.2 - q.1 * p.2, q.0 * p.2 - p.0 * q.2, p.0 * q.1 - q.0 * p.1)
}

/// The dot product of two vectors.
pub open spec fn dot(p: (int, int, int), q: (int, int, int)) -> int {
    p.0 * q.0 + p.1 * q.1 + p.2 * q.2
}

/// One row of a matrix from XYZ to RGB, as the three fractions `x / den`,
/// `y / den` and `z / den`.
pub struct RowView {
    pub x: int,
    pub y: int,
    pub z: int,
    pub den: int,
}

/// The row of the primary opposite `p` and `q`, scaled for the white point `w`:
/// the cross product of `p` and `q`, divided by its scale factor
/// `dot(cross(p, q), w) / w.y`. The denominator is kept positive.
pub open spec fn matrix_row(p: [i16; 2], q: [i16; 2], w: [i16; 2]) -> RowView {
    let c = cross(chroma_xyz(p), chroma_xyz(q));
    let d = dot(c, chroma_xyz(w));
    let s = w[1] as int;
    if d < 0 {
        RowView { x: -(c.0 * s), y: -(c.1 * s), z: -(c.2 * s), den: -d }
    } else {
        RowView { x: c.0 * s, y: c.1 * s, z: c.2 * s, den: d }
    }
}

/// What a row gives for a tristimulus value: the exact sum of products,
/// rounded to the nearest unit and kept within `i64`.
pub open spec fn row_apply(row: RowView, x: int, y: int, z: int) -> int {
    clamp_i64(round_div(row.x * x + row.y * y + row.z * z, row.den))
}

/// Whether primaries and white point define a colour space: the white point
/// has a luminance, and none of the three scale factors is zero.
pub open spec fn well_posed(r: [i16; 2], g: [i16; 2], b: [i16; 2], w: [i16; 2]) -> bool {
    &&& w[1] != 0
    &&& matrix_row(g, b, w).den != 0
    &&& matrix_row(b, r, w).den != 0
    &&& matrix_row(r, g, w).den != 0
}

/// A matrix row as it is stored: numerators and a positive denominator.
#[derive(Clone, Copy, Debug, PartialEq, Eq)]
pub(crate) struct Row {
    x: i64,
    y: i64,
    z: i64,
    den: i64,
}

/// The largest magnitude of a stored numerator.
pub(crate) const NUM_LIMIT: i64 = 0x1_0000_0000_0000;

/// The largest stored denominator.
pub(crate) const DEN_LIMIT: i64 = 0x2_0000_0000_0000;

impl Row {
    pub(crate) closed spec fn wf(self) -> bool {
        &&& 0 < self.den <= DEN_LIMIT
        &&& -NUM_LIMIT <= self.x <= NUM_LIMIT
        &&& -NUM_LIMIT <= self.y <= NUM_LIMIT
        &&& -NUM_LIMIT <= self.z <= NUM_LIMIT
    }

    pub(crate) closed spec fn view(self) -> RowView {
        RowView { x: self.x as int, y: self.y as int, z: self.z as int, den: self.den as int }
    }

    /// The scale factor's numerator for the row opposite `p` and `q`.
    pub(crate) fn scale(p: [i16; 2], q: [i16; 2], w: [i16; 2]) -> (d: i64)
        ensures
            d == dot(cross(chroma_xyz(p), chroma_xyz(q)), chroma_xyz(w)),
            -DEN_LIMIT <= d <= DEN_LIMIT,
    {
        let (px, py): (i64, i64) = (p[0] as i64, p[1] as i64);
        let (qx, qy): (i64, i64) = (q[0] as i64, q[1] as i64);
        let (wx, wy): (i64, i64) = (w[0] as i64, w[1] as i64);
        let pz: i64 = CHROMA_SCALE - px - py;
        let qz: i64 = CHROMA_SCALE - qx - qy;
        let wz: i64 = CHROMA_SCALE - wx - wy;
        proof {
            lemma_cross_bounds(px as int, py as int, pz as int, qx as int, qy as int, qz as int);
            lemma_scaled_bounds(
                py * qz - qy * pz,
                qx * pz - px * qz,
                px * qy - qx * py,
                wx as int,
                wy as int,
                wz as int,
            );
        }
        let cx: i64 = py * qz - qy * pz;
        let cy: i64 = qx * pz - px * qz;
        let cz: i64 = px * qy - qx * py;
        cx * wx + cy * wy + cz * wz
    }

    /// The row opposite `p` and `q`, scaled for the white point `w`.
    pub(crate) fn new(p: [i16; 2], q: [i16; 2], w: [i16; 2]) -> (row: Row)
        requires
            matrix_row(p, q, w).den != 0,
        ensures
            row.wf(),
            row.view() == matrix_row(p, q, w),
    {
        let (px, py): (i64, i64) = (p[0] as i64, p[1] as i64);
        let (qx, qy): (i64, i64) = (q[0] as i64, q[1] as i64);
        let wy: i64 = w[1] as i64;
        let pz: i64 = CHROMA_SCALE - px - py;
        let qz: i64 = CHROMA_SCALE - qx - qy;
        proof {
            lemma_cross_bounds(px as int, py as int, pz as int, qx as int, qy as int, qz as int);
            lemma_scaled_bounds(
                py * qz - qy * pz,
                qx * pz - px * qz,
                px * qy - qx * py,
                w[0] as int,
                wy as int,
                CHROMA_SCALE - w[0] - w[1],
            );
        }
        let cx: i64 = py * qz - qy * pz;
        let cy: i64 = qx * pz - px * qz;
        let cz: i64 = px * qy - qx * py;
        let d: i64 = Row::scale(p, q, w);
        if d < 0 {
            Row { x: -(cx * wy), y: -(cy * wy), z: -(cz * wy), den: -d }
        } else {
            Row { x: cx * wy, y: cy * wy, z: cz * wy, den: d }
        }
    }

    /// Two rows that stand for the same fractions are the same row.
    pub(crate) proof fn lemma_view_is_injective(self, other: Row)
        requires
            self.view() == other.view(),
        ensures
            self == other,
    {
    }

    /// Applies the row to a tristimulus value.
    pub(crate) fn apply(self, v: Xyz) -> (c: i64)
        requires
            self.wf(),
        ensures
            c == row_apply(self.view(), v.x as int, v.y as int, v.z as int),
    {
        proof {
            lemma_product_bound(self.x as int, v.x as int);
            lemma_product_bound(self.y as int, v.y as int);
            lemma_product_bound(self.z as int, v.z as int);
        }
        let sum: i128 = (self.x as i128) * (v.x as i128) + (self.y as i128) * (v.y as i128) + (
        self.z as i128) * (v.z as i128);
        saturate(div_round(sum, self.den as i128))
    }
}

/// Works a row out from coordinates that are known: those of `p`, `q` and
/// `w`, the cross product `(cx, cy, cz)`, its scale `d` and the numerators
/// `(nx, ny, nz)`.
pub(crate) proof fn lemma_row_known(
    p: [i16; 2],
    q: [i16; 2],
    w: [i16; 2],
    px: int,
    py: int,
    pz: int,
    qx: int,
    qy: int,
    qz: int,
    wx: int,
    wy: int,
    wz: int,
    cx: int,
    cy: int,
    cz: int,
    d: int,
    nx: int,
    ny: int,
    nz: int,
)
    requires
        chroma_xyz(p) == (px, py, pz),
        chroma_xyz(q) == (qx, qy, qz),
        chroma_xyz(w) == (wx, wy, wz),
        cx == py * qz - qy * pz,
        cy == qx * pz - px * qz,
        cz == px * qy - qx * py,
        d == cx * wx + cy * wy + cz * wz,
        d > 0,
        nx == cx * wy,
        ny == cy * wy,
        nz == cz * wy,
    ensures
        matrix_row(p, q, w) == (RowView { x: nx, y: ny, z: nz, den: d }),
{
}

/// One row of a colour space gives the luminance of a tristimulus value that
/// has the chromaticity of the white point.
pub(crate) proof fn lemma_row_of_white(p: [i16; 2], q: [i16; 2], w: [i16; 2], v: Xyz)
    requires
        matrix_row(p, q, w).den != 0,
        v.x * w[1] == v.y * w[0],
        v.z * w[1] == v.y * (CHROMA_SCALE - w[0] - w[1]),
    ensures
        row_apply(matrix_row(p, q, w), v.x as int, v.y as int, v.z as int) == v.y,
{
    let c = cross(chroma_xyz(p), chroma_xyz(q));
    let (wx, wy, wz) = chroma_xyz(w);
    let (x, y, z) = (v.x as int, v.y as int, v.z as int);
    let d = dot(c, chroma_xyz(w));
    let row = matrix_row(p, q, w);
    lemma_exchange(c.0, wy, x, y, wx);
    lemma_exchange(c.1, wy, y, y, wy);
    lemma_exchange(c.2, wy, z, y, wz);
    assert(y * (c.0 * wx) + y * (c.1 * wy) + y * (c.2 * wz) == y * d) by (nonlinear_arith)
        requires
            d == c.0 * wx + c.1 * wy + c.2 * wz,
    ;
    assert(row.x * x + row.y * y + row.z * z == y * row.den) by (nonlinear_arith)
        requires
            (c.0 * wy) * x + (c.1 * wy) * y + (c.2 * wy) * z == y * d,
            (row.x == c.0 * wy && row.y == c.1 * wy && row.z == c.2 * wy && row.den == d) || (row.x
                == -(c.0 * wy) && row.y == -(c.1 * wy) && row.z == -(c.2 * wy) && row.den == -d),
    ;
    lemma_round_div_bounds(y * row.den, row.den, y);
}

/// Moves a factor across an equation of two products.
proof fn lemma_exchange(c: int, s: int, x: int, y: int, t: int)
    by (nonlinear_arith)
    requires
        x * s == y * t,
    ensures
        (c * s) * x == y * (c * t),
{
    assert((c * s) * x == c * (x * s));
    assert(c * (y * t) == y * (c * t));
}

/// The limits of a cross product of two chromaticities.
proof fn lemma_cross_bounds(px: int, py: int, pz: int, qx: int, qy: int, qz: int)
    by (nonlinear_arith)
    requires
        -32768 <= px <= 32767,
        -32768 <= py <= 32767,
        -55534 <= pz <= 75536,
        -32768 <= qx <= 32767,
        -32768 <= qy <= 32767,
        -55534 <= qz <= 75536,
    ensures
        -2475163648 <= py * qz <= 2475163648,
        -2475163648 <= qy * pz <= 2475163648,
        -2475163648 <= qx * pz <= 2475163648,
        -2475163648 <= px * qz <= 2475163648,
        -1073741824 <= px * qy <= 1073741824,
        -1073741824 <= qx * py <= 1073741824,
{
}

/// The limits of a cross product multiplied by the coordinates of a white point.
proof fn lemma_scaled_bounds(cx: int, cy: int, cz: int, wx: int, wy: int, wz: int)
    by (nonlinear_arith)
    requires
        -4950327296 <= cx <= 4950327296,
        -4950327296 <= cy <= 4950327296,
        -2147483648 <= cz <= 2147483648,
        -32768 <= wx <= 32767,
        -32768 <= wy <= 32767,
        -55534 <= wz <= 75536,
    ensures
        -162212324835328 <= cx * wx <= 162212324835328,
        -162212324835328 <= cy * wy <= 162212324835328,
        -162212324835328 <= cx * wy <= 162212324835328,
        -162212324835328 <= cz * wy <= 162212324835328,
        -162212324835328 <= cz * wz <= 162212324835328,
{
}

/// The limit of a stored numerator multiplied by a tristimulus component.
proof fn lemma_product_bound(n: int, v: int)
    by (nonlinear_arith)
    requires
        -0x1_0000_0000_0000 <= n <= 0x1_0000_0000_0000,
        -0x8000_0000_0000_0000 <= v <= 0x7fff_ffff_ffff_ffff,
    ensures
        -0x8000_0000_0000_0000_0000_0000_0000 <= n * v <= 0x8000_0000_0000_0000_0000_0000_0000,
{
}

} // verus!
