//! A spectral colour pipeline in exact integer arithmetic.
//!
//! Every real quantity (a wavelength in nanometres, a radiometric power, a
//! colour-matching response, a tristimulus or RGB component) is carried as an
//! `i64` count of millionths. Chromaticity coordinates are `i16` counts of
//! ten-thousandths. The functions compute the exact rational result of their
//! formula and round once, to the nearest millionth (ties upwards); a result
//! beyond the range of `i64` saturates.

pub mod bignat;
pub mod cmf;
pub mod color;
pub mod fixed;
pub mod gamut;
pub mod gauss;
pub mod matrix;
pub mod power;
pub mod spectrum;
pub mod transfer;

pub use cmf::evaluate_cmf;
pub use color::{bt709, srgb, ColorSpace, Spd, Xyz};
pub use fixed::SCALE;
pub use gamut::{clamp_to_gamut, in_gamut};
pub use spectrum::{integrate, uniform_samples};
pub use transfer::Oetf;
