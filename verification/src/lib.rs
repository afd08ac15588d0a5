//! Color-model library: parsing of color strings, exact RGB/HSL conversion
//! over rational numbers, and color-harmony derivation (complement, triads,
//! tetrads) by hue rotation.

pub mod frac;
pub mod color;
pub mod convert;
pub mod harmony;
pub mod parse;
pub mod text;
pub mod laws;
