//! Escape-time fractal engine: the discrete core of the colour mapper and the
//! text format of escape fields, in fixed-point decimal arithmetic.

pub mod decimal;
pub mod field_text;
pub mod color;
pub mod export;
pub mod grid;
pub mod params;
