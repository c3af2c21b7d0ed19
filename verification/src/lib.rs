//! Piecewise-linear calibration of raw analog-to-digital converter codes.
//!
//! A calibration table pairs raw ADC codes with the output values they stand
//! for. Construction validates that the table is sorted by raw code; a query
//! locates the bracketing interval for a code and interpolates linearly
//! between its two entries, or reports that the code lies outside the table.

pub mod adc_interpolator;
pub mod interpolate;

pub use adc_interpolator::{AdcInterpolator, Config};
pub use interpolate::interpolate;
