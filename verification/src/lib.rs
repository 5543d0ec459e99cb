//! Generator for sinusoidal pulse-width-modulation (SPWM) duty-cycle lookup
//! tables.
//!
//! The library works over exact integer rationals: callers hand it waveform
//! samples and timing parameters as rational numbers, and every table entry,
//! timing resolution and rendered output byte is specified and verified here.
//! Sampling the sine itself, file handling and plotting are left to the
//! binary around the library.
use vstd::prelude::*;

pub mod errors;
pub mod pwm;
pub mod ratio;
pub mod render;
pub mod sections;
pub mod sin_wav;
pub mod spwm;
pub mod text;

verus! {

/// A single entry of a PWM lookup table: an integer duty code in
/// `[0, pwm_top]`.
pub type DutyCycle = usize;

} // verus!
