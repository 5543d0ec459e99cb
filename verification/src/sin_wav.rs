//! Parameters of the sine reference waveform.
//!
//! The signal itself is `offset + amplitude * sin(2*pi*freq*t)`; evaluating
//! the sine is left to the caller, which hands samples to the quantizer as
//! exact rationals. This module only carries the waveform parameters.
use vstd::prelude::*;

use crate::ratio::{Ratio, SRatio};

verus! {

/// Holder for sine wave parameters: frequency and amplitude must be
/// positive, the offset may have either sign.
#[derive(Debug, Clone, Copy, PartialEq, Eq, Structural)]
pub struct SinWave {
    pub freq: Ratio,
    pub amplitude: Ratio,
    pub offset: SRatio,
}

impl SinWave {
    /// Frequency and amplitude are positive rationals, the offset a
    /// well-formed signed rational.
    pub open spec fn wf(self) -> bool {
        self.freq.positive() && self.amplitude.positive() && self.offset.wf()
    }

    pub open spec fn spec_freq(self) -> Ratio {
        self.freq
    }

    pub open spec fn spec_amplitude(self) -> Ratio {
        self.amplitude
    }

    pub open spec fn spec_offset(self) -> SRatio {
        self.offset
    }

    /// Create a new instance with zero offset.
    pub fn new(freq: Ratio, amplitude: Ratio) -> (r: SinWave)
        requires
            freq.positive(),
            amplitude.positive(),
        ensures
            r.spec_freq() == freq,
            r.spec_amplitude() == amplitude,
            r.spec_offset() == (SRatio { num: 0i64, den: 1u64 }),
            r.wf(),
    {
        SinWave { freq, amplitude, offset: SRatio::zero() }
    }

    /// Create a new instance with an explicit offset.
    pub fn new_offset(freq: Ratio, amplitude: Ratio, offset: SRatio) -> (r: SinWave)
        requires
            freq.positive(),
            amplitude.positive(),
            offset.wf(),
        ensures
            r.spec_freq() == freq,
            r.spec_amplitude() == amplitude,
            r.spec_offset() == offset,
            r.wf(),
    {
        SinWave { freq, amplitude, offset }
    }

    /// Return the wave amplitude.
    pub fn amplitude(&self) -> (r: Ratio)
        ensures
            r == self.spec_amplitude(),
    {
        self.amplitude
    }

    /// Set the wave amplitude.
    pub fn set_amplitude(&mut self, amplitude: Ratio)
        requires
            amplitude.positive(),
        ensures
            final(self).amplitude == amplitude,
            final(self).freq == old(self).freq,
            final(self).offset == old(self).offset,
            old(self).wf() ==> final(self).wf(),
    {
        self.amplitude = amplitude;
    }

    /// Return the wave frequency.
    pub fn freq(&self) -> (r: Ratio)
        ensures
            r == self.spec_freq(),
    {
        self.freq
    }

    /// Set the wave frequency.
    pub fn set_freq(&mut self, freq: Ratio)
        requires
            freq.positive(),
        ensures
            final(self).freq == freq,
            final(self).amplitude == old(self).amplitude,
            final(self).offset == old(self).offset,
            old(self).wf() ==> final(self).wf(),
    {
        self.freq = freq;
    }

    /// Return the wave offset.
    pub fn offset(&self) -> (r: SRatio)
        ensures
            r == self.spec_offset(),
    {
        self.offset
    }

    /// Set the wave offset.
    pub fn set_offset(&mut self, offset: SRatio)
        requires
            offset.wf(),
        ensures
            final(self).offset == offset,
            final(self).freq == old(self).freq,
            final(self).amplitude == old(self).amplitude,
            old(self).wf() ==> final(self).wf(),
    {
        self.offset = offset;
    }
}

impl Default for SinWave {
    /// A unit wave: 1 Hz, amplitude 1, no offset.
    fn default() -> (r: SinWave)
        ensures
            r.spec_freq() == (Ratio { num: 1u64, den: 1u64 }),
            r.spec_amplitude() == (Ratio { num: 1u64, den: 1u64 }),
            r.spec_offset() == (SRatio { num: 0i64, den: 1u64 }),
            r.wf(),
    {
        SinWave {
            freq: Ratio { num: 1, den: 1 },
            amplitude: Ratio { num: 1, den: 1 },
            offset: SRatio { num: 0, den: 1 },
        }
    }
}

} // verus!
