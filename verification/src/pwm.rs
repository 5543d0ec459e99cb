//! Duty-cycle quantization: maps a waveform sample to an integer duty code.
use vstd::arithmetic::div_mod::{lemma_div_is_ordered, lemma_div_multiples_vanish};
use vstd::arithmetic::mul::{lemma_mul_inequality, lemma_mul_unary_negation};
use vstd::prelude::*;

use crate::DutyCycle;
use crate::ratio::{Ratio, SRatio, lemma_u64_prod_fits};
use crate::sin_wav::SinWave;

verus! {

/// The raw (unclamped) duty code for a sample `sn/sd` of a wave with
/// amplitude `an/ad`: the real value `top/2 * (1 + s/A)` truncated toward
/// zero, written over a common denominator.
pub open spec fn duty_raw(top: int, an: int, ad: int, sn: int, sd: int) -> int {
    (top * (an * sd + sn * ad)) / (2 * (an * sd))
}

/// The clamp applied after quantization. The second branch triggers only
/// when `raw > top + pad`, which no in-range sample produces: the lower
/// bound of the result comes from `raw` itself being nonnegative, and the
/// padding narrows the table only from above.
pub open spec fn duty_clamp(raw: int, top: int, pad: int) -> int {
    if raw + pad > top {
        top - pad
    } else if raw > top + pad {
        pad
    } else {
        raw
    }
}

/// The duty code produced for one sample: quantize, then clamp.
pub open spec fn spec_duty_cycle(top: int, pad: int, an: int, ad: int, sn: int, sd: int) -> int {
    duty_clamp(duty_raw(top, an, ad, sn, sd), top, pad)
}

/// Holder for PWM parameters: the reference wave (offset normalized to
/// zero), the counter top value and the min/max padding.
#[derive(Debug, Clone, Copy, PartialEq, Eq, Structural)]
pub struct PWM {
    pub wave: SinWave,
    pub pwm_top: DutyCycle,
    pub padding: usize,
}

impl PWM {
    /// The wave is well-formed with zero offset, and the padding leaves at
    /// least half the counter range usable.
    pub open spec fn wf(self) -> bool {
        &&& self.wave.wf()
        &&& self.wave.spec_offset().num == 0
        &&& self.padding <= self.pwm_top / 2
    }

    pub open spec fn spec_wave(self) -> SinWave {
        self.wave
    }

    pub open spec fn spec_pwm_top(self) -> DutyCycle {
        self.pwm_top
    }

    pub open spec fn spec_padding(self) -> usize {
        self.padding
    }

    /// Create a new instance. The wave's offset is normalized to zero here:
    /// duty-cycle computation is defined on the centered signal only.
    pub fn new(wave: SinWave, pwm_top: DutyCycle, padding: usize) -> (r: PWM)
        requires
            wave.wf(),
            padding <= pwm_top / 2,
        ensures
            r.spec_wave().spec_freq() == wave.spec_freq(),
            r.spec_wave().spec_amplitude() == wave.spec_amplitude(),
            r.spec_wave().spec_offset() == (SRatio { num: 0i64, den: 1u64 }),
            r.spec_pwm_top() == pwm_top,
            r.spec_padding() == padding,
            r.wf(),
    {
        let mut wave = wave;
        wave.set_offset(SRatio::zero());
        PWM { wave, pwm_top, padding }
    }

    /// Return the wave frequency.
    pub fn freq(&self) -> (r: Ratio)
        ensures
            r == self.spec_wave().spec_freq(),
    {
        self.wave.freq()
    }

    pub fn pwm_top(&self) -> (r: DutyCycle)
        ensures
            r == self.spec_pwm_top(),
    {
        self.pwm_top
    }

    pub fn padding(&self) -> (r: usize)
        ensures
            r == self.spec_padding(),
    {
        self.padding
    }

    /// Whether a sample `s` is a value the wave can take: `|s| <= amplitude`.
    pub open spec fn sample_in_range(self, s: SRatio) -> bool {
        &&& s.wf()
        &&& (if s.num >= 0 {
            s.num * self.wave.spec_amplitude().den <= self.wave.spec_amplitude().num * s.den
        } else {
            -s.num * self.wave.spec_amplitude().den <= self.wave.spec_amplitude().num * s.den
        })
    }

    /// The machine bound under which the quantization arithmetic fits in
    /// 128-bit intermediates.
    pub open spec fn sample_fits(self, sden: int) -> bool {
        self.pwm_top * (2 * (self.wave.spec_amplitude().num * sden)) <= u128::MAX
        && 2 * (self.wave.spec_amplitude().num * sden) <= u128::MAX
    }

    /// The duty code for the waveform sample `s`, an exact rational standing
    /// for the signal value at some instant.
    ///
    /// The result is `top/2 + s*(top/2)/amplitude` truncated toward zero,
    /// clamped by the padding; it always lies in `[0, top]`.
    pub fn duty_cycle(&self, s: SRatio) -> (r: DutyCycle)
        requires
            self.wf(),
            self.sample_in_range(s),
            self.sample_fits(s.den as int),
        ensures
            r == spec_duty_cycle(
                self.spec_pwm_top() as int,
                self.spec_padding() as int,
                self.spec_wave().spec_amplitude().num as int,
                self.spec_wave().spec_amplitude().den as int,
                s.num as int,
                s.den as int,
            ),
            r <= self.spec_pwm_top(),
    {
        let top = self.pwm_top;
        let an = self.wave.amplitude().num;
        let ad = self.wave.amplitude().den;
        let ghost ansd: int = (an as int) * (s.den as int);
        proof {
            lemma_u64_prod_fits(an, s.den);
        }
        let base: u128 = (an as u128) * (s.den as u128);
        assert(base == ansd);
        let off: u128 = if s.num >= 0 {
            proof {
                lemma_u64_prod_fits(s.num as u64, ad);
            }
            (s.num as u128) * (ad as u128)
        } else {
            let mag: u128 = (-(s.num as i128)) as u128;
            proof {
                lemma_u64_prod_fits(mag as u64, ad);
            }
            mag * (ad as u128)
        };
        // |s| <= amplitude keeps `off` within `base` of the centered sum.
        proof {
            if s.num < 0 {
                lemma_mul_unary_negation(s.num as int, ad as int);
            }
        }
        assert(off <= base);
        let sum: u128 = if s.num >= 0 { base + off } else { base - off };
        assert(sum == ansd + (s.num as int) * (ad as int));
        assert(sum <= 2 * ansd);
        proof {
            lemma_mul_inequality(sum as int, 2 * ansd, top as int);
        }
        let num: u128 = (top as u128) * sum;
        let den2: u128 = 2 * base;
        let raw128: u128 = num / den2;
        proof {
            lemma_div_is_ordered(num as int, (top as int) * (2 * ansd), den2 as int);
            lemma_div_multiples_vanish(top as int, 2 * ansd);
        }
        assert(raw128 <= top);
        let raw: usize = raw128 as usize;
        assert(raw == duty_raw(top as int, an as int, ad as int, s.num as int, s.den as int));
        if raw > top - self.padding {
            top - self.padding
        } else if (raw as u128) > (top as u128) + (self.padding as u128) {
            self.padding
        } else {
            raw
        }
    }

    /// Quantize a whole series of samples, all written over the common
    /// denominator `scale`; element `i` of the result is the duty code of
    /// `samples[i] / scale`.
    pub fn duty_cycles(&self, samples: &Vec<i64>, scale: u64) -> (r: Vec<DutyCycle>)
        requires
            self.wf(),
            scale > 0,
            forall|i: int|
                0 <= i < samples@.len() ==> self.sample_in_range(
                    SRatio { num: samples@[i], den: scale },
                ),
            self.sample_fits(scale as int),
        ensures
            r@.len() == samples@.len(),
            forall|i: int|
                0 <= i < r@.len() ==> r@[i] == spec_duty_cycle(
                    self.spec_pwm_top() as int,
                    self.spec_padding() as int,
                    self.spec_wave().spec_amplitude().num as int,
                    self.spec_wave().spec_amplitude().den as int,
                    samples@[i] as int,
                    scale as int,
                ),
            forall|i: int| 0 <= i < r@.len() ==> r@[i] <= self.spec_pwm_top(),
    {
        let mut out: Vec<DutyCycle> = Vec::new();
        let mut i: usize = 0;
        while i < samples.len()
            invariant
                self.wf(),
                scale > 0,
                forall|j: int|
                    0 <= j < samples@.len() ==> self.sample_in_range(
                        SRatio { num: samples@[j], den: scale },
                    ),
                self.sample_fits(scale as int),
                i <= samples@.len(),
                out@.len() == i,
                forall|j: int|
                    0 <= j < i ==> out@[j] == spec_duty_cycle(
                        self.spec_pwm_top() as int,
                        self.spec_padding() as int,
                        self.spec_wave().spec_amplitude().num as int,
                        self.spec_wave().spec_amplitude().den as int,
                        samples@[j] as int,
                        scale as int,
                    ),
                forall|j: int| 0 <= j < i ==> out@[j] <= self.spec_pwm_top(),
            decreases samples@.len() - i,
        {
            let s = SRatio { num: samples[i], den: scale };
            out.push(self.duty_cycle(s));
            i = i + 1;
        }
        out
    }
}

} // verus!
