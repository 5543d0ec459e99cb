//! The SPWM table builder: timing reconciliation, table construction, and
//! the complementary ("inverted") table.
use vstd::prelude::*;

use crate::DutyCycle;
use crate::errors::SpwmError;
use crate::pwm::{PWM, spec_duty_cycle};
use crate::ratio::{Ratio, SRatio, lemma_u64_prod_fits};
use crate::sin_wav::SinWave;

verus! {

/// The integer offset a real-time pad of `pad` seconds becomes in a table
/// with counter top `top` and sample step `step` seconds:
/// `floor(pad * top / step)`.
pub open spec fn spec_pad_offset(pad: Ratio, top: int, step: Ratio) -> int {
    (pad.num * (top * step.den)) / (pad.den * step.num)
}

/// One entry of the complementary table: `clamp(t - p, 0, top)`.
pub open spec fn clamp_sub(t: usize, p: int, top: usize) -> usize {
    if t - p > top {
        top
    } else if t - p < 0 {
        0usize
    } else {
        (t - p) as usize
    }
}

/// The complementary table: every entry shifted down by `p`, clamped into
/// `[0, top]`.
pub open spec fn spec_table_not(table: Seq<DutyCycle>, p: int, top: usize) -> Seq<DutyCycle> {
    table.map_values(|t: DutyCycle| clamp_sub(t, p, top))
}

/// Shifting a table by a zero pad leaves every entry unchanged, provided the
/// entries lie in `[0, top]` as every built table's do.
pub proof fn lemma_table_not_zero_pad(table: Seq<DutyCycle>, pad: Ratio, top: usize, step: Ratio)
    requires
        pad.wf(),
        pad.num == 0,
        step.positive(),
        forall|i: int| 0 <= i < table.len() ==> table[i] <= top,
    ensures
        spec_pad_offset(pad, top as int, step) == 0,
        spec_table_not(table, spec_pad_offset(pad, top as int, step), top) == table,
{
    assert(pad.num * (top as int * step.den) == 0) by (nonlinear_arith)
        requires
            pad.num == 0,
    ;
    assert(pad.den * step.num > 0) by (nonlinear_arith)
        requires
            pad.den > 0,
            step.num > 0,
    ;
    assert(spec_pad_offset(pad, top as int, step) == 0);
    assert(spec_table_not(table, 0, top) =~= table);
}

/// A built table always has exactly the resolved number of entries: one duty
/// code per sample slot, and `new` has already normalized a zero count to
/// one.
pub proof fn lemma_table_length(spwm: SPWM, samples: Seq<i64>, scale: int)
    requires
        spwm.wf(),
        samples.len() == spwm.num_of_samples,
    ensures
        spwm.spec_table(samples, scale).len() == spwm.num_of_samples,
        spwm.spec_table(samples, scale).len() >= 1,
{
}

/// Hold SPWM parameters: the quantizer, the number of table entries and the
/// sample step in seconds.
#[derive(Debug, Clone, Copy, PartialEq, Eq, Structural)]
pub struct SPWM {
    pub pwm: PWM,
    pub num_of_samples: usize,
    pub step: Ratio,
}

impl SPWM {
    /// The table this instance builds from the given samples: entry `i` is
    /// the quantized duty code of `samples[i] / scale`.
    pub open spec fn spec_table(self, samples: Seq<i64>, scale: int) -> Seq<DutyCycle> {
        Seq::new(
            samples.len(),
            |i: int|
                spec_duty_cycle(
                    self.pwm.pwm_top as int,
                    self.pwm.padding as int,
                    self.pwm.wave.amplitude.num as int,
                    self.pwm.wave.amplitude.den as int,
                    samples[i] as int,
                    scale,
                ) as DutyCycle,
        )
    }

    /// The quantizer is well-formed, the table has at least one entry, and
    /// the step is a positive time.
    pub open spec fn wf(self) -> bool {
        &&& self.pwm.wf()
        &&& self.num_of_samples >= 1
        &&& self.step.positive()
    }

    /// Reconcile the timing parameters into a sample count and step.
    ///
    /// A given carrier frequency dominates: the step is its period and the
    /// count is `floor(duration / step)`. Otherwise whichever of count/step
    /// is missing is derived from the other and the duration; with both
    /// given, both are used as they stand; with neither, resolution fails.
    /// Deriving the step divides the duration by the count, so a lone count
    /// must be positive; a count of zero is normalized later, by `new`.
    pub fn convert(
        duration: Ratio,
        num_of_samples: Option<usize>,
        step: Option<Ratio>,
        carrier_freq: Option<Ratio>,
    ) -> (r: Result<(usize, Ratio), SpwmError>)
        requires
            duration.wf(),
            (match carrier_freq {
                Some(c) => c.positive() && duration.num * c.num / (duration.den * c.den)
                    <= usize::MAX,
                None => match (num_of_samples, step) {
                    (None, Some(s)) => s.positive() && duration.num * s.den / (duration.den
                        * s.num) <= usize::MAX,
                    (Some(_), Some(s)) => s.positive(),
                    (Some(n), None) => n > 0 && duration.den * n <= u64::MAX,
                    (None, None) => true,
                },
            }),
        ensures
            r == (match carrier_freq {
                Some(c) => Ok::<(usize, Ratio), SpwmError>(
                    (
                        (duration.num * c.num / (duration.den * c.den)) as usize,
                        Ratio { num: c.den, den: c.num },
                    ),
                ),
                None => match (num_of_samples, step) {
                    (Some(n), Some(s)) => Ok((n, s)),
                    (None, Some(s)) => Ok(
                        ((duration.num * s.den / (duration.den * s.num)) as usize, s),
                    ),
                    (Some(n), None) => Ok(
                        (n, Ratio { num: duration.num, den: (duration.den * n) as u64 }),
                    ),
                    (None, None) => Err(SpwmError::ParameterResolution),
                },
            }),
    {
        if let Some(freq) = carrier_freq {
            let s = freq.invert();
            let n64 = duration.div_floor(s);
            assert(duration.num * s.den / (duration.den * s.num) == duration.num * freq.num / (
            duration.den * freq.den));
            Ok((n64 as usize, s))
        } else {
            match (num_of_samples, step) {
                (Some(n), Some(s)) => Ok((n, s)),
                (None, Some(s)) => {
                    let n64 = duration.div_floor(s);
                    Ok((n64 as usize, s))
                },
                (Some(n), None) => {
                    proof {
                        lemma_u64_prod_fits(duration.den, n as u64);
                    }
                    let den: u64 = duration.den * (n as u64);
                    Ok((n, Ratio { num: duration.num, den }))
                },
                (None, None) => Err(SpwmError::ParameterResolution),
            }
        }
    }

    /// Create a new instance. The reference wave gets unit amplitude, and a
    /// zero sample count is normalized to one: a table has at least one
    /// entry.
    pub fn new(
        sin_freq: Ratio,
        num_of_samples: usize,
        step: Ratio,
        pwm_top: DutyCycle,
        padding: usize,
    ) -> (r: SPWM)
        requires
            sin_freq.positive(),
            step.positive(),
            padding <= pwm_top / 2,
        ensures
            r.pwm.wave.spec_freq() == sin_freq,
            r.pwm.wave.spec_amplitude() == (Ratio { num: 1u64, den: 1u64 }),
            r.pwm.spec_pwm_top() == pwm_top,
            r.pwm.spec_padding() == padding,
            r.num_of_samples == if num_of_samples == 0 {
                1usize
            } else {
                num_of_samples
            },
            r.step == step,
            r.wf(),
    {
        SPWM {
            pwm: PWM::new(SinWave::new(sin_freq, Ratio::new(1, 1)), pwm_top, padding),
            num_of_samples: if num_of_samples == 0 {
                1
            } else {
                num_of_samples
            },
            step,
        }
    }

    /// Return the number of table entries.
    pub fn num_of_samples(&self) -> (r: usize)
        ensures
            r == self.num_of_samples,
    {
        self.num_of_samples
    }

    /// Set the number of table entries.
    pub fn set_num_of_samples(&mut self, num_of_samples: usize)
        requires
            num_of_samples >= 1,
        ensures
            final(self).num_of_samples == num_of_samples,
            final(self).pwm == old(self).pwm,
            final(self).step == old(self).step,
            old(self).wf() ==> final(self).wf(),
    {
        self.num_of_samples = num_of_samples;
    }

    pub fn sin_freq(&self) -> (r: Ratio)
        ensures
            r == self.pwm.wave.spec_freq(),
    {
        self.pwm.freq()
    }

    pub fn pwm_top(&self) -> (r: DutyCycle)
        ensures
            r == self.pwm.spec_pwm_top(),
    {
        self.pwm.pwm_top()
    }

    /// The carrier frequency is the inverse of the sample step.
    pub fn carrier_freq(&self) -> (r: Ratio)
        requires
            self.step.positive(),
        ensures
            r == (Ratio { num: self.step.den, den: self.step.num }),
            r.positive(),
    {
        self.step.invert()
    }

    pub fn step(&self) -> (r: Ratio)
        ensures
            r == self.step,
    {
        self.step
    }

    pub fn set_step(&mut self, step: Ratio)
        requires
            step.positive(),
        ensures
            final(self).step == step,
            final(self).pwm == old(self).pwm,
            final(self).num_of_samples == old(self).num_of_samples,
            old(self).wf() ==> final(self).wf(),
    {
        self.step = step;
    }

    /// Generate the lookup table from the waveform samples, one rational
    /// `samples[i] / scale` per table entry; entry `i` is the quantized duty
    /// code of sample `i`, and the table has exactly `num_of_samples`
    /// entries, each in `[0, pwm_top]`.
    pub fn lookup_table(&self, samples: &Vec<i64>, scale: u64) -> (r: Vec<DutyCycle>)
        requires
            self.wf(),
            scale > 0,
            samples@.len() == self.num_of_samples,
            forall|i: int|
                0 <= i < samples@.len() ==> self.pwm.sample_in_range(
                    SRatio { num: samples@[i], den: scale },
                ),
            self.pwm.sample_fits(scale as int),
        ensures
            r@.len() == self.num_of_samples,
            forall|i: int|
                0 <= i < r@.len() ==> r@[i] == spec_duty_cycle(
                    self.pwm.spec_pwm_top() as int,
                    self.pwm.spec_padding() as int,
                    self.pwm.spec_wave().spec_amplitude().num as int,
                    self.pwm.spec_wave().spec_amplitude().den as int,
                    samples@[i] as int,
                    scale as int,
                ),
            forall|i: int| 0 <= i < r@.len() ==> r@[i] <= self.pwm.spec_pwm_top(),
            r@ == self.spec_table(samples@, scale as int),
    {
        let r = self.pwm.duty_cycles(samples, scale);
        proof {
            assert(r@ =~= self.spec_table(samples@, scale as int));
        }
        r
    }

    /// Derive the complementary table: shift every entry down by the integer
    /// offset that `pad` seconds of dead time become in this table's alphabet,
    /// clamping into `[0, pwm_top]`.
    pub fn table_not(&self, table: &Vec<DutyCycle>, pad: Ratio) -> (r: Vec<DutyCycle>)
        requires
            self.wf(),
            pad.wf(),
            pad.num * (self.pwm.spec_pwm_top() * self.step.den) <= u128::MAX,
        ensures
            r@ == spec_table_not(
                table@,
                spec_pad_offset(pad, self.pwm.spec_pwm_top() as int, self.step),
                self.pwm.spec_pwm_top(),
            ),
            r@.len() == table@.len(),
    {
        let top = self.pwm.pwm_top();
        proof {
            lemma_u64_prod_fits(top as u64, self.step.den);
            lemma_u64_prod_fits(pad.den, self.step.num);
        }
        let tsd: u128 = (top as u128) * (self.step.den as u128);
        let pn: u128 = (pad.num as u128) * tsd;
        let pd: u128 = (pad.den as u128) * (self.step.num as u128);
        let p: u128 = pn / pd;
        let ghost poff: int = spec_pad_offset(pad, top as int, self.step);
        assert(p == poff);
        let mut out: Vec<DutyCycle> = Vec::new();
        let mut i: usize = 0;
        while i < table.len()
            invariant
                i <= table@.len(),
                out@.len() == i,
                p == poff,
                top == self.pwm.spec_pwm_top(),
                forall|j: int| 0 <= j < i ==> out@[j] == clamp_sub(table@[j], poff, top),
            decreases table@.len() - i,
        {
            let t = table[i];
            let v: DutyCycle = if (t as u128) >= p {
                let d = t - (p as usize);
                if d > top {
                    top
                } else {
                    d
                }
            } else {
                0
            };
            assert(v == clamp_sub(table@[i as int], poff, top));
            out.push(v);
            i = i + 1;
        }
        proof {
            assert(out@ =~= spec_table_not(table@, poff, top));
        }
        out
    }
}

} // verus!
