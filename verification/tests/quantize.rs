use spwm_generator::pwm::PWM;
use spwm_generator::ratio::{Ratio, SRatio};
use spwm_generator::sin_wav::SinWave;
use spwm_generator::spwm::SPWM;

fn unit_wave() -> SinWave {
    SinWave::new(Ratio { num: 1, den: 1 }, Ratio { num: 1, den: 1 })
}

fn s(num: i64, den: u64) -> SRatio {
    SRatio { num, den }
}

/// Scaled sine samples as the binary hands them to the library.
fn sine_samples(freq: f64, count: usize, step: f64, scale: i64) -> Vec<i64> {
    (0..count)
        .map(|i| {
            let v = (2.0 * std::f64::consts::PI * freq * (i as f64) * step).sin();
            let n = (v * scale as f64) as i64;
            n.clamp(-scale, scale)
        })
        .collect()
}

#[test]
fn duty_cycle_center_is_half_top() {
    let pwm = PWM::new(unit_wave(), 255, 0);
    assert_eq!(pwm.duty_cycle(s(0, 1)), 127);
}

#[test]
fn duty_cycle_peak_is_top() {
    let pwm = PWM::new(unit_wave(), 255, 0);
    assert_eq!(pwm.duty_cycle(s(1, 1)), 255);
}

#[test]
fn duty_cycle_trough_is_zero() {
    let pwm = PWM::new(unit_wave(), 255, 0);
    assert_eq!(pwm.duty_cycle(s(-1, 1)), 0);
}

#[test]
fn duty_cycle_quarter_amplitude() {
    // top/2 * (1 + 1/2) = 191.25, truncated to 191
    let pwm = PWM::new(unit_wave(), 255, 0);
    assert_eq!(pwm.duty_cycle(s(1, 2)), 191);
}

#[test]
fn padding_clamps_the_peak() {
    let pwm = PWM::new(unit_wave(), 255, 10);
    assert_eq!(pwm.duty_cycle(s(1, 1)), 245);
}

#[test]
fn padding_does_not_lift_the_trough() {
    // The lower clamp branch tests `raw > top + padding`, which an in-range
    // sample never reaches, so the trough stays at zero.
    let pwm = PWM::new(unit_wave(), 255, 10);
    assert_eq!(pwm.duty_cycle(s(-1, 1)), 0);
}

#[test]
fn table_entries_stay_in_range() {
    let scale: i64 = 1 << 30;
    let samples = sine_samples(50.0, 64, 0.0003125, scale);
    let spwm = SPWM::new(Ratio { num: 50, den: 1 }, 64, Ratio { num: 1, den: 3200 }, 255, 0);
    let table = spwm.lookup_table(&samples, scale as u64);
    assert_eq!(table.len(), 64);
    for v in &table {
        assert!(*v <= 255);
    }
}

#[test]
fn table_respects_amplitude_division() {
    // Amplitude 2: a sample of 1 is half scale, as 1/2 was for amplitude 1.
    let wave = SinWave::new(Ratio { num: 1, den: 1 }, Ratio { num: 2, den: 1 });
    let pwm = PWM::new(wave, 255, 0);
    assert_eq!(pwm.duty_cycle(s(1, 1)), 191);
}

#[test]
fn table_not_zero_pad_is_identity() {
    let spwm = SPWM::new(Ratio { num: 50, den: 1 }, 3, Ratio { num: 1, den: 100 }, 255, 0);
    let table = vec![0usize, 127, 255];
    let shifted = spwm.table_not(&table, Ratio { num: 0, den: 1 });
    assert_eq!(shifted, table);
}

#[test]
fn table_not_shifts_down_and_clamps() {
    // p = floor(pad * top / step) = (1 * 255 * 100) / (25500 * 1) = 1
    let spwm = SPWM::new(Ratio { num: 50, den: 1 }, 3, Ratio { num: 1, den: 100 }, 255, 0);
    let table = vec![5usize, 0, 255];
    let shifted = spwm.table_not(&table, Ratio { num: 1, den: 25500 });
    assert_eq!(shifted, vec![4usize, 0, 254]);
}

#[test]
fn table_not_large_pad_floors_at_zero() {
    // p = (1 * 255 * 100) / (100 * 1) = 255
    let spwm = SPWM::new(Ratio { num: 50, den: 1 }, 3, Ratio { num: 1, den: 100 }, 255, 0);
    let table = vec![5usize, 200, 255];
    let shifted = spwm.table_not(&table, Ratio { num: 1, den: 100 });
    assert_eq!(shifted, vec![0usize, 0, 0]);
}

#[test]
fn wave_parameter_handling() {
    let mut w = SinWave::default();
    assert_eq!(w.freq(), Ratio { num: 1, den: 1 });
    assert_eq!(w.amplitude(), Ratio { num: 1, den: 1 });
    assert_eq!(w.offset(), SRatio { num: 0, den: 1 });
    w.set_freq(Ratio { num: 60, den: 1 });
    w.set_amplitude(Ratio { num: 3, den: 2 });
    w.set_offset(SRatio { num: -1, den: 4 });
    assert_eq!(w.freq(), Ratio { num: 60, den: 1 });
    assert_eq!(w.amplitude(), Ratio { num: 3, den: 2 });
    assert_eq!(w.offset(), SRatio { num: -1, den: 4 });
}

#[test]
fn pwm_construction_zeroes_offset() {
    let w = SinWave::new_offset(
        Ratio { num: 1, den: 1 },
        Ratio { num: 1, den: 1 },
        SRatio { num: 1, den: 2 },
    );
    let pwm = PWM::new(w, 255, 0);
    assert_eq!(pwm.freq(), Ratio { num: 1, den: 1 });
    assert_eq!(pwm.pwm_top(), 255);
    assert_eq!(pwm.padding(), 0);
    // The offset was normalized away: a zero sample still maps to the center.
    assert_eq!(pwm.duty_cycle(s(0, 1)), 127);
}
