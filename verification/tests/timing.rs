use spwm_generator::errors::SpwmError;
use spwm_generator::ratio::Ratio;
use spwm_generator::spwm::SPWM;

fn r(num: u64, den: u64) -> Ratio {
    Ratio { num, den }
}

#[test]
fn resolve_carrier_dominates() {
    let out = SPWM::convert(r(1, 1), None, None, Some(r(100, 1))).unwrap();
    assert_eq!(out.0, 100);
    assert_eq!(out.1, r(1, 100));
}

#[test]
fn resolve_carrier_overrides_count_and_step() {
    let out = SPWM::convert(r(1, 1), Some(7), Some(r(1, 3)), Some(r(100, 1))).unwrap();
    assert_eq!(out.0, 100);
    assert_eq!(out.1, r(1, 100));
}

#[test]
fn resolve_step_from_count() {
    let out = SPWM::convert(r(1, 1), Some(10), None, None).unwrap();
    assert_eq!(out.0, 10);
    // step = duration / count = 1/10
    assert_eq!(out.1, r(1, 10));
}

#[test]
fn resolve_count_from_step() {
    let out = SPWM::convert(r(2, 1), None, Some(r(1, 4)), None).unwrap();
    assert_eq!(out.0, 8);
    assert_eq!(out.1, r(1, 4));
}

#[test]
fn resolve_both_given_used_as_is() {
    let out = SPWM::convert(r(1, 1), Some(5), Some(r(1, 3)), None).unwrap();
    assert_eq!(out.0, 5);
    assert_eq!(out.1, r(1, 3));
}

#[test]
fn resolve_nothing_errors() {
    let out = SPWM::convert(r(1, 1), None, None, None);
    assert_eq!(out, Err(SpwmError::ParameterResolution));
}

#[test]
fn error_messages_name_the_cause() {
    assert!(SpwmError::ParameterResolution.message().contains("num_of_samples"));
    let e = SpwmError::UnterminatedSection { index: 3 };
    assert!(e.message().contains("never closed"));
}

#[test]
fn zero_count_normalizes_to_one() {
    let spwm = SPWM::new(r(50, 1), 0, r(1, 100), 255, 0);
    assert_eq!(spwm.num_of_samples(), 1);
    let table = spwm.lookup_table(&vec![0i64], 1 << 30);
    assert_eq!(table.len(), 1);
}

#[test]
fn carrier_freq_is_inverse_of_step() {
    let spwm = SPWM::new(r(50, 1), 4, r(1, 100), 255, 0);
    assert_eq!(spwm.carrier_freq(), r(100, 1));
    assert_eq!(spwm.step(), r(1, 100));
    assert_eq!(spwm.sin_freq(), r(50, 1));
    assert_eq!(spwm.pwm_top(), 255);
}

#[test]
fn setters_update_fields() {
    let mut spwm = SPWM::new(r(50, 1), 4, r(1, 100), 255, 0);
    spwm.set_num_of_samples(9);
    assert_eq!(spwm.num_of_samples(), 9);
    spwm.set_step(r(1, 200));
    assert_eq!(spwm.carrier_freq(), r(200, 1));
}
