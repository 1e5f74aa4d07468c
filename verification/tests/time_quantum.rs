use synth_core::time_quantum::{TimeQuantum, TimeQuantumError, MAX_VALUE, MIN_VALUE};

#[test]
fn from_raw_accepts_components_in_range() {
    let q = TimeQuantum::from_raw(3, 4).unwrap();
    assert_eq!(q.numerator(), 3);
    assert_eq!(q.denominator(), 4);
    let edge = TimeQuantum::from_raw(MIN_VALUE, MAX_VALUE).unwrap();
    assert_eq!(edge.numerator(), 1);
    assert_eq!(edge.denominator(), 128);
}

#[test]
fn from_raw_rejects_zero_numerator_first() {
    assert_eq!(TimeQuantum::from_raw(0, 0), Err(TimeQuantumError::ZeroNumerator));
    assert_eq!(TimeQuantum::from_raw(0, 4), Err(TimeQuantumError::ZeroNumerator));
}

#[test]
fn from_raw_rejects_zero_denominator() {
    assert_eq!(TimeQuantum::from_raw(1, 0), Err(TimeQuantumError::ZeroDenominator));
}

#[test]
fn from_raw_rejects_out_of_range() {
    assert_eq!(TimeQuantum::from_raw(129, 1), Err(TimeQuantumError::OutOfRange));
    assert_eq!(TimeQuantum::from_raw(1, 200), Err(TimeQuantumError::OutOfRange));
}

#[test]
fn new_keeps_components_beyond_the_range() {
    let q = TimeQuantum::new(300, 2);
    assert_eq!(q.numerator(), 300);
    assert_eq!(q.denominator(), 2);
}

#[test]
fn setters_change_one_component_or_nothing() {
    let mut q = TimeQuantum::default();
    assert_eq!((q.numerator(), q.denominator()), (1, 8));
    assert_eq!(q.set_numerator(3), Ok(()));
    assert_eq!((q.numerator(), q.denominator()), (3, 8));
    assert_eq!(q.set_denominator(16), Ok(()));
    assert_eq!((q.numerator(), q.denominator()), (3, 16));
    assert_eq!(q.set_numerator(0), Err(TimeQuantumError::ZeroNumerator));
    assert_eq!(q.set_denominator(129), Err(TimeQuantumError::OutOfRange));
    assert_eq!((q.numerator(), q.denominator()), (3, 16));
}

#[test]
fn clamp_component_brings_values_into_range() {
    assert_eq!(TimeQuantum::clamp_component(0), 1);
    assert_eq!(TimeQuantum::clamp_component(7), 7);
    assert_eq!(TimeQuantum::clamp_component(500), 128);
}

#[test]
fn clamped_components_are_accepted() {
    for (a, b) in [(0u16, 0u16), (1000, 3), (5, 65535)] {
        let q = TimeQuantum::from_raw(
            TimeQuantum::clamp_component(a),
            TimeQuantum::clamp_component(b),
        );
        assert!(q.is_ok());
    }
}

#[test]
fn error_messages() {
    assert_eq!(
        TimeQuantumError::ZeroNumerator.message(),
        "time quantum numerator must be > 0"
    );
    assert_eq!(
        TimeQuantumError::ZeroDenominator.message(),
        "time quantum denominator must be > 0"
    );
    assert_eq!(
        TimeQuantumError::OutOfRange.message(),
        "time quantum components must be within [1, 128]"
    );
}

#[test]
fn default_time_quantum_is_the_default_quantum() {
    use_default_quantum();
}

fn use_default_quantum() {
    let a = synth_core::settings::default_time_quantum();
    assert_eq!(a, TimeQuantum::default());
    assert_eq!((a.numerator(), a.denominator()), (1, 8));
}
