use synth_core::noise::xorshift64;
use synth_core::settings::{
    affinities_from_values, effective_replicator_steps, default_beat_offset, default_harmoniser, default_interval_affinities,
    default_replicator_steps, default_repeat, default_time_quantum, default_version, DrumParams,
    FilterType, IntervalAffinity, NoteVariant, ReplicatorStep, WaveParams, WaveType,
};

#[test]
fn xorshift64_known_values() {
    assert_eq!(xorshift64(1), 1082269761);
    assert_eq!(xorshift64(0x2545F4914F6CDD1D), 9181757771948286951);
    assert_eq!(xorshift64(0), 0);
}

#[test]
fn wave_type_names() {
    assert_eq!(WaveType::Sine.to_string(), "Sine");
    assert_eq!(WaveType::Darbuka.to_string(), "Darbuka");
    assert_eq!(WaveType::Mute.to_string(), "Mute");
}

#[test]
fn wave_params_default_to_sine() {
    assert!(WaveParams::default().wave == WaveType::Sine);
    assert_eq!(DrumParams::Kick, DrumParams::Kick);
    assert_ne!(DrumParams::Kick, DrumParams::Snare);
}

#[test]
fn filter_type_default_and_names() {
    assert_eq!(FilterType::default().to_string(), "Lowpass");
}

#[test]
fn affinities_from_values_skips_zeros() {
    let r = affinities_from_values(&[0, 3, 0, -2]);
    assert_eq!(r.len(), 2);
    assert_eq!((r[0].interval, r[0].affinity), (1, 3));
    assert_eq!((r[1].interval, r[1].affinity), (3, -2));
    assert!(affinities_from_values(&[]).is_empty());
}

#[test]
fn defaults() {
    assert_eq!(default_repeat(), 1);
    assert_eq!(default_beat_offset(), 0);
    assert_eq!(default_harmoniser(), [10, 11, 11, 4, 3, 0, 8]);
    assert!(default_interval_affinities().is_empty());
    let steps = default_replicator_steps();
    assert_eq!(steps.len(), 1);
    assert_eq!(steps[0].distance, 1);
    let q = default_time_quantum();
    assert_eq!((q.numerator(), q.denominator()), (1, 8));
    assert_eq!(default_version(), 1);
    assert!(NoteVariant::default() == NoteVariant::PhaseTracked);
    let a = IntervalAffinity::default();
    assert_eq!((a.interval, a.affinity), (0, 0));
    assert_eq!(ReplicatorStep::default().distance, 1);
}

#[test]
fn replicator_steps_fall_back_to_the_older_form() {
    let legacy = vec![IntervalAffinity { interval: 2, affinity: 5 }];
    let r = effective_replicator_steps(Vec::new(), legacy, Some(4));
    assert_eq!(r.len(), 1);
    assert_eq!(r[0].distance, 4);
    assert_eq!((r[0].affinities[0].interval, r[0].affinities[0].affinity), (2, 5));
    let r = effective_replicator_steps(Vec::new(), vec![IntervalAffinity { interval: 1, affinity: 1 }], None);
    assert_eq!(r[0].distance, 1);
    let own = vec![ReplicatorStep { distance: 3, affinities: Vec::new() }];
    let r = effective_replicator_steps(own, vec![IntervalAffinity { interval: 1, affinity: 1 }], Some(9));
    assert_eq!(r.len(), 1);
    assert_eq!(r[0].distance, 3);
    assert!(effective_replicator_steps(Vec::new(), Vec::new(), Some(2)).is_empty());
}
