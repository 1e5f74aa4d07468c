use synth_core::rhythm::{rhythm_generators, selected_steps, step_selected, DetRythm, RdRythm, Rythm};

#[test]
fn step_selection_by_inclusion_and_exclusion() {
    assert!(step_selected(0, 0, &[2], &[3]));
    assert!(!step_selected(2, 0, &[2], &[3]));
    assert!(step_selected(4, 0, &[2], &[3]));
    assert!(!step_selected(1, 0, &[2], &[3]));
    assert!(!step_selected(0, 1, &[2], &[]));
    assert!(!step_selected(0, 0, &[], &[]));
}

#[test]
fn selected_steps_of_a_loop() {
    assert_eq!(selected_steps(8, 0, &[2], &[3]), vec![0, 4, 6]);
    assert_eq!(selected_steps(8, 1, &[2], &[3]), vec![1, 5, 7]);
    assert_eq!(selected_steps(0, 0, &[1], &[]), Vec::<usize>::new());
    assert_eq!(selected_steps(5, 0, &[1], &[]), vec![0, 1, 2, 3, 4]);
}

#[test]
fn first_step_stays_with_random_exclusions() {
    let mut rng = rand::thread_rng();
    for offset in [0i32, 3, 7] {
        let inclusions = rhythm_generators(&Rythm::Rd(RdRythm { amount: 3, length: 10 }), 1, &mut rng);
        let exclusions = rhythm_generators(&Rythm::Rd(RdRythm { amount: 5, length: 10 }), 2, &mut rng);
        assert!(step_selected(offset, offset, &inclusions, &exclusions));
    }
}

#[test]
fn random_generators_are_distinct_and_shifted() {
    let mut rng = rand::thread_rng();
    for _ in 0..20 {
        let mut g = rhythm_generators(&Rythm::Rd(RdRythm { amount: 4, length: 6 }), 2, &mut rng);
        assert_eq!(g.len(), 4);
        assert!(g.iter().all(|&x| (2..8).contains(&x)));
        g.sort();
        g.dedup();
        assert_eq!(g.len(), 4);
    }
}

#[test]
fn fixed_generators_are_copied() {
    let mut rng = rand::thread_rng();
    let det = Rythm::Det(DetRythm { generators: vec![3, 5] });
    assert_eq!(rhythm_generators(&det, 1, &mut rng), vec![3, 5]);
    assert!(DetRythm::default().generators.is_empty());
    let rd = RdRythm::default();
    assert_eq!((rd.amount, rd.length), (5, 10));
}
