use synth_core::chord::{best_chord, draw_degrees, tension, tension2_by_overlap, tension_family};
use synth_core::harmony::{copy_interval, dist12, glide_targets, melodic_affinity, random_walk_degree, tension2, Interval};

const WEIGHTS: [u32; 7] = [10, 11, 11, 4, 3, 0, 8];
const ROWS: [[u32; 7]; 2] = [WEIGHTS, [1, 2, 3, 4, 5, 6, 7]];

#[test]
fn dist12_on_the_circle_of_semitones() {
    assert_eq!(dist12(0, 7), 5);
    assert_eq!(dist12(3, 3), 0);
    assert_eq!(dist12(-13, 0), 1);
    assert_eq!(dist12(0, 6), 6);
    assert_eq!(dist12(11, -11), 2);
}

#[test]
fn tension2_reads_the_weight_of_the_distance() {
    assert_eq!(tension2(0, 7, WEIGHTS), 0);
    assert_eq!(tension2(0, 1, WEIGHTS), 11);
    assert_eq!(tension2(4, 4, WEIGHTS), 10);
}

#[test]
fn tension_by_overlap_picks_the_row() {
    assert_eq!(tension2_by_overlap(0, 6, false, ROWS), 7);
    assert_eq!(tension2_by_overlap(0, 6, true, ROWS), 8);
    assert_eq!(tension(&[(0, true), (7, false)], 4, ROWS), 7);
    assert_eq!(tension(&[], 4, ROWS), 0);
}

#[test]
fn tension_family_sums_cross_and_pair_terms() {
    assert_eq!(tension_family(&[(0, 0), (7, 1)], &[0, 4], ROWS), 243);
    assert_eq!(tension_family(&[], &[0, 4], ROWS), 3);
    assert_eq!(tension_family(&[(0, 0)], &[], ROWS), 0);
}

#[test]
fn best_chord_is_the_first_least_tense_combination() {
    assert_eq!(best_chord(&[(0, 0)], 1, ROWS), vec![-7]);
    assert_eq!(best_chord(&[], 2, ROWS), vec![-11, -6]);
    assert_eq!(best_chord(&[(3, 0)], 0, ROWS), Vec::<i32>::new());
}

#[test]
fn melodic_affinity_rewards_kept_direction() {
    let m = [1, 2, 3, 4, 5, 6, 7];
    assert_eq!(melodic_affinity(&[2, 5], Some(0), Some(-1), m, 10), 29);
    assert_eq!(melodic_affinity(&[2, 5], Some(0), None, m, 10), 9);
    assert_eq!(melodic_affinity(&[2, 5], None, Some(1), m, 10), 0);
    assert_eq!(melodic_affinity(&[-2], Some(0), Some(3), m, 10), 13);
}

#[test]
fn random_walk_with_a_single_step_choice() {
    let mut rng = rand::thread_rng();
    assert_eq!(random_walk_degree(5, 3, &[-1], &mut rng), 2);
    assert_eq!(random_walk_degree(0, 3, &[-4], &mut rng), 0);
    assert_eq!(random_walk_degree(0, 1, &[-5], &mut rng), -5);
    assert_eq!(random_walk_degree(9, 0, &[], &mut rng), 9);
}

#[test]
fn random_walk_stays_within_an_octave() {
    let mut rng = rand::thread_rng();
    for _ in 0..50 {
        let d = random_walk_degree(0, 2, &[-7, 0, 7], &mut rng);
        assert!([-2, -7, 0, 7, 2].contains(&d));
    }
}

#[test]
fn draw_degrees_without_harmonisation_walks_from_the_seed() {
    let mut rng = rand::thread_rng();
    let r = draw_degrees(&[], false, 1, false, 2, &[7], ROWS, &mut rng);
    assert_eq!(r, vec![2]);
    let r = draw_degrees(&[(3, 0)], false, 1, false, 1, &[1], ROWS, &mut rng);
    assert_eq!(r, vec![4]);
}

#[test]
fn draw_degrees_with_harmonisation_takes_the_best_chord() {
    let mut rng = rand::thread_rng();
    let r = draw_degrees(&[(0, 0)], true, 1, false, 0, &[], ROWS, &mut rng);
    assert_eq!(r, vec![-7]);
    for _ in 0..10 {
        let r = draw_degrees(&[(0, 0)], true, 2, true, 0, &[], ROWS, &mut rng);
        assert!(r.len() == 1 || r.len() == 2);
        if r.len() == 1 {
            assert_eq!(r, vec![-7]);
        } else {
            assert_eq!(r, best_chord(&[(0, 0)], 2, ROWS));
        }
    }
}

#[test]
fn each_note_glides_to_the_next_interval() {
    let intervals = vec![
        Interval::Tempered(0, 0),
        Interval::RDTempered(2, vec![-7, 0, 7], 1),
        Interval::Tempered(4, -1),
    ];
    let targets = glide_targets(&intervals);
    assert_eq!(targets, vec![Interval::RDTempered(2, vec![-7, 0, 7], 1), Interval::Tempered(4, -1)]);
    assert!(glide_targets(&vec![Interval::Tempered(1, 1)]).is_empty());
    assert!(glide_targets(&Vec::new()).is_empty());
    assert_eq!(copy_interval(&intervals[1]), intervals[1]);
}
