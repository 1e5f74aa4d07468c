use synth_core::paths::{adjust_path_for_removal, path_lex_gt, prefix_vec, regeneration_start, starts_with};

#[test]
fn prefixes() {
    assert!(starts_with(&[1, 2, 3], &[1, 2]));
    assert!(starts_with(&[1, 2], &[]));
    assert!(!starts_with(&[1], &[1, 2]));
    assert!(!starts_with(&[1, 3], &[1, 2]));
    assert_eq!(prefix_vec(&[4, 5, 6], 2), vec![4, 5]);
}

#[test]
fn lexicographic_order_of_paths() {
    assert!(path_lex_gt(&[1, 2], &[1, 1, 5]));
    assert!(!path_lex_gt(&[1], &[1, 0]));
    assert!(path_lex_gt(&[1, 0], &[1]));
    assert!(!path_lex_gt(&[1, 0], &[1, 0]));
    assert!(!path_lex_gt(&[], &[]));
}

#[test]
fn paths_after_a_removal_shift_left() {
    let mut p = vec![1, 3, 0];
    adjust_path_for_removal(&mut p, &[1, 2]);
    assert_eq!(p, vec![1, 2, 0]);
    let mut q = vec![2];
    adjust_path_for_removal(&mut q, &[0]);
    assert_eq!(q, vec![1]);
    let mut r = vec![1];
    adjust_path_for_removal(&mut r, &[2]);
    assert_eq!(r, vec![1]);
    let mut s = vec![0, 4];
    adjust_path_for_removal(&mut s, &[1, 2]);
    assert_eq!(s, vec![0, 4]);
    let mut t = vec![3];
    adjust_path_for_removal(&mut t, &[]);
    assert_eq!(t, vec![3]);
}

#[test]
fn regeneration_starts_at_the_edited_node() {
    let paths = vec![vec![0], vec![1, 0], vec![1, 1], vec![2]];
    assert_eq!(regeneration_start(&paths, &[1, 1]), Some(2));
    assert_eq!(regeneration_start(&paths, &[1]), Some(1));
    assert_eq!(regeneration_start(&paths, &[1, 5]), Some(3));
    assert_eq!(regeneration_start(&paths, &[3]), None);
}
