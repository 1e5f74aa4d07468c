use synth_core::ids::Token;
use synth_core::score::Score;
use synth_core::tree::TrackNode;

/// root(1) = [seq 10, group "G"(2) = [seq 11, seq 12], seq 13]
fn sample_score() -> Score {
    let mut score = Score::new();
    let mut g = TrackNode::new_node(&mut score.last_token, "G".to_string());
    g.push_child(TrackNode::from_sequence(Token(11)));
    g.push_child(TrackNode::from_sequence(Token(12)));
    score.track_root.push_child(TrackNode::from_sequence(Token(10)));
    score.track_root.push_child(g);
    score.track_root.push_child(TrackNode::from_sequence(Token(13)));
    score
}

fn tokens(score: &Score) -> Vec<usize> {
    score.track_root.sequences().iter().map(|t| t.0).collect()
}

fn token_at(score: &Score, path: &[usize]) -> usize {
    score.track_root.get(path).unwrap().token().0
}

#[test]
fn new_score_has_an_empty_root() {
    let score = Score::new();
    assert_eq!(score.last_token.0, 1);
    assert_eq!(score.track_root.token(), Token(1));
    assert_eq!(score.track_root.child_count(), 0);
}

#[test]
fn sibling_navigation_with_and_without_wrap() {
    let score = sample_score();
    assert_eq!(score.next_sibling(&[0], false), Some(vec![1]));
    assert_eq!(score.next_sibling(&[2], false), None);
    assert_eq!(score.next_sibling(&[2], true), Some(vec![0]));
    assert_eq!(score.prev_sibling(&[0], false), None);
    assert_eq!(score.prev_sibling(&[0], true), Some(vec![2]));
    assert_eq!(score.prev_sibling(&[1, 1], false), Some(vec![1, 0]));
    assert_eq!(score.next_sibling(&[], true), None);
}

#[test]
fn parent_and_children() {
    let score = sample_score();
    assert_eq!(score.parent_of(&[1, 0]), Some(vec![1]));
    assert_eq!(score.parent_of(&[]), None);
    assert_eq!(score.first_child_of(&[1]), Some(vec![1, 0]));
    assert_eq!(score.last_child_of(&[1]), Some(vec![1, 1]));
    assert_eq!(score.first_child_of(&[0]), None);
    assert_eq!(score.last_child_of(&[]), Some(vec![2]));
}

#[test]
fn swaps_undo_each_other() {
    let mut score = sample_score();
    assert_eq!(score.swap_with_next(&[0]), Some(vec![1]));
    assert_eq!(token_at(&score, &[0]), 2);
    assert_eq!(token_at(&score, &[1]), 10);
    assert_eq!(score.swap_with_prev(&[1]), Some(vec![0]));
    assert_eq!(tokens(&score), vec![10, 11, 12, 13]);
    assert_eq!(score.swap_with_prev(&[0]), None);
    assert_eq!(score.swap_with_next(&[2]), None);
}

#[test]
fn wrap_then_dissolve_restores_the_tree() {
    let mut score = sample_score();
    assert_eq!(score.wrap_into_group_at(&[2], "W".to_string()), Some(vec![2]));
    let wrapper = score.track_root.get(&[2]).unwrap();
    assert!(wrapper.is_group());
    assert_eq!(wrapper.name(), "W");
    assert_eq!(wrapper.token(), Token(3));
    assert_eq!(token_at(&score, &[2, 0]), 13);
    assert_eq!(score.last_token.0, 3);
    assert_eq!(score.dissolve_group_at(&[2]), Some(vec![2]));
    assert_eq!(token_at(&score, &[2]), 13);
    assert_eq!(score.track_root.child_count(), 3);
}

#[test]
fn wrap_refuses_the_root() {
    let mut score = sample_score();
    assert_eq!(score.wrap_into_group_at(&[], "W".to_string()), None);
}

#[test]
fn dissolve_splices_children_in_place() {
    let mut score = sample_score();
    assert_eq!(score.dissolve_group_at(&[1]), Some(vec![1]));
    assert_eq!(score.track_root.child_count(), 4);
    assert_eq!(tokens(&score), vec![10, 11, 12, 13]);
    assert_eq!(token_at(&score, &[1]), 11);
    assert_eq!(score.dissolve_group_at(&[0]), None);
}

#[test]
fn dissolving_an_empty_group_removes_it() {
    let mut score = sample_score();
    let empty = TrackNode::new_node(&mut score.last_token, "E".to_string());
    score.track_root.push_child(empty);
    assert_eq!(score.dissolve_group_at(&[3]), None);
    assert_eq!(score.track_root.child_count(), 3);
}

#[test]
fn promote_moves_after_the_parent() {
    let mut score = sample_score();
    assert_eq!(score.promote_one_rank(&[1, 0]), Some(vec![2]));
    assert_eq!(token_at(&score, &[2]), 11);
    assert_eq!(score.track_root.get(&[1]).unwrap().child_count(), 1);
    assert_eq!(score.promote_one_rank(&[0]), None);
}

#[test]
fn move_into_adjacent_groups() {
    let mut score = sample_score();
    assert_eq!(score.move_into_next_group(&[0]), Some(vec![0, 2]));
    assert_eq!(token_at(&score, &[0, 2]), 10);
    assert_eq!(score.move_into_prev_group(&[1]), Some(vec![0, 3]));
    assert_eq!(token_at(&score, &[0, 3]), 13);
    assert_eq!(score.track_root.child_count(), 1);
    assert_eq!(score.move_into_prev_group(&[0]), None);
}

#[test]
fn move_node_to_another_group() {
    let mut score = sample_score();
    assert_eq!(score.move_node_to(&[2], &[1], 0), Some(vec![1, 0]));
    assert_eq!(tokens(&score), vec![10, 13, 11, 12]);
    assert_eq!(score.move_node_to(&[1], &[1, 0], 0), None);
    assert_eq!(score.move_node_to(&[0], &[], 1), None);
    assert_eq!(score.move_node_to(&[0], &[1], 99), Some(vec![0, 3]));
    assert_eq!(token_at(&score, &[0, 3]), 10);
}

#[test]
fn edits_keep_every_sequence() {
    let mut score = sample_score();
    let mut before = tokens(&score);
    before.sort();
    score.wrap_into_group_at(&[0], "A".to_string());
    score.move_into_next_group(&[0]);
    score.promote_one_rank(&[1, 0]);
    score.swap_with_next(&[0]);
    score.dissolve_group_at(&[0]);
    let mut after = tokens(&score);
    after.sort();
    assert_eq!(before, after);
}

#[test]
fn a_failed_move_leaves_the_tree_as_it_was() {
    let mut score = sample_score();
    // Once [0] is out, the target [2] (adjusted to [1]) is the sequence 13.
    assert_eq!(score.move_node_to(&[0], &[2], 0), None);
    assert_eq!(tokens(&score), vec![10, 11, 12, 13]);
    assert_eq!(score.track_root.child_count(), 3);
    // A target that does not exist at all.
    assert_eq!(score.move_node_to(&[1, 0], &[7], 0), None);
    assert_eq!(tokens(&score), vec![10, 11, 12, 13]);
}
