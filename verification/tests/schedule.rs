use synth_core::ids::{Token, TokenGen};
use synth_core::schedule::{sequences_to_draw, sequences_to_mark_busy};
use synth_core::tree::{GroupMode, NodeKind, TrackNode};

/// root(And) = [seq 10, group(Or) = [seq 11, seq 12], seq 13]; preorder
/// positions 0..6.
fn sample_tree() -> TrackNode {
    let mut gen = TokenGen::new();
    let mut root = TrackNode::new_root(&mut gen);
    let mut g = TrackNode::new_node(&mut gen, "G".to_string());
    if let NodeKind::Group { mode, .. } = &mut g.kind {
        *mode = GroupMode::Or;
    }
    g.push_child(TrackNode::from_sequence(Token(11)));
    g.push_child(TrackNode::from_sequence(Token(12)));
    root.push_child(TrackNode::from_sequence(Token(10)));
    root.push_child(g);
    root.push_child(TrackNode::from_sequence(Token(13)));
    root
}

fn tokens(v: Vec<Token>) -> Vec<usize> {
    v.into_iter().map(|t| t.0).collect()
}

#[test]
fn and_walks_every_child_or_walks_the_picked_one() {
    let root = sample_tree();
    let ready = vec![true; 6];
    let coin = vec![true; 6];
    let pick = vec![None, None, Some(1), None, None, None];
    assert_eq!(tokens(sequences_to_draw(&root, &ready, &coin, &pick)), vec![10, 12, 13]);
    assert_eq!(tokens(sequences_to_mark_busy(&root, &ready, &coin, &pick)), vec![11]);
}

#[test]
fn an_or_group_waits_while_a_child_is_busy() {
    let root = sample_tree();
    let mut ready = vec![true; 6];
    ready[3] = false;
    let coin = vec![true; 6];
    let pick = vec![None, None, Some(1), None, None, None];
    assert_eq!(tokens(sequences_to_draw(&root, &ready, &coin, &pick)), vec![10, 13]);
    assert!(sequences_to_mark_busy(&root, &ready, &coin, &pick).is_empty());
}

#[test]
fn busy_sequences_and_failed_coins_are_skipped() {
    let root = sample_tree();
    let mut ready = vec![true; 6];
    ready[1] = false;
    let mut coin = vec![true; 6];
    let pick = vec![None, None, Some(0), None, None, None];
    assert_eq!(tokens(sequences_to_draw(&root, &ready, &coin, &pick)), vec![11, 13]);
    coin[0] = false;
    assert!(sequences_to_draw(&root, &ready, &coin, &pick).is_empty());
}

#[test]
fn an_or_group_without_a_pick_draws_nothing() {
    let root = sample_tree();
    let ready = vec![true; 6];
    let coin = vec![true; 6];
    let pick = vec![None; 6];
    assert_eq!(tokens(sequences_to_draw(&root, &ready, &coin, &pick)), vec![10, 13]);
    let out_of_range = vec![None, None, Some(5), None, None, None];
    assert_eq!(tokens(sequences_to_draw(&root, &ready, &coin, &out_of_range)), vec![10, 13]);
}
