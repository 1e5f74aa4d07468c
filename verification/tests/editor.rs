use synth_core::editor::{
    down_variant, first_child_variant, key_action, make_tooltips, parent_variant, up_variant,
    Action,
};
use synth_core::ids::Token;
use synth_core::score::Score;
use synth_core::tree::TrackNode;

/// root(1) = [seq 10, group "G"(2) = [seq 11, seq 12], seq 13]
fn sample_score() -> Score {
    let mut score = Score::new();
    let mut g = TrackNode::new_node(&mut score.last_token, "G".to_string());
    g.push_child(TrackNode::from_sequence(Token(11)));
    g.push_child(TrackNode::from_sequence(Token(12)));
    score.track_root.push_child(TrackNode::from_sequence(Token(10)));
    score.track_root.push_child(g);
    score.track_root.push_child(TrackNode::from_sequence(Token(13)));
    score
}

#[test]
fn labels_of_actions() {
    assert_eq!(Action::FirstChild.label_and_action(), ("First child", Action::FirstChild));
    assert_eq!(Action::GroupBelow.label_and_action(), ("Group below", Action::GroupBelow));
    assert_eq!(Action::NoAction.label_and_action().0, "None");
}

#[test]
fn arrow_keys_with_modifiers() {
    // Up / Down: select, Ctrl moves within the group, Shift moves into the
    // neighbouring group.
    assert_eq!(key_action(Action::NoAction, true, false, false, false, false, false), Action::SelectUp);
    assert_eq!(key_action(Action::NoAction, true, false, false, false, false, true), Action::MoveUp);
    assert_eq!(key_action(Action::NoAction, true, false, false, false, true, false), Action::GroupAbove);
    assert_eq!(key_action(Action::NoAction, false, true, false, false, false, false), Action::SelectDown);
    assert_eq!(key_action(Action::NoAction, false, true, false, false, false, true), Action::MoveDown);
    assert_eq!(key_action(Action::NoAction, false, true, false, false, true, false), Action::GroupBelow);
    // Left: parent; Ctrl promotes; Shift dissolves.
    assert_eq!(key_action(Action::NoAction, false, false, true, false, false, false), Action::Parent);
    assert_eq!(key_action(Action::NoAction, false, false, true, false, false, true), Action::Promote);
    assert_eq!(key_action(Action::NoAction, false, false, true, false, true, false), Action::Dissolve);
    // Right: first child; Ctrl wraps into a new group.
    assert_eq!(key_action(Action::NoAction, false, false, false, true, false, false), Action::FirstChild);
    assert_eq!(key_action(Action::NoAction, false, false, false, true, false, true), Action::Wrap);
}

#[test]
fn no_key_keeps_the_pending_action_and_later_keys_win() {
    assert_eq!(key_action(Action::Delete, false, false, false, false, true, true), Action::Delete);
    assert_eq!(key_action(Action::NoAction, true, true, true, true, false, false), Action::Parent);
    assert_eq!(key_action(Action::NoAction, true, true, false, false, false, false), Action::SelectDown);
}

#[test]
fn button_variants_shift_wins_over_ctrl() {
    assert_eq!(up_variant(true, true), ("Group above", Action::GroupAbove));
    assert_eq!(down_variant(false, true), ("Move down", Action::MoveDown));
    assert_eq!(parent_variant(true, true).1, Action::Dissolve);
    assert_eq!(first_child_variant(false, false).1, Action::FirstChild);
}

#[test]
fn tooltips_prefix_the_key_name() {
    let t = make_tooltips("J", ["Select down", "Move down", "Group below"]);
    assert_eq!(t[0], ("J".to_string(), "Select down"));
    assert_eq!(t[1], ("Ctrl+J".to_string(), "Move down"));
    assert_eq!(t[2], ("Shift+J".to_string(), "Group below"));
}

#[test]
fn delete_selects_the_sibling_taking_its_place() {
    let mut score = sample_score();
    assert_eq!(score.apply_action(&[1, 0], Action::Delete), Some(vec![1, 0]));
    assert_eq!(score.track_root.get(&[1, 0]).unwrap().token(), Token(12));
    // The only child left: the parent is selected next.
    assert_eq!(score.apply_action(&[1, 0], Action::Delete), Some(vec![1]));
    // The last of several: the new last one.
    assert_eq!(score.apply_action(&[2], Action::Delete), Some(vec![1]));
    assert_eq!(score.track_root.child_count(), 2);
}

#[test]
fn delete_of_the_only_top_level_node_selects_nothing() {
    let mut score = Score::new();
    score.track_root.push_child(TrackNode::from_sequence(Token(7)));
    assert_eq!(score.apply_action(&[0], Action::Delete), None);
    assert_eq!(score.track_root.child_count(), 0);
}

#[test]
fn clone_inserts_a_copy_with_fresh_tokens() {
    let mut score = sample_score();
    assert_eq!(score.apply_action(&[1], Action::Clone), Some(vec![2]));
    let copy = score.track_root.get(&[2]).unwrap();
    assert_eq!(copy.sequences(), vec![Token(3), Token(4)]);
    assert_eq!(score.last_token.0, 4);
    assert_eq!(score.track_root.child_count(), 4);
}

#[test]
fn mute_toggles_the_selection() {
    let mut score = sample_score();
    assert_eq!(score.apply_action(&[0], Action::Mute), Some(vec![0]));
    assert!(score.track_root.get(&[0]).unwrap().is_mute());
    score.apply_action(&[0], Action::Mute);
    assert!(!score.track_root.get(&[0]).unwrap().is_mute());
}

#[test]
fn navigation_actions_move_the_selection_only() {
    let mut score = sample_score();
    assert_eq!(score.apply_action(&[1], Action::FirstChild), Some(vec![1, 0]));
    assert_eq!(score.apply_action(&[1, 0], Action::Parent), Some(vec![1]));
    assert_eq!(score.apply_action(&[0], Action::SelectUp), Some(vec![2]));
    assert_eq!(score.apply_action(&[2], Action::SelectDown), Some(vec![0]));
    assert_eq!(score.apply_action(&[0], Action::FirstChild), None);
    assert_eq!(score.apply_action(&[], Action::Parent), None);
}

#[test]
fn structural_actions_keep_the_selection_when_refused() {
    let mut score = sample_score();
    assert_eq!(score.apply_action(&[0], Action::MoveUp), Some(vec![0]));
    assert_eq!(score.apply_action(&[0], Action::MoveDown), Some(vec![1]));
    assert_eq!(score.apply_action(&[0], Action::Wrap), Some(vec![0]));
    assert_eq!(score.track_root.get(&[0]).unwrap().name(), "Group");
    assert_eq!(score.apply_action(&[0], Action::Dissolve), Some(vec![0]));
    assert_eq!(score.apply_action(&[0], Action::Promote), Some(vec![0]));
    assert_eq!(score.apply_action(&[0], Action::NoAction), Some(vec![0]));
}

#[test]
fn every_action_keeps_sequence_tokens_unique() {
    let mut score = sample_score();
    let script: [(&[usize], Action); 12] = [
        (&[1], Action::Clone),
        (&[0], Action::Wrap),
        (&[0, 0], Action::Clone),
        (&[2], Action::GroupAbove),
        (&[0], Action::Dissolve),
        (&[1, 1], Action::Promote),
        (&[1], Action::Clone),
        (&[0], Action::MoveDown),
        (&[3], Action::Delete),
        (&[1], Action::GroupBelow),
        (&[0], Action::Mute),
        (&[1], Action::Clone),
    ];
    for (sel, action) in script {
        score.apply_action(sel, action);
        let mut seen: Vec<usize> = score.track_root.sequences().iter().map(|t| t.0).collect();
        assert!(seen.iter().all(|&t| t <= score.last_token.0 || t >= 10));
        seen.sort();
        let n = seen.len();
        seen.dedup();
        assert_eq!(seen.len(), n);
    }
}
