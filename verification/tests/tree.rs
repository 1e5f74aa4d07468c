use synth_core::ids::{Token, TokenGen};
use synth_core::tree::{GroupMode, NodeKind, TrackNode, TreePrintOptions};
use synth_core::traversal::{all_paths, nodes_with_paths};

/// root(1) = [seq 10, group "G"(2) = [seq 11, seq 12], seq 13]
fn sample_tree() -> (TrackNode, TokenGen) {
    let mut gen = TokenGen::new();
    let mut root = TrackNode::new_root(&mut gen);
    let mut g = TrackNode::new_node(&mut gen, "G".to_string());
    g.push_child(TrackNode::from_sequence(Token(11)));
    g.push_child(TrackNode::from_sequence(Token(12)));
    root.push_child(TrackNode::from_sequence(Token(10)));
    root.push_child(g);
    root.push_child(TrackNode::from_sequence(Token(13)));
    (root, gen)
}

#[test]
fn new_root_is_an_empty_named_group() {
    let mut gen = TokenGen::new();
    let root = TrackNode::new_root(&mut gen);
    assert_eq!(root.name(), "Root");
    assert!(root.is_group());
    assert_eq!(root.child_count(), 0);
    assert_eq!(root.token(), Token(1));
    assert!(!root.is_mute() && !root.is_solo());
    match &root.kind {
        NodeKind::Group { mode, collapsed, .. } => {
            assert_eq!(*mode, GroupMode::And);
            assert!(!collapsed);
        }
        NodeKind::Sequence(_) => panic!("root must be a group"),
    }
}

#[test]
fn get_follows_child_indices() {
    let (root, _) = sample_tree();
    assert_eq!(root.get(&[1, 0]).unwrap().token(), Token(11));
    assert_eq!(root.get(&[2]).unwrap().as_seq(), Some(Token(13)));
    assert!(root.get(&[1, 5]).is_none());
    assert!(root.get(&[0, 0]).is_none());
    assert_eq!(root.get(&[]).unwrap().token(), Token(1));
}

#[test]
fn push_and_insert_child_only_on_groups() {
    let mut leaf = TrackNode::from_sequence(Token(5));
    assert_eq!(leaf.push_child(TrackNode::from_sequence(Token(6))), None);
    assert!(!leaf.insert_child(0, TrackNode::from_sequence(Token(6))));
    let (mut root, _) = sample_tree();
    assert!(root.insert_child(0, TrackNode::from_sequence(Token(20))));
    assert_eq!(root.get(&[0]).unwrap().token(), Token(20));
    assert!(!root.insert_child(9, TrackNode::from_sequence(Token(21))));
    assert_eq!(root.child_count(), 4);
}

#[test]
fn remove_then_insert_restores_the_tree() {
    let (mut root, _) = sample_tree();
    let removed = root.remove_at(&[1, 0]).unwrap();
    assert_eq!(removed.token(), Token(11));
    assert_eq!(root.get(&[1]).unwrap().child_count(), 1);
    assert!(root.insert_at(&[1, 0], removed));
    assert_eq!(root.get(&[1, 0]).unwrap().token(), Token(11));
    assert_eq!(root.get(&[1, 1]).unwrap().token(), Token(12));
    assert!(root.remove_at(&[]).is_none());
    assert!(root.remove_at(&[7]).is_none());
}

#[test]
fn mute_and_solo_toggle() {
    let (mut root, _) = sample_tree();
    assert!(!root.has_any_solo());
    root.get_mut(&[1, 1]).unwrap().toggle_solo();
    assert!(root.has_any_solo());
    root.get_mut(&[2]).unwrap().toggle_mute();
    assert!(root.get(&[2]).unwrap().is_mute());
    root.get_mut(&[2]).unwrap().toggle_mute();
    assert!(!root.get(&[2]).unwrap().is_mute());
}

#[test]
fn path_tokens_lists_the_inheritance_chain() {
    let (root, _) = sample_tree();
    assert_eq!(root.path_tokens(&[1, 1]), vec![Token(1), Token(2), Token(12)]);
    assert_eq!(root.path_tokens(&[1, 9]), vec![Token(1), Token(2)]);
}

#[test]
fn retokenize_renumbers_sequences_in_preorder() {
    let (root, mut gen) = sample_tree();
    let mut copy = root.deep_clone();
    copy.retokenize(&mut gen);
    assert_eq!(copy.sequences(), vec![Token(3), Token(4), Token(5), Token(6)]);
    assert_eq!(root.sequences(), vec![Token(10), Token(11), Token(12), Token(13)]);
    assert_eq!(gen.0, 6);
}

#[test]
fn path_visible_stops_at_collapsed_groups() {
    let (mut root, _) = sample_tree();
    assert!(root.path_visible(&[1, 0]));
    if let NodeKind::Group { collapsed, .. } = &mut root.get_mut(&[1]).unwrap().kind {
        *collapsed = true;
    }
    assert!(!root.path_visible(&[1, 0]));
    assert!(root.path_visible(&[1]));
    // A sequence has no children: no path leads below one.
    assert!(!root.path_visible(&[0, 0]));
    assert!(!root.path_visible(&[0, 0, 0]));
    assert!(!root.path_visible(&[5]));
}

#[test]
fn traversal_in_preorder() {
    let (root, _) = sample_tree();
    let entries = nodes_with_paths(&root);
    let tokens: Vec<usize> = entries.iter().map(|(_, t)| t.0).collect();
    assert_eq!(tokens, vec![1, 10, 2, 11, 12, 13]);
    assert_eq!(
        all_paths(&root),
        vec![vec![], vec![0], vec![1], vec![1, 0], vec![1, 1], vec![2]]
    );
    let seqs = root.sequences_with_paths();
    assert_eq!(seqs[2], (vec![1, 1], Token(12)));
}

#[test]
fn tree_print_options_default() {
    let o = TreePrintOptions::default();
    assert!(o.ascii_only && o.show_path && o.show_details);
}
