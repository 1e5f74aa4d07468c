use synth_core::ids::{Token, TokenGen};
use synth_core::tree::{TrackNode, TreePrintOptions};
use synth_core::tree_text::tracknode_to_tree;

fn sample_tree() -> TrackNode {
    let mut gen = TokenGen::new();
    let mut root = TrackNode::new_root(&mut gen);
    let mut g = TrackNode::new_node(&mut gen, "G".to_string());
    g.push_child(TrackNode::from_sequence(Token(11)));
    g.push_child(TrackNode::from_sequence(Token(12)));
    root.push_child(TrackNode::from_sequence(Token(10)));
    root.push_child(g);
    root.push_child(TrackNode::from_sequence(Token(13)));
    root
}

fn labels() -> Vec<String> {
    ["root", "a", "G", "b", "c", "d"].iter().map(|s| s.to_string()).collect()
}

#[test]
fn ascii_tree_layout() {
    let opts = TreePrintOptions { ascii_only: true, show_path: false, show_details: false };
    assert_eq!(
        tracknode_to_tree(&sample_tree(), &labels(), opts),
        "root\n+-- a\n+-- G\n|   +-- b\n|   '-- c\n'-- d\n"
    );
}

#[test]
fn unicode_tree_layout() {
    let opts = TreePrintOptions { ascii_only: false, show_path: true, show_details: true };
    assert_eq!(
        tracknode_to_tree(&sample_tree(), &labels(), opts),
        "root\n├── a\n├── G\n│   ├── b\n│   └── c\n└── d\n"
    );
}

#[test]
fn a_lone_root_is_one_line() {
    let mut gen = TokenGen::new();
    let root = TrackNode::new_root(&mut gen);
    let opts = TreePrintOptions::default();
    assert_eq!(tracknode_to_tree(&root, &vec!["Root".to_string()], opts), "Root\n");
}
