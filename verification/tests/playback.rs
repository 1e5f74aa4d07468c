use synth_core::playback::GroupPlaybackState;

#[test]
fn group_playback_starts_with_nothing_pending() {
    let state = GroupPlaybackState::default();
    assert!(state.pending_children.is_empty());
}
