use synth_core::sequencer::{handle_message, Entry, Message, Step};

fn entry(token: usize, name: &str) -> Entry<String> {
    Entry { token, sequence: name.to_string() }
}

fn list() -> Vec<Entry<String>> {
    vec![entry(1, "a"), entry(2, "b"), entry(3, "c"), entry(4, "d")]
}

fn tokens(entries: &[Entry<String>]) -> Vec<usize> {
    entries.iter().map(|e| e.token).collect()
}

#[test]
fn new_score_clears_everything() {
    let mut l = list();
    assert_eq!(handle_message(&mut l, Message::NewScore), vec![Step::ClearNotes]);
    assert!(l.is_empty());
}

#[test]
fn new_sequence_is_appended_and_drawn() {
    let mut l = list();
    assert_eq!(handle_message(&mut l, Message::NewSequence(entry(9, "z"))), vec![Step::Draw(4)]);
    assert_eq!(tokens(&l), vec![1, 2, 3, 4, 9]);
}

#[test]
fn edit_regenerates_the_edited_sequence_and_all_later_ones() {
    let mut l = list();
    let steps = handle_message(&mut l, Message::EditSequence(1, entry(7, "b2")));
    assert_eq!(
        steps,
        vec![
            Step::RemoveNotes(7),
            Step::Draw(1),
            Step::RemoveNotes(3),
            Step::Draw(2),
            Step::RemoveNotes(4),
            Step::Draw(3),
        ]
    );
    assert_eq!(tokens(&l), vec![1, 7, 3, 4]);
    assert_eq!(l[1].sequence, "b2");
}

#[test]
fn delete_drops_the_notes_of_the_removed_token() {
    let mut l = list();
    assert_eq!(handle_message(&mut l, Message::DeleteSequence(2)), vec![Step::RemoveNotes(3)]);
    assert_eq!(tokens(&l), vec![1, 2, 4]);
}

#[test]
fn clone_appends_a_copy_under_the_new_token() {
    let mut l = list();
    assert_eq!(handle_message(&mut l, Message::CloneSequence(0, 8)), vec![Step::Draw(4)]);
    assert_eq!(tokens(&l), vec![1, 2, 3, 4, 8]);
    assert_eq!(l[4].sequence, "a");
}

#[test]
fn swap_regenerates_both_and_everything_after() {
    let mut l = list();
    let steps = handle_message(&mut l, Message::SwapSequences(2, 0));
    assert_eq!(tokens(&l), vec![3, 2, 1, 4]);
    assert_eq!(
        steps,
        vec![
            Step::RemoveNotes(1),
            Step::Draw(2),
            Step::RemoveNotes(3),
            Step::Draw(0),
            Step::RemoveNotes(4),
            Step::Draw(3),
        ]
    );
    handle_message(&mut l, Message::SwapSequences(2, 0));
    assert_eq!(tokens(&l), vec![1, 2, 3, 4]);
}

#[test]
fn deleting_the_sequence_just_added_restores_the_list() {
    let mut l = list();
    handle_message(&mut l, Message::NewSequence(entry(9, "z")));
    assert_eq!(handle_message(&mut l, Message::DeleteSequence(4)), vec![Step::RemoveNotes(9)]);
    assert_eq!(tokens(&l), vec![1, 2, 3, 4]);
}
