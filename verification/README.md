# synth_core

The verified core of a probability-driven music sequencer, written in Verus.

`src/` holds the library; every function there carries a contract that
Verus proves:

- `ids`, `time_quantum`, `settings`: identifiers, the rhythmic step as a
  fraction of a beat, and the default settings of a sequence.
- `tree`, `traversal`, `tree_text`: the track tree of groups and sequences,
  its walks in preorder and its drawing as text.
- `paths`, `score`, `editor`: index paths, the editing operations of the
  tree editor and the dispatch of its actions and keys.
- `rhythm`: which steps of a loop carry a note.
- `harmony`, `chord`: distances on the circle of semitones, melodic
  affinity, random walks and the search for the least tense chord.
- `params`: inheritance of parameter overrides down the tree.
- `schedule`: which sequences a walk of the tree draws (And groups walk
  every child, Or groups one picked child once all below them are idle).
- `sequencer`, `playback`: the messages that edit a flat list of sequences,
  and the pending children of a group.
- `rng`: the calls into `rand` and their contracts.
- `laws`: properties that relate the operations to one another.

`tests/` exercises the library on concrete values. `app/` is a small
command-line reader of session files built on the library; the audio engine
and the graphical editor, which compute with floating-point numbers or need
audio and windowing crates, are not part of it.
