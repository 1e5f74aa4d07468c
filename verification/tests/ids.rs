use synth_core::ids::{NoteId, NoteIdGen, Token, TokenGen};

#[test]
fn test_token_gen() {
    let mut gen = TokenGen::new();
    let t1 = gen.next();
    let t2 = gen.next();
    let t3 = gen.next();

    assert_ne!(t1, t2);
    assert_ne!(t2, t3);
    assert_eq!(t1.value(), 1);
    assert_eq!(t2.value(), 2);
    assert_eq!(t3.value(), 3);
}

#[test]
fn lib_test_token_gen() {
    let mut gen = TokenGen::default();
    let t1 = gen.next();
    let t2 = gen.next();
    let t3 = gen.next();

    assert_ne!(t1, t2);
    assert_ne!(t2, t3);
    assert_eq!(*&t1.0, 1);
    assert_eq!(*&t2.0, 2);
    assert_eq!(*&t3.0, 3);
}

#[test]
fn token_gen_continues_from_its_counter() {
    let mut gen = TokenGen(41);
    assert_eq!(gen.next(), Token(42));
    assert_eq!(gen.0, 42);
}

#[test]
fn note_id_gen_counts_up_from_one() {
    let mut gen = NoteIdGen::default();
    assert_eq!(gen.next(), NoteId::new(1));
    assert_eq!(gen.next(), NoteId::new(2));
    assert_eq!(NoteId::default(), NoteId(0));
}
