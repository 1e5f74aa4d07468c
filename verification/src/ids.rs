use vstd::prelude::*;

verus! {

/// Unique identifier for sequences and groups in the score tree.
#[derive(Debug, Clone, Copy, PartialEq, Eq, Structural, PartialOrd, Ord, Hash)]
pub struct Token(pub usize);

impl Token {
    /// The numeric value of the token.
    pub fn value(&self) -> (r: usize)
        ensures
            r == self.0,
    {
        self.0
    }
}

/// Generator for unique tokens: each call of `next` hands out the successor of
/// the last token it produced.
pub struct TokenGen(pub usize);

impl TokenGen {
    pub fn new() -> (g: Self)
        ensures
            g.0 == 0,
    {
        TokenGen(0)
    }

    pub fn next(&mut self) -> (t: Token)
        requires
            old(self).0 < usize::MAX,
        ensures
            final(self).0 == old(self).0 + 1,
            t.0 == final(self).0,
    {
        self.0 = self.0 + 1;
        Token(self.0)
    }

    pub fn default() -> (g: Self)
        ensures
            g.0 == 0,
    {
        Self::new()
    }
}

/// Unique identifier for notes.
#[derive(Debug, Clone, Copy, PartialEq, Eq, Structural, PartialOrd, Ord, Hash)]
pub struct NoteId(pub u64);

impl NoteId {
    pub fn new(value: u64) -> (n: NoteId)
        ensures
            n.0 == value,
    {
        NoteId(value)
    }

    pub fn default() -> (n: NoteId)
        ensures
            n.0 == 0,
    {
        NoteId(0)
    }
}

/// Generator for unique note ids: each call of `next` hands out the
/// successor of the last id it produced.
pub struct NoteIdGen(pub u64);

impl NoteIdGen {
    pub fn default() -> (g: NoteIdGen)
        ensures
            g.0 == 0,
    {
        NoteIdGen(0)
    }

    pub fn next(&mut self) -> (n: NoteId)
        requires
            old(self).0 < u64::MAX,
        ensures
            final(self).0 == old(self).0 + 1,
            n.0 == final(self).0,
    {
        self.0 = self.0 + 1;
        NoteId(self.0)
    }
}

} // verus!
