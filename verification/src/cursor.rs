//! The mutable "remaining input" view that every parse attempt works on.

use vstd::prelude::*;

verus! {

/// A view over immutable input text: the whole text together with the index
/// of the first unconsumed character.  A successful parse moves `pos`
/// forward; a rollback is a cheap restore of an earlier position, never a
/// copy of the text.  Parsers speak about the cursor only through
/// [`Cursor::rem`], the unconsumed suffix.
pub struct Cursor {
    /// The complete input text.
    pub input: Vec<char>,
    /// Index of the first unconsumed character.
    pub pos: usize,
}

impl Cursor {
    /// A cursor is well formed when its position lies inside the input.
    pub open spec fn wf(&self) -> bool {
        self.pos <= self.input@.len()
    }

    /// The unconsumed suffix of the input.
    pub open spec fn rem(&self) -> Seq<char> {
        self.input@.skip(self.pos as int)
    }

    /// A fresh cursor standing at the start of `input`.
    pub fn new(input: Vec<char>) -> (c: Cursor)
        ensures
            c.wf(),
            c.input@ == input@,
            c.pos == 0,
            c.rem() == input@,
    {
        let c = Cursor { input, pos: 0 };
        proof {
            assert(c.rem() =~= c.input@);
        }
        c
    }

    /// Snapshot of the current position, for a later [`Cursor::restore`].
    pub fn save(&self) -> (p: usize)
        ensures
            p == self.pos,
    {
        self.pos
    }

    /// Explicit rollback to a position saved earlier.
    pub fn restore(&mut self, p: usize)
        requires
            p <= old(self).input@.len(),
        ensures
            final(self).input@ == old(self).input@,
            final(self).pos == p,
            final(self).wf(),
    {
        self.pos = p;
    }

    /// The next unconsumed character, without consuming it.
    pub fn peek(&self) -> (r: Option<char>)
        requires
            self.wf(),
        ensures
            match r {
                Some(c) => self.rem().len() > 0 && c == self.rem()[0],
                None => self.rem().len() == 0,
            },
    {
        if self.pos < self.input.len() {
            Some(self.input[self.pos])
        } else {
            None
        }
    }

    /// Consume exactly one character.
    pub fn advance(&mut self)
        requires
            old(self).wf(),
            old(self).rem().len() > 0,
        ensures
            final(self).wf(),
            final(self).input@ == old(self).input@,
            final(self).pos == old(self).pos + 1,
            final(self).rem() == old(self).rem().skip(1),
    {
        let n = self.input.len();
        assert(self.pos < n);
        self.pos = self.pos + 1;
        proof {
            assert(self.rem() =~= old(self).rem().skip(1));
        }
    }

    /// Consume exactly `n` characters.
    pub fn advance_by(&mut self, n: usize)
        requires
            old(self).wf(),
            n <= old(self).rem().len(),
        ensures
            final(self).wf(),
            final(self).input@ == old(self).input@,
            final(self).pos == old(self).pos + n,
            final(self).rem() == old(self).rem().skip(n as int),
    {
        let len = self.input.len();
        assert(self.pos + n <= len);
        self.pos = self.pos + n;
        proof {
            assert(self.rem() =~= old(self).rem().skip(n as int));
        }
    }

    /// How many characters are left.
    pub fn remaining(&self) -> (n: usize)
        requires
            self.wf(),
        ensures
            n == self.rem().len(),
    {
        self.input.len() - self.pos
    }
}

} // verus!
