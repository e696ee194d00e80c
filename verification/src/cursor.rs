use vstd::prelude::*;
use vstd::string::*;
use crate::{has_prefix, starts_with};

verus! {

/// A code being consumed from the left: the whole text and how many
/// scalar values of it are already behind the reading position.
pub struct CodeCursor {
    code: String,
    len: usize,
    pos: usize,
}

impl CodeCursor {
    /// The whole text, consumed part included.
    pub closed spec fn text(&self) -> Seq<char> {
        self.code@
    }

    /// How many scalar values are consumed.
    pub closed spec fn offset(&self) -> nat {
        self.pos as nat
    }

    /// The length of the text as the cursor has counted it.
    pub closed spec fn span(&self) -> nat {
        self.len as nat
    }

    /// The reading position lies inside the text, whose length the cursor knows.
    pub open spec fn wf(&self) -> bool {
        self.offset() <= self.text().len() && self.span() == self.text().len()
    }

    /// What is still to be read.
    pub open spec fn rest(&self) -> Seq<char> {
        self.text().subrange(self.offset() as int, self.text().len() as int)
    }

    /// A cursor at the start of `code`.
    pub fn new(code: String) -> (cursor: Self)
        ensures
            cursor.wf(),
            cursor.text() == code@,
            cursor.offset() == 0,
    {
        let len = code.as_str().unicode_len();
        CodeCursor { code, len, pos: 0 }
    }

    /// How many scalar values are consumed.
    pub fn position(&self) -> (pos: usize)
        ensures
            pos == self.offset(),
    {
        self.pos
    }

    /// The whole code, consumed part included.
    pub fn get_ref(&self) -> (code: &String)
        ensures
            code@ == self.text(),
    {
        &self.code
    }

    /// What is still to be read.
    pub fn remaining(&self) -> (rest: &str)
        requires
            self.wf(),
        ensures
            rest@ == self.rest(),
    {
        self.code.as_str().substring_char(self.pos, self.len)
    }

    /// Whether what is still to be read begins with `pat`.
    pub fn remaining_starts_with(&self, pat: &str) -> (yes: bool)
        requires
            self.wf(),
        ensures
            yes == starts_with(self.rest(), pat@),
    {
        has_prefix(self.remaining(), pat)
    }

    /// The scalar value `index` places after the reading position, if the code reaches that far.
    pub fn get_char(&self, index: usize) -> (ch: Option<char>)
        requires
            self.wf(),
        ensures
            ch == (if index < self.rest().len() { Some(self.rest()[index as int]) } else { None::<char> }),
    {
        if index < self.len - self.pos {
            Some(self.code.as_str().get_char(self.pos + index))
        } else {
            None
        }
    }

    /// How many scalar values are still to be read.
    pub fn remained_len(&self) -> (n: usize)
        requires
            self.wf(),
        ensures
            n == self.rest().len(),
    {
        self.len - self.pos
    }

    /// Whether nothing is left to read.
    pub fn is_empty(&self) -> (empty: bool)
        requires
            self.wf(),
        ensures
            empty == (self.rest().len() == 0),
    {
        self.len - self.pos == 0
    }

    /// Consumes `step` scalar values, which must not be more than are left.
    pub fn advance_by(&mut self, step: usize)
        requires
            old(self).wf(),
            step <= old(self).rest().len(),
        ensures
            final(self).wf(),
            final(self).text() == old(self).text(),
            final(self).offset() == old(self).offset() + step,
            final(self).rest() == old(self).rest().skip(step as int),
    {
        self.pos = self.pos + step;
        assert(self.rest() =~= old(self).rest().skip(step as int));
    }

    /// Consumes the next scalar value and returns it; there must be one.
    pub fn shift(&mut self) -> (ch: char)
        requires
            old(self).wf(),
            old(self).rest().len() > 0,
        ensures
            final(self).wf(),
            ch == old(self).rest()[0],
            ch == old(self).text()[old(self).offset() as int],
            final(self).text() == old(self).text(),
            final(self).offset() == old(self).offset() + 1,
            final(self).rest() == old(self).rest().skip(1),
    {
        let ch = self.code.as_str().get_char(self.pos);
        self.advance_by(1);
        ch
    }

    /// What was still to be read, as a string of its own.
    pub fn into_remained(self) -> (rest: String)
        requires
            self.wf(),
        ensures
            rest@ == self.rest(),
    {
        String::from_str(self.code.as_str().substring_char(self.pos, self.len))
    }
}

} // verus!
