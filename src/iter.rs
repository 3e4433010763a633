//! Line and column of a byte offset, and an iterator over bytes that tracks them.

use vstd::prelude::*;

verus! {

/// The line of the byte at offset `i` of `s`: one more than the number of
/// newlines before it.
pub open spec fn line_at(s: Seq<u8>, i: int) -> int
    decreases i,
{
    if i <= 0 {
        1
    } else if s[i - 1] == 10u8 {
        line_at(s, i - 1) + 1
    } else {
        line_at(s, i - 1)
    }
}

/// The column of the byte at offset `i` of `s`: the number of bytes since the
/// last newline before it (or since the start).
pub open spec fn column_at(s: Seq<u8>, i: int) -> int
    decreases i,
{
    if i <= 0 {
        0
    } else if s[i - 1] == 10u8 {
        0
    } else {
        column_at(s, i - 1) + 1
    }
}

pub proof fn lemma_line_column_bounds(s: Seq<u8>, i: int)
    requires
        0 <= i,
    ensures
        1 <= line_at(s, i) <= i + 1,
        0 <= column_at(s, i) <= i,
    decreases i,
{
    if i > 0 {
        lemma_line_column_bounds(s, i - 1);
    }
}

/// Iterates over the bytes of an input, keeping the line and column of the
/// next byte.
pub struct LineColIterator {
    bytes: Vec<u8>,
    index: usize,
    line: usize,
    col: usize,
    start_of_line: usize,
}

impl LineColIterator {
    pub closed spec fn input(&self) -> Seq<u8> {
        self.bytes@
    }

    /// The number of bytes handed out so far.
    pub closed spec fn consumed(&self) -> int {
        self.index as int
    }

    pub closed spec fn well_formed(&self) -> bool {
        &&& self.index <= self.bytes@.len() < usize::MAX
        &&& self.line == line_at(self.bytes@, self.index as int)
        &&& self.col == column_at(self.bytes@, self.index as int)
        &&& self.start_of_line + self.col == self.index
    }

    pub proof fn lemma_bounds(&self)
        requires
            self.well_formed(),
        ensures
            0 <= self.consumed() <= self.input().len() < usize::MAX,
    {
    }

    pub fn new(bytes: Vec<u8>) -> (r: LineColIterator)
        requires
            bytes@.len() < usize::MAX,
        ensures
            r.well_formed(),
            r.input() == bytes@,
            r.consumed() == 0,
    {
        LineColIterator { bytes, index: 0, line: 1, col: 0, start_of_line: 0 }
    }

    /// All the bytes of the input.
    pub fn bytes(&self) -> (r: &[u8])
        ensures
            r@ == self.input(),
    {
        self.bytes.as_slice()
    }

    /// The line of the next byte.
    pub fn line(&self) -> (r: usize)
        requires
            self.well_formed(),
        ensures
            r == line_at(self.input(), self.consumed()),
    {
        self.line
    }

    /// The column of the next byte.
    pub fn col(&self) -> (r: usize)
        requires
            self.well_formed(),
        ensures
            r == column_at(self.input(), self.consumed()),
    {
        self.col
    }

    /// The offset of the next byte.
    pub fn byte_offset(&self) -> (r: usize)
        requires
            self.well_formed(),
        ensures
            r == self.consumed(),
    {
        self.start_of_line + self.col
    }

    /// Hands out the next byte, if any, and moves the line and column past it.
    pub fn next(&mut self) -> (r: Option<u8>)
        requires
            old(self).well_formed(),
        ensures
            final(self).well_formed(),
            final(self).input() == old(self).input(),
            old(self).consumed() < old(self).input().len() ==> r == Some(
                old(self).input()[old(self).consumed()],
            ) && final(self).consumed() == old(self).consumed() + 1,
            old(self).consumed() >= old(self).input().len() ==> r is None && final(self).consumed()
                == old(self).consumed(),
    {
        if self.index >= self.bytes.len() {
            return None;
        }
        let b = self.bytes[self.index];
        proof {
            lemma_line_column_bounds(self.bytes@, self.index as int);
        }
        if b == 10u8 {
            self.start_of_line = self.start_of_line + self.col + 1;
            self.line = self.line + 1;
            self.col = 0;
        } else {
            self.col = self.col + 1;
        }
        self.index = self.index + 1;
        Some(b)
    }
}

} // verus!
