//! The lexer's traversal context: a mutable cursor over a file's character
//! stream plus the character currently under consideration.

use vstd::prelude::*;
use crate::cursor::{Cursor, MutCursor, Position, join_lines};

verus! {

/// Lexer context for tokenising. `current` is the character the lexer looks
/// at next; it runs one step ahead of nothing-consumed at the start and
/// becomes `None` once the final newline has been consumed.
pub struct Lext {
    pub cursor: MutCursor,
    pub current: Option<char>,
}

impl Lext {
    /// The character stream being tokenised.
    pub open spec fn stream(&self) -> Seq<char> {
        self.cursor.pos_end.stream()
    }

    /// The stream offset of the character under consideration; one past the
    /// stream once everything has been consumed.
    pub open spec fn pos(&self) -> int {
        if self.current is None {
            self.stream().len() as int
        } else {
            self.cursor.pos_end.offset()
        }
    }

    /// Both cursors are well formed, agree on the file, the token start does
    /// not trail the read position, and `current` is the stream character at
    /// the read position (or nothing, at the very end).
    pub open spec fn wf(&self) -> bool {
        &&& self.cursor.pos_end.wf()
        &&& self.cursor.pos_start.wf()
        &&& self.cursor.pos_start.lines() == self.cursor.pos_end.lines()
        &&& self.cursor.pos_start.file_name == self.cursor.pos_end.file_name
        &&& self.cursor.pos_start.offset() <= self.cursor.pos_end.offset()
        &&& match self.current {
            Some(c) => c == self.stream()[self.cursor.pos_end.offset()],
            None => self.cursor.pos_end.offset() == self.stream().len() - 1,
        }
    }

    /// Opens a file's text for tokenising, with the cursor on the first
    /// character of the stream.
    pub fn new(file_name: String, contents: &str) -> (r: Self)
        requires
            contents@.len() <= 64999,
        ensures
            r.wf(),
            r.pos() == 0,
            r.cursor.pos_start == r.cursor.pos_end,
            join_lines(r.cursor.pos_end.lines()) == contents@,
            r.cursor.pos_end.file_name@ == file_name@,
            r.cursor.pos_end.ln == 1 && r.cursor.pos_end.ln_idx == 1,
    {
        let cursor = MutCursor::new(Cursor::new(file_name, contents));
        let current = cursor.pos_end.get_char();
        proof {
            crate::cursor::lemma_cursor_stream(cursor.pos_end);
            crate::cursor::lemma_line_start_nonneg(cursor.pos_end.lines(), cursor.pos_end.ln - 1);
        }
        Self { cursor, current }
    }

    /// Advances to the next character of the stream.
    pub fn advance(&mut self)
        requires
            old(self).wf(),
        ensures
            final(self).wf(),
            final(self).stream() == old(self).stream(),
            final(self).cursor.pos_start == old(self).cursor.pos_start,
            final(self).cursor.pos_end.lines() == old(self).cursor.pos_end.lines(),
            final(self).cursor.pos_end.file_name == old(self).cursor.pos_end.file_name,
            final(self).pos() == if old(self).pos() < old(self).stream().len() {
                old(self).pos() + 1
            } else {
                old(self).pos()
            },
            final(self).cursor.pos_end.offset() >= old(self).cursor.pos_end.offset(),
    {
        proof {
            crate::cursor::lemma_cursor_stream(self.cursor.pos_end);
            crate::cursor::lemma_adv_stream(self.cursor.pos_end);
        }
        self.cursor.advance();
        self.current = self.cursor.current_char;
    }

    /// Steps back to the previous character of the stream.
    pub fn revance(&mut self)
        requires
            old(self).wf(),
        ensures
            final(self).cursor.pos_start == old(self).cursor.pos_start,
            final(self).stream() == old(self).stream(),
            old(self).cursor.pos_end.offset() > 0 ==> {
                &&& final(self).cursor.pos_end.offset() == old(self).cursor.pos_end.offset() - 1
                &&& final(self).current == Some(
                    old(self).stream()[old(self).cursor.pos_end.offset() - 1],
                )
                &&& final(self).cursor.pos_end.wf()
            },
            old(self).cursor.pos_end.offset() == 0 ==> final(self).cursor.pos_end == old(
                self,
            ).cursor.pos_end && final(self).current is None,
    {
        proof {
            crate::cursor::lemma_rev_stream(self.cursor.pos_end);
        }
        self.cursor.revance();
        self.current = self.cursor.current_char;
    }

    /// Spawns a child context at the current read position; the child's
    /// token start is reset to that position.
    pub fn spawn(&self) -> (r: Self)
        requires
            self.wf(),
        ensures
            r.wf(),
            r.cursor.pos_start == self.cursor.pos_end,
            r.cursor.pos_end == self.cursor.pos_end,
            r.current == self.current,
            r.pos() == self.pos(),
            r.stream() == self.stream(),
    {
        Self { cursor: self.cursor.spawn(), current: self.current }
    }

    /// The span from the current token's start to the read position.
    pub fn position(&self) -> (r: Position)
        ensures
            r.0 == self.cursor.pos_start,
            r.1 == self.cursor.pos_end,
    {
        self.cursor.position()
    }

    /// The span from the current token's start to one character before the
    /// read position: the span of a token whose last character has just been
    /// consumed.
    pub fn rposition(&self) -> (r: Position)
        requires
            self.cursor.pos_end.wf(),
        ensures
            r.0 == self.cursor.pos_start,
            r.1 == self.cursor.pos_end.rev_spec().0,
    {
        let mut end = self.cursor.pos_end.dupe();
        end.revance();
        Position(self.cursor.pos_start.dupe(), end)
    }
}

} // verus!
