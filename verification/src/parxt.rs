//! The parser's traversal context: an index into an immutable token
//! sequence, with cheap snapshots for backtracking.

use vstd::prelude::*;
use crate::cursor::{Cursor, Position};
use crate::token_node::Token;

verus! {

/// Parser context over a finished token sequence.
pub struct Parxt<'a, TT> {
    pub tokens: &'a [Token<TT>],
    pub idx: u16,
    pub done: bool,
}

/// The position a parser reports at token index `idx`: the token's own span,
/// or — past the last token — a single point one column after the end of the
/// last token.
pub open spec fn spec_pos_at<TT>(tokens: Seq<Token<TT>>, idx: int) -> Position {
    if 0 <= idx < tokens.len() {
        tokens[idx].position
    } else {
        let lastc = tokens.last().position.1;
        let c = Cursor { ln_idx: (lastc.ln_idx + 1) as u16, ..lastc };
        Position(c, c)
    }
}

impl<'a, TT> Parxt<'a, TT> {
    /// The token sequence is usable by the engine: non-empty, small enough
    /// for 16-bit indices, and with columns small enough that a point past
    /// the last token still has a 16-bit column.
    pub open spec fn wf(&self) -> bool {
        &&& 1 <= self.tokens@.len() <= 65000
        &&& forall|i: int|
            0 <= i < self.tokens@.len() ==> (#[trigger] self.tokens@[i]).position.1.ln_idx <= 65002
    }

    pub fn new(tokens: &'a [Token<TT>]) -> (r: Self)
        ensures
            r.tokens@ == tokens@,
            r.idx == 0,
            r.done == (tokens@.len() == 0),
    {
        Self { tokens, idx: 0, done: tokens.len() == 0 }
    }

    /// The token under consideration, if any remains.
    pub fn current_token(&self) -> (r: Option<&'a Token<TT>>)
        ensures
            match r {
                Some(t) => self.idx < self.tokens@.len() && *t == self.tokens@[self.idx as int],
                None => self.idx >= self.tokens@.len(),
            },
    {
        if (self.idx as usize) < self.tokens.len() {
            Some(&self.tokens[self.idx as usize])
        } else {
            None
        }
    }

    /// The kind of the token under consideration, if any remains.
    pub fn current(&self) -> (r: Option<&'a TT>)
        ensures
            match r {
                Some(t) => self.idx < self.tokens@.len() && *t == self.tokens@[self.idx as int].token_type,
                None => self.idx >= self.tokens@.len(),
            },
    {
        match self.current_token() {
            Some(t) => Some(&t.token_type),
            None => None,
        }
    }

    /// Consumes one token.
    pub fn advance(&mut self)
        requires
            old(self).idx < 65535,
        ensures
            final(self).idx == old(self).idx + 1,
            final(self).tokens@ == old(self).tokens@,
            final(self).done == old(self).done,
    {
        self.idx = self.idx + 1;
    }

    /// Steps back one token; at the start it stays put.
    pub fn revance(&mut self)
        ensures
            final(self).idx == if old(self).idx == 0 {
                0u16
            } else {
                (old(self).idx - 1) as u16
            },
            final(self).tokens@ == old(self).tokens@,
            final(self).done == old(self).done,
    {
        if self.idx != 0 {
            self.idx = self.idx - 1;
        }
    }

    /// Spawns an independent child context at the current token.
    pub fn spawn(&self) -> (r: Self)
        ensures
            r.tokens@ == self.tokens@,
            r.idx == self.idx,
            r.done == self.done,
    {
        Self { tokens: self.tokens, idx: self.idx, done: self.done }
    }

    /// The span the parser currently points at, per [`spec_pos_at`].
    pub fn position(&self) -> (r: Position)
        requires
            self.wf(),
        ensures
            r == spec_pos_at(self.tokens@, self.idx as int),
    {
        match self.current_token() {
            Some(t) => t.position.combine(&t.position),
            None => self.get_last_pos(),
        }
    }

    /// A single point one column past the end of the last token, standing in
    /// for "end of input".
    fn get_last_pos(&self) -> (r: Position)
        requires
            self.wf(),
        ensures
            r.0 == r.1,
            r.0 == (Cursor {
                ln_idx: (self.tokens@.last().position.1.ln_idx + 1) as u16,
                ..self.tokens@.last().position.1
            }),
    {
        let last = &self.tokens[self.tokens.len() - 1];
        let mut end = last.position.1.dupe();
        end.ln_idx = end.ln_idx + 1;
        let end2 = end.dupe();
        Position(end, end2)
    }
}

} // verus!
