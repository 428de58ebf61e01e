//! Tokens and AST nodes: values tagged with the source span they were read
//! or derived from.

use vstd::prelude::*;
use crate::cursor::Position;

verus! {

/// A lexical unit: a token kind together with the span of text it was read
/// from.
#[derive(Debug)]
pub struct Token<TT> {
    pub position: Position,
    pub token_type: TT,
}

/// Renders an optionally present token as display text; the absent case
/// stands in for "end of input".
pub trait TokenToString {
    fn to_string(&self) -> String;
}

/// A parsed value together with the span of source text it derives from.
#[derive(Debug)]
pub struct Node<N> {
    pub position: Position,
    pub node: N,
}

impl<N> Node<N> {
    pub fn new(position: Position, node: N) -> (r: Self)
        ensures
            r.position == position,
            r.node == node,
    {
        Self { position, node }
    }
}

} // verus!
