//! A verified toolkit for building hand-rolled lexers and recursive-descent
//! parsers for small custom languages, with source-accurate diagnostics.
//!
//! The crate is organised around three cores:
//! - the position model: [`cursor::FileContents`], [`cursor::Cursor`],
//!   [`cursor::Position`] and [`cursor::MutCursor`] track exact file
//!   locations through character-by-character traversal;
//! - diagnostics: [`diagnostic::CompileError`] instances are built from
//!   fixed-arity templates and rendered as source-quoting reports;
//! - the matching engines: an ordered-rule lexer ([`lexer::Lexer`] over a
//!   [`lext::Lext`]) and a backtracking recursive-descent parser
//!   ([`parser::Grammar`] over a [`parxt::Parxt`]) with furthest-failure
//!   error arbitration.

pub mod cursor;
pub mod diagnostic;
pub mod display;
pub mod lexer;
pub mod lext;
pub mod parser;
pub mod parxt;
pub mod token_node;

use vstd::prelude::*;

verus! {

/// Relies on `String::push`: appends exactly the given character.
pub assume_specification[ String::push ](s: &mut String, c: char)
    ensures
        final(s)@ == old(s)@.push(c),
;

} // verus!
