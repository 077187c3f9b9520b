//! Errors surfaced while a grammar attempts to parse a command.

use vstd::prelude::*;

verus! {

/// Why a grammar that had already recognized its keyword rejected the rest
/// of the command, or why the tokenizer could not classify the input.
///
/// A lexical fault (an unterminated quoted string) inside a grammar attempt is
/// scoped to that attempt: it becomes the grammar's rejection, never a fault of
/// the dispatcher itself.
#[derive(Clone, Copy, PartialEq, Eq, Structural, Debug)]
pub enum ParseError {
    /// A quoted string opened with `"` never closes before the end of the text.
    UnterminatedQuote,
    /// A label list was expected but the next token cannot start one.
    ExpectedLabel,
    /// A label word does not consist of `+` or `-` followed by a name.
    InvalidLabel,
    /// After a label, the next token is neither a separator nor a terminator.
    ExpectedSeparator,
    /// An assignee word was expected but the next token cannot be one.
    ExpectedUser,
    /// The assignee was read but the command does not terminate after it.
    ExpectedEnd,
}

} // verus!
