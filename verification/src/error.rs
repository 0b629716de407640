//! The errors that lexing, parsing and evaluation report.

use vstd::prelude::*;
use vstd::string::StringExecFns;

verus! {

/// What can go wrong between source text and a reduced term. Each variant
/// carries a description for the reader.
#[derive(Debug, Eq)]
pub enum InterpreterError {
    /// A variable was used where no binding for it is in scope.
    UnboundVariable(String),
    /// A term that is no abstraction stood in the function position of an
    /// application.
    TypeError(String),
    /// The tokens do not form a term.
    ParseError(String),
    /// A character of the input begins no token and is no whitespace.
    TokenizerError(String),
}

/// The result of an operation of the interpreter.
pub type InterpreterResult<T> = Result<T, InterpreterError>;

/// The mathematical value of an [`InterpreterError`]: its kind and its
/// description as a sequence of characters.
pub enum ErrorView {
    UnboundVariable(Seq<char>),
    TypeError(Seq<char>),
    ParseError(Seq<char>),
    TokenizerError(Seq<char>),
}

impl View for InterpreterError {
    type V = ErrorView;

    open spec fn view(&self) -> ErrorView {
        match self {
            InterpreterError::UnboundVariable(name) => ErrorView::UnboundVariable(name@),
            InterpreterError::TypeError(message) => ErrorView::TypeError(message@),
            InterpreterError::ParseError(message) => ErrorView::ParseError(message@),
            InterpreterError::TokenizerError(message) => ErrorView::TokenizerError(message@),
        }
    }
}

impl PartialEq for InterpreterError {
    /// Errors are equal where they are of the same kind and carry the same
    /// description.
    fn eq(&self, other: &InterpreterError) -> (same: bool) {
        match (self, other) {
            (InterpreterError::UnboundVariable(a), InterpreterError::UnboundVariable(b)) => *a
                == *b,
            (InterpreterError::TypeError(a), InterpreterError::TypeError(b)) => *a == *b,
            (InterpreterError::ParseError(a), InterpreterError::ParseError(b)) => *a == *b,
            (InterpreterError::TokenizerError(a), InterpreterError::TokenizerError(b)) => *a == *b,
            _ => false,
        }
    }
}

impl vstd::std_specs::cmp::PartialEqSpecImpl for InterpreterError {
    open spec fn obeys_eq_spec() -> bool {
        true
    }

    open spec fn eq_spec(&self, other: &InterpreterError) -> bool {
        self@ == other@
    }
}

/// The line shown for an error: the name of its kind, a colon and a space,
/// then the description.
pub open spec fn describe(e: ErrorView) -> Seq<char> {
    match e {
        ErrorView::UnboundVariable(name) => "Unbound variable: "@ + name,
        ErrorView::TypeError(message) => "Type error: "@ + message,
        ErrorView::ParseError(message) => "Parse error: "@ + message,
        ErrorView::TokenizerError(message) => "Tokenizer error: "@ + message,
    }
}

impl InterpreterError {
    /// The line shown for this error.
    pub fn to_string(&self) -> (line: String)
        ensures
            line@ == describe(self@),
    {
        match self {
            InterpreterError::UnboundVariable(name) => String::from_str("Unbound variable: ").concat(
                name.as_str(),
            ),
            InterpreterError::TypeError(message) => String::from_str("Type error: ").concat(
                message.as_str(),
            ),
            InterpreterError::ParseError(message) => String::from_str("Parse error: ").concat(
                message.as_str(),
            ),
            InterpreterError::TokenizerError(message) => String::from_str(
                "Tokenizer error: ",
            ).concat(message.as_str()),
        }
    }
}

} // verus!
