//! The parser: from tokens to a term, by recursive descent with one token
//! of lookahead.
//!
//! ```text
//! term        ::= abstraction | application | variable
//! abstraction ::= LAMBDA identifier DOT term
//! application ::= LPAREN term term RPAREN
//! variable    ::= identifier
//! ```

use crate::error::{ErrorView, InterpreterError, InterpreterResult};
use crate::term::{Term, TermView};
use crate::tokenizer::{lex, tokenize, tokens_view, unexpected_character, TokenKind, TokenView};
use vstd::prelude::*;
use vstd::string::StringExecFns;

verus! {

/// The tokens that the grammar derives for a term.
pub open spec fn tokens_of(t: TermView) -> Seq<TokenView>
    decreases t,
{
    match t {
        TermView::Variable(name) => seq![TokenView::Identifier(name)],
        TermView::Abstraction(param, body) => seq![
            TokenView::Lambda,
            TokenView::Identifier(param),
            TokenView::Dot,
        ] + tokens_of(*body),
        TermView::Application(func, arg) => seq![TokenView::OpenParen] + tokens_of(*func)
            + tokens_of(*arg) + seq![TokenView::CloseParen],
    }
}

/// What parsing one term at the front of `tokens` gives: the term and the
/// tokens after it, or the first mismatch. The first token decides which
/// rule applies.
pub open spec fn parsed_term(tokens: Seq<TokenView>) -> Result<(TermView, Seq<TokenView>), ErrorView>
    decreases tokens.len(), 0int,
{
    if tokens.len() == 0 {
        Err(ErrorView::ParseError("Unexpected end of input"@))
    } else {
        match tokens[0] {
            TokenView::Lambda => parsed_abstraction(tokens.skip(1)),
            TokenView::OpenParen => parsed_application(tokens.skip(1)),
            TokenView::Identifier(name) => Ok((TermView::Variable(name), tokens.skip(1))),
            TokenView::Dot => Err(ErrorView::ParseError("Unexpected token: Dot"@)),
            TokenView::CloseParen => Err(ErrorView::ParseError("Unexpected token: CloseParen"@)),
        }
    }
}

/// What parsing the rest of an abstraction gives, after its binder marker:
/// one identifier, a dot and a term.
pub open spec fn parsed_abstraction(tokens: Seq<TokenView>) -> Result<
    (TermView, Seq<TokenView>),
    ErrorView,
>
    decreases tokens.len(), 1int,
{
    if tokens.len() > 0 && tokens[0] is Identifier {
        if tokens.len() > 1 && tokens[1] is Dot {
            match parsed_term(tokens.skip(2)) {
                Ok((body, rest)) => Ok(
                    (TermView::Abstraction(tokens[0]->Identifier_0, Box::new(body)), rest),
                ),
                Err(e) => Err(e),
            }
        } else {
            Err(ErrorView::ParseError("Expected '.' after parameter in abstraction"@))
        }
    } else {
        Err(ErrorView::ParseError("Expected parameter in abstraction"@))
    }
}

/// What parsing the rest of an application gives, after its opening
/// parenthesis: two terms and a closing parenthesis. The second term is read
/// from what the first one left, which is never more than it was given (see
/// [`lemma_parsed_term_consumes`]).
pub open spec fn parsed_application(tokens: Seq<TokenView>) -> Result<
    (TermView, Seq<TokenView>),
    ErrorView,
>
    decreases tokens.len(), 1int,
{
    match parsed_term(tokens) {
        Err(e) => Err(e),
        Ok((func, after_func)) => {
            if after_func.len() <= tokens.len() {
                match parsed_term(after_func) {
                    Err(e) => Err(e),
                    Ok((arg, after_arg)) => {
                        if after_arg.len() > 0 && after_arg[0] is CloseParen {
                            Ok(
                                (
                                    TermView::Application(Box::new(func), Box::new(arg)),
                                    after_arg.skip(1),
                                ),
                            )
                        } else {
                            Err(ErrorView::ParseError("Expected closing parenthesis"@))
                        }
                    },
                }
            } else {
                Err(ErrorView::ParseError("Expected closing parenthesis"@))
            }
        },
    }
}

/// What parsing a whole text gives: its tokens must form one term and
/// nothing more.
pub open spec fn parsed(text: Seq<char>) -> Result<TermView, ErrorView> {
    match lex(text) {
        Err(c) => Err(ErrorView::TokenizerError(unexpected_character(c))),
        Ok(tokens) => match parsed_term(tokens) {
            Err(e) => Err(e),
            Ok((term, rest)) => {
                if rest.len() == 0 {
                    Ok(term)
                } else {
                    Err(ErrorView::ParseError("Unexpected tokens at end of input"@))
                }
            },
        },
    }
}

/// A term that was parsed is derived by the grammar: the tokens given are
/// the tokens of that term followed by the tokens left, and at least one
/// token was consumed.
pub proof fn lemma_parsed_term_consumes(tokens: Seq<TokenView>)
    ensures
        parsed_term(tokens) matches Ok((term, rest)) ==> tokens == tokens_of(term) + rest
            && rest.len() < tokens.len(),
    decreases tokens.len(),
{
    if tokens.len() > 0 {
        let inner = tokens.skip(1);
        match tokens[0] {
            TokenView::Lambda => {
                if let Ok((term, rest)) = parsed_abstraction(inner) {
                    let body_tokens = inner.skip(2);
                    lemma_parsed_term_consumes(body_tokens);
                    let body = parsed_term(body_tokens)->Ok_0.0;
                    assert(tokens =~= seq![TokenView::Lambda, inner[0], TokenView::Dot]
                        + body_tokens);
                    assert(tokens =~= tokens_of(term) + rest);
                }
            },
            TokenView::OpenParen => {
                if let Ok((term, rest)) = parsed_application(inner) {
                    lemma_parsed_term_consumes(inner);
                    let (func, after_func) = parsed_term(inner)->Ok_0;
                    lemma_parsed_term_consumes(after_func);
                    let (arg, after_arg) = parsed_term(after_func)->Ok_0;
                    assert(after_arg =~= seq![TokenView::CloseParen] + rest);
                    assert(tokens =~= seq![TokenView::OpenParen] + inner);
                    assert(tokens =~= tokens_of(term) + rest);
                }
            },
            TokenView::Identifier(name) => {
                assert(tokens =~= seq![TokenView::Identifier(name)] + inner);
            },
            _ => {},
        }
    }
}

/// The parser reads back what the grammar derives: the tokens of a term,
/// followed by anything, parse to that term and leave what followed.
pub proof fn lemma_parsed_term_of_tokens(t: TermView, rest: Seq<TokenView>)
    ensures
        parsed_term(tokens_of(t) + rest) == Ok::<(TermView, Seq<TokenView>), ErrorView>((t, rest)),
    decreases t,
{
    let tokens = tokens_of(t) + rest;
    match t {
        TermView::Variable(name) => {
            assert(tokens.skip(1) =~= rest);
        },
        TermView::Abstraction(param, body) => {
            let inner = tokens.skip(1);
            lemma_parsed_term_of_tokens(*body, rest);
            assert(inner.skip(2) =~= tokens_of(*body) + rest);
        },
        TermView::Application(func, arg) => {
            let inner = tokens.skip(1);
            let after_func = tokens_of(*arg) + (seq![TokenView::CloseParen] + rest);
            let after_arg = seq![TokenView::CloseParen] + rest;
            lemma_parsed_term_of_tokens(*func, after_func);
            lemma_parsed_term_of_tokens(*arg, after_arg);
            assert(inner =~= tokens_of(*func) + after_func);
            assert(after_arg.skip(1) =~= rest);
        },
    }
}

/// The view of the tokens from the `n`-th on is the view of all tokens from
/// the `n`-th on.
proof fn lemma_view_skip(tokens: Seq<TokenKind>, n: int)
    requires
        0 <= n <= tokens.len(),
    ensures
        tokens_view(tokens.subrange(n, tokens.len() as int)) == tokens_view(tokens).skip(n),
{
    assert(tokens_view(tokens.subrange(n, tokens.len() as int)) =~= tokens_view(tokens).skip(n));
}

/// A `ParseError` with the given description.
fn parse_error(message: &str) -> (e: InterpreterError)
    ensures
        e@ == ErrorView::ParseError(message@),
{
    InterpreterError::ParseError(String::from_str(message))
}

/// Parses one term at the front of `tokens` and returns it with the tokens
/// that follow it. The first token decides: a binder marker starts an
/// abstraction, an opening parenthesis an application, an identifier is a
/// variable; any other token, or none, is a `ParseError`.
pub fn parse_term<'a>(tokens: &'a [TokenKind]) -> (result: Result<
    (Term, &'a [TokenKind]),
    InterpreterError,
>)
    ensures
        match result {
            Ok((term, rest)) => parsed_term(tokens_view(tokens@)) == Ok::<
                (TermView, Seq<TokenView>),
                ErrorView,
            >((term@, tokens_view(rest@))),
            Err(e) => parsed_term(tokens_view(tokens@)) == Err::<
                (TermView, Seq<TokenView>),
                ErrorView,
            >(e@),
        },
    decreases tokens@.len(), 0int,
{
    if tokens.len() == 0 {
        return Err(parse_error("Unexpected end of input"));
    }
    proof {
        lemma_view_skip(tokens@, 1);
    }
    match &tokens[0] {
        TokenKind::Lambda => parse_abstraction(&tokens[1..tokens.len()]),
        TokenKind::OpenParen => parse_application(&tokens[1..tokens.len()]),
        TokenKind::Identifier(name) => Ok((Term::Variable(name.clone()), &tokens[1..tokens.len()])),
        TokenKind::Dot => Err(parse_error("Unexpected token: Dot")),
        TokenKind::CloseParen => Err(parse_error("Unexpected token: CloseParen")),
    }
}

/// Parses what follows the binder marker of an abstraction: exactly one
/// identifier, then a dot, then the body.
fn parse_abstraction<'a>(tokens: &'a [TokenKind]) -> (result: Result<
    (Term, &'a [TokenKind]),
    InterpreterError,
>)
    ensures
        match result {
            Ok((term, rest)) => parsed_abstraction(tokens_view(tokens@)) == Ok::<
                (TermView, Seq<TokenView>),
                ErrorView,
            >((term@, tokens_view(rest@))),
            Err(e) => parsed_abstraction(tokens_view(tokens@)) == Err::<
                (TermView, Seq<TokenView>),
                ErrorView,
            >(e@),
        },
    decreases tokens@.len(), 1int,
{
    if tokens.len() > 0 {
        if let TokenKind::Identifier(param) = &tokens[0] {
            if tokens.len() > 1 {
                if let TokenKind::Dot = &tokens[1] {
                    proof {
                        lemma_view_skip(tokens@, 2);
                    }
                    return match parse_term(&tokens[2..tokens.len()]) {
                        Ok((body, remaining)) => Ok(
                            (Term::Abstraction(param.clone(), Box::new(body)), remaining),
                        ),
                        Err(e) => Err(e),
                    };
                }
            }
            return Err(parse_error("Expected '.' after parameter in abstraction"));
        }
    }
    Err(parse_error("Expected parameter in abstraction"))
}

/// Parses what follows the opening parenthesis of an application: two terms,
/// then a closing parenthesis.
fn parse_application<'a>(tokens: &'a [TokenKind]) -> (result: Result<
    (Term, &'a [TokenKind]),
    InterpreterError,
>)
    ensures
        match result {
            Ok((term, rest)) => parsed_application(tokens_view(tokens@)) == Ok::<
                (TermView, Seq<TokenView>),
                ErrorView,
            >((term@, tokens_view(rest@))),
            Err(e) => parsed_application(tokens_view(tokens@)) == Err::<
                (TermView, Seq<TokenView>),
                ErrorView,
            >(e@),
        },
    decreases tokens@.len(), 1int,
{
    let (func, remaining) = match parse_term(tokens) {
        Ok(parsed) => parsed,
        Err(e) => {
            return Err(e);
        },
    };
    proof {
        lemma_parsed_term_consumes(tokens_view(tokens@));
    }
    let (arg, remaining) = match parse_term(remaining) {
        Ok(parsed) => parsed,
        Err(e) => {
            return Err(e);
        },
    };
    if remaining.len() > 0 {
        if let TokenKind::CloseParen = &remaining[0] {
            proof {
                lemma_view_skip(remaining@, 1);
            }
            return Ok(
                (
                    Term::Application(Box::new(func), Box::new(arg)),
                    &remaining[1..remaining.len()],
                ),
            );
        }
    }
    Err(parse_error("Expected closing parenthesis"))
}

/// Parses a text into the term it denotes.
///
/// The text is split into tokens, one term is parsed from them, and nothing
/// may follow that term. The result is `parsed` of the text: the term, the
/// lexer's error, the parser's first mismatch, or a `ParseError` for tokens
/// left over after a complete term.
pub fn parse(input: &str) -> (result: InterpreterResult<Term>)
    ensures
        match result {
            Ok(term) => parsed(input@) == Ok::<TermView, ErrorView>(term@),
            Err(e) => parsed(input@) == Err::<TermView, ErrorView>(e@),
        },
{
    let tokens = match tokenize(input) {
        Ok(tokens) => tokens,
        Err(e) => {
            return Err(e);
        },
    };
    let (term, remaining) = match parse_term(tokens.as_slice()) {
        Ok(parsed) => parsed,
        Err(e) => {
            return Err(e);
        },
    };
    if remaining.len() != 0 {
        return Err(parse_error("Unexpected tokens at end of input"));
    }
    Ok(term)
}

} // verus!
