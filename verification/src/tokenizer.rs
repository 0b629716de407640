//! The lexer: from source text to a sequence of tokens.

use crate::chars::alphanumeric;
use crate::error::{ErrorView, InterpreterError, InterpreterResult};
use vstd::prelude::*;
use vstd::std_specs::iter::IteratorSpec;
use vstd::string::StringExecFns;

verus! {

broadcast use vstd::string::group_string_axioms;

/// One token of the surface syntax. A token carries no position.
#[derive(Debug)]
pub enum TokenKind {
    /// The binder marker, written `λ` or `\`.
    Lambda,
    /// `.`
    Dot,
    /// `(`
    OpenParen,
    /// `)`
    CloseParen,
    /// A maximal run of letters, digits and underscores.
    Identifier(String),
}

/// The mathematical value of a [`TokenKind`].
pub enum TokenView {
    Lambda,
    Dot,
    OpenParen,
    CloseParen,
    Identifier(Seq<char>),
}

impl View for TokenKind {
    type V = TokenView;

    open spec fn view(&self) -> TokenView {
        match self {
            TokenKind::Lambda => TokenView::Lambda,
            TokenKind::Dot => TokenView::Dot,
            TokenKind::OpenParen => TokenView::OpenParen,
            TokenKind::CloseParen => TokenView::CloseParen,
            TokenKind::Identifier(name) => TokenView::Identifier(name@),
        }
    }
}

impl PartialEq for TokenKind {
    /// Tokens are equal where they are of the same kind and, for
    /// identifiers, of the same name.
    fn eq(&self, other: &TokenKind) -> (same: bool) {
        match (self, other) {
            (TokenKind::Lambda, TokenKind::Lambda) => true,
            (TokenKind::Dot, TokenKind::Dot) => true,
            (TokenKind::OpenParen, TokenKind::OpenParen) => true,
            (TokenKind::CloseParen, TokenKind::CloseParen) => true,
            (TokenKind::Identifier(a), TokenKind::Identifier(b)) => *a == *b,
            _ => false,
        }
    }
}

impl vstd::std_specs::cmp::PartialEqSpecImpl for TokenKind {
    open spec fn obeys_eq_spec() -> bool {
        true
    }

    open spec fn eq_spec(&self, other: &TokenKind) -> bool {
        self@ == other@
    }
}

/// The values of a sequence of tokens, in order.
pub open spec fn tokens_view(tokens: Seq<TokenKind>) -> Seq<TokenView> {
    tokens.map_values(|t: TokenKind| t@)
}

/// The token that a single character stands for, if it stands for one.
pub open spec fn symbol(c: char) -> Option<TokenView> {
    if c == 'λ' || c == '\\' {
        Some(TokenView::Lambda)
    } else if c == '.' {
        Some(TokenView::Dot)
    } else if c == '(' {
        Some(TokenView::OpenParen)
    } else if c == ')' {
        Some(TokenView::CloseParen)
    } else {
        None
    }
}

/// The whitespace that separates tokens: space, tab and newline.
pub open spec fn is_blank(c: char) -> bool {
    c == ' ' || c == '\t' || c == '\n'
}

/// The characters that identifiers are made of: letters, digits and `_`.
pub open spec fn is_identifier_char(c: char) -> bool {
    alphanumeric(c) || c == '_'
}

/// The characters that may occur in source text.
pub open spec fn is_accepted(c: char) -> bool {
    symbol(c) is Some || is_blank(c) || is_identifier_char(c)
}

/// The length of the longest prefix of `s` made of identifier characters.
pub open spec fn run_len(s: Seq<char>) -> nat
    decreases s.len(),
{
    if s.len() > 0 && is_identifier_char(s[0]) {
        1 + run_len(s.drop_first())
    } else {
        0
    }
}

/// Puts `prefix` in front of the tokens of a successful result; a failure
/// stays as it is.
pub open spec fn join(prefix: Seq<TokenView>, rest: Result<Seq<TokenView>, char>) -> Result<
    Seq<TokenView>,
    char,
> {
    match rest {
        Ok(tokens) => Ok(prefix + tokens),
        Err(c) => Err(c),
    }
}

/// The tokens of a text, read from left to right, or the first character at
/// which no token can start. At the start of a token a character that
/// stands for a token by itself is that token, whitespace is passed over, and
/// an identifier character starts an identifier that runs as far as
/// identifier characters follow.
pub open spec fn lex(s: Seq<char>) -> Result<Seq<TokenView>, char>
    decreases s.len(),
{
    if s.len() == 0 {
        Ok(Seq::empty())
    } else if symbol(s[0]) is Some {
        join(seq![symbol(s[0])->0], lex(s.drop_first()))
    } else if is_blank(s[0]) {
        lex(s.drop_first())
    } else if is_identifier_char(s[0]) {
        let n = run_len(s) as int;
        proof {
            lemma_run_len(s);
        }
        join(seq![TokenView::Identifier(s.take(n))], lex(s.skip(n)))
    } else {
        Err(s[0])
    }
}

/// The description carried by the error for a character that starts no token.
pub open spec fn unexpected_character(c: char) -> Seq<char> {
    "Unexpected character '"@.push(c) + "'"@
}

/// A run ends within the text, holds identifier characters only, and is
/// followed by none.
pub proof fn lemma_run_len(s: Seq<char>)
    ensures
        run_len(s) <= s.len(),
        forall|i: int| 0 <= i < run_len(s) ==> is_identifier_char(#[trigger] s[i]),
        run_len(s) < s.len() ==> !is_identifier_char(s[run_len(s) as int]),
        s.len() > 0 && is_identifier_char(s[0]) ==> run_len(s) >= 1,
    decreases s.len(),
{
    if s.len() > 0 && is_identifier_char(s[0]) {
        let t = s.drop_first();
        lemma_run_len(t);
        assert forall|i: int| 0 <= i < run_len(s) implies is_identifier_char(#[trigger] s[i]) by {
            if i > 0 {
                assert(s[i] == t[i - 1]);
            }
        }
        if run_len(s) < s.len() {
            assert(s[run_len(s) as int] == t[run_len(t) as int]);
        }
    }
}

/// Lexing succeeds exactly on the texts made of accepted characters, and a
/// failure names the first character that is not accepted.
pub proof fn lemma_lex_total(s: Seq<char>)
    ensures
        lex(s) is Ok <==> forall|i: int| 0 <= i < s.len() ==> is_accepted(#[trigger] s[i]),
        lex(s) matches Err(c) ==> exists|i: int|
            0 <= i < s.len() && #[trigger] s[i] == c && !is_accepted(c) && forall|j: int|
                0 <= j < i ==> is_accepted(#[trigger] s[j]),
    decreases s.len(),
{
    if s.len() == 0 {
    } else if symbol(s[0]) is Some || is_blank(s[0]) {
        let t = s.drop_first();
        lemma_lex_total(t);
        lemma_lex_shift(s, 1);
    } else if is_identifier_char(s[0]) {
        lemma_run_len(s);
        let n = run_len(s) as int;
        lemma_lex_total(s.skip(n));
        lemma_lex_shift(s, n);
    } else {
        assert(s[0] == s[0] && !is_accepted(s[0]));
    }
}

/// Carries what is known of a suffix of accepted-prefixed text over to the
/// whole text.
proof fn lemma_lex_shift(s: Seq<char>, n: int)
    requires
        0 < n <= s.len(),
        forall|i: int| 0 <= i < n ==> is_accepted(#[trigger] s[i]),
        lex(s.skip(n)) is Ok <==> forall|i: int|
            0 <= i < s.skip(n).len() ==> is_accepted(#[trigger] s.skip(n)[i]),
        lex(s.skip(n)) matches Err(c) ==> exists|i: int|
            0 <= i < s.skip(n).len() && #[trigger] s.skip(n)[i] == c && !is_accepted(c)
                && forall|j: int| 0 <= j < i ==> is_accepted(#[trigger] s.skip(n)[j]),
    ensures
        lex(s.skip(n)) is Ok <==> forall|i: int| 0 <= i < s.len() ==> is_accepted(#[trigger] s[i]),
        lex(s.skip(n)) matches Err(c) ==> exists|i: int|
            0 <= i < s.len() && #[trigger] s[i] == c && !is_accepted(c) && forall|j: int|
                0 <= j < i ==> is_accepted(#[trigger] s[j]),
{
    let t = s.skip(n);
    if lex(t) is Ok {
        assert forall|i: int| 0 <= i < s.len() implies is_accepted(#[trigger] s[i]) by {
            if i >= n {
                assert(s[i] == t[i - n]);
            }
        }
    } else {
        let c = lex(t)->Err_0;
        let k = choose|i: int|
            0 <= i < t.len() && #[trigger] t[i] == c && !is_accepted(c) && forall|j: int|
                0 <= j < i ==> is_accepted(#[trigger] t[j]);
        assert(s[k + n] == t[k]);
        assert forall|j: int| 0 <= j < k + n implies is_accepted(#[trigger] s[j]) by {
            if j >= n {
                assert(s[j] == t[j - n]);
            }
        }
        assert(!is_accepted(s[k + n]));
    }
}

/// The text that is still to be read: the character looked at, if there is
/// one, and after it what the iterator has left.
spec fn unread(next: Option<char>, remaining: Seq<char>) -> Seq<char> {
    match next {
        Some(c) => seq![c] + remaining,
        None => Seq::empty(),
    }
}

/// Reading one more token after `prefix` is reading `prefix` with that token
/// at its end.
proof fn lemma_join_push(prefix: Seq<TokenKind>, token: TokenKind, rest: Result<Seq<TokenView>, char>)
    ensures
        join(tokens_view(prefix), join(seq![token@], rest)) == join(
            tokens_view(prefix.push(token)),
            rest,
        ),
{
    assert(tokens_view(prefix.push(token)) =~= tokens_view(prefix).push(token@));
    if let Ok(tokens) = rest {
        assert(tokens_view(prefix) + (seq![token@] + tokens) =~= tokens_view(prefix).push(token@)
            + tokens);
    }
}

/// The error for a character at which no token can start.
fn unexpected(c: char) -> (e: InterpreterError)
    ensures
        e@ == ErrorView::TokenizerError(unexpected_character(c)),
{
    let mut message = String::from_str("Unexpected character '");
    message.push(c);
    message.append("'");
    InterpreterError::TokenizerError(message)
}

/// Splits a text into its tokens in one pass from left to right, looking
/// one character ahead.
///
/// The result is `lex` of the text. It is `Ok` exactly when every character
/// of the text is accepted; otherwise the error is a `TokenizerError` that
/// names the first character at which no token can start.
pub fn tokenize(input: &str) -> (result: InterpreterResult<Vec<TokenKind>>)
    ensures
        match result {
            Ok(tokens) => lex(input@) == Ok::<Seq<TokenView>, char>(tokens_view(tokens@)),
            Err(e) => lex(input@) is Err && e@ == ErrorView::TokenizerError(
                unexpected_character(lex(input@)->Err_0),
            ),
        },
        result is Ok <==> forall|i: int| 0 <= i < input@.len() ==> is_accepted(#[trigger] input@[i]),
{
    let mut tokens: Vec<TokenKind> = Vec::new();
    let mut chars = input.chars();
    let mut next = chars.next();
    let ghost mut rest = input@;
    proof {
        lemma_lex_total(input@);
        assert(tokens_view(tokens@) =~= Seq::empty());
        assert(rest =~= unread(next, chars.remaining()));
        if let Ok(all) = lex(rest) {
            assert(Seq::<TokenView>::empty() + all =~= all);
        }
    }
    while next.is_some()
        invariant
            rest == unread(next, chars.remaining()),
            lex(input@) == join(tokens_view(tokens@), lex(rest)),
        decreases rest.len(),
    {
        let c = next.unwrap();
        match c {
            'λ' | '\\' => {
                proof {
                    lemma_join_push(tokens@, TokenKind::Lambda, lex(rest.drop_first()));
                }
                tokens.push(TokenKind::Lambda);
                next = chars.next();
                proof {
                    rest = rest.drop_first();
                    assert(rest =~= unread(next, chars.remaining()));
                }
            },
            '.' => {
                proof {
                    lemma_join_push(tokens@, TokenKind::Dot, lex(rest.drop_first()));
                }
                tokens.push(TokenKind::Dot);
                next = chars.next();
                proof {
                    rest = rest.drop_first();
                    assert(rest =~= unread(next, chars.remaining()));
                }
            },
            '(' => {
                proof {
                    lemma_join_push(tokens@, TokenKind::OpenParen, lex(rest.drop_first()));
                }
                tokens.push(TokenKind::OpenParen);
                next = chars.next();
                proof {
                    rest = rest.drop_first();
                    assert(rest =~= unread(next, chars.remaining()));
                }
            },
            ')' => {
                proof {
                    lemma_join_push(tokens@, TokenKind::CloseParen, lex(rest.drop_first()));
                }
                tokens.push(TokenKind::CloseParen);
                next = chars.next();
                proof {
                    rest = rest.drop_first();
                    assert(rest =~= unread(next, chars.remaining()));
                }
            },
            ' ' | '\t' | '\n' => {
                next = chars.next();
                proof {
                    rest = rest.drop_first();
                    assert(rest =~= unread(next, chars.remaining()));
                }
            },
            _ => {
                let ghost start = rest;
                let mut identifier = String::new();
                let mut running = true;
                while running
                    invariant
                        rest == unread(next, chars.remaining()),
                        identifier@.len() <= start.len(),
                        identifier@ == start.take(identifier@.len() as int),
                        rest == start.skip(identifier@.len() as int),
                        run_len(start) == identifier@.len() + run_len(rest),
                        !running ==> run_len(rest) == 0,
                    decreases rest.len() + (if running { 1nat } else { 0nat }),
                {
                    match next {
                        Some(d) if d.is_alphanumeric() || d == '_' => {
                            identifier.push(d);
                            next = chars.next();
                            proof {
                                let k = identifier@.len() as int;
                                assert(rest.drop_first() =~= start.skip(k));
                                assert(identifier@ =~= start.take(k));
                                rest = rest.drop_first();
                                assert(rest =~= unread(next, chars.remaining()));
                            }
                        },
                        _ => {
                            running = false;
                        },
                    }
                }
                if !identifier.as_str().is_empty() {
                    proof {
                        lemma_join_push(tokens@, TokenKind::Identifier(identifier), lex(rest));
                    }
                    tokens.push(TokenKind::Identifier(identifier));
                } else {
                    proof {
                        lemma_lex_total(input@);
                    }
                    return Err(unexpected(c));
                }
            },
        }
    }
    Ok(tokens)
}

} // verus!
