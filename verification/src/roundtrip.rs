//! Parsing the canonical text of a term gives the term back.

use crate::error::ErrorView;
use crate::parser::{
    lemma_parsed_term_consumes, lemma_parsed_term_of_tokens, parsed, tokens_of,
};
use crate::term::{render, TermView};
use crate::tokenizer::{
    is_blank, is_identifier_char, join, lemma_run_len, lex, run_len, symbol, TokenView,
};
use vstd::prelude::*;

verus! {

/// The names that the lexer reads as one identifier: not empty, made of
/// identifier characters, and not starting with a character that is a token
/// by itself.
pub open spec fn is_identifier(name: Seq<char>) -> bool {
    &&& name.len() > 0
    &&& forall|i: int| 0 <= i < name.len() ==> is_identifier_char(#[trigger] name[i])
    &&& symbol(name[0]) is None
}

/// Every name in the term is an identifier.
pub open spec fn well_named(t: TermView) -> bool
    decreases t,
{
    match t {
        TermView::Variable(name) => is_identifier(name),
        TermView::Abstraction(param, body) => is_identifier(param) && well_named(*body),
        TermView::Application(func, arg) => well_named(*func) && well_named(*arg),
    }
}

/// The text `rest` cannot prolong an identifier that ends where it starts.
pub open spec fn ends_identifier(rest: Seq<char>) -> bool {
    rest.len() == 0 || !is_identifier_char(rest[0])
}

/// Reading tokens one after another is reading them together.
proof fn lemma_join_join(a: Seq<TokenView>, b: Seq<TokenView>, rest: Result<Seq<TokenView>, char>)
    ensures
        join(a, join(b, rest)) == join(a + b, rest),
{
    if let Ok(tokens) = rest {
        assert(a + (b + tokens) =~= (a + b) + tokens);
    }
}

/// A run of identifier characters that nothing prolongs has the length of
/// the run.
proof fn lemma_run_exact(name: Seq<char>, rest: Seq<char>)
    requires
        forall|i: int| 0 <= i < name.len() ==> is_identifier_char(#[trigger] name[i]),
        ends_identifier(rest),
    ensures
        run_len(name + rest) == name.len(),
    decreases name.len(),
{
    let s = name + rest;
    if name.len() == 0 {
        assert(s =~= rest);
    } else {
        assert(s[0] == name[0]);
        assert(s.drop_first() =~= name.drop_first() + rest);
        assert forall|i: int| 0 <= i < name.drop_first().len() implies is_identifier_char(
            #[trigger] name.drop_first()[i],
        ) by {
            assert(name.drop_first()[i] == name[i + 1]);
        }
        lemma_run_exact(name.drop_first(), rest);
    }
}

/// A character that is a token by itself is read as that token.
proof fn lemma_lex_symbol(c: char, rest: Seq<char>)
    requires
        symbol(c) is Some,
    ensures
        lex(seq![c] + rest) == join(seq![symbol(c)->0], lex(rest)),
{
    let s = seq![c] + rest;
    assert(s[0] == c);
    assert(s.drop_first() =~= rest);
}

/// An identifier that nothing prolongs is read as one identifier token.
proof fn lemma_lex_identifier(name: Seq<char>, rest: Seq<char>)
    requires
        is_identifier(name),
        ends_identifier(rest),
    ensures
        lex(name + rest) == join(seq![TokenView::Identifier(name)], lex(rest)),
{
    let s = name + rest;
    lemma_run_exact(name, rest);
    assert(s[0] == name[0]);
    assert(is_identifier_char(name[0]));
    assert(!is_blank(s[0]));
    assert(s.take(name.len() as int) =~= name);
    assert(s.skip(name.len() as int) =~= rest);
}

/// The canonical text of a well-named term, followed by text that cannot
/// prolong an identifier, is read as the tokens of the term and then the
/// tokens of what follows.
pub proof fn lemma_lex_render(t: TermView, rest: Seq<char>)
    requires
        well_named(t),
        ends_identifier(rest),
    ensures
        lex(render(t) + rest) == join(tokens_of(t), lex(rest)),
    decreases t,
{
    match t {
        TermView::Variable(name) => {
            lemma_lex_identifier(name, rest);
        },
        TermView::Abstraction(param, body) => {
            let after_dot = render(*body) + rest;
            let after_param = seq!['.'] + after_dot;
            let after_lambda = param + after_param;
            assert(render(t) + rest =~= seq!['λ'] + after_lambda);
            lemma_lex_symbol('λ', after_lambda);
            assert(after_param[0] == '.');
            lemma_lex_identifier(param, after_param);
            lemma_lex_symbol('.', after_dot);
            lemma_lex_render(*body, rest);
            let ident = seq![TokenView::Identifier(param)];
            lemma_join_join(seq![TokenView::Dot], tokens_of(*body), lex(rest));
            lemma_join_join(ident, seq![TokenView::Dot] + tokens_of(*body), lex(rest));
            lemma_join_join(
                seq![TokenView::Lambda],
                ident + (seq![TokenView::Dot] + tokens_of(*body)),
                lex(rest),
            );
            assert(seq![TokenView::Lambda] + (ident + (seq![TokenView::Dot] + tokens_of(*body)))
                =~= tokens_of(t));
        },
        TermView::Application(func, arg) => {
            let after_arg = seq![')'] + rest;
            let after_space = render(*arg) + after_arg;
            let after_func = seq![' '] + after_space;
            let after_open = render(*func) + after_func;
            assert(render(t) + rest =~= seq!['('] + after_open);
            lemma_lex_symbol('(', after_open);
            assert(after_func[0] == ' ');
            lemma_lex_render(*func, after_func);
            assert(after_func.drop_first() =~= after_space);
            assert(lex(after_func) == lex(after_space));
            assert(after_arg[0] == ')');
            lemma_lex_render(*arg, after_arg);
            lemma_lex_symbol(')', rest);
            let close = seq![TokenView::CloseParen];
            lemma_join_join(tokens_of(*arg), close, lex(rest));
            lemma_join_join(tokens_of(*func), tokens_of(*arg) + close, lex(rest));
            lemma_join_join(
                seq![TokenView::OpenParen],
                tokens_of(*func) + (tokens_of(*arg) + close),
                lex(rest),
            );
            assert(seq![TokenView::OpenParen] + (tokens_of(*func) + (tokens_of(*arg) + close))
                =~= tokens_of(t));
        },
    }
}

/// Rendering and parsing are inverse to each other on the terms that the
/// grammar derives: the canonical text of a term whose names are
/// identifiers parses to that term.
pub proof fn lemma_parse_render(t: TermView)
    requires
        well_named(t),
    ensures
        parsed(render(t)) == Ok::<TermView, ErrorView>(t),
{
    let nothing = Seq::<char>::empty();
    lemma_lex_render(t, nothing);
    assert(render(t) + nothing =~= render(t));
    assert(tokens_of(t) + Seq::<TokenView>::empty() =~= tokens_of(t));
    lemma_parsed_term_of_tokens(t, Seq::<TokenView>::empty());
}

/// Every identifier token names an identifier.
pub open spec fn identifiers_only(tokens: Seq<TokenView>) -> bool {
    forall|i: int|
        0 <= i < tokens.len() ==> ((#[trigger] tokens[i]) matches TokenView::Identifier(name)
            ==> is_identifier(name))
}

/// The lexer gives identifier tokens for identifiers only.
pub proof fn lemma_lex_identifiers(s: Seq<char>)
    ensures
        lex(s) matches Ok(tokens) ==> identifiers_only(tokens),
    decreases s.len(),
{
    if s.len() == 0 {
    } else if symbol(s[0]) is Some || is_blank(s[0]) {
        lemma_lex_identifiers(s.drop_first());
    } else if is_identifier_char(s[0]) {
        lemma_run_len(s);
        let n = run_len(s) as int;
        lemma_lex_identifiers(s.skip(n));
        if let Ok(tail) = lex(s.skip(n)) {
            let name = s.take(n);
            assert(is_identifier(name));
            let tokens = seq![TokenView::Identifier(name)] + tail;
            assert forall|i: int| 0 <= i < tokens.len() implies ((
            #[trigger] tokens[i]) matches TokenView::Identifier(other) ==> is_identifier(other)) by {
                if i > 0 {
                    assert(tokens[i] == tail[i - 1]);
                }
            }
        }
    }
}

/// A term whose tokens hold identifiers only is well named.
pub proof fn lemma_well_named_of_tokens(t: TermView)
    requires
        identifiers_only(tokens_of(t)),
    ensures
        well_named(t),
    decreases t,
{
    let tokens = tokens_of(t);
    match t {
        TermView::Variable(name) => {
            assert(tokens[0] == TokenView::Identifier(name));
        },
        TermView::Abstraction(param, body) => {
            assert(tokens[1] == TokenView::Identifier(param));
            assert forall|i: int| 0 <= i < tokens_of(*body).len() implies ((
            #[trigger] tokens_of(*body)[i]) matches TokenView::Identifier(name) ==> is_identifier(
                name,
            )) by {
                assert(tokens_of(*body)[i] == tokens[i + 3]);
            }
            lemma_well_named_of_tokens(*body);
        },
        TermView::Application(func, arg) => {
            let skip = 1 + tokens_of(*func).len();
            assert forall|i: int| 0 <= i < tokens_of(*func).len() implies ((
            #[trigger] tokens_of(*func)[i]) matches TokenView::Identifier(name) ==> is_identifier(
                name,
            )) by {
                assert(tokens_of(*func)[i] == tokens[i + 1]);
            }
            assert forall|i: int| 0 <= i < tokens_of(*arg).len() implies ((
            #[trigger] tokens_of(*arg)[i]) matches TokenView::Identifier(name) ==> is_identifier(
                name,
            )) by {
                assert(tokens_of(*arg)[i] == tokens[i + skip]);
            }
            lemma_well_named_of_tokens(*func);
            lemma_well_named_of_tokens(*arg);
        },
    }
}

/// What the parser returns is well named, so its canonical text parses to
/// it again.
pub proof fn lemma_parsed_round_trip(text: Seq<char>)
    ensures
        parsed(text) matches Ok(t) ==> well_named(t) && parsed(render(t)) == Ok::<
            TermView,
            ErrorView,
        >(t),
{
    if let Ok(t) = parsed(text) {
        let tokens = lex(text)->Ok_0;
        lemma_lex_identifiers(text);
        lemma_parsed_term_consumes(tokens);
        assert(tokens =~= tokens_of(t));
        lemma_well_named_of_tokens(t);
        lemma_parse_render(t);
    }
}

} // verus!
