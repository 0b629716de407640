use lambda_calculus::error::InterpreterError;
use lambda_calculus::tokenizer::{tokenize, TokenKind};

#[test]
fn test_tokenize_variable() {
    assert_eq!(
        tokenize("x"),
        Ok(vec![TokenKind::Identifier("x".to_string())])
    );
}

#[test]
fn test_tokenize_lambda() {
    assert_eq!(
        tokenize("λx.x"),
        Ok(vec![
            TokenKind::Lambda,
            TokenKind::Identifier("x".to_string()),
            TokenKind::Dot,
            TokenKind::Identifier("x".to_string())
        ])
    );
    assert_eq!(
        tokenize("\\x.x"),
        Ok(vec![
            TokenKind::Lambda,
            TokenKind::Identifier("x".to_string()),
            TokenKind::Dot,
            TokenKind::Identifier("x".to_string())
        ])
    );
}

#[test]
fn test_tokenize_application() {
    assert_eq!(
        tokenize("(f x)"),
        Ok(vec![
            TokenKind::OpenParen,
            TokenKind::Identifier("f".to_string()),
            TokenKind::Identifier("x".to_string()),
            TokenKind::CloseParen
        ])
    );
}

#[test]
fn test_tokenize_multiple_tokens() {
    assert_eq!(
        tokenize("λx.(y z)"),
        Ok(vec![
            TokenKind::Lambda,
            TokenKind::Identifier("x".to_string()),
            TokenKind::Dot,
            TokenKind::OpenParen,
            TokenKind::Identifier("y".to_string()),
            TokenKind::Identifier("z".to_string()),
            TokenKind::CloseParen
        ])
    );
}

#[test]
fn test_tokenize_whitespace() {
    assert_eq!(
        tokenize("λ x .  y z "),
        Ok(vec![
            TokenKind::Lambda,
            TokenKind::Identifier("x".to_string()),
            TokenKind::Dot,
            TokenKind::Identifier("y".to_string()),
            TokenKind::Identifier("z".to_string())
        ])
    );
}

#[test]
fn test_tokenize_invalid_character() {
    assert_eq!(
        tokenize("λx@x"),
        Err(InterpreterError::TokenizerError(
            "Unexpected character '@'".to_string()
        ))
    );
}

fn unexpected(c: char) -> Result<Vec<TokenKind>, InterpreterError> {
    Err(InterpreterError::TokenizerError(format!(
        "Unexpected character '{}'",
        c
    )))
}

#[test]
fn test_tokenize_empty_input() {
    assert_eq!(tokenize(""), Ok(vec![]));
    assert_eq!(tokenize(" \t\n "), Ok(vec![]));
}

#[test]
fn test_tokenize_every_ascii_character() {
    for code in 0u8..128 {
        let c = code as char;
        let expected = match c {
            '\\' => Ok(vec![TokenKind::Lambda]),
            '.' => Ok(vec![TokenKind::Dot]),
            '(' => Ok(vec![TokenKind::OpenParen]),
            ')' => Ok(vec![TokenKind::CloseParen]),
            ' ' | '\t' | '\n' => Ok(vec![]),
            'a'..='z' | 'A'..='Z' | '0'..='9' | '_' => {
                Ok(vec![TokenKind::Identifier(c.to_string())])
            }
            _ => unexpected(c),
        };
        assert_eq!(tokenize(&c.to_string()), expected, "character {:?}", c);
    }
}

#[test]
fn test_tokenize_ascii_character_inside_identifier() {
    for code in 0u8..128 {
        let c = code as char;
        let text = format!("a{}b", c);
        let a = TokenKind::Identifier("a".to_string());
        let b = TokenKind::Identifier("b".to_string());
        let expected = match c {
            '\\' => Ok(vec![a, TokenKind::Lambda, b]),
            '.' => Ok(vec![a, TokenKind::Dot, b]),
            '(' => Ok(vec![a, TokenKind::OpenParen, b]),
            ')' => Ok(vec![a, TokenKind::CloseParen, b]),
            ' ' | '\t' | '\n' => Ok(vec![a, b]),
            'a'..='z' | 'A'..='Z' | '0'..='9' | '_' => Ok(vec![TokenKind::Identifier(text.clone())]),
            _ => unexpected(c),
        };
        assert_eq!(tokenize(&text), expected, "character {:?}", c);
    }
}

#[test]
fn test_tokenize_identifier_is_maximal_run() {
    assert_eq!(
        tokenize("foo_1 Bar2"),
        Ok(vec![
            TokenKind::Identifier("foo_1".to_string()),
            TokenKind::Identifier("Bar2".to_string())
        ])
    );
    assert_eq!(
        tokenize("_"),
        Ok(vec![TokenKind::Identifier("_".to_string())])
    );
}

#[test]
fn test_tokenize_letters_beyond_ascii() {
    assert_eq!(
        tokenize("été"),
        Ok(vec![TokenKind::Identifier("été".to_string())])
    );
    assert_eq!(
        tokenize("٣"),
        Ok(vec![TokenKind::Identifier("٣".to_string())])
    );
}

#[test]
fn test_tokenize_lambda_glyph_inside_identifier() {
    // At the start of a token the glyph is the binder marker; inside a run
    // of letters it is a letter like any other.
    assert_eq!(
        tokenize("λλx"),
        Ok(vec![
            TokenKind::Lambda,
            TokenKind::Lambda,
            TokenKind::Identifier("x".to_string())
        ])
    );
    assert_eq!(
        tokenize("xλy"),
        Ok(vec![TokenKind::Identifier("xλy".to_string())])
    );
}

#[test]
fn test_tokenize_reports_first_offending_character() {
    assert_eq!(tokenize("a # b @"), unexpected('#'));
    assert_eq!(tokenize("@#"), unexpected('@'));
    assert_eq!(tokenize("x\r"), unexpected('\r'));
    assert_eq!(tokenize("💝"), unexpected('💝'));
}

#[test]
fn test_tokenize_total_on_accepted_characters() {
    let alphabet = ['λ', '\\', '.', '(', ')', ' ', '\t', '\n', 'a', 'Z', '7', '_', 'é'];
    for a in alphabet {
        for b in alphabet {
            for c in alphabet {
                let text: String = [a, b, c].iter().collect();
                assert!(tokenize(&text).is_ok(), "text {:?}", text);
            }
        }
    }
}
