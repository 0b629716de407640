use lambda_calculus::error::{InterpreterError, InterpreterResult};

#[test]
fn test_error_lines() {
    assert_eq!(
        InterpreterError::UnboundVariable("x".to_string()).to_string(),
        "Unbound variable: x"
    );
    assert_eq!(
        InterpreterError::TypeError("Expected function in application".to_string()).to_string(),
        "Type error: Expected function in application"
    );
    assert_eq!(
        InterpreterError::ParseError("Unexpected end of input".to_string()).to_string(),
        "Parse error: Unexpected end of input"
    );
    assert_eq!(
        InterpreterError::TokenizerError("Unexpected character '@'".to_string()).to_string(),
        "Tokenizer error: Unexpected character '@'"
    );
}

#[test]
fn test_error_kinds_differ() {
    assert_ne!(
        InterpreterError::TypeError("same".to_string()),
        InterpreterError::ParseError("same".to_string())
    );
}

#[test]
fn test_interpreter_result() {
    let result: InterpreterResult<u8> = Err(InterpreterError::ParseError(String::new()));
    assert!(result.is_err());
}
