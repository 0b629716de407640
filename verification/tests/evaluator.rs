use lambda_calculus::environment::Environment;
use lambda_calculus::error::InterpreterError;
use lambda_calculus::evaluator::{evaluate, evaluate_bounded, substitute};
use lambda_calculus::parser::parse;
use lambda_calculus::term::Term;

#[test]
fn test_evaluate_variable() {
    let mut env = Environment::new();
    env.set("x".to_string(), Term::Variable("y".to_string()));
    assert_eq!(
        evaluate(&Term::Variable("x".to_string()), &mut env),
        Ok(Term::Variable("y".to_string()))
    );
}

#[test]
fn test_evaluate_abstraction() {
    let mut env = Environment::new();
    let abs = Term::Abstraction("x".to_string(), Box::new(Term::Variable("x".to_string())));
    assert_eq!(evaluate(&abs, &mut env), Ok(abs));
}

#[test]
fn test_evaluate_application() {
    let mut env = Environment::new();
    let app = Term::Application(
        Box::new(Term::Abstraction(
            "x".to_string(),
            Box::new(Term::Variable("x".to_string())),
        )),
        Box::new(Term::Variable("y".to_string())),
    );
    assert_eq!(
        evaluate(&app, &mut env),
        Ok(Term::Variable("y".to_string()))
    );
}

#[test]
fn test_evaluate_complex_expression() {
    let mut env = Environment::new();
    let expr = Term::Application(
        Box::new(Term::Abstraction(
            "x".to_string(),
            Box::new(Term::Abstraction(
                "y".to_string(),
                Box::new(Term::Application(
                    Box::new(Term::Variable("x".to_string())),
                    Box::new(Term::Variable("y".to_string())),
                )),
            )),
        )),
        Box::new(Term::Variable("a".to_string())),
    );
    let expected = Term::Abstraction(
        "y".to_string(),
        Box::new(Term::Application(
            Box::new(Term::Variable("a".to_string())),
            Box::new(Term::Variable("y".to_string())),
        )),
    );
    assert_eq!(evaluate(&expr, &mut env), Ok(expected));
}

#[test]
fn test_evaluate_error() {
    let mut env = Environment::new();
    let expr = Term::Application(
        Box::new(Term::Variable("x".to_string())),
        Box::new(Term::Variable("y".to_string())),
    );
    assert!(evaluate(&expr, &mut env).is_err());
}

fn var(name: &str) -> Term {
    Term::Variable(name.to_string())
}

fn abs(param: &str, body: Term) -> Term {
    Term::Abstraction(param.to_string(), Box::new(body))
}

fn app(func: Term, arg: Term) -> Term {
    Term::Application(Box::new(func), Box::new(arg))
}

fn type_error() -> InterpreterError {
    InterpreterError::TypeError("Expected function in application".to_string())
}

#[test]
fn test_evaluate_parsed_identity_application() {
    let term = parse("(λx.x y)").unwrap();
    assert_eq!(evaluate(&term, &mut Environment::new()), Ok(var("y")));
}

#[test]
fn test_evaluate_parsed_two_parameters() {
    let term = parse("(λx.λy.(x y) a)").unwrap();
    assert_eq!(
        evaluate(&term, &mut Environment::new()),
        Ok(abs("y", app(var("a"), var("y"))))
    );
}

#[test]
fn test_evaluate_application_of_free_variable_fails() {
    let term = parse("(x y)").unwrap();
    assert_eq!(
        evaluate(&term, &mut Environment::new()),
        Err(type_error())
    );
}

#[test]
fn test_evaluate_free_variable_is_unchanged() {
    assert_eq!(
        evaluate(&var("free"), &mut Environment::new()),
        Ok(var("free"))
    );
}

#[test]
fn test_evaluate_error_in_argument() {
    let term = app(abs("x", var("x")), app(var("f"), var("y")));
    assert_eq!(
        evaluate(&term, &mut Environment::new()),
        Err(type_error())
    );
}

#[test]
fn test_evaluate_function_is_checked_before_argument() {
    // The function position fails first; the argument, which would fail too,
    // is never reached, and neither is an argument that would not end.
    let omega = app(
        abs("x", app(var("x"), var("x"))),
        abs("x", app(var("x"), var("x"))),
    );
    let term = app(var("f"), omega);
    assert_eq!(
        evaluate(&term, &mut Environment::new()),
        Err(type_error())
    );
}

#[test]
fn test_evaluate_bound_function() {
    let mut env = Environment::new();
    env.set("id".to_string(), abs("x", var("x")));
    assert_eq!(evaluate(&app(var("id"), var("z")), &mut env), Ok(var("z")));
}

#[test]
fn test_evaluate_leaves_environment_unchanged() {
    let mut env = Environment::new();
    env.set("y".to_string(), var("bound_y"));
    let term = app(abs("x", var("x")), var("y"));
    assert_eq!(evaluate(&term, &mut env), Ok(var("bound_y")));
    assert_eq!(env.get("x"), None);
    assert_eq!(env.get("y"), Some(var("bound_y")));
}

#[test]
fn test_evaluate_abstraction_substitutes_without_reducing() {
    let mut env = Environment::new();
    env.set("y".to_string(), var("z"));
    let term = abs("x", app(abs("w", var("w")), var("y")));
    assert_eq!(
        evaluate(&term, &mut env),
        Ok(abs("x", app(abs("w", var("w")), var("z"))))
    );
}

#[test]
fn test_evaluate_substitution_ignores_binders() {
    // The parameter of an abstraction does not shield its body from a
    // binding of the same name in scope.
    let mut env = Environment::new();
    env.set("x".to_string(), var("captured"));
    assert_eq!(
        evaluate(&abs("x", var("x")), &mut env),
        Ok(abs("x", var("captured")))
    );
}

#[test]
fn test_substitute() {
    let mut env = Environment::new();
    env.set("a".to_string(), app(var("b"), var("c")));
    env.set("b".to_string(), var("never"));
    let term = app(abs("a", var("a")), app(var("a"), var("free")));
    assert_eq!(
        substitute(&term, &env),
        app(
            abs("a", app(var("b"), var("c"))),
            app(app(var("b"), var("c")), var("free"))
        )
    );
}

#[test]
fn test_evaluate_bounded_depth() {
    let env = Environment::new();
    let term = app(abs("x", var("x")), var("y"));
    assert_eq!(evaluate_bounded(&term, &env, 0), None);
    assert_eq!(evaluate_bounded(&term, &env, 1), Some(Ok(var("y"))));
    assert_eq!(evaluate_bounded(&term, &env, 7), Some(Ok(var("y"))));
    assert_eq!(evaluate_bounded(&var("v"), &env, 0), Some(Ok(var("v"))));
    assert_eq!(
        evaluate_bounded(&abs("x", var("x")), &env, 0),
        Some(Ok(abs("x", var("x"))))
    );
    assert_eq!(
        evaluate_bounded(&app(var("x"), var("y")), &env, 1),
        Some(Err(type_error()))
    );
}

#[test]
fn test_evaluate_bounded_nested_applications() {
    let env = Environment::new();
    // ((λx.λy.x a) b): the inner application needs one level more.
    let term = app(app(abs("x", abs("y", var("x"))), var("a")), var("b"));
    assert_eq!(evaluate_bounded(&term, &env, 1), None);
    assert_eq!(evaluate_bounded(&term, &env, 2), Some(Ok(var("a"))));
}

#[test]
fn test_evaluate_bounded_gives_up_on_divergence() {
    let env = Environment::new();
    let omega = parse("(λx.(x x) λx.(x x))").unwrap();
    assert_eq!(evaluate_bounded(&omega, &env, 0), None);
    assert_eq!(evaluate_bounded(&omega, &env, 50), None);
}

#[test]
fn test_evaluate_agrees_with_evaluate_bounded() {
    let texts = ["x", "λx.x", "(λx.x y)", "(λx.λy.(x y) a)", "(x y)", "((λx.λy.x a) b)"];
    for text in texts {
        let term = parse(text).unwrap();
        let bounded = evaluate_bounded(&term, &Environment::new(), 16);
        assert_eq!(Some(evaluate(&term, &mut Environment::new())), bounded);
    }
}
