use lambda_calculus::environment::Environment;
use lambda_calculus::term::Term;

#[test]
fn test_environment_new() {
    let env = Environment::new();
    assert!(env.get("x").is_none());
}

#[test]
fn test_environment_set_get() {
    let mut env = Environment::new();
    let term = Term::Variable("y".to_string());
    env.set("x".to_string(), term.clone());
    assert_eq!(env.get("x"), Some(term));
}

#[test]
fn test_environment_extend() {
    let mut parent = Environment::new();
    parent.set("x".to_string(), Term::Variable("parent_x".to_string()));
    let mut child = parent.extend();
    child.set("y".to_string(), Term::Variable("child_y".to_string()));
    assert_eq!(child.get("x"), Some(Term::Variable("parent_x".to_string())));
    assert_eq!(child.get("y"), Some(Term::Variable("child_y".to_string())));
    assert!(child.get("z").is_none());
}

#[test]
fn test_environment_shadowing() {
    let mut parent = Environment::new();
    parent.set("x".to_string(), Term::Variable("parent_x".to_string()));
    let mut child = parent.extend();
    child.set("x".to_string(), Term::Variable("child_x".to_string()));
    assert_eq!(child.get("x"), Some(Term::Variable("child_x".to_string())));
}

fn var(name: &str) -> Term {
    Term::Variable(name.to_string())
}

#[test]
fn test_environment_shadowing_unrelated_name() {
    let mut parent = Environment::new();
    parent.set("x".to_string(), var("parent_x"));
    let mut child = parent.extend();
    child.set("x".to_string(), var("child_x"));
    assert_eq!(child.get("x"), Some(var("child_x")));
    assert_eq!(parent.get("x"), Some(var("parent_x")));
    assert_eq!(child.get("unrelated"), None);
    assert_eq!(parent.get("unrelated"), None);
}

#[test]
fn test_environment_set_overwrites() {
    let mut env = Environment::new();
    env.set("x".to_string(), var("first"));
    env.set("y".to_string(), var("other"));
    env.set("x".to_string(), var("second"));
    assert_eq!(env.get("x"), Some(var("second")));
    assert_eq!(env.get("y"), Some(var("other")));
}

#[test]
fn test_environment_set_touches_innermost_frame_only() {
    let mut parent = Environment::new();
    parent.set("x".to_string(), var("parent_x"));
    let mut child = parent.extend();
    child.set("x".to_string(), var("child_x"));
    child.set("y".to_string(), var("child_y"));
    assert_eq!(parent.get("x"), Some(var("parent_x")));
    assert_eq!(parent.get("y"), None);
}

#[test]
fn test_environment_extend_is_a_snapshot() {
    let mut parent = Environment::new();
    parent.set("x".to_string(), var("before"));
    let child = parent.extend();
    parent.set("x".to_string(), var("after"));
    parent.set("z".to_string(), var("late"));
    assert_eq!(child.get("x"), Some(var("before")));
    assert_eq!(child.get("z"), None);
}

#[test]
fn test_environment_lookup_through_several_frames() {
    let mut root = Environment::new();
    root.set("a".to_string(), var("root_a"));
    root.set("b".to_string(), var("root_b"));
    let mut middle = root.extend();
    middle.set("b".to_string(), var("middle_b"));
    let mut inner = middle.extend();
    inner.set("c".to_string(), var("inner_c"));
    assert_eq!(inner.get("a"), Some(var("root_a")));
    assert_eq!(inner.get("b"), Some(var("middle_b")));
    assert_eq!(inner.get("c"), Some(var("inner_c")));
    assert_eq!(inner.get("d"), None);
}

#[test]
fn test_environment_clone_is_independent() {
    let mut env = Environment::new();
    env.set("x".to_string(), var("one"));
    let mut copy = env.clone();
    copy.set("x".to_string(), var("two"));
    assert_eq!(env.get("x"), Some(var("one")));
    assert_eq!(copy.get("x"), Some(var("two")));
}

#[test]
fn test_environment_names_are_compared_whole() {
    let mut env = Environment::new();
    env.set("xy".to_string(), var("long"));
    assert_eq!(env.get("x"), None);
    assert_eq!(env.get("xyz"), None);
    assert_eq!(env.get(""), None);
    assert_eq!(env.get("xy"), Some(var("long")));
}
