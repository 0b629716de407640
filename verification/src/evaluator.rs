//! The evaluator: reduction of a term under an environment.
//!
//! A variable evaluates to what it is bound to, or to itself where it is
//! free. An abstraction is not reduced: the bindings in scope are put in for
//! the variables of its body, under any binder and without renaming, so a
//! substituted term may be captured. An application evaluates its function,
//! which must give an abstraction, then its argument, and then the body of
//! that abstraction in a child environment that binds the parameter to the
//! argument's value.

use crate::environment::{bound, extended, lookup, Environment, Frame};
use crate::error::{ErrorView, InterpreterError, InterpreterResult};
use crate::term::{Term, TermView};
use vstd::prelude::*;
use vstd::string::StringExecFns;

verus! {

/// What a variable stands for under the frames: its binding, or the variable
/// itself where it is free.
pub open spec fn resolved(name: Seq<char>, frames: Seq<Frame>) -> TermView {
    match lookup(frames, name) {
        Some(term) => term,
        None => TermView::Variable(name),
    }
}

/// The term with every variable that the frames bind replaced by its
/// binding. Binders do not stop the replacement, and what is put in is not
/// looked at again.
pub open spec fn substituted(t: TermView, frames: Seq<Frame>) -> TermView
    decreases t,
{
    match t {
        TermView::Variable(name) => resolved(name, frames),
        TermView::Abstraction(param, body) => TermView::Abstraction(
            param,
            Box::new(substituted(*body, frames)),
        ),
        TermView::Application(func, arg) => TermView::Application(
            Box::new(substituted(*func, frames)),
            Box::new(substituted(*arg, frames)),
        ),
    }
}

/// The description carried by the error for an application of a term that
/// is no abstraction.
pub open spec fn not_a_function() -> ErrorView {
    ErrorView::TypeError("Expected function in application"@)
}

/// The outcome of evaluating `t` under `frames` where applications may nest
/// at most `depth` deep while they are reduced; `None` where that is not
/// enough.
pub open spec fn evaluated_within(t: TermView, frames: Seq<Frame>, depth: nat) -> Option<
    Result<TermView, ErrorView>,
>
    decreases depth,
{
    match t {
        TermView::Variable(name) => Some(Ok(resolved(name, frames))),
        TermView::Abstraction(param, body) => Some(
            Ok(TermView::Abstraction(param, Box::new(substituted(*body, frames)))),
        ),
        TermView::Application(func, arg) => {
            if depth == 0 {
                None
            } else {
                match evaluated_within(*func, frames, (depth - 1) as nat) {
                    None => None,
                    Some(Err(e)) => Some(Err(e)),
                    Some(Ok(TermView::Abstraction(param, body))) => {
                        match evaluated_within(*arg, frames, (depth - 1) as nat) {
                            None => None,
                            Some(Err(e)) => Some(Err(e)),
                            Some(Ok(value)) => evaluated_within(
                                *body,
                                bound(extended(frames), param, value),
                                (depth - 1) as nat,
                            ),
                        }
                    },
                    Some(Ok(_)) => Some(Err(not_a_function())),
                }
            }
        },
    }
}

/// Evaluation of `t` under `frames` comes to an end.
pub open spec fn converges(t: TermView, frames: Seq<Frame>) -> bool {
    exists|depth: nat| (#[trigger] evaluated_within(t, frames, depth)) is Some
}

/// The outcome of evaluating `t` under `frames`, where evaluation comes to
/// an end.
pub open spec fn evaluated(t: TermView, frames: Seq<Frame>) -> Result<TermView, ErrorView> {
    let depth = choose|depth: nat| (#[trigger] evaluated_within(t, frames, depth)) is Some;
    evaluated_within(t, frames, depth)->Some_0
}

/// More depth changes no outcome: what evaluation gives within one depth it
/// gives within every greater one.
pub proof fn lemma_depth_monotone(t: TermView, frames: Seq<Frame>, depth: nat, more: nat)
    requires
        evaluated_within(t, frames, depth) is Some,
        depth <= more,
    ensures
        evaluated_within(t, frames, more) == evaluated_within(t, frames, depth),
    decreases depth,
{
    if let TermView::Application(func, arg) = t {
        let d = (depth - 1) as nat;
        let m = (more - 1) as nat;
        lemma_depth_monotone(*func, frames, d, m);
        if let Some(Ok(TermView::Abstraction(param, body))) = evaluated_within(*func, frames, d) {
            lemma_depth_monotone(*arg, frames, d, m);
            if let Some(Ok(value)) = evaluated_within(*arg, frames, d) {
                lemma_depth_monotone(*body, bound(extended(frames), param, value), d, m);
            }
        }
    }
}

/// An outcome reached within some depth is the outcome of evaluation.
pub proof fn lemma_evaluated(t: TermView, frames: Seq<Frame>, depth: nat)
    requires
        evaluated_within(t, frames, depth) is Some,
    ensures
        converges(t, frames),
        evaluated_within(t, frames, depth) == Some(evaluated(t, frames)),
{
    let chosen = choose|d: nat| (#[trigger] evaluated_within(t, frames, d)) is Some;
    if chosen <= depth {
        lemma_depth_monotone(t, frames, chosen, depth);
    } else {
        lemma_depth_monotone(t, frames, depth, chosen);
    }
}

/// Puts the bindings of `env` in for the variables of `term`.
pub fn substitute(term: &Term, env: &Environment) -> (result: Term)
    ensures
        result@ == substituted(term@, env@),
    decreases term,
{
    match term {
        Term::Variable(name) => match env.get(name.as_str()) {
            Some(value) => value,
            None => term.clone(),
        },
        Term::Abstraction(param, body) => {
            let new_body = substitute(body, env);
            Term::Abstraction(param.clone(), Box::new(new_body))
        },
        Term::Application(func, arg) => {
            let new_func = substitute(func, env);
            let new_arg = substitute(arg, env);
            Term::Application(Box::new(new_func), Box::new(new_arg))
        },
    }
}

/// The error for an application of a term that is no abstraction.
fn type_error() -> (e: InterpreterError)
    ensures
        e@ == not_a_function(),
{
    InterpreterError::TypeError(String::from_str("Expected function in application"))
}

/// Evaluates `term` under `env`, which is left as it was.
///
/// Evaluation of a term of the untyped calculus need not come to an end; a
/// call is owed an answer only where it does, and then the result is
/// `evaluated` of the term: the reduced term, or a `TypeError` where a term
/// that is no abstraction is applied. [`evaluate_bounded`] takes any term.
pub fn evaluate(term: &Term, env: &mut Environment) -> (result: InterpreterResult<Term>)
    requires
        converges(term@, old(env)@),
    ensures
        final(env)@ == old(env)@,
        match result {
            Ok(value) => evaluated(term@, old(env)@) == Ok::<TermView, ErrorView>(value@),
            Err(e) => evaluated(term@, old(env)@) == Err::<TermView, ErrorView>(e@),
        },
{
    let ghost depth = choose|depth: nat| (#[trigger] evaluated_within(term@, env@, depth)) is Some;
    evaluate_within(term, env, Ghost(depth))
}

/// The descent behind [`evaluate`]: `depth` bounds how deep it goes.
fn evaluate_within(term: &Term, env: &mut Environment, Ghost(depth): Ghost<nat>) -> (result:
    InterpreterResult<Term>)
    requires
        evaluated_within(term@, old(env)@, depth) is Some,
    ensures
        final(env)@ == old(env)@,
        match result {
            Ok(value) => evaluated_within(term@, old(env)@, depth) == Some(
                Ok::<TermView, ErrorView>(value@),
            ),
            Err(e) => evaluated_within(term@, old(env)@, depth) == Some(
                Err::<TermView, ErrorView>(e@),
            ),
        },
    decreases depth,
{
    match term {
        Term::Variable(name) => match env.get(name.as_str()) {
            Some(value) => Ok(value),
            None => Ok(term.clone()),
        },
        Term::Abstraction(param, body) => {
            let new_body = substitute(body, env);
            Ok(Term::Abstraction(param.clone(), Box::new(new_body)))
        },
        Term::Application(func, arg) => {
            let ghost inner = (depth - 1) as nat;
            let eval_func = match evaluate_within(func, env, Ghost(inner)) {
                Ok(value) => value,
                Err(e) => {
                    return Err(e);
                },
            };
            match eval_func {
                Term::Abstraction(param, body) => {
                    let eval_arg = match evaluate_within(arg, env, Ghost(inner)) {
                        Ok(value) => value,
                        Err(e) => {
                            return Err(e);
                        },
                    };
                    let mut new_env = env.extend();
                    new_env.set(param, eval_arg);
                    evaluate_within(&*body, &mut new_env, Ghost(inner))
                },
                _ => Err(type_error()),
            }
        },
    }
}

/// Evaluates `term` under `env` as [`evaluate`] does, but gives up with
/// `None` where applications nest more than `depth` deep while they are
/// reduced. It takes any term and always returns.
pub fn evaluate_bounded(term: &Term, env: &Environment, depth: usize) -> (result: Option<
    InterpreterResult<Term>,
>)
    ensures
        match result {
            Some(Ok(value)) => evaluated_within(term@, env@, depth as nat) == Some(
                Ok::<TermView, ErrorView>(value@),
            ),
            Some(Err(e)) => evaluated_within(term@, env@, depth as nat) == Some(
                Err::<TermView, ErrorView>(e@),
            ),
            None => evaluated_within(term@, env@, depth as nat) is None,
        },
    decreases depth,
{
    match term {
        Term::Variable(name) => match env.get(name.as_str()) {
            Some(value) => Some(Ok(value)),
            None => Some(Ok(term.clone())),
        },
        Term::Abstraction(param, body) => {
            let new_body = substitute(body, env);
            Some(Ok(Term::Abstraction(param.clone(), Box::new(new_body))))
        },
        Term::Application(func, arg) => {
            if depth == 0 {
                return None;
            }
            let eval_func = match evaluate_bounded(func, env, depth - 1) {
                Some(Ok(value)) => value,
                Some(Err(e)) => {
                    return Some(Err(e));
                },
                None => {
                    return None;
                },
            };
            match eval_func {
                Term::Abstraction(param, body) => {
                    let eval_arg = match evaluate_bounded(arg, env, depth - 1) {
                        Some(Ok(value)) => value,
                        Some(Err(e)) => {
                            return Some(Err(e));
                        },
                        None => {
                            return None;
                        },
                    };
                    let mut new_env = env.extend();
                    new_env.set(param, eval_arg);
                    evaluate_bounded(&*body, &new_env, depth - 1)
                },
                _ => Some(Err(type_error())),
            }
        },
    }
}

} // verus!
