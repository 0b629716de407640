//! The term tree and its canonical text.

use vstd::prelude::*;
use vstd::string::StringExecFns;

verus! {

/// A lambda-calculus expression.
#[derive(Debug, Eq)]
pub enum Term {
    /// A reference to a bound or free identifier.
    Variable(String),
    /// A one-parameter function: the parameter's name and the body.
    Abstraction(String, Box<Term>),
    /// The application of a function term to an argument term.
    Application(Box<Term>, Box<Term>),
}

/// The mathematical value of a [`Term`]: the same tree with every name as a
/// sequence of characters. Two terms have the same view exactly when they
/// have the same shape and the same name at every position.
pub enum TermView {
    Variable(Seq<char>),
    Abstraction(Seq<char>, Box<TermView>),
    Application(Box<TermView>, Box<TermView>),
}

impl Term {
    /// The tree of this term with every name as a sequence of characters.
    pub open spec fn model(self) -> TermView
        decreases self,
    {
        match self {
            Term::Variable(name) => TermView::Variable(name@),
            Term::Abstraction(param, body) => TermView::Abstraction(param@, Box::new(body.model())),
            Term::Application(func, arg) => TermView::Application(
                Box::new(func.model()),
                Box::new(arg.model()),
            ),
        }
    }
}

impl View for Term {
    type V = TermView;

    open spec fn view(&self) -> TermView {
        self.model()
    }
}

/// The canonical text of a term: a variable is its name, an abstraction is
/// `λ`, the parameter, `.` and the body, an application is both parts in one
/// pair of parentheses with one space between them.
pub open spec fn render(t: TermView) -> Seq<char>
    decreases t,
{
    match t {
        TermView::Variable(name) => name,
        TermView::Abstraction(param, body) => seq!['λ'] + param + seq!['.'] + render(*body),
        TermView::Application(func, arg) => seq!['('] + render(*func) + seq![' '] + render(*arg)
            + seq![')'],
    }
}

impl PartialEq for Term {
    /// Structural equality: the same shape and the same name at every
    /// position. Terms that differ only in the names of bound variables are
    /// not equal.
    fn eq(&self, other: &Term) -> (same: bool) {
        self.same_as(other)
    }
}

impl vstd::std_specs::cmp::PartialEqSpecImpl for Term {
    open spec fn obeys_eq_spec() -> bool {
        true
    }

    open spec fn eq_spec(&self, other: &Term) -> bool {
        self@ == other@
    }
}

impl Clone for Term {
    /// A deep copy: the result is the same tree.
    fn clone(&self) -> (res: Self)
        ensures
            res == *self,
        decreases self,
    {
        match self {
            Term::Variable(name) => Term::Variable(name.clone()),
            Term::Abstraction(param, body) => Term::Abstraction(
                param.clone(),
                Box::new((&**body).clone()),
            ),
            Term::Application(func, arg) => Term::Application(
                Box::new((&**func).clone()),
                Box::new((&**arg).clone()),
            ),
        }
    }
}

impl Term {
    /// Whether the two terms are the same tree.
    fn same_as(&self, other: &Term) -> (same: bool)
        ensures
            same == (self@ == other@),
        decreases self,
    {
        match (self, other) {
            (Term::Variable(a), Term::Variable(b)) => *a == *b,
            (Term::Abstraction(p, a), Term::Abstraction(q, b)) => *p == *q && a.same_as(b),
            (Term::Application(f, a), Term::Application(g, b)) => f.same_as(g) && a.same_as(b),
            _ => false,
        }
    }

    /// Appends the canonical text of the term to `out`.
    pub fn render_into(&self, out: &mut String)
        ensures
            final(out)@ == old(out)@ + render(self@),
        decreases self,
    {
        proof {
            reveal_strlit("λ");
            reveal_strlit(".");
            reveal_strlit("(");
            reveal_strlit(" ");
            reveal_strlit(")");
        }
        match self {
            Term::Variable(name) => {
                out.append(name.as_str());
            },
            Term::Abstraction(param, body) => {
                out.append("λ");
                out.append(param.as_str());
                out.append(".");
                body.render_into(out);
                assert(out@ == old(out)@ + render(self@));
            },
            Term::Application(func, arg) => {
                out.append("(");
                func.render_into(out);
                out.append(" ");
                arg.render_into(out);
                out.append(")");
                assert(out@ == old(out)@ + render(self@));
            },
        }
    }

    /// The canonical text of the term.
    pub fn to_string(&self) -> (text: String)
        ensures
            text@ == render(self@),
    {
        let mut text = String::new();
        self.render_into(&mut text);
        text
    }
}

} // verus!
