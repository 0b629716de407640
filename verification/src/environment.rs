//! The binding environment: a chain of frames, innermost first.

use crate::term::{Term, TermView};
use vstd::prelude::*;
use vstd::string::StringExecFns;

verus! {

/// One frame of bindings: the names bound in it and their terms.
pub type Frame = Map<Seq<char>, TermView>;

/// A lexical scope: a frame of bindings on top of the frames of the scopes
/// that enclose it. A child owns a copy of its parents, so that nothing done
/// later to the environment it was extended from shows in it.
///
/// Its view is the sequence of its frames, the innermost first; there is
/// always at least one.
#[derive(Debug)]
pub struct Environment {
    parent: Option<Box<Environment>>,
    bindings: Vec<(String, Term)>,
}

/// What `name` is bound to in one frame, if it is bound there.
pub open spec fn binding(frame: Frame, name: Seq<char>) -> Option<TermView> {
    if frame.contains_key(name) {
        Some(frame[name])
    } else {
        None
    }
}

/// What `name` is bound to in a chain of frames: the binding in the first
/// frame that has one.
pub open spec fn lookup(frames: Seq<Frame>, name: Seq<char>) -> Option<TermView>
    decreases frames.len(),
{
    if frames.len() == 0 {
        None
    } else if frames[0].contains_key(name) {
        Some(frames[0][name])
    } else {
        lookup(frames.skip(1), name)
    }
}

/// The chain with a new, empty frame on top.
pub open spec fn extended(frames: Seq<Frame>) -> Seq<Frame> {
    seq![Map::empty()] + frames
}

/// The chain with `name` bound to `value` in its innermost frame; the other
/// frames are as they were.
pub open spec fn bound(frames: Seq<Frame>, name: Seq<char>, value: TermView) -> Seq<Frame> {
    frames.update(0, frames[0].insert(name, value))
}

/// No name occurs twice.
spec fn distinct_names(bindings: Seq<(String, Term)>) -> bool {
    forall|i: int, j: int| 0 <= i < j < bindings.len() ==> bindings[i].0@ != bindings[j].0@
}

/// The frame that a list of bindings stands for.
spec fn frame_of(bindings: Seq<(String, Term)>) -> Frame
    decreases bindings.len(),
{
    if bindings.len() == 0 {
        Map::empty()
    } else {
        frame_of(bindings.drop_last()).insert(bindings.last().0@, bindings.last().1@)
    }
}

/// Replacing the term of a name that is bound binds that name to the new
/// term and leaves the names distinct.
proof fn lemma_rebind(bindings: Seq<(String, Term)>, i: int, name: String, value: Term)
    requires
        distinct_names(bindings),
        0 <= i < bindings.len(),
        bindings[i].0@ == name@,
    ensures
        distinct_names(bindings.update(i, (name, value))),
        frame_of(bindings.update(i, (name, value))) == frame_of(bindings).insert(name@, value@),
    decreases bindings.len(),
{
    let updated = bindings.update(i, (name, value));
    if i == bindings.len() - 1 {
        assert(updated.drop_last() =~= bindings.drop_last());
        assert(frame_of(updated) =~= frame_of(bindings).insert(name@, value@));
    } else {
        lemma_rebind(bindings.drop_last(), i, name, value);
        assert(updated.drop_last() =~= bindings.drop_last().update(i, (name, value)));
        assert(updated.last() == bindings.last());
        assert(bindings.last().0@ != name@);
        assert(frame_of(updated) =~= frame_of(bindings).insert(name@, value@));
    }
}

impl Environment {
    /// No name occurs twice in a frame.
    #[verifier::type_invariant]
    spec fn well_formed(self) -> bool {
        distinct_names(self.bindings@)
    }

    /// The frames of this environment, the innermost first.
    pub closed spec fn frames(self) -> Seq<Frame>
        decreases self,
    {
        match self.parent {
            None => seq![frame_of(self.bindings@)],
            Some(parent) => seq![frame_of(self.bindings@)] + parent.frames(),
        }
    }

    /// An environment has at least one frame.
    pub proof fn lemma_has_frame(self)
        ensures
            self@.len() >= 1,
    {
    }

    /// An environment of one empty frame, with no parent.
    pub fn new() -> (env: Self)
        ensures
            env@ == seq![Map::<Seq<char>, TermView>::empty()],
    {
        Environment { parent: None, bindings: Vec::new() }
    }

    /// A child of this environment: a new, empty frame on top of a copy of
    /// this environment's frames.
    pub fn extend(&self) -> (child: Self)
        ensures
            child@ == extended(self@),
    {
        Environment { parent: Some(Box::new(self.clone())), bindings: Vec::new() }
    }

    /// The term that `name` is bound to: the frames are searched from the
    /// innermost outwards and the first binding found is returned, as a copy.
    /// `None` says that no frame binds the name.
    pub fn get(&self, name: &str) -> (result: Option<Term>)
        ensures
            match result {
                Some(term) => lookup(self@, name@) == Some(term@),
                None => lookup(self@, name@) is None,
            },
    {
        let key = String::from_str(name);
        self.find(&key)
    }

    /// The search behind [`Environment::get`], frame by frame.
    fn find(&self, key: &String) -> (result: Option<Term>)
        ensures
            match result {
                Some(term) => lookup(self@, key@) == Some(term@),
                None => lookup(self@, key@) is None,
            },
        decreases self,
    {
        let mut i = self.bindings.len();
        assert(self.bindings@.take(i as int) =~= self.bindings@);
        while i > 0
            invariant
                i <= self.bindings@.len(),
                binding(frame_of(self.bindings@), key@) == binding(
                    frame_of(self.bindings@.take(i as int)),
                    key@,
                ),
            decreases i,
        {
            i -= 1;
            assert(self.bindings@.take(i + 1).drop_last() =~= self.bindings@.take(i as int));
            if self.bindings[i].0 == *key {
                return Some(self.bindings[i].1.clone());
            }
        }
        match &self.parent {
            Some(parent) => {
                assert(self@.skip(1) =~= parent@);
                parent.find(key)
            },
            None => {
                assert(lookup(self@.skip(1), key@) is None);
                None
            },
        }
    }

    /// Binds `name` to `value` in the innermost frame, in place of what the
    /// name was bound to there. No other frame changes.
    pub fn set(&mut self, name: String, value: Term)
        ensures
            final(self)@ == bound(old(self)@, name@, value@),
    {
        proof {
            use_type_invariant(&*self);
        }
        let ghost before = self.bindings@;
        let mut bindings: Vec<(String, Term)> = Vec::new();
        core::mem::swap(&mut self.bindings, &mut bindings);
        let mut i: usize = 0;
        let mut found = false;
        while i < bindings.len() && !found
            invariant
                i <= bindings@.len(),
                bindings@ == before,
                forall|j: int| 0 <= j < i ==> bindings@[j].0@ != name@,
                found ==> i < bindings@.len() && bindings@[i as int].0@ == name@,
            decreases bindings@.len() - i + (if found { 0int } else { 1int }),
        {
            if bindings[i].0 == name {
                found = true;
            } else {
                i += 1;
            }
        }
        if found {
            proof {
                lemma_rebind(before, i as int, name, value);
            }
            bindings.set(i, (name, value));
        } else {
            assert(before.push((name, value)).drop_last() =~= before);
            bindings.push((name, value));
        }
        self.bindings = bindings;
        assert(self@ =~= bound(old(self)@, name@, value@));
    }
}

impl View for Environment {
    type V = Seq<Frame>;

    closed spec fn view(&self) -> Seq<Frame> {
        self.frames()
    }
}

impl Clone for Environment {
    /// A deep copy: the same frames, sharing nothing.
    fn clone(&self) -> (res: Self)
        ensures
            res@ == self@,
        decreases self,
    {
        proof {
            use_type_invariant(self);
        }
        let parent = match &self.parent {
            Some(parent) => Some(Box::new((&**parent).clone())),
            None => None,
        };
        let mut bindings: Vec<(String, Term)> = Vec::new();
        let mut i: usize = 0;
        while i < self.bindings.len()
            invariant
                i <= self.bindings@.len(),
                bindings@ == self.bindings@.take(i as int),
            decreases self.bindings@.len() - i,
        {
            let name = self.bindings[i].0.clone();
            let value = self.bindings[i].1.clone();
            bindings.push((name, value));
            assert(bindings@ =~= self.bindings@.take(i + 1));
            i += 1;
        }
        assert(bindings@ =~= self.bindings@);
        Environment { parent, bindings }
    }
}

/// A binding is found again, hides what the name stood for before, and
/// changes what no other name stands for.
pub proof fn lemma_lookup_bound(
    frames: Seq<Frame>,
    name: Seq<char>,
    value: TermView,
    other: Seq<char>,
)
    requires
        frames.len() >= 1,
    ensures
        lookup(bound(frames, name, value), name) == Some(value),
        other != name ==> lookup(bound(frames, name, value), other) == lookup(frames, other),
{
    assert(bound(frames, name, value).skip(1) =~= frames.skip(1));
}

/// A new frame binds nothing: every name stands for what it stood for.
pub proof fn lemma_lookup_extended(frames: Seq<Frame>, name: Seq<char>)
    ensures
        lookup(extended(frames), name) == lookup(frames, name),
{
    assert(extended(frames).skip(1) =~= frames);
}

/// An inner binding hides an outer one of the same name: where `name` is
/// bound in a frame and bound again in a child frame on top of it, the
/// chain gives the child's term; and a name that neither the child nor
/// the frames below bind is not found.
pub proof fn lemma_shadowing(
    frames: Seq<Frame>,
    name: Seq<char>,
    outer: TermView,
    inner: TermView,
    other: Seq<char>,
)
    requires
        frames.len() >= 1,
    ensures
        lookup(bound(extended(bound(frames, name, outer)), name, inner), name) == Some(inner),
        lookup(extended(bound(frames, name, outer)), name) == Some(outer),
        other != name && lookup(frames, other) is None ==> lookup(
            bound(extended(bound(frames, name, outer)), name, inner),
            other,
        ) is None,
{
    reveal_with_fuel(lookup, 3);
    let parent = bound(frames, name, outer);
    let child = extended(parent);
    let rebound = bound(child, name, inner);
    assert(child.skip(1) =~= parent);
    assert(rebound.skip(1) =~= parent);
    assert(parent.skip(1) =~= frames.skip(1));
}

} // verus!
