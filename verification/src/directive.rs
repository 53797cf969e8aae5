//! Directives and the evaluation of `@skip` and `@include`.

use crate::position::same_position;
use crate::text::{first_named, same_text};
use crate::value::{
    duplicate_named_values, named_values_view, same_named_values, Value, ValueView,
};
use graphql_parser::Pos;
use vstd::prelude::*;
use vstd::std_specs::cmp::PartialEqSpecImpl;

verus! {

/// A directive attached to a field, with its arguments in source order.
#[derive(Debug)]
pub struct Directive {
    pub position: Pos,
    pub name: String,
    pub arguments: Vec<(String, Value)>,
}

/// What a [`Directive`] denotes.
pub struct DirectiveView {
    pub position: Pos,
    pub name: Seq<char>,
    pub arguments: Seq<(Seq<char>, ValueView)>,
}

impl DirectiveView {
    /// The value of the argument called `name`.
    pub open spec fn argument_value(self, name: Seq<char>) -> Option<ValueView> {
        first_named(self.arguments, name)
    }

    /// What the `if` argument evaluates to: `true` where it is missing, and
    /// `false` where it is not a boolean.
    pub open spec fn condition(self) -> bool {
        match self.argument_value("if"@) {
            None => true,
            Some(ValueView::Boolean(b)) => b,
            Some(_) => false,
        }
    }

    /// Whether the directive excludes what it is attached to: `include`
    /// with a false condition, or `skip` with a true one.
    pub open spec fn skips(self) -> bool {
        if self.name == "include"@ {
            !self.condition()
        } else if self.name == "skip"@ {
            self.condition()
        } else {
            false
        }
    }
}

impl View for Directive {
    type V = DirectiveView;

    open spec fn view(&self) -> DirectiveView {
        DirectiveView {
            position: self.position,
            name: self.name@,
            arguments: named_values_view(self.arguments@),
        }
    }
}

/// The views of a sequence of directives, element by element.
pub open spec fn directives_view(directives: Seq<Directive>) -> Seq<DirectiveView> {
    Seq::new(directives.len(), |i: int| directives[i]@)
}

/// Looks up the first argument called `name` in a list of arguments.
pub(crate) fn find_argument<'a>(arguments: &'a Vec<(String, Value)>, name: &str) -> (found: Option<
    &'a Value,
>)
    ensures
        match found {
            Some(value) => first_named(named_values_view(arguments@), name@) == Some(value@),
            None => first_named(named_values_view(arguments@), name@) is None,
        },
{
    let ghost all = named_values_view(arguments@);
    assert(all.skip(0) =~= all);
    let mut i: usize = 0;
    while i < arguments.len()
        invariant
            i <= arguments.len(),
            all == named_values_view(arguments@),
            first_named(all, name@) == first_named(all.skip(i as int), name@),
        decreases arguments.len() - i,
    {
        proof {
            assert(all.skip(i as int).drop_first() =~= all.skip(i as int + 1));
        }
        if same_text(arguments[i].0.as_str(), name) {
            return Some(&arguments[i].1);
        }
        i += 1;
    }
    None
}

impl Directive {
    /// Looks up the value of an argument of this directive.
    pub fn argument_value(&self, name: &str) -> (found: Option<&Value>)
        ensures
            match found {
                Some(value) => self@.argument_value(name@) == Some(value@),
                None => self@.argument_value(name@) is None,
            },
    {
        find_argument(&self.arguments, name)
    }

    /// Evaluates the `if` argument.
    pub fn eval_if(&self) -> (holds: bool)
        ensures
            holds == self@.condition(),
    {
        match self.argument_value("if") {
            None => true,
            Some(Value::Boolean(b)) => *b,
            Some(_) => false,
        }
    }

    /// Returns `true` if this directive says that the field it is attached
    /// to is left out.
    pub fn skip(&self) -> (skipped: bool)
        ensures
            skipped == self@.skips(),
    {
        if same_text(self.name.as_str(), "include") {
            !self.eval_if()
        } else if same_text(self.name.as_str(), "skip") {
            self.eval_if()
        } else {
            false
        }
    }

    /// Whether two directives denote the same value.
    pub fn same_as(&self, other: &Directive) -> (same: bool)
        ensures
            same == (self@ == other@),
    {
        same_position(&self.position, &other.position) && self.name == other.name
            && same_named_values(&self.arguments, &other.arguments)
    }

    /// A deep copy.
    pub fn duplicate(&self) -> (copy: Directive)
        ensures
            copy@ == self@,
    {
        Directive {
            position: self.position,
            name: self.name.clone(),
            arguments: duplicate_named_values(&self.arguments),
        }
    }
}

/// Whether two lists of directives denote the same sequence.
pub(crate) fn same_directives(a: &Vec<Directive>, b: &Vec<Directive>) -> (same: bool)
    ensures
        same == (directives_view(a@) == directives_view(b@)),
{
    if a.len() != b.len() {
        assert(directives_view(a@).len() != directives_view(b@).len());
        return false;
    }
    let mut i: usize = 0;
    while i < a.len()
        invariant
            i <= a.len(),
            a.len() == b.len(),
            forall|k: int| 0 <= k < i ==> a@[k]@ == b@[k]@,
        decreases a.len() - i,
    {
        if !a[i].same_as(&b[i]) {
            assert(directives_view(a@)[i as int] != directives_view(b@)[i as int]);
            return false;
        }
        i += 1;
    }
    assert(directives_view(a@) =~= directives_view(b@));
    true
}

/// Deep copies of a list of directives.
pub(crate) fn duplicate_directives(directives: &Vec<Directive>) -> (copies: Vec<Directive>)
    ensures
        directives_view(copies@) == directives_view(directives@),
{
    let mut copies: Vec<Directive> = Vec::new();
    let mut i: usize = 0;
    while i < directives.len()
        invariant
            i <= directives.len(),
            copies.len() == i,
            forall|k: int| 0 <= k < i ==> copies@[k]@ == directives@[k]@,
        decreases directives.len() - i,
    {
        copies.push(directives[i].duplicate());
        i += 1;
    }
    assert(directives_view(copies@) =~= directives_view(directives@));
    copies
}

impl PartialEq for Directive {
    /// Two directives are equal when they denote the same value.
    fn eq(&self, other: &Directive) -> (same: bool) {
        self.same_as(other)
    }
}

impl PartialEqSpecImpl for Directive {
    open spec fn obeys_eq_spec() -> bool {
        true
    }

    open spec fn eq_spec(&self, other: &Directive) -> bool {
        self@ == other@
    }
}

impl Clone for Directive {
    /// A deep copy.
    fn clone(&self) -> (copy: Directive)
        ensures
            copy@ == self@,
    {
        self.duplicate()
    }
}

} // verus!
