//! Argument values, after variables were interpolated and the values coerced.

use vstd::prelude::*;
use vstd::std_specs::cmp::PartialEqSpecImpl;

verus! {

/// A coerced argument value.
///
/// A floating-point number is held as its IEEE-754 bit pattern, so two such
/// values are equal exactly when their bits are.
#[derive(Debug)]
pub enum Value {
    Int(i64),
    Float(u64),
    String(String),
    Boolean(bool),
    Null,
    Enum(String),
    List(Vec<Value>),
    Object(Vec<(String, Value)>),
}

/// What a [`Value`] denotes: the same tree over mathematical sequences.
pub enum ValueView {
    Int(i64),
    Float(u64),
    String(Seq<char>),
    Boolean(bool),
    Null,
    Enum(Seq<char>),
    List(Seq<ValueView>),
    Object(Seq<(Seq<char>, ValueView)>),
}

impl View for Value {
    type V = ValueView;

    open spec fn view(&self) -> ValueView {
        self.model()
    }
}

impl Value {
    /// The tree that this value denotes.
    pub open spec fn model(&self) -> ValueView
        decreases self,
    {
        match self {
            Value::Int(n) => ValueView::Int(*n),
            Value::Float(bits) => ValueView::Float(*bits),
            Value::String(s) => ValueView::String(s@),
            Value::Boolean(b) => ValueView::Boolean(*b),
            Value::Null => ValueView::Null,
            Value::Enum(s) => ValueView::Enum(s@),
            Value::List(items) => ValueView::List(
                Seq::new(
                    items@.len(),
                    |i: int|
                        if 0 <= i < items@.len() {
                            items@[i].model()
                        } else {
                            ValueView::Null
                        },
                ),
            ),
            Value::Object(entries) => ValueView::Object(
                Seq::new(
                    entries@.len(),
                    |i: int|
                        if 0 <= i < entries@.len() {
                            (entries@[i].0@, entries@[i].1.model())
                        } else {
                            (Seq::empty(), ValueView::Null)
                        },
                ),
            ),
        }
    }
}

/// The views of a sequence of values, element by element.
pub open spec fn values_view(items: Seq<Value>) -> Seq<ValueView> {
    Seq::new(items.len(), |i: int| items[i]@)
}

/// The views of a sequence of named values, element by element.
pub open spec fn named_values_view(entries: Seq<(String, Value)>) -> Seq<(Seq<char>, ValueView)> {
    Seq::new(entries.len(), |i: int| (entries[i].0@, entries[i].1@))
}

/// A list's view is the list of its items' views.
pub proof fn lemma_list_view(items: Vec<Value>)
    ensures
        Value::List(items)@ == ValueView::List(values_view(items@)),
{
    assert(Value::List(items)@->List_0 =~= values_view(items@));
}

/// An object's view is the list of its entries' views.
pub proof fn lemma_object_view(entries: Vec<(String, Value)>)
    ensures
        Value::Object(entries)@ == ValueView::Object(named_values_view(entries@)),
{
    assert(Value::Object(entries)@->Object_0 =~= named_values_view(entries@));
}

impl Value {
    /// Whether two values denote the same tree.
    pub fn same_as(&self, other: &Value) -> (same: bool)
        ensures
            same == (self@ == other@),
        decreases self,
    {
        match (self, other) {
            (Value::Int(a), Value::Int(b)) => *a == *b,
            (Value::Float(a), Value::Float(b)) => *a == *b,
            (Value::String(a), Value::String(b)) => *a == *b,
            (Value::Boolean(a), Value::Boolean(b)) => *a == *b,
            (Value::Null, Value::Null) => true,
            (Value::Enum(a), Value::Enum(b)) => *a == *b,
            (Value::List(a), Value::List(b)) => {
                proof {
                    lemma_list_view(*a);
                    lemma_list_view(*b);
                }
                same_values(a, b)
            },
            (Value::Object(a), Value::Object(b)) => {
                proof {
                    lemma_object_view(*a);
                    lemma_object_view(*b);
                }
                same_named_values(a, b)
            },
            _ => false,
        }
    }

    /// A deep copy.
    pub fn duplicate(&self) -> (copy: Value)
        ensures
            copy@ == self@,
        decreases self,
    {
        match self {
            Value::Int(n) => Value::Int(*n),
            Value::Float(bits) => Value::Float(*bits),
            Value::String(s) => Value::String(s.clone()),
            Value::Boolean(b) => Value::Boolean(*b),
            Value::Null => Value::Null,
            Value::Enum(s) => Value::Enum(s.clone()),
            Value::List(items) => {
                let copies = duplicate_values(items);
                proof {
                    lemma_list_view(*items);
                    lemma_list_view(copies);
                }
                Value::List(copies)
            },
            Value::Object(entries) => {
                let copies = duplicate_named_values(entries);
                proof {
                    lemma_object_view(*entries);
                    lemma_object_view(copies);
                }
                Value::Object(copies)
            },
        }
    }
}

/// Whether two lists of values denote the same sequence of trees.
pub(crate) fn same_values(a: &Vec<Value>, b: &Vec<Value>) -> (same: bool)
    ensures
        same == (values_view(a@) == values_view(b@)),
    decreases a,
{
    if a.len() != b.len() {
        assert(values_view(a@).len() != values_view(b@).len());
        return false;
    }
    let mut i: usize = 0;
    while i < a.len()
        invariant
            i <= a.len(),
            a.len() == b.len(),
            forall|k: int| 0 <= k < i ==> a@[k]@ == b@[k]@,
        decreases a.len() - i,
    {
        if !a[i].same_as(&b[i]) {
            assert(values_view(a@)[i as int] != values_view(b@)[i as int]);
            return false;
        }
        i += 1;
    }
    assert(values_view(a@) =~= values_view(b@));
    true
}

/// Whether two lists of named values denote the same sequence of pairs.
pub(crate) fn same_named_values(a: &Vec<(String, Value)>, b: &Vec<(String, Value)>) -> (same: bool)
    ensures
        same == (named_values_view(a@) == named_values_view(b@)),
    decreases a,
{
    if a.len() != b.len() {
        assert(named_values_view(a@).len() != named_values_view(b@).len());
        return false;
    }
    let mut i: usize = 0;
    while i < a.len()
        invariant
            i <= a.len(),
            a.len() == b.len(),
            forall|k: int| 0 <= k < i ==> a@[k].0@ == b@[k].0@ && a@[k].1@ == b@[k].1@,
        decreases a.len() - i,
    {
        if a[i].0 != b[i].0 || !a[i].1.same_as(&b[i].1) {
            assert(named_values_view(a@)[i as int] != named_values_view(b@)[i as int]);
            return false;
        }
        i += 1;
    }
    assert(named_values_view(a@) =~= named_values_view(b@));
    true
}

/// Deep copies of a list of values.
pub(crate) fn duplicate_values(items: &Vec<Value>) -> (copies: Vec<Value>)
    ensures
        values_view(copies@) == values_view(items@),
    decreases items,
{
    let mut copies: Vec<Value> = Vec::new();
    let mut i: usize = 0;
    while i < items.len()
        invariant
            i <= items.len(),
            copies.len() == i,
            forall|k: int| 0 <= k < i ==> copies@[k]@ == items@[k]@,
        decreases items.len() - i,
    {
        copies.push(items[i].duplicate());
        i += 1;
    }
    assert(values_view(copies@) =~= values_view(items@));
    copies
}

/// Deep copies of a list of named values.
pub(crate) fn duplicate_named_values(entries: &Vec<(String, Value)>) -> (copies: Vec<(String, Value)>)
    ensures
        named_values_view(copies@) == named_values_view(entries@),
    decreases entries,
{
    let mut copies: Vec<(String, Value)> = Vec::new();
    let mut i: usize = 0;
    while i < entries.len()
        invariant
            i <= entries.len(),
            copies.len() == i,
            forall|k: int|
                0 <= k < i ==> copies@[k].0@ == entries@[k].0@ && copies@[k].1@ == entries@[k].1@,
        decreases entries.len() - i,
    {
        copies.push((entries[i].0.clone(), entries[i].1.duplicate()));
        i += 1;
    }
    assert(named_values_view(copies@) =~= named_values_view(entries@));
    copies
}

impl PartialEq for Value {
    /// Two values are equal when they denote the same tree.
    fn eq(&self, other: &Value) -> (same: bool) {
        self.same_as(other)
    }
}

impl PartialEqSpecImpl for Value {
    open spec fn obeys_eq_spec() -> bool {
        true
    }

    open spec fn eq_spec(&self, other: &Value) -> bool {
        self@ == other@
    }
}

impl Clone for Value {
    /// A deep copy.
    fn clone(&self) -> (copy: Value)
        ensures
            copy@ == self@,
    {
        self.duplicate()
    }
}

} // verus!
