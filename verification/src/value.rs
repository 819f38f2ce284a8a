//! The input of inference: a tree-shaped sample value.

use vstd::prelude::*;

verus! {

/// A sample value. Scalars carry no payload: inference reads only the shape.
#[derive(Debug, PartialEq, Eq)]
pub enum Value {
    Null,
    Boolean,
    Number,
    String,
    /// The members, in order.
    Array(Vec<Value>),
    /// The fields as (name, value) pairs, in insertion order.
    Object(Vec<(String, Value)>),
}

/// The mathematical model of a [`Value`].
pub enum Tree {
    Null,
    Boolean,
    Number,
    String,
    Array(Seq<Tree>),
    Object(Seq<(Seq<char>, Tree)>),
}

/// The model of a value: the same tree, with sequences for vectors.
pub open spec fn tree_of(value: Value) -> Tree
    decreases value,
{
    match value {
        Value::Null => Tree::Null,
        Value::Boolean => Tree::Boolean,
        Value::Number => Tree::Number,
        Value::String => Tree::String,
        Value::Array(items) => Tree::Array(
            Seq::new(
                items@.len(),
                |i: int|
                    if 0 <= i < items@.len() {
                        tree_of(items[i])
                    } else {
                        Tree::Null
                    },
            ),
        ),
        Value::Object(fields) => Tree::Object(
            Seq::new(
                fields@.len(),
                |i: int|
                    if 0 <= i < fields@.len() {
                        (fields[i].0@, tree_of(fields[i].1))
                    } else {
                        (Seq::empty(), Tree::Null)
                    },
            ),
        ),
    }
}

impl View for Value {
    type V = Tree;

    open spec fn view(&self) -> Tree {
        tree_of(*self)
    }
}

impl Value {
    /// Whether the value is object-shaped.
    pub fn is_object(&self) -> (r: bool)
        ensures
            r == (self@ is Object),
    {
        match self {
            Value::Object(_) => true,
            _ => false,
        }
    }
}

/// The models of a sequence of values, member by member.
pub open spec fn trees(items: Seq<Value>) -> Seq<Tree> {
    Seq::new(items.len(), |i: int| items[i]@)
}

/// The models of the fields of an object, pair by pair.
pub open spec fn field_trees(fields: Seq<(String, Value)>) -> Seq<(Seq<char>, Tree)> {
    Seq::new(fields.len(), |i: int| (fields[i].0@, fields[i].1@))
}

/// Whether `fields` holds a field called `name`.
pub open spec fn has_field(fields: Seq<(Seq<char>, Tree)>, name: Seq<char>) -> bool {
    exists|j: int| 0 <= j < fields.len() && (#[trigger] fields[j]).0 == name
}

/// Whether `fields` holds a field called `name` whose value is null.
pub open spec fn has_null_field(fields: Seq<(Seq<char>, Tree)>, name: Seq<char>) -> bool {
    exists|j: int| 0 <= j < fields.len() && (#[trigger] fields[j]).0 == name && fields[j].1 is Null
}

/// Whether one of the first `n` of `items` is object-shaped.
pub open spec fn any_object(items: Seq<Tree>, n: nat) -> bool {
    exists|i: int| 0 <= i < n && i < items.len() && #[trigger] items[i] is Object
}

/// The view of an array is the array of its members' views, and likewise for
/// an object.
pub proof fn lemma_view_members(value: &Value)
    ensures
        value matches Value::Array(items) ==> value@ == Tree::Array(trees(items@)),
        value matches Value::Object(fields) ==> value@ == Tree::Object(field_trees(fields@)),
{
    match value {
        Value::Array(items) => {
            assert(value@->Array_0 =~= trees(items@));
        },
        Value::Object(fields) => {
            assert(value@ is Object);
            match value@ {
                Tree::Object(fs) => {
                    assert(fs.len() == fields@.len());
                    assert(fs.len() == fields.len());
                    assert(fs =~= field_trees(fields@));
                },
                _ => {},
            }
            assert(value@->Object_0 =~= field_trees(fields@));
        },
        _ => {},
    }
}

/// Whether `fields` holds a field called `name`.
pub fn contains_field(fields: &Vec<(String, Value)>, name: &String) -> (found: bool)
    ensures
        found == has_field(field_trees(fields@), name@),
{
    let mut j: usize = 0;
    while j < fields.len()
        invariant
            j <= fields.len(),
            forall|k: int| 0 <= k < j ==> (#[trigger] field_trees(fields@)[k]).0 != name@,
        decreases fields.len() - j,
    {
        if fields[j].0 == *name {
            assert(field_trees(fields@)[j as int].0 == name@);
            return true;
        }
        j = j + 1;
    }
    false
}

} // verus!
