//! The normal form of the type expressions that classification returns.

use vstd::prelude::*;
use crate::infer::{array_of, other_types, type_of};
use crate::merge::any_type;
use crate::naming::derived_name;
use crate::types::{
    lemma_with_type_grows, lemma_with_type_sorted, sorted_types, well_formed, with_type,
    TypeModel,
};
use crate::value::{any_object, Tree};

verus! {

/// Whether `types` can stand as the members of a union: in strictly
/// ascending alphabetical order, each in normal form and none a union itself.
pub open spec fn union_members(types: Seq<TypeModel>) -> bool {
    &&& sorted_types(types)
    &&& forall|m: int|
        0 <= m < types.len() ==> !(#[trigger] types[m] is Union) && well_formed(types[m])
}

/// Adding a type in normal form that is no union keeps the members of a
/// union what they must be.
pub proof fn lemma_with_type_members(types: Seq<TypeModel>, t: TypeModel)
    requires
        union_members(types),
        well_formed(t),
        !(t is Union),
    ensures
        union_members(with_type(types, t)),
        with_type(types, t).len() >= 1,
{
    lemma_with_type_sorted(types, t);
    lemma_with_type_grows(types, t);
    let after = with_type(types, t);
    assert forall|m: int| 0 <= m < after.len() implies !(#[trigger] after[m] is Union)
        && well_formed(after[m]) by {
        if after[m] != t {
            assert(types.contains(after[m]));
            let m0 = choose|m0: int| 0 <= m0 < types.len() && types[m0] == after[m];
            assert(!(types[m0] is Union) && well_formed(types[m0]));
        }
    }
}

/// The type expression of a value is in normal form, and is no union.
pub proof fn lemma_type_of_well_formed(key: Seq<char>, tree: Tree)
    ensures
        well_formed(type_of(key, tree)),
        !(type_of(key, tree) is Union),
    decreases tree, 0nat,
{
    match tree {
        Tree::Array(items) => {
            if items.len() > 0 {
                lemma_other_types_members(key, items, items.len());
                let others = other_types(key, items, items.len());
                let members = if any_object(items, items.len()) {
                    with_type(others, TypeModel::Reference(derived_name(key)))
                } else {
                    others
                };
                if any_object(items, items.len()) {
                    lemma_with_type_members(others, TypeModel::Reference(derived_name(key)));
                }
                assert(members.len() >= 1);
                assert(type_of(key, tree) == array_of(members));
                if members.len() == 1 {
                    assert(well_formed(members[0]));
                    assert(well_formed(TypeModel::Array(Box::new(members[0]))));
                } else {
                    assert(well_formed(TypeModel::Union(members)));
                    assert(well_formed(TypeModel::Array(Box::new(TypeModel::Union(members)))));
                }
            } else {
                assert(well_formed(any_type()));
                assert(well_formed(TypeModel::Array(Box::new(any_type()))));
            }
        },
        _ => {},
    }
}

/// The types of the members of an array that are not object-shaped can
/// stand as the members of a union, and there is one at least unless every
/// member looked at is object-shaped.
pub proof fn lemma_other_types_members(key: Seq<char>, items: Seq<Tree>, n: nat)
    requires
        n <= items.len(),
    ensures
        union_members(other_types(key, items, n)),
        other_types(key, items, n).len() >= 1 || n == 0 || any_object(items, n),
    decreases items, n,
{
    if n > 0 {
        lemma_other_types_members(key, items, (n - 1) as nat);
        if items[n - 1] is Object {
            assert(any_object(items, n));
        } else {
            lemma_type_of_well_formed(key, items[n - 1]);
            lemma_with_type_members(
                other_types(key, items, (n - 1) as nat),
                type_of(key, items[n - 1]),
            );
        }
    }
}

} // verus!
