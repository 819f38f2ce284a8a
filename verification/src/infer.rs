//! Inference proper: the type expression of a value, the record types
//! synthesized for the objects nested in it, and their registration.

use vstd::prelude::*;
use crate::merge::{any_type, mark_absent, marked_absent, observe, observed};
use crate::naming::{derive_name, derived_name};
use crate::registrations::{lemma_classified_keeps_names, lemma_synthesized_keeps_names};
use crate::registry::{
    distinct_names, field_models, with_definition, DefinitionModel, FieldEntry, FieldModel,
    TypeDefinition, TypeRegistry,
};
use crate::types::{insert_type, type_models, with_type, Primitive, TypeExpression, TypeModel};
use crate::value::{any_object, field_trees, lemma_view_members, trees, Tree, Value};

verus! {

/// The type expression of a value found under the field `key`.
///
/// Null is `any` and a scalar is its primitive. An empty array is an array
/// of `any`; any other array is an array of its one member type, or of the
/// union of its member types. An object is a reference to the type
/// synthesized for `key`.
pub open spec fn type_of(key: Seq<char>, tree: Tree) -> TypeModel
    decreases tree, 0nat,
{
    match tree {
        Tree::Null => any_type(),
        Tree::Boolean => TypeModel::Primitive(Primitive::Boolean),
        Tree::Number => TypeModel::Primitive(Primitive::Number),
        Tree::String => TypeModel::Primitive(Primitive::String),
        Tree::Array(items) => if items.len() == 0 {
            TypeModel::Array(Box::new(any_type()))
        } else {
            array_of(
                if any_object(items, items.len()) {
                    with_type(
                        other_types(key, items, items.len()),
                        TypeModel::Reference(derived_name(key)),
                    )
                } else {
                    other_types(key, items, items.len())
                },
            )
        },
        Tree::Object(_) => TypeModel::Reference(derived_name(key)),
    }
}

/// The array type over the given member types: over the member itself where
/// there is exactly one, over their union otherwise.
pub open spec fn array_of(members: Seq<TypeModel>) -> TypeModel {
    if members.len() == 1 {
        TypeModel::Array(Box::new(members[0]))
    } else {
        TypeModel::Array(Box::new(TypeModel::Union(members)))
    }
}

/// The distinct types, in alphabetical order, of those of the first `n` of
/// `items` that are not object-shaped.
pub open spec fn other_types(key: Seq<char>, items: Seq<Tree>, n: nat) -> Seq<TypeModel>
    decreases items, n,
{
    if n == 0 || n > items.len() {
        Seq::empty()
    } else if items[n - 1] is Object {
        other_types(key, items, (n - 1) as nat)
    } else {
        with_type(other_types(key, items, (n - 1) as nat), type_of(key, items[n - 1]))
    }
}

/// The table of fields after the first `n` of `fields` were seen, one after
/// the other, starting from `table`.
pub open spec fn absorbed_fields(
    table: Seq<FieldModel>,
    fields: Seq<(Seq<char>, Tree)>,
    n: nat,
    first: bool,
) -> Seq<FieldModel>
    decreases n,
{
    if n == 0 || n > fields.len() {
        table
    } else {
        observed(
            absorbed_fields(table, fields, (n - 1) as nat, first),
            fields[n - 1].0,
            type_of(fields[n - 1].0, fields[n - 1].1),
            first,
        )
    }
}

/// The table of fields after a sample object with the fields `fields` was
/// merged into `table`: the fields that the sample lacks become optional,
/// then each field of the sample is seen in order.
pub open spec fn absorbed(
    table: Seq<FieldModel>,
    fields: Seq<(Seq<char>, Tree)>,
    first: bool,
) -> Seq<FieldModel> {
    absorbed_fields(marked_absent(table, fields), fields, fields.len(), first)
}

/// The table of fields merged from the object-shaped ones among the first
/// `n` of `samples`, in order.
pub open spec fn merged_upto(samples: Seq<Tree>, n: nat) -> Seq<FieldModel>
    decreases n,
{
    if n == 0 || n > samples.len() {
        Seq::empty()
    } else {
        match samples[n - 1] {
            Tree::Object(fields) => absorbed(
                merged_upto(samples, (n - 1) as nat),
                fields,
                !any_object(samples, (n - 1) as nat),
            ),
            _ => merged_upto(samples, (n - 1) as nat),
        }
    }
}

/// The table of fields merged from the object-shaped members of `samples`:
/// one entry for each field name, in the order in which the names were first
/// seen.
pub open spec fn merged_fields(samples: Seq<Tree>) -> Seq<FieldModel> {
    merged_upto(samples, samples.len())
}

/// The registry after the value `tree`, found under `key`, was classified.
///
/// Scalars and empty arrays register nothing. An array first has those of its
/// members classified that are not object-shaped; if it has object-shaped
/// members, the values of their fields are then classified, sample by
/// sample, and the record merged from them is registered under the name
/// derived from `key`. An object has the values of its fields classified and
/// its record registered in the same way.
pub open spec fn classified(
    key: Seq<char>,
    tree: Tree,
    registry: Seq<(Seq<char>, DefinitionModel)>,
) -> Seq<(Seq<char>, DefinitionModel)>
    decreases tree, 0nat,
{
    match tree {
        Tree::Array(items) => if items.len() == 0 {
            registry
        } else if any_object(items, items.len()) {
            with_definition(
                samples_classified(
                    items,
                    items.len(),
                    others_classified(key, items, items.len(), registry),
                ),
                derived_name(key),
                DefinitionModel::Record(merged_fields(items)),
            )
        } else {
            others_classified(key, items, items.len(), registry)
        },
        Tree::Object(fields) => with_definition(
            fields_classified(fields, fields.len(), registry),
            derived_name(key),
            DefinitionModel::Record(merged_fields(seq![tree])),
        ),
        _ => registry,
    }
}

/// The registry after those of the first `n` of `items` that are not
/// object-shaped were classified under `key`, in order.
pub open spec fn others_classified(
    key: Seq<char>,
    items: Seq<Tree>,
    n: nat,
    registry: Seq<(Seq<char>, DefinitionModel)>,
) -> Seq<(Seq<char>, DefinitionModel)>
    decreases items, n,
{
    if n == 0 || n > items.len() {
        registry
    } else if items[n - 1] is Object {
        others_classified(key, items, (n - 1) as nat, registry)
    } else {
        classified(key, items[n - 1], others_classified(key, items, (n - 1) as nat, registry))
    }
}

/// The registry after the field values of the object-shaped ones among the
/// first `n` of `samples` were classified, sample by sample.
pub open spec fn samples_classified(
    samples: Seq<Tree>,
    n: nat,
    registry: Seq<(Seq<char>, DefinitionModel)>,
) -> Seq<(Seq<char>, DefinitionModel)>
    decreases samples, n,
{
    if n == 0 || n > samples.len() {
        registry
    } else {
        match samples[n - 1] {
            Tree::Object(fields) => fields_classified(
                fields,
                fields.len(),
                samples_classified(samples, (n - 1) as nat, registry),
            ),
            _ => samples_classified(samples, (n - 1) as nat, registry),
        }
    }
}

/// The registry after the values of the first `n` of `fields` were
/// classified, each under the name of its field, in order.
pub open spec fn fields_classified(
    fields: Seq<(Seq<char>, Tree)>,
    n: nat,
    registry: Seq<(Seq<char>, DefinitionModel)>,
) -> Seq<(Seq<char>, DefinitionModel)>
    decreases fields, n,
{
    if n == 0 || n > fields.len() {
        registry
    } else {
        classified(
            fields[n - 1].0,
            fields[n - 1].1,
            fields_classified(fields, (n - 1) as nat, registry),
        )
    }
}

/// Whether `samples` may be synthesized into one named type: a single
/// object, a single array, or two or more objects.
pub open spec fn valid_samples(samples: Seq<Tree>) -> bool {
    ||| samples.len() == 1 && (samples[0] is Object || samples[0] is Array)
    ||| samples.len() >= 2 && forall|i: int| 0 <= i < samples.len() ==> samples[i] is Object
}

/// The registry after the type called `name` was synthesized from `samples`.
///
/// A single array is classified under `name` and its type registered as an
/// alias. Otherwise the field values of the samples are classified, sample
/// by sample, and the record merged from the samples is registered.
pub open spec fn synthesized(
    name: Seq<char>,
    samples: Seq<Tree>,
    registry: Seq<(Seq<char>, DefinitionModel)>,
) -> Seq<(Seq<char>, DefinitionModel)> {
    if samples.len() == 1 && samples[0] is Array {
        with_definition(
            classified(name, samples[0], registry),
            name,
            DefinitionModel::Alias(type_of(name, samples[0])),
        )
    } else {
        with_definition(
            samples_classified(samples, samples.len(), registry),
            name,
            DefinitionModel::Record(merged_fields(samples)),
        )
    }
}

/// Merges one sample object with the fields `fields` into `table`, and
/// classifies the value of each field on the way.
pub fn absorb(
    table: &mut Vec<FieldEntry>,
    fields: &Vec<(String, Value)>,
    first: bool,
    registry: &mut TypeRegistry,
)
    ensures
        field_models(final(table)@) == absorbed(
            field_models(old(table)@),
            field_trees(fields@),
            first,
        ),
        final(registry)@ == fields_classified(
            field_trees(fields@),
            fields@.len(),
            old(registry)@,
        ),
    decreases fields,
{
    mark_absent(table, fields);
    let ghost marked = field_models(table@);
    let mut j: usize = 0;
    while j < fields.len()
        invariant
            j <= fields.len(),
            field_models(table@) == absorbed_fields(marked, field_trees(fields@), j as nat, first),
            registry@ == fields_classified(field_trees(fields@), j as nat, old(registry)@),
        decreases fields.len() - j,
    {
        let t = classify(fields[j].0.as_str(), &fields[j].1, registry);
        observe(table, &fields[j].0, t, first);
        j = j + 1;
    }
}

/// Merges the object-shaped members of `samples` into one table of fields,
/// and classifies the values of their fields on the way.
pub fn merge_samples(samples: &Vec<Value>, registry: &mut TypeRegistry) -> (table: Vec<FieldEntry>)
    ensures
        field_models(table@) == merged_fields(trees(samples@)),
        final(registry)@ == samples_classified(trees(samples@), samples@.len(), old(registry)@),
    decreases samples,
{
    let mut table: Vec<FieldEntry> = Vec::new();
    let mut seen_object = false;
    let mut i: usize = 0;
    while i < samples.len()
        invariant
            i <= samples.len(),
            seen_object == any_object(trees(samples@), i as nat),
            field_models(table@) == merged_upto(trees(samples@), i as nat),
            registry@ == samples_classified(trees(samples@), i as nat, old(registry)@),
        decreases samples.len() - i,
    {
        proof {
            lemma_view_members(&samples[i as int]);
            lemma_any_object_step(trees(samples@), i as nat);
        }
        match &samples[i] {
            Value::Object(fields) => {
                absorb(&mut table, fields, !seen_object, registry);
                seen_object = true;
            },
            _ => {},
        }
        i = i + 1;
    }
    table
}

/// Classifies a value found under the field `key`: returns its type
/// expression and registers the record types synthesized for the objects
/// nested in it.
pub fn classify(key: &str, value: &Value, registry: &mut TypeRegistry) -> (t: TypeExpression)
    ensures
        t@ == type_of(key@, value@),
        final(registry)@ == classified(key@, value@, old(registry)@),
        distinct_names(old(registry)@) ==> distinct_names(final(registry)@),
    decreases value,
{
    proof {
        lemma_view_members(value);
        lemma_classified_keeps_names(key@, value@, registry@);
    }
    match value {
        Value::Null => TypeExpression::Primitive(Primitive::Any),
        Value::Boolean => TypeExpression::Primitive(Primitive::Boolean),
        Value::Number => TypeExpression::Primitive(Primitive::Number),
        Value::String => TypeExpression::Primitive(Primitive::String),
        Value::Array(items) => {
            if items.len() == 0 {
                let element = TypeExpression::Primitive(Primitive::Any);
                assert(element@ == any_type());
                return TypeExpression::Array(Box::new(element));
            }
            let mut members: Vec<TypeExpression> = Vec::new();
            let mut has_object = false;
            let mut i: usize = 0;
            while i < items.len()
                invariant
                    i <= items.len(),
                    decreases_to!(*value => *items),
                    has_object == any_object(trees(items@), i as nat),
                    type_models(members@) == other_types(key@, trees(items@), i as nat),
                    registry@ == others_classified(key@, trees(items@), i as nat, old(registry)@),
                decreases items.len() - i,
            {
                proof {
                    lemma_any_object_step(trees(items@), i as nat);
                }
                if items[i].is_object() {
                    has_object = true;
                } else {
                    let t = classify(key, &items[i], registry);
                    insert_type(&mut members, t);
                }
                i = i + 1;
            }
            if has_object {
                let table = merge_samples(items, registry);
                let name = derive_name(key);
                registry.put(name.clone(), TypeDefinition::Record(table));
                insert_type(&mut members, TypeExpression::Reference(name));
            }
            array_type(members)
        },
        Value::Object(fields) => {
            let mut table: Vec<FieldEntry> = Vec::new();
            absorb(&mut table, fields, true, registry);
            let name = derive_name(key);
            proof {
                lemma_merged_single(value@);
                assert(field_models(Seq::<FieldEntry>::empty()) =~= Seq::<FieldModel>::empty());
            }
            registry.put(name.clone(), TypeDefinition::Record(table));
            TypeExpression::Reference(name)
        },
    }
}

/// The array type over `members`.
pub fn array_type(members: Vec<TypeExpression>) -> (t: TypeExpression)
    ensures
        t@ == array_of(type_models(members@)),
{
    let mut members = members;
    if members.len() == 1 {
        let ghost before = members@;
        let only = members.pop().unwrap();
        assert(only == before[0]);
        TypeExpression::Array(Box::new(only))
    } else {
        let ghost models = type_models(members@);
        let union = TypeExpression::Union(members);
        assert(union@->Union_0 =~= models);
        TypeExpression::Array(Box::new(union))
    }
}

/// Synthesizes the type called `name` from `samples` and registers it, with
/// the record types of the objects nested in the samples.
pub fn synthesize(name: &str, samples: &Vec<Value>, registry: &mut TypeRegistry)
    requires
        valid_samples(trees(samples@)),
    ensures
        final(registry)@ == synthesized(name@, trees(samples@), old(registry)@),
        distinct_names(old(registry)@) ==> distinct_names(final(registry)@),
{
    proof {
        lemma_synthesized_keeps_names(name@, trees(samples@), registry@);
    }
    if samples.len() == 1 {
        proof {
            lemma_view_members(&samples[0]);
        }
        match &samples[0] {
            Value::Array(_) => {
                let t = classify(name, &samples[0], registry);
                registry.put(String::from_str(name), TypeDefinition::Alias(t));
                return ;
            },
            _ => {},
        }
    }
    let table = merge_samples(samples, registry);
    registry.put(String::from_str(name), TypeDefinition::Record(table));
}

/// Looking at one more sample finds an object where one was found before or
/// where the sample itself is one.
pub proof fn lemma_any_object_step(samples: Seq<Tree>, n: nat)
    requires
        n < samples.len(),
    ensures
        any_object(samples, n + 1) == (any_object(samples, n) || samples[n as int] is Object),
{
    if any_object(samples, n) {
        let i = choose|i: int| 0 <= i < n && i < samples.len() && #[trigger] samples[i] is Object;
        assert(0 <= i < n + 1 && samples[i] is Object);
    }
    if samples[n as int] is Object {
        assert(0 <= n < n + 1 && samples[n as int] is Object);
    }
}

/// The record of a single object is what its fields give when they are seen
/// in order, starting from an empty table.
pub proof fn lemma_merged_single(tree: Tree)
    requires
        tree is Object,
    ensures
        merged_fields(seq![tree]) == absorbed(Seq::empty(), tree->Object_0, true),
{
    let samples = seq![tree];
    assert(merged_upto(samples, 0) == Seq::<FieldModel>::empty());
    assert(!any_object(samples, 0));
    assert(samples[0] == tree);
    assert(merged_upto(samples, 1) == absorbed(
        merged_upto(samples, 0),
        tree->Object_0,
        !any_object(samples, 0),
    ));
}

} // verus!
