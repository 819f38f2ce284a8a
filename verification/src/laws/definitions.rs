//! The definition that classification and synthesis register under a name.

use vstd::prelude::*;
use crate::infer::{
    classified, fields_classified, merged_fields, samples_classified, synthesized, type_of,
};
use crate::merge::any_type;
use crate::naming::derived_name;
use crate::registry::{lemma_lookup_after_put, lookup, DefinitionModel};
use crate::value::Tree;

verus! {

/// Only null is classified as `any`.
pub proof fn lemma_any_only_for_null(key: Seq<char>, tree: Tree)
    ensures
        type_of(key, tree) == any_type() <==> tree is Null,
{
}

/// Classifying an object registers, under the name derived from its key, the
/// record of that object alone, whatever was registered before.
pub proof fn lemma_object_definition(
    key: Seq<char>,
    tree: Tree,
    registry: Seq<(Seq<char>, DefinitionModel)>,
)
    requires
        tree is Object,
    ensures
        lookup(classified(key, tree, registry), derived_name(key)) == Some(
            DefinitionModel::Record(merged_fields(seq![tree])),
        ),
{
    let fields = tree->Object_0;
    lemma_lookup_after_put(
        fields_classified(fields, fields.len(), registry),
        derived_name(key),
        DefinitionModel::Record(merged_fields(seq![tree])),
    );
}

/// Classifying the same object under the same key a second time leaves the
/// definition registered under the derived name as the first time left it.
pub proof fn lemma_classify_twice_same_definition(
    key: Seq<char>,
    tree: Tree,
    registry: Seq<(Seq<char>, DefinitionModel)>,
)
    requires
        tree is Object,
    ensures
        lookup(classified(key, tree, classified(key, tree, registry)), derived_name(key))
            == lookup(classified(key, tree, registry), derived_name(key)),
{
    lemma_object_definition(key, tree, registry);
    lemma_object_definition(key, tree, classified(key, tree, registry));
}

/// What `synthesize` registers under `name` depends on the samples alone,
/// not on what the registry held before.
pub proof fn lemma_synthesized_definition(
    name: Seq<char>,
    samples: Seq<Tree>,
    registry: Seq<(Seq<char>, DefinitionModel)>,
)
    ensures
        lookup(synthesized(name, samples, registry), name) == Some(
            if samples.len() == 1 && samples[0] is Array {
                DefinitionModel::Alias(type_of(name, samples[0]))
            } else {
                DefinitionModel::Record(merged_fields(samples))
            },
        ),
{
    if samples.len() == 1 && samples[0] is Array {
        lemma_lookup_after_put(
            classified(name, samples[0], registry),
            name,
            DefinitionModel::Alias(type_of(name, samples[0])),
        );
    } else {
        lemma_lookup_after_put(
            samples_classified(samples, samples.len(), registry),
            name,
            DefinitionModel::Record(merged_fields(samples)),
        );
    }
}

} // verus!
