//! Classification as a sequence of registrations: what is registered while
//! a value is classified does not depend on what the registry holds, so
//! that classifying the same value again changes nothing.

use vstd::prelude::*;
use crate::infer::{
    classified, fields_classified, merged_fields, others_classified, samples_classified,
    synthesized, type_of,
};
use crate::naming::derived_name;
use crate::registry::{
    distinct_names, lemma_lookup_after_put, lemma_lookup_other_after_put, lemma_name_position,
    lemma_put_keeps_order, lemma_put_keeps_positions, lookup, name_position, with_definition,
    DefinitionModel,
};
use crate::value::{any_object, Tree};

verus! {

/// The registry after each of `writes` was registered, in order.
pub open spec fn registered_all(
    registry: Seq<(Seq<char>, DefinitionModel)>,
    writes: Seq<(Seq<char>, DefinitionModel)>,
) -> Seq<(Seq<char>, DefinitionModel)>
    decreases writes.len(),
{
    if writes.len() == 0 {
        registry
    } else {
        with_definition(
            registered_all(registry, writes.drop_last()),
            writes.last().0,
            writes.last().1,
        )
    }
}

/// The definition that the last of `writes` under `name` registers, if one
/// of them registers under that name.
pub open spec fn last_written(writes: Seq<(Seq<char>, DefinitionModel)>, name: Seq<char>) -> Option<
    DefinitionModel,
>
    decreases writes.len(),
{
    if writes.len() == 0 {
        None
    } else if writes.last().0 == name {
        Some(writes.last().1)
    } else {
        last_written(writes.drop_last(), name)
    }
}

/// What is registered, in order, while the value `tree` found under `key` is
/// classified.
pub open spec fn registrations(key: Seq<char>, tree: Tree) -> Seq<(Seq<char>, DefinitionModel)>
    decreases tree, 0nat,
{
    match tree {
        Tree::Array(items) => if items.len() == 0 {
            Seq::empty()
        } else if any_object(items, items.len()) {
            (other_registrations(key, items, items.len()) + sample_registrations(
                items,
                items.len(),
            )).push((derived_name(key), DefinitionModel::Record(merged_fields(items))))
        } else {
            other_registrations(key, items, items.len())
        },
        Tree::Object(fields) => field_registrations(fields, fields.len()).push(
            (derived_name(key), DefinitionModel::Record(merged_fields(seq![tree]))),
        ),
        _ => Seq::empty(),
    }
}

/// What is registered while those of the first `n` of `items` that are not
/// object-shaped are classified under `key`.
pub open spec fn other_registrations(key: Seq<char>, items: Seq<Tree>, n: nat) -> Seq<
    (Seq<char>, DefinitionModel),
>
    decreases items, n,
{
    if n == 0 || n > items.len() {
        Seq::empty()
    } else if items[n - 1] is Object {
        other_registrations(key, items, (n - 1) as nat)
    } else {
        other_registrations(key, items, (n - 1) as nat) + registrations(key, items[n - 1])
    }
}

/// What is registered while the field values of the object-shaped ones among
/// the first `n` of `samples` are classified.
pub open spec fn sample_registrations(samples: Seq<Tree>, n: nat) -> Seq<
    (Seq<char>, DefinitionModel),
>
    decreases samples, n,
{
    if n == 0 || n > samples.len() {
        Seq::empty()
    } else {
        match samples[n - 1] {
            Tree::Object(fields) => sample_registrations(samples, (n - 1) as nat)
                + field_registrations(fields, fields.len()),
            _ => sample_registrations(samples, (n - 1) as nat),
        }
    }
}

/// What is registered while the values of the first `n` of `fields` are
/// classified.
pub open spec fn field_registrations(fields: Seq<(Seq<char>, Tree)>, n: nat) -> Seq<
    (Seq<char>, DefinitionModel),
>
    decreases fields, n,
{
    if n == 0 || n > fields.len() {
        Seq::empty()
    } else {
        field_registrations(fields, (n - 1) as nat) + registrations(
            fields[n - 1].0,
            fields[n - 1].1,
        )
    }
}

/// What is registered while the type called `name` is synthesized from
/// `samples`.
pub open spec fn synthesis_registrations(name: Seq<char>, samples: Seq<Tree>) -> Seq<
    (Seq<char>, DefinitionModel),
> {
    if samples.len() == 1 && samples[0] is Array {
        registrations(name, samples[0]).push(
            (name, DefinitionModel::Alias(type_of(name, samples[0]))),
        )
    } else {
        sample_registrations(samples, samples.len()).push(
            (name, DefinitionModel::Record(merged_fields(samples))),
        )
    }
}

/// Registering one sequence after another is registering their
/// concatenation.
pub proof fn lemma_registered_all_concat(
    registry: Seq<(Seq<char>, DefinitionModel)>,
    a: Seq<(Seq<char>, DefinitionModel)>,
    b: Seq<(Seq<char>, DefinitionModel)>,
)
    ensures
        registered_all(registry, a + b) == registered_all(registered_all(registry, a), b),
    decreases b.len(),
{
    if b.len() == 0 {
        assert(a + b =~= a);
    } else {
        assert((a + b).drop_last() =~= a + b.drop_last());
        assert((a + b).last() == b.last());
        lemma_registered_all_concat(registry, a, b.drop_last());
    }
}

/// Registering a sequence and then one more definition.
pub proof fn lemma_registered_all_push(
    registry: Seq<(Seq<char>, DefinitionModel)>,
    a: Seq<(Seq<char>, DefinitionModel)>,
    name: Seq<char>,
    definition: DefinitionModel,
)
    ensures
        registered_all(registry, a.push((name, definition))) == with_definition(
            registered_all(registry, a),
            name,
            definition,
        ),
{
    assert(a.push((name, definition)).drop_last() =~= a);
}

/// Classifying a value registers its registrations, in order, whatever the
/// registry holds.
pub proof fn lemma_classified_registers(
    key: Seq<char>,
    tree: Tree,
    registry: Seq<(Seq<char>, DefinitionModel)>,
)
    ensures
        classified(key, tree, registry) == registered_all(registry, registrations(key, tree)),
    decreases tree, 0nat,
{
    match tree {
        Tree::Array(items) => {
            if items.len() > 0 {
                let n = items.len();
                lemma_others_classified_registers(key, items, n, registry);
                if any_object(items, n) {
                    let r1 = others_classified(key, items, n, registry);
                    lemma_samples_classified_registers(items, n, r1);
                    lemma_registered_all_concat(
                        registry,
                        other_registrations(key, items, n),
                        sample_registrations(items, n),
                    );
                    lemma_registered_all_push(
                        registry,
                        other_registrations(key, items, n) + sample_registrations(items, n),
                        derived_name(key),
                        DefinitionModel::Record(merged_fields(items)),
                    );
                }
            }
        },
        Tree::Object(fields) => {
            lemma_fields_classified_registers(fields, fields.len(), registry);
            lemma_registered_all_push(
                registry,
                field_registrations(fields, fields.len()),
                derived_name(key),
                DefinitionModel::Record(merged_fields(seq![tree])),
            );
        },
        _ => {},
    }
}

/// Classifying the members of an array that are not object-shaped registers
/// their registrations, in order.
pub proof fn lemma_others_classified_registers(
    key: Seq<char>,
    items: Seq<Tree>,
    n: nat,
    registry: Seq<(Seq<char>, DefinitionModel)>,
)
    requires
        n <= items.len(),
    ensures
        others_classified(key, items, n, registry) == registered_all(
            registry,
            other_registrations(key, items, n),
        ),
    decreases items, n,
{
    if n > 0 {
        lemma_others_classified_registers(key, items, (n - 1) as nat, registry);
        if !(items[n - 1] is Object) {
            let before = others_classified(key, items, (n - 1) as nat, registry);
            lemma_classified_registers(key, items[n - 1], before);
            lemma_registered_all_concat(
                registry,
                other_registrations(key, items, (n - 1) as nat),
                registrations(key, items[n - 1]),
            );
        }
    }
}

/// Classifying the field values of the object-shaped samples registers
/// their registrations, in order.
pub proof fn lemma_samples_classified_registers(
    samples: Seq<Tree>,
    n: nat,
    registry: Seq<(Seq<char>, DefinitionModel)>,
)
    requires
        n <= samples.len(),
    ensures
        samples_classified(samples, n, registry) == registered_all(
            registry,
            sample_registrations(samples, n),
        ),
    decreases samples, n,
{
    if n > 0 {
        lemma_samples_classified_registers(samples, (n - 1) as nat, registry);
        match samples[n - 1] {
            Tree::Object(fields) => {
                let before = samples_classified(samples, (n - 1) as nat, registry);
                lemma_fields_classified_registers(fields, fields.len(), before);
                lemma_registered_all_concat(
                    registry,
                    sample_registrations(samples, (n - 1) as nat),
                    field_registrations(fields, fields.len()),
                );
            },
            _ => {},
        }
    }
}

/// Classifying the values of the fields of an object registers their
/// registrations, in order.
pub proof fn lemma_fields_classified_registers(
    fields: Seq<(Seq<char>, Tree)>,
    n: nat,
    registry: Seq<(Seq<char>, DefinitionModel)>,
)
    requires
        n <= fields.len(),
    ensures
        fields_classified(fields, n, registry) == registered_all(
            registry,
            field_registrations(fields, n),
        ),
    decreases fields, n,
{
    if n > 0 {
        lemma_fields_classified_registers(fields, (n - 1) as nat, registry);
        let before = fields_classified(fields, (n - 1) as nat, registry);
        lemma_classified_registers(fields[n - 1].0, fields[n - 1].1, before);
        lemma_registered_all_concat(
            registry,
            field_registrations(fields, (n - 1) as nat),
            registrations(fields[n - 1].0, fields[n - 1].1),
        );
    }
}

/// Synthesizing a type registers its registrations, in order, whatever the
/// registry holds.
pub proof fn lemma_synthesized_registers(
    name: Seq<char>,
    samples: Seq<Tree>,
    registry: Seq<(Seq<char>, DefinitionModel)>,
)
    ensures
        synthesized(name, samples, registry) == registered_all(
            registry,
            synthesis_registrations(name, samples),
        ),
{
    if samples.len() == 1 && samples[0] is Array {
        lemma_classified_registers(name, samples[0], registry);
        lemma_registered_all_push(
            registry,
            registrations(name, samples[0]),
            name,
            DefinitionModel::Alias(type_of(name, samples[0])),
        );
    } else {
        lemma_samples_classified_registers(samples, samples.len(), registry);
        lemma_registered_all_push(
            registry,
            sample_registrations(samples, samples.len()),
            name,
            DefinitionModel::Record(merged_fields(samples)),
        );
    }
}

/// After a sequence of registrations the names that were there keep their
/// places, no name occurs twice if none did, and under every name stands
/// what was registered under it last, or what stood there before.
pub proof fn lemma_registered_all(
    registry: Seq<(Seq<char>, DefinitionModel)>,
    writes: Seq<(Seq<char>, DefinitionModel)>,
)
    ensures
        registered_all(registry, writes).len() >= registry.len(),
        forall|i: int|
            0 <= i < registry.len() ==> (#[trigger] registered_all(registry, writes)[i]).0
                == registry[i].0,
        distinct_names(registry) ==> distinct_names(registered_all(registry, writes)),
        forall|x: Seq<char>|
            lookup(registered_all(registry, writes), x) == (match last_written(writes, x) {
                Some(d) => Some(d),
                None => lookup(registry, x),
            }),
    decreases writes.len(),
{
    if writes.len() > 0 {
        let before = registered_all(registry, writes.drop_last());
        let name = writes.last().0;
        let definition = writes.last().1;
        let after = registered_all(registry, writes);
        lemma_registered_all(registry, writes.drop_last());
        lemma_put_keeps_order(before, name, definition);
        assert forall|i: int| 0 <= i < registry.len() implies (#[trigger] after[i]).0
            == registry[i].0 by {
            assert(after[i].0 == before[i].0);
            assert(before[i].0 == registry[i].0);
        }
        assert forall|x: Seq<char>|
            lookup(after, x) == (match last_written(writes, x) {
                Some(d) => Some(d),
                None => lookup(registry, x),
            }) by {
            if x == name {
                lemma_lookup_after_put(before, name, definition);
            } else {
                lemma_lookup_other_after_put(before, name, definition, x);
            }
        }
    }
}

/// Registrations under names that are all there already add no name and
/// move none.
proof fn lemma_registered_all_in_place(
    registry: Seq<(Seq<char>, DefinitionModel)>,
    writes: Seq<(Seq<char>, DefinitionModel)>,
)
    requires
        forall|x: Seq<char>| last_written(writes, x) is Some ==> lookup(registry, x) is Some,
    ensures
        registered_all(registry, writes).len() == registry.len(),
        forall|i: int|
            0 <= i < registry.len() ==> (#[trigger] registered_all(registry, writes)[i]).0
                == registry[i].0,
    decreases writes.len(),
{
    if writes.len() > 0 {
        let rest = writes.drop_last();
        let before = registered_all(registry, rest);
        let name = writes.last().0;
        let definition = writes.last().1;
        assert forall|x: Seq<char>| last_written(rest, x) is Some implies lookup(registry, x)
            is Some by {
            assert(last_written(writes, x) is Some);
        }
        lemma_registered_all_in_place(registry, rest);
        lemma_registered_all(registry, rest);
        assert(last_written(writes, name) is Some);
        assert(lookup(before, name) is Some);
        lemma_name_position(before, name, 0);
        lemma_put_keeps_order(before, name, definition);
        let after = registered_all(registry, writes);
        assert(after.len() == before.len());
        assert forall|i: int| 0 <= i < registry.len() implies (#[trigger] after[i]).0
            == registry[i].0 by {
            assert(after[i].0 == before[i].0);
            assert(before[i].0 == registry[i].0);
        }
    }
}

/// A sequence of registrations moves no name: a name that is there keeps
/// its first place, and an entry that does not stand at the first place of
/// its name is left as it is.
pub proof fn lemma_registered_all_keeps_positions(
    registry: Seq<(Seq<char>, DefinitionModel)>,
    writes: Seq<(Seq<char>, DefinitionModel)>,
)
    ensures
        forall|x: Seq<char>|
            name_position(registry, x, 0) < registry.len() ==> #[trigger] name_position(
                registered_all(registry, writes),
                x,
                0,
            ) == name_position(registry, x, 0),
        forall|i: int|
            0 <= i < registry.len() && name_position(registry, registry[i].0, 0) != i
                ==> #[trigger] registered_all(registry, writes)[i] == registry[i],
    decreases writes.len(),
{
    if writes.len() > 0 {
        let rest = writes.drop_last();
        let before = registered_all(registry, rest);
        let name = writes.last().0;
        let definition = writes.last().1;
        let after = registered_all(registry, writes);
        lemma_registered_all_keeps_positions(registry, rest);
        lemma_registered_all(registry, rest);
        lemma_put_keeps_positions(before, name, definition);
        assert forall|x: Seq<char>| name_position(registry, x, 0) < registry.len() implies
            #[trigger] name_position(after, x, 0) == name_position(registry, x, 0) by {
            assert(name_position(before, x, 0) == name_position(registry, x, 0));
        }
        assert forall|i: int|
            0 <= i < registry.len() && name_position(registry, registry[i].0, 0)
                != i implies #[trigger] after[i] == registry[i] by {
            let x = registry[i].0;
            lemma_name_position(registry, x, 0);
            assert(before[i] == registry[i]);
            assert(name_position(before, x, 0) == name_position(registry, x, 0));
            assert(after[i] == before[i]);
        }
    }
}

/// Making the same registrations a second time changes nothing.
pub proof fn lemma_registered_twice(
    registry: Seq<(Seq<char>, DefinitionModel)>,
    writes: Seq<(Seq<char>, DefinitionModel)>,
)
    ensures
        registered_all(registered_all(registry, writes), writes) == registered_all(
            registry,
            writes,
        ),
{
    let once = registered_all(registry, writes);
    let twice = registered_all(once, writes);
    lemma_registered_all(registry, writes);
    lemma_registered_all(once, writes);
    assert forall|x: Seq<char>| last_written(writes, x) is Some implies lookup(once, x)
        is Some by {
        assert(lookup(once, x) == (match last_written(writes, x) {
            Some(d) => Some(d),
            None => lookup(registry, x),
        }));
    }
    lemma_registered_all_in_place(once, writes);
    lemma_registered_all_keeps_positions(once, writes);
    assert forall|i: int| 0 <= i < once.len() implies twice[i] == once[i] by {
        let x = once[i].0;
        let p = name_position(once, x, 0);
        lemma_name_position(once, x, 0);
        assert(twice[i].0 == once[i].0);
        if p == i {
            assert(name_position(twice, x, 0) == i);
            assert(lookup(once, x) == Some(once[i].1));
            assert(lookup(twice, x) == Some(twice[i].1));
            assert(lookup(once, x) == (match last_written(writes, x) {
                Some(d) => Some(d),
                None => lookup(registry, x),
            }));
            assert(lookup(twice, x) == (match last_written(writes, x) {
                Some(d) => Some(d),
                None => lookup(once, x),
            }));
        }
    }
    assert(twice =~= once);
}

/// Classifying the same value under the same key a second time leaves the
/// registry, with every definition in it, as the first time left it.
pub proof fn lemma_classify_twice(
    key: Seq<char>,
    tree: Tree,
    registry: Seq<(Seq<char>, DefinitionModel)>,
)
    ensures
        classified(key, tree, classified(key, tree, registry)) == classified(key, tree, registry),
{
    lemma_classified_registers(key, tree, registry);
    lemma_classified_registers(key, tree, classified(key, tree, registry));
    lemma_registered_twice(registry, registrations(key, tree));
}

/// Synthesizing the same type from the same samples a second time leaves
/// the registry as the first time left it.
pub proof fn lemma_synthesize_twice(
    name: Seq<char>,
    samples: Seq<Tree>,
    registry: Seq<(Seq<char>, DefinitionModel)>,
)
    ensures
        synthesized(name, samples, synthesized(name, samples, registry)) == synthesized(
            name,
            samples,
            registry,
        ),
{
    lemma_synthesized_registers(name, samples, registry);
    lemma_synthesized_registers(name, samples, synthesized(name, samples, registry));
    lemma_registered_twice(registry, synthesis_registrations(name, samples));
}

/// Classifying a value leaves no name twice in a registry that had none
/// twice, and keeps the names that were there in their places.
pub proof fn lemma_classified_keeps_names(
    key: Seq<char>,
    tree: Tree,
    registry: Seq<(Seq<char>, DefinitionModel)>,
)
    ensures
        distinct_names(registry) ==> distinct_names(classified(key, tree, registry)),
        classified(key, tree, registry).len() >= registry.len(),
        forall|i: int|
            0 <= i < registry.len() ==> (#[trigger] classified(key, tree, registry)[i]).0
                == registry[i].0,
{
    lemma_classified_registers(key, tree, registry);
    lemma_registered_all(registry, registrations(key, tree));
}

/// Synthesizing a type leaves no name twice in a registry that had none
/// twice, and keeps the names that were there in their places.
pub proof fn lemma_synthesized_keeps_names(
    name: Seq<char>,
    samples: Seq<Tree>,
    registry: Seq<(Seq<char>, DefinitionModel)>,
)
    ensures
        distinct_names(registry) ==> distinct_names(synthesized(name, samples, registry)),
        synthesized(name, samples, registry).len() >= registry.len(),
        forall|i: int|
            0 <= i < registry.len() ==> (#[trigger] synthesized(name, samples, registry)[i]).0
                == registry[i].0,
{
    lemma_synthesized_registers(name, samples, registry);
    lemma_registered_all(registry, synthesis_registrations(name, samples));
}

/// Classifying a value leaves every name as it was under which it registers
/// nothing, and leaves under every other name what it registered there last.
pub proof fn lemma_classified_lookup(
    key: Seq<char>,
    tree: Tree,
    registry: Seq<(Seq<char>, DefinitionModel)>,
    name: Seq<char>,
)
    ensures
        lookup(classified(key, tree, registry), name) == (match last_written(
            registrations(key, tree),
            name,
        ) {
            Some(d) => Some(d),
            None => lookup(registry, name),
        }),
{
    lemma_classified_registers(key, tree, registry);
    lemma_registered_all(registry, registrations(key, tree));
}

/// Synthesizing a type leaves every name as it was under which it registers
/// nothing, and leaves under every other name what it registered there last.
pub proof fn lemma_synthesized_lookup(
    synthesized_name: Seq<char>,
    samples: Seq<Tree>,
    registry: Seq<(Seq<char>, DefinitionModel)>,
    other: Seq<char>,
)
    ensures
        lookup(synthesized(synthesized_name, samples, registry), other) == (match last_written(
            synthesis_registrations(synthesized_name, samples),
            other,
        ) {
            Some(d) => Some(d),
            None => lookup(registry, other),
        }),
{
    lemma_synthesized_registers(synthesized_name, samples, registry);
    lemma_registered_all(registry, synthesis_registrations(synthesized_name, samples));
}

} // verus!
