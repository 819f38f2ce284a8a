//! Every type name that classification refers to is registered.

use vstd::prelude::*;
use crate::infer::{
    absorbed_fields, array_of, classified, fields_classified, merged_fields, merged_upto,
    other_types, others_classified, samples_classified, synthesized, type_of,
};
use crate::laws::fields::lemma_field_position;
use crate::laws::normal_form::lemma_other_types_members;
use crate::merge::{any_type, field_position, marked_absent, merged_types, observed};
use crate::naming::derived_name;
use crate::registrations::{
    field_registrations, last_written, lemma_classified_registers,
    lemma_fields_classified_registers, lemma_others_classified_registers, lemma_registered_all,
    lemma_samples_classified_registers, other_registrations, registered_all, registrations,
    sample_registrations,
};
use crate::registry::{
    lemma_lookup_after_put, lemma_lookup_other_after_put, lemma_name_position, lookup,
    name_position, with_definition, DefinitionModel, FieldModel,
};
use crate::types::{lemma_with_type_grows, with_type, TypeModel};
use crate::value::{any_object, Tree};

verus! {

/// Whether the type expression `t` refers to the type called `name`.
pub open spec fn refers_to(t: TypeModel, name: Seq<char>) -> bool
    decreases t, 0nat,
{
    match t {
        TypeModel::Primitive(_) => false,
        TypeModel::Reference(n) => n == name,
        TypeModel::Array(inner) => refers_to(*inner, name),
        TypeModel::Union(members) => any_refers_to(members, members.len(), name),
    }
}

/// Whether one of the first `n` of `members` refers to the type called
/// `name`.
pub open spec fn any_refers_to(members: Seq<TypeModel>, n: nat, name: Seq<char>) -> bool
    decreases members, n,
{
    if n == 0 || n > members.len() {
        false
    } else {
        refers_to(members[n - 1], name) || any_refers_to(members, (n - 1) as nat, name)
    }
}

/// Whether a definition is registered under `name`.
pub open spec fn registered(registry: Seq<(Seq<char>, DefinitionModel)>, name: Seq<char>) -> bool {
    lookup(registry, name) is Some
}

/// Whether every type that `t` refers to is registered.
pub open spec fn covers(registry: Seq<(Seq<char>, DefinitionModel)>, t: TypeModel) -> bool {
    forall|x: Seq<char>| #[trigger] refers_to(t, x) ==> registered(registry, x)
}

/// Whether every type that one of `types` refers to is registered.
pub open spec fn covers_all(registry: Seq<(Seq<char>, DefinitionModel)>, types: Seq<TypeModel>) -> bool {
    forall|m: int| 0 <= m < types.len() ==> covers(registry, #[trigger] types[m])
}

/// Whether every type that an alternative of a field of `table` refers to is
/// registered.
pub open spec fn covers_table(
    registry: Seq<(Seq<char>, DefinitionModel)>,
    table: Seq<FieldModel>,
) -> bool {
    forall|k: int| 0 <= k < table.len() ==> covers_all(registry, (#[trigger] table[k]).types)
}

/// Whether every type that `definition` refers to is registered.
pub open spec fn covers_definition(
    registry: Seq<(Seq<char>, DefinitionModel)>,
    definition: DefinitionModel,
) -> bool {
    match definition {
        DefinitionModel::Record(fields) => covers_table(registry, fields),
        DefinitionModel::Alias(t) => covers(registry, t),
    }
}

/// Whether every type that a registered definition refers to is registered
/// itself.
pub open spec fn references_registered(registry: Seq<(Seq<char>, DefinitionModel)>) -> bool {
    forall|i: int|
        0 <= i < registry.len() ==> covers_definition(registry, (#[trigger] registry[i]).1)
}

/// Whether every name that is registered in `before` is registered in
/// `after`.
pub open spec fn keeps_names(
    before: Seq<(Seq<char>, DefinitionModel)>,
    after: Seq<(Seq<char>, DefinitionModel)>,
) -> bool {
    forall|x: Seq<char>| registered(before, x) ==> #[trigger] registered(after, x)
}

/// What is covered stays covered where every registered name stays
/// registered.
proof fn lemma_covers_kept(
    before: Seq<(Seq<char>, DefinitionModel)>,
    after: Seq<(Seq<char>, DefinitionModel)>,
)
    requires
        keeps_names(before, after),
    ensures
        forall|t: TypeModel| covers(before, t) ==> #[trigger] covers(after, t),
        forall|types: Seq<TypeModel>|
            covers_all(before, types) ==> #[trigger] covers_all(after, types),
        forall|table: Seq<FieldModel>|
            covers_table(before, table) ==> #[trigger] covers_table(after, table),
        forall|d: DefinitionModel|
            covers_definition(before, d) ==> #[trigger] covers_definition(after, d),
{
    assert forall|t: TypeModel| covers(before, t) implies #[trigger] covers(after, t) by {
        assert forall|x: Seq<char>| #[trigger] refers_to(t, x) implies registered(after, x) by {
            assert(registered(before, x));
        }
    }
    assert forall|types: Seq<TypeModel>| covers_all(before, types) implies #[trigger] covers_all(
        after,
        types,
    ) by {
        assert forall|m: int| 0 <= m < types.len() implies covers(after, #[trigger] types[m]) by {
            assert(covers(before, types[m]));
        }
    }
    assert forall|table: Seq<FieldModel>| covers_table(before, table) implies
        #[trigger] covers_table(after, table) by {
        assert forall|k: int| 0 <= k < table.len() implies covers_all(
            after,
            (#[trigger] table[k]).types,
        ) by {
            assert(covers_all(before, table[k].types));
        }
    }
    assert forall|d: DefinitionModel| covers_definition(before, d) implies
        #[trigger] covers_definition(after, d) by {
        match d {
            DefinitionModel::Record(fields) => {
                assert(covers_table(before, fields));
            },
            DefinitionModel::Alias(t) => {
                assert(covers(before, t));
            },
        }
    }
}

/// Registrations remove no name.
pub proof fn lemma_registered_all_keeps_names(
    registry: Seq<(Seq<char>, DefinitionModel)>,
    writes: Seq<(Seq<char>, DefinitionModel)>,
)
    ensures
        keeps_names(registry, registered_all(registry, writes)),
{
    lemma_registered_all(registry, writes);
    let after = registered_all(registry, writes);
    assert forall|x: Seq<char>| registered(registry, x) implies #[trigger] registered(
        after,
        x,
    ) by {
        assert(lookup(after, x) == (match last_written(writes, x) {
            Some(d) => Some(d),
            None => lookup(registry, x),
        }));
    }
}

/// Registering one definition removes no name and registers its own.
proof fn lemma_put_keeps_names(
    registry: Seq<(Seq<char>, DefinitionModel)>,
    name: Seq<char>,
    definition: DefinitionModel,
)
    ensures
        keeps_names(registry, with_definition(registry, name, definition)),
        registered(with_definition(registry, name, definition), name),
{
    let after = with_definition(registry, name, definition);
    lemma_lookup_after_put(registry, name, definition);
    assert forall|x: Seq<char>| registered(registry, x) implies #[trigger] registered(
        after,
        x,
    ) by {
        if x != name {
            lemma_lookup_other_after_put(registry, name, definition, x);
        }
    }
}

/// Registering a definition whose references are registered afterwards
/// keeps the references of every registered definition registered.
proof fn lemma_put_keeps_references(
    registry: Seq<(Seq<char>, DefinitionModel)>,
    name: Seq<char>,
    definition: DefinitionModel,
)
    requires
        references_registered(registry),
        covers_definition(with_definition(registry, name, definition), definition),
    ensures
        references_registered(with_definition(registry, name, definition)),
{
    let after = with_definition(registry, name, definition);
    lemma_put_keeps_names(registry, name, definition);
    lemma_covers_kept(registry, after);
    lemma_name_position(registry, name, 0);
    let p = name_position(registry, name, 0);
    assert forall|i: int| 0 <= i < after.len() implies covers_definition(
        after,
        (#[trigger] after[i]).1,
    ) by {
        if i != p {
            assert(after[i] == registry[i]);
            assert(covers_definition(registry, registry[i].1));
        }
    }
}

/// Adding a covered type to covered types leaves them covered.
proof fn lemma_with_type_covered(
    registry: Seq<(Seq<char>, DefinitionModel)>,
    types: Seq<TypeModel>,
    t: TypeModel,
)
    requires
        covers_all(registry, types),
        covers(registry, t),
    ensures
        covers_all(registry, with_type(types, t)),
{
    lemma_with_type_grows(types, t);
    let after = with_type(types, t);
    assert forall|m: int| 0 <= m < after.len() implies covers(registry, #[trigger] after[m]) by {
        if after[m] != t {
            assert(types.contains(after[m]));
            let m0 = choose|m0: int| 0 <= m0 < types.len() && types[m0] == after[m];
            assert(covers(registry, types[m0]));
        }
    }
}

/// Where one of the first `n` members refers to a type, a member does.
proof fn lemma_any_refers_to(members: Seq<TypeModel>, n: nat, name: Seq<char>)
    requires
        n <= members.len(),
        any_refers_to(members, n, name),
    ensures
        exists|m: int| 0 <= m < n && #[trigger] refers_to(members[m], name),
    decreases n,
{
    if !refers_to(members[n - 1], name) {
        lemma_any_refers_to(members, (n - 1) as nat, name);
        let m = choose|m: int| 0 <= m < n - 1 && #[trigger] refers_to(members[m], name);
        assert(0 <= m < n && refers_to(members[m], name));
    }
}

/// The array type over covered member types is covered.
proof fn lemma_array_of_covered(registry: Seq<(Seq<char>, DefinitionModel)>, members: Seq<TypeModel>)
    requires
        covers_all(registry, members),
        members.len() >= 1,
    ensures
        covers(registry, array_of(members)),
{
    let t = array_of(members);
    assert forall|x: Seq<char>| #[trigger] refers_to(t, x) implies registered(registry, x) by {
        reveal_with_fuel(refers_to, 3);
        if members.len() == 1 {
            assert(t == TypeModel::Array(Box::new(members[0])));
            assert(refers_to(members[0], x));
            assert(covers(registry, members[0]));
        } else {
            let union = TypeModel::Union(members);
            assert(t == TypeModel::Array(Box::new(union)));
            assert(refers_to(union, x));
            lemma_any_refers_to(members, members.len(), x);
            let m = choose|m: int|
                0 <= m < members.len() && #[trigger] refers_to(members[m], x);
            assert(covers(registry, members[m]));
        }
    }
}

/// The types of the members that are not object-shaped are covered where
/// the type of each such member is.
proof fn lemma_other_types_covered(
    registry: Seq<(Seq<char>, DefinitionModel)>,
    key: Seq<char>,
    items: Seq<Tree>,
    n: nat,
)
    requires
        n <= items.len(),
        forall|j: int|
            0 <= j < n && !(items[j] is Object) ==> covers(
                registry,
                #[trigger] type_of(key, items[j]),
            ),
    ensures
        covers_all(registry, other_types(key, items, n)),
    decreases n,
{
    if n > 0 {
        lemma_other_types_covered(registry, key, items, (n - 1) as nat);
        if !(items[n - 1] is Object) {
            assert(covers(registry, type_of(key, items[n - 1])));
            lemma_with_type_covered(
                registry,
                other_types(key, items, (n - 1) as nat),
                type_of(key, items[n - 1]),
            );
        }
    }
}

proof fn lemma_observed_covered(
    registry: Seq<(Seq<char>, DefinitionModel)>,
    table: Seq<FieldModel>,
    name: Seq<char>,
    t: TypeModel,
    first: bool,
)
    requires
        covers_table(registry, table),
        covers(registry, t),
    ensures
        covers_table(registry, observed(table, name, t, first)),
{
    let after = observed(table, name, t, first);
    let p = field_position(table, name, 0);
    lemma_field_position(table, name, 0);
    assert forall|k: int| 0 <= k < after.len() implies covers_all(
        registry,
        (#[trigger] after[k]).types,
    ) by {
        if p < table.len() {
            assert(covers_all(registry, table[k].types));
            if k == p {
                let types = table[p].types;
                let merged = merged_types(types, t);
                if t == any_type() {
                } else if types.len() == 1 && types[0] == any_type() {
                    assert forall|m: int| 0 <= m < merged.len() implies covers(
                        registry,
                        #[trigger] merged[m],
                    ) by {
                        assert(merged[m] == t);
                    }
                } else {
                    lemma_with_type_covered(registry, types, t);
                }
            }
        } else if k < table.len() {
            assert(covers_all(registry, table[k].types));
        } else {
            assert forall|m: int| 0 <= m < after[k].types.len() implies covers(
                registry,
                #[trigger] after[k].types[m],
            ) by {
                assert(after[k].types[m] == t);
            }
        }
    }
}

proof fn lemma_absorbed_fields_covered(
    registry: Seq<(Seq<char>, DefinitionModel)>,
    table: Seq<FieldModel>,
    fields: Seq<(Seq<char>, Tree)>,
    m: nat,
    first: bool,
)
    requires
        m <= fields.len(),
        covers_table(registry, table),
        fields_covered(registry, fields, fields.len()),
    ensures
        covers_table(registry, absorbed_fields(table, fields, m, first)),
    decreases m,
{
    if m > 0 {
        lemma_absorbed_fields_covered(registry, table, fields, (m - 1) as nat, first);
        assert(covers(registry, field_type(fields, m - 1)));
        lemma_observed_covered(
            registry,
            absorbed_fields(table, fields, (m - 1) as nat, first),
            fields[m - 1].0,
            type_of(fields[m - 1].0, fields[m - 1].1),
            first,
        );
    }
}

/// The type of the value of the field at position `j`.
pub open spec fn field_type(fields: Seq<(Seq<char>, Tree)>, j: int) -> TypeModel {
    type_of(fields[j].0, fields[j].1)
}

/// Whether the types of the values of the first `n` of `fields` are
/// covered.
pub open spec fn fields_covered(
    registry: Seq<(Seq<char>, DefinitionModel)>,
    fields: Seq<(Seq<char>, Tree)>,
    n: nat,
) -> bool {
    forall|j: int| 0 <= j < n && j < fields.len() ==> covers(
        registry,
        #[trigger] field_type(fields, j),
    )
}

/// Whether the types of the field values of the object-shaped ones among
/// the first `n` of `samples` are covered.
pub open spec fn samples_covered(
    registry: Seq<(Seq<char>, DefinitionModel)>,
    samples: Seq<Tree>,
    n: nat,
) -> bool {
    forall|i: int|
        0 <= i < n && i < samples.len() && #[trigger] samples[i] is Object ==> fields_covered(
            registry,
            samples[i]->Object_0,
            samples[i]->Object_0.len(),
        )
}

/// The alternatives of the merged record are covered where the types of
/// the field values of the samples are.
proof fn lemma_merged_upto_covered(
    registry: Seq<(Seq<char>, DefinitionModel)>,
    samples: Seq<Tree>,
    n: nat,
)
    requires
        n <= samples.len(),
        samples_covered(registry, samples, n),
    ensures
        covers_table(registry, merged_upto(samples, n)),
    decreases n,
{
    if n > 0 {
        lemma_merged_upto_covered(registry, samples, (n - 1) as nat);
        let before = merged_upto(samples, (n - 1) as nat);
        match samples[n - 1] {
            Tree::Object(fields) => {
                let marked = marked_absent(before, fields);
                assert forall|k: int| 0 <= k < marked.len() implies covers_all(
                    registry,
                    (#[trigger] marked[k]).types,
                ) by {
                    assert(covers_all(registry, before[k].types));
                }
                assert(samples[n - 1] is Object);
                assert(fields_covered(registry, fields, fields.len()));
                lemma_absorbed_fields_covered(
                    registry,
                    marked,
                    fields,
                    fields.len(),
                    !any_object(samples, (n - 1) as nat),
                );
            },
            _ => {},
        }
    }
}

/// After a value is classified every type that its type expression refers
/// to is registered, every type that a registered definition refers to is
/// registered if that was so before, and no name is lost.
pub proof fn lemma_classified_references(
    key: Seq<char>,
    tree: Tree,
    registry: Seq<(Seq<char>, DefinitionModel)>,
)
    ensures
        covers(classified(key, tree, registry), type_of(key, tree)),
        keeps_names(registry, classified(key, tree, registry)),
        references_registered(registry) ==> references_registered(
            classified(key, tree, registry),
        ),
    decreases tree, 0nat,
{
    let after = classified(key, tree, registry);
    lemma_classified_registers(key, tree, registry);
    lemma_registered_all_keeps_names(registry, registrations(key, tree));
    match tree {
        Tree::Array(items) => {
            if items.len() == 0 {
                assert forall|x: Seq<char>| #[trigger] refers_to(type_of(key, tree), x) implies
                    registered(after, x) by {
                    assert(refers_to(any_type(), x));
                }
            } else {
                let n = items.len();
                let name = derived_name(key);
                let r1 = others_classified(key, items, n, registry);
                lemma_others_references(key, items, n, registry);
                lemma_other_types_covered(r1, key, items, n);
                let others = other_types(key, items, n);
                lemma_other_types_members(key, items, n);
                if any_object(items, n) {
                    let r2 = samples_classified(items, n, r1);
                    let definition = DefinitionModel::Record(merged_fields(items));
                    lemma_samples_references(items, n, r1);
                    lemma_merged_upto_covered(r2, items, n);
                    lemma_put_keeps_names(r2, name, definition);
                    lemma_covers_kept(r1, r2);
                    lemma_covers_kept(r2, after);
                    assert(covers_definition(after, definition));
                    if references_registered(registry) {
                        lemma_put_keeps_references(r2, name, definition);
                    }
                    let reference = TypeModel::Reference(name);
                    assert(covers(after, reference)) by {
                        assert forall|x: Seq<char>| #[trigger] refers_to(reference, x) implies
                            registered(after, x) by {}
                    }
                    lemma_with_type_covered(after, others, reference);
                    lemma_with_type_grows(others, reference);
                    lemma_array_of_covered(after, with_type(others, reference));
                } else {
                    lemma_array_of_covered(after, others);
                }
            }
        },
        Tree::Object(fields) => {
            let name = derived_name(key);
            let r1 = fields_classified(fields, fields.len(), registry);
            let definition = DefinitionModel::Record(merged_fields(seq![tree]));
            lemma_fields_references(fields, fields.len(), registry);
            let samples = seq![tree];
            assert(samples[0] == tree);
            assert(samples_covered(r1, samples, 1)) by {
                assert forall|i: int|
                    0 <= i < 1 && i < samples.len() && #[trigger] samples[i]
                        is Object implies fields_covered(
                    r1,
                    samples[i]->Object_0,
                    samples[i]->Object_0.len(),
                ) by {
                    assert(samples[i] == tree);
                }
            }
            lemma_merged_upto_covered(r1, samples, 1);
            lemma_put_keeps_names(r1, name, definition);
            lemma_covers_kept(r1, after);
            assert(covers_definition(after, definition));
            if references_registered(registry) {
                lemma_put_keeps_references(r1, name, definition);
            }
            assert forall|x: Seq<char>| #[trigger] refers_to(type_of(key, tree), x) implies
                registered(after, x) by {}
        },
        _ => {
            assert forall|x: Seq<char>| #[trigger] refers_to(type_of(key, tree), x) implies
                registered(after, x) by {}
        },
    }
}

proof fn lemma_others_references(
    key: Seq<char>,
    items: Seq<Tree>,
    n: nat,
    registry: Seq<(Seq<char>, DefinitionModel)>,
)
    requires
        n <= items.len(),
    ensures
        forall|j: int|
            0 <= j < n && !(items[j] is Object) ==> covers(
                others_classified(key, items, n, registry),
                #[trigger] type_of(key, items[j]),
            ),
        keeps_names(registry, others_classified(key, items, n, registry)),
        references_registered(registry) ==> references_registered(
            others_classified(key, items, n, registry),
        ),
    decreases items, n,
{
    let after = others_classified(key, items, n, registry);
    lemma_others_classified_registers(key, items, n, registry);
    lemma_registered_all_keeps_names(registry, other_registrations(key, items, n));
    if n > 0 {
        let before = others_classified(key, items, (n - 1) as nat, registry);
        lemma_others_references(key, items, (n - 1) as nat, registry);
        if !(items[n - 1] is Object) {
            lemma_classified_references(key, items[n - 1], before);
            lemma_covers_kept(before, after);
        }
        assert forall|j: int| 0 <= j < n && !(items[j] is Object) implies covers(
            after,
            #[trigger] type_of(key, items[j]),
        ) by {
            if j < n - 1 {
                assert(covers(before, type_of(key, items[j])));
            }
        }
    }
}

proof fn lemma_fields_references(
    fields: Seq<(Seq<char>, Tree)>,
    n: nat,
    registry: Seq<(Seq<char>, DefinitionModel)>,
)
    requires
        n <= fields.len(),
    ensures
        fields_covered(fields_classified(fields, n, registry), fields, n),
        keeps_names(registry, fields_classified(fields, n, registry)),
        references_registered(registry) ==> references_registered(
            fields_classified(fields, n, registry),
        ),
    decreases fields, n,
{
    let after = fields_classified(fields, n, registry);
    lemma_fields_classified_registers(fields, n, registry);
    lemma_registered_all_keeps_names(registry, field_registrations(fields, n));
    if n > 0 {
        let before = fields_classified(fields, (n - 1) as nat, registry);
        lemma_fields_references(fields, (n - 1) as nat, registry);
        lemma_classified_references(fields[n - 1].0, fields[n - 1].1, before);
        lemma_covers_kept(before, after);
        assert forall|j: int| 0 <= j < n && j < fields.len() implies covers(
            after,
            #[trigger] field_type(fields, j),
        ) by {
            if j < n - 1 {
                assert(covers(before, field_type(fields, j)));
            }
        }
    }
}

proof fn lemma_samples_references(
    samples: Seq<Tree>,
    n: nat,
    registry: Seq<(Seq<char>, DefinitionModel)>,
)
    requires
        n <= samples.len(),
    ensures
        samples_covered(samples_classified(samples, n, registry), samples, n),
        keeps_names(registry, samples_classified(samples, n, registry)),
        references_registered(registry) ==> references_registered(
            samples_classified(samples, n, registry),
        ),
    decreases samples, n,
{
    let after = samples_classified(samples, n, registry);
    lemma_samples_classified_registers(samples, n, registry);
    lemma_registered_all_keeps_names(registry, sample_registrations(samples, n));
    if n > 0 {
        let before = samples_classified(samples, (n - 1) as nat, registry);
        lemma_samples_references(samples, (n - 1) as nat, registry);
        match samples[n - 1] {
            Tree::Object(fields) => {
                lemma_fields_references(fields, fields.len(), before);
            },
            _ => {},
        }
        lemma_covers_kept(before, after);
        assert forall|i: int|
            0 <= i < n && i < samples.len() && #[trigger] samples[i] is Object implies fields_covered(
            after,
            samples[i]->Object_0,
            samples[i]->Object_0.len(),
        ) by {
            let fields = samples[i]->Object_0;
            if i < n - 1 {
                assert(fields_covered(before, fields, fields.len()));
                assert forall|j: int| 0 <= j < fields.len() implies covers(
                    after,
                    #[trigger] field_type(fields, j),
                ) by {
                    assert(covers(before, field_type(fields, j)));
                }
            }
        }
    }
}

/// After a type is synthesized every type that a registered definition
/// refers to is registered, if that was so before.
pub proof fn lemma_synthesized_references(
    name: Seq<char>,
    samples: Seq<Tree>,
    registry: Seq<(Seq<char>, DefinitionModel)>,
)
    requires
        references_registered(registry),
    ensures
        references_registered(synthesized(name, samples, registry)),
{
    let after = synthesized(name, samples, registry);
    if samples.len() == 1 && samples[0] is Array {
        let r1 = classified(name, samples[0], registry);
        let definition = DefinitionModel::Alias(type_of(name, samples[0]));
        lemma_classified_references(name, samples[0], registry);
        lemma_put_keeps_names(r1, name, definition);
        lemma_covers_kept(r1, after);
        lemma_put_keeps_references(r1, name, definition);
    } else {
        let r1 = samples_classified(samples, samples.len(), registry);
        let definition = DefinitionModel::Record(merged_fields(samples));
        lemma_samples_references(samples, samples.len(), registry);
        lemma_merged_upto_covered(r1, samples, samples.len());
        lemma_put_keeps_names(r1, name, definition);
        lemma_covers_kept(r1, after);
        assert(covers_definition(after, definition));
        lemma_put_keeps_references(r1, name, definition);
    }
}

} // verus!
