//! Type definitions and the registry that holds them by name, in the order
//! in which the names were first registered.

use vstd::prelude::*;
use crate::types::{type_models, TypeExpression, TypeModel};

verus! {

/// One field of a record type.
#[derive(Debug, PartialEq, Eq)]
pub struct FieldEntry {
    pub name: String,
    /// The alternatives seen for the field, in alphabetical order.
    pub types: Vec<TypeExpression>,
    /// Whether the field was missing or null in some sample.
    pub optional: bool,
}

/// The mathematical model of a [`FieldEntry`].
pub struct FieldModel {
    pub name: Seq<char>,
    pub types: Seq<TypeModel>,
    pub optional: bool,
}

impl View for FieldEntry {
    type V = FieldModel;

    open spec fn view(&self) -> FieldModel {
        FieldModel { name: self.name@, types: type_models(self.types@), optional: self.optional }
    }
}

/// The models of a sequence of fields, member by member.
pub open spec fn field_models(fields: Seq<FieldEntry>) -> Seq<FieldModel> {
    Seq::new(fields.len(), |i: int| fields[i]@)
}

/// The body of a named type: a record of fields, or another name for a type
/// expression.
#[derive(Debug, PartialEq, Eq)]
pub enum TypeDefinition {
    Record(Vec<FieldEntry>),
    Alias(TypeExpression),
}

/// The mathematical model of a [`TypeDefinition`].
pub enum DefinitionModel {
    Record(Seq<FieldModel>),
    Alias(TypeModel),
}

impl View for TypeDefinition {
    type V = DefinitionModel;

    open spec fn view(&self) -> DefinitionModel {
        match self {
            TypeDefinition::Record(fields) => DefinitionModel::Record(field_models(fields@)),
            TypeDefinition::Alias(t) => DefinitionModel::Alias(t@),
        }
    }
}

/// The first position at or after `i` that holds `name`; the length where
/// there is none.
pub open spec fn name_position(
    registry: Seq<(Seq<char>, DefinitionModel)>,
    name: Seq<char>,
    i: int,
) -> int
    decreases registry.len() - i,
{
    if i < 0 || i >= registry.len() {
        registry.len() as int
    } else if registry[i].0 == name {
        i
    } else {
        name_position(registry, name, i + 1)
    }
}

/// The definition registered under `name`, if any.
pub open spec fn lookup(registry: Seq<(Seq<char>, DefinitionModel)>, name: Seq<char>) -> Option<
    DefinitionModel,
> {
    let p = name_position(registry, name, 0);
    if p < registry.len() {
        Some(registry[p].1)
    } else {
        None
    }
}

/// The registry after `definition` is registered under `name`: a name that
/// is there keeps its place and has its definition replaced as a whole; a new
/// name goes to the end.
pub open spec fn with_definition(
    registry: Seq<(Seq<char>, DefinitionModel)>,
    name: Seq<char>,
    definition: DefinitionModel,
) -> Seq<(Seq<char>, DefinitionModel)> {
    let p = name_position(registry, name, 0);
    if p < registry.len() {
        registry.update(p, (name, definition))
    } else {
        registry.push((name, definition))
    }
}

/// Whether no name occurs twice.
pub open spec fn distinct_names(registry: Seq<(Seq<char>, DefinitionModel)>) -> bool {
    forall|i: int, j: int|
        0 <= i < j < registry.len() ==> (#[trigger] registry[i]).0 != (#[trigger] registry[j]).0
}

/// The named types found so far, in the order in which their names were
/// first registered.
#[derive(Debug)]
pub struct TypeRegistry {
    entries: Vec<(String, TypeDefinition)>,
}

impl View for TypeRegistry {
    type V = Seq<(Seq<char>, DefinitionModel)>;

    closed spec fn view(&self) -> Seq<(Seq<char>, DefinitionModel)> {
        Seq::new(self.entries@.len(), |i: int| (self.entries@[i].0@, self.entries@[i].1@))
    }
}

impl TypeRegistry {
    /// An empty registry.
    pub fn new() -> (registry: Self)
        ensures
            registry@ == Seq::<(Seq<char>, DefinitionModel)>::empty(),
    {
        TypeRegistry { entries: Vec::new() }
    }

    /// The number of registered names.
    pub fn len(&self) -> (n: usize)
        ensures
            n == self@.len(),
    {
        self.entries.len()
    }

    /// The name registered at position `i`.
    pub fn name_at(&self, i: usize) -> (name: &String)
        requires
            i < self@.len(),
        ensures
            name@ == self@[i as int].0,
    {
        &self.entries[i].0
    }

    /// The definition registered at position `i`.
    pub fn definition_at(&self, i: usize) -> (definition: &TypeDefinition)
        requires
            i < self@.len(),
        ensures
            definition@ == self@[i as int].1,
    {
        &self.entries[i].1
    }

    /// The position of `name`, or the number of names where it is not there.
    fn find(&self, name: &String) -> (p: usize)
        ensures
            p == name_position(self@, name@, 0),
    {
        let mut i: usize = 0;
        while i < self.entries.len()
            invariant
                i <= self.entries.len(),
                name_position(self@, name@, 0) == name_position(self@, name@, i as int),
            decreases self.entries.len() - i,
        {
            if self.entries[i].0 == *name {
                return i;
            }
            i = i + 1;
        }
        i
    }

    /// The definition registered under `name`, if any.
    pub fn get(&self, name: &str) -> (found: Option<&TypeDefinition>)
        ensures
            match found {
                Some(definition) => lookup(self@, name@) == Some(definition@),
                None => lookup(self@, name@) is None,
            },
    {
        let key = String::from_str(name);
        let p = self.find(&key);
        if p < self.entries.len() {
            Some(&self.entries[p].1)
        } else {
            None
        }
    }

    /// Registers `definition` under `name`, replacing what was registered
    /// under that name before.
    pub fn put(&mut self, name: String, definition: TypeDefinition)
        ensures
            final(self)@ == with_definition(old(self)@, name@, definition@),
            distinct_names(old(self)@) ==> distinct_names(final(self)@),
    {
        let ghost after = with_definition(self@, name@, definition@);
        proof {
            lemma_put_keeps_order(self@, name@, definition@);
        }
        let p = self.find(&name);
        if p < self.entries.len() {
            self.entries.set(p, (name, definition));
        } else {
            self.entries.push((name, definition));
        }
        assert(self@ =~= after);
    }
}

/// What is registered under a name is what was put there last.
pub proof fn lemma_lookup_after_put(
    registry: Seq<(Seq<char>, DefinitionModel)>,
    name: Seq<char>,
    definition: DefinitionModel,
)
    ensures
        lookup(with_definition(registry, name, definition), name) == Some(definition),
{
    lemma_name_position(registry, name, 0);
    let after = with_definition(registry, name, definition);
    let p = name_position(registry, name, 0);
    lemma_name_position_is(after, name, p);
}

/// Registering under one name leaves every other name as it was.
pub proof fn lemma_lookup_other_after_put(
    registry: Seq<(Seq<char>, DefinitionModel)>,
    name: Seq<char>,
    definition: DefinitionModel,
    other: Seq<char>,
)
    requires
        other != name,
    ensures
        lookup(with_definition(registry, name, definition), other) == lookup(registry, other),
{
    lemma_name_position(registry, name, 0);
    lemma_name_position(registry, other, 0);
    let after = with_definition(registry, name, definition);
    let q = name_position(registry, other, 0);
    if q < registry.len() {
        lemma_name_position_is(after, other, q);
    } else {
        lemma_name_position_none(after, other);
    }
}

/// Registering keeps the names that are there in their places, and adds at
/// most one name, at the end.
pub proof fn lemma_put_keeps_order(
    registry: Seq<(Seq<char>, DefinitionModel)>,
    name: Seq<char>,
    definition: DefinitionModel,
)
    ensures
        registry.len() <= with_definition(registry, name, definition).len() <= registry.len() + 1,
        forall|i: int|
            0 <= i < registry.len() ==> (#[trigger] with_definition(
                registry,
                name,
                definition,
            )[i]).0 == registry[i].0,
        distinct_names(registry) ==> distinct_names(with_definition(registry, name, definition)),
{
    lemma_name_position(registry, name, 0);
    let after = with_definition(registry, name, definition);
    let p = name_position(registry, name, 0);
    if distinct_names(registry) {
        assert forall|i: int, j: int| 0 <= i < j < after.len() implies (#[trigger] after[i]).0 != (
        #[trigger] after[j]).0 by {
            if p < registry.len() {
                assert(after[i].0 == registry[i].0);
                assert(after[j].0 == registry[j].0);
            } else if j < registry.len() {
                assert(after[i].0 == registry[i].0);
                assert(after[j].0 == registry[j].0);
            } else {
                assert(after[i].0 == registry[i].0);
            }
        }
    }
}

/// The position of a name is the first place that holds it.
pub proof fn lemma_name_position(
    registry: Seq<(Seq<char>, DefinitionModel)>,
    name: Seq<char>,
    i: int,
)
    requires
        0 <= i <= registry.len(),
    ensures
        i <= name_position(registry, name, i) <= registry.len(),
        forall|k: int| i <= k < name_position(registry, name, i) ==> registry[k].0 != name,
        name_position(registry, name, i) < registry.len() ==> registry[name_position(
            registry,
            name,
            i,
        )].0 == name,
    decreases registry.len() - i,
{
    if i < registry.len() && registry[i].0 != name {
        lemma_name_position(registry, name, i + 1);
    }
}

/// In a registry without repeated names every entry is what is registered
/// under its name.
pub proof fn lemma_lookup_at(registry: Seq<(Seq<char>, DefinitionModel)>, i: int)
    requires
        distinct_names(registry),
        0 <= i < registry.len(),
    ensures
        lookup(registry, registry[i].0) == Some(registry[i].1),
{
    assert forall|k: int| 0 <= k < i implies registry[k].0 != registry[i].0 by {
        assert(registry[k].0 != registry[i].0);
    }
    lemma_name_position_is(registry, registry[i].0, i);
}

/// Registering under a name moves no name: a name that is there keeps its
/// first place, and an entry that does not stand at the first place of its
/// name is left as it is.
pub proof fn lemma_put_keeps_positions(
    registry: Seq<(Seq<char>, DefinitionModel)>,
    name: Seq<char>,
    definition: DefinitionModel,
)
    ensures
        forall|x: Seq<char>|
            name_position(registry, x, 0) < registry.len() ==> #[trigger] name_position(
                with_definition(registry, name, definition),
                x,
                0,
            ) == name_position(registry, x, 0),
        forall|i: int|
            0 <= i < registry.len() && name_position(registry, registry[i].0, 0) != i
                ==> #[trigger] with_definition(registry, name, definition)[i] == registry[i],
{
    let after = with_definition(registry, name, definition);
    lemma_name_position(registry, name, 0);
    assert forall|x: Seq<char>| name_position(registry, x, 0) < registry.len() implies
        #[trigger] name_position(after, x, 0) == name_position(registry, x, 0) by {
        let q = name_position(registry, x, 0);
        lemma_name_position(registry, x, 0);
        assert forall|k: int| 0 <= k < q implies after[k].0 != x by {
            assert(after[k].0 == registry[k].0);
        }
        assert(after[q].0 == registry[q].0);
        lemma_name_position_is(after, x, q);
    }
    assert forall|i: int|
        0 <= i < registry.len() && name_position(registry, registry[i].0, 0)
            != i implies #[trigger] after[i] == registry[i] by {
        let p = name_position(registry, name, 0);
        if p == i {
            assert(registry[i].0 == name);
        }
    }
}

/// A place that holds a name, with no earlier place that holds it, is the
/// position of the name.
pub proof fn lemma_name_position_is(
    registry: Seq<(Seq<char>, DefinitionModel)>,
    name: Seq<char>,
    p: int,
)
    requires
        0 <= p < registry.len(),
        registry[p].0 == name,
        forall|k: int| 0 <= k < p ==> registry[k].0 != name,
    ensures
        name_position(registry, name, 0) == p,
{
    lemma_name_position_steps(registry, name, p, 0);
}

proof fn lemma_name_position_none(registry: Seq<(Seq<char>, DefinitionModel)>, name: Seq<char>)
    requires
        forall|k: int| 0 <= k < registry.len() ==> registry[k].0 != name,
    ensures
        name_position(registry, name, 0) == registry.len(),
{
    lemma_name_position_steps(registry, name, registry.len() as int, 0);
}

proof fn lemma_name_position_steps(
    registry: Seq<(Seq<char>, DefinitionModel)>,
    name: Seq<char>,
    p: int,
    i: int,
)
    requires
        0 <= i <= p <= registry.len(),
        forall|k: int| 0 <= k < p ==> registry[k].0 != name,
        p < registry.len() ==> registry[p].0 == name,
    ensures
        name_position(registry, name, i) == p,
    decreases p - i,
{
    if i < p {
        lemma_name_position_steps(registry, name, p, i + 1);
    }
}

} // verus!
