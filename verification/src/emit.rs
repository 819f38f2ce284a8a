//! Writing the registered types out as declarations.

use vstd::prelude::*;
use crate::registry::{
    field_models, DefinitionModel, FieldEntry, FieldModel, TypeDefinition, TypeRegistry,
};
use crate::types::{join_types, joined, rendered, TypeModel};

verus! {

/// The alternatives of a field, joined by ` | `; `any` where there is none.
pub open spec fn alternatives_text(types: Seq<TypeModel>) -> Seq<char> {
    if types.len() == 0 {
        "any"@
    } else {
        joined(types, types.len())
    }
}

/// The line of a field: its name, `?` where it is optional, `: `, its
/// alternatives and `;`.
pub open spec fn field_line(field: FieldModel) -> Seq<char> {
    field.name + (if field.optional {
        "?"@
    } else {
        Seq::empty()
    }) + ": "@ + alternatives_text(field.types) + ";"@
}

/// The lines of the first `n` of `fields`, each indented by four spaces and
/// ended by a line feed.
pub open spec fn record_lines(fields: Seq<FieldModel>, n: nat) -> Seq<char>
    decreases n,
{
    if n == 0 || n > fields.len() {
        Seq::empty()
    } else {
        record_lines(fields, (n - 1) as nat) + "    "@ + field_line(fields[n - 1]) + "\n"@
    }
}

/// The declaration of the type `name`. A record is written as
/// `type Name = {`, one line for each field, and `}`; an alias is written as
/// `type Name = ` followed by its type expression.
pub open spec fn declaration_text(name: Seq<char>, definition: DefinitionModel) -> Seq<char> {
    match definition {
        DefinitionModel::Record(fields) => "type "@ + name + " = {\n"@ + record_lines(
            fields,
            fields.len(),
        ) + "}"@,
        DefinitionModel::Alias(t) => "type "@ + name + " = "@ + rendered(t),
    }
}

/// The declarations of all registered types, each with its name, in the
/// order of the registry.
pub open spec fn declarations(registry: Seq<(Seq<char>, DefinitionModel)>) -> Seq<
    (Seq<char>, Seq<char>),
> {
    Seq::new(
        registry.len(),
        |i: int| (registry[i].0, declaration_text(registry[i].0, registry[i].1)),
    )
}

/// The models of a sequence of named texts, pair by pair.
pub open spec fn text_pairs(pairs: Seq<(String, String)>) -> Seq<(Seq<char>, Seq<char>)> {
    Seq::new(pairs.len(), |i: int| (pairs[i].0@, pairs[i].1@))
}

/// Writes the line of a field.
pub fn render_field(field: &FieldEntry) -> (out: String)
    ensures
        out@ == field_line(field@),
{
    let mut out = field.name.clone();
    if field.optional {
        out.append("?");
    }
    assert(out@ == field@.name + (if field@.optional {
        "?"@
    } else {
        Seq::empty()
    }));
    out.append(": ");
    if field.types.len() == 0 {
        out.append("any");
    } else {
        let alternatives = join_types(&field.types);
        out.append(alternatives.as_str());
    }
    out.append(";");
    out
}

/// Writes the declaration of the type `name`.
pub fn render_definition(name: &str, definition: &TypeDefinition) -> (out: String)
    ensures
        out@ == declaration_text(name@, definition@),
{
    let mut out = String::from_str("type ");
    out.append(name);
    match definition {
        TypeDefinition::Record(fields) => {
            let mut lines = String::new();
            let mut i: usize = 0;
            while i < fields.len()
                invariant
                    i <= fields.len(),
                    lines@ == record_lines(field_models(fields@), i as nat),
                decreases fields.len() - i,
            {
                let line = render_field(&fields[i]);
                lines.append("    ");
                lines.append(line.as_str());
                lines.append("\n");
                i = i + 1;
            }
            out.append(" = {\n");
            out.append(lines.as_str());
            out.append("}");
        },
        TypeDefinition::Alias(t) => {
            let text = t.render();
            out.append(" = ");
            out.append(text.as_str());
        },
    }
    out
}

/// Writes out every registered type, in the order in which the names were
/// first registered: each name with its declaration.
pub fn render_all(registry: &TypeRegistry) -> (out: Vec<(String, String)>)
    ensures
        text_pairs(out@) == declarations(registry@),
{
    let mut out: Vec<(String, String)> = Vec::new();
    let n = registry.len();
    let mut i: usize = 0;
    while i < n
        invariant
            i <= n,
            n == registry@.len(),
            out@.len() == i,
            forall|k: int|
                0 <= k < i ==> (#[trigger] out@[k]).0@ == registry@[k].0 && out@[k].1@
                    == declaration_text(registry@[k].0, registry@[k].1),
        decreases n - i,
    {
        let name = registry.name_at(i);
        let text = render_definition(name.as_str(), registry.definition_at(i));
        out.push((name.clone(), text));
        i = i + 1;
    }
    assert(text_pairs(out@) =~= declarations(registry@));
    out
}

} // verus!
