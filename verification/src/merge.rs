//! Merging the fields of several sample objects into one table of fields.

use vstd::prelude::*;
use crate::registry::{field_models, FieldEntry, FieldModel};
use crate::types::{insert_type, type_models, with_type, Primitive, TypeExpression, TypeModel};
use crate::value::{contains_field, field_trees, has_field, Tree, Value};

verus! {

/// The type of a value of which nothing is known.
pub open spec fn any_type() -> TypeModel {
    TypeModel::Primitive(Primitive::Any)
}

/// The first position at or after `i` whose field is called `name`; the
/// length where there is none.
pub open spec fn field_position(table: Seq<FieldModel>, name: Seq<char>, i: int) -> int
    decreases table.len() - i,
{
    if i < 0 || i >= table.len() {
        table.len() as int
    } else if table[i].name == name {
        i
    } else {
        field_position(table, name, i + 1)
    }
}

/// The alternatives of a field after a value of type `t` was seen for it. A
/// null value (type `any`) adds nothing; a first type that is not `any`
/// takes the place of a lone `any`.
pub open spec fn merged_types(types: Seq<TypeModel>, t: TypeModel) -> Seq<TypeModel> {
    if t == any_type() {
        types
    } else if types.len() == 1 && types[0] == any_type() {
        seq![t]
    } else {
        with_type(types, t)
    }
}

/// The table after a field called `name` was seen with a value of type `t`.
/// `first` says that the field stands in the first sample.
///
/// A field that is in the table gets `t` among its alternatives and becomes
/// optional where `t` is `any`. A new field goes to the end of the table;
/// it is optional where `t` is `any` or an earlier sample went without it.
pub open spec fn observed(table: Seq<FieldModel>, name: Seq<char>, t: TypeModel, first: bool) -> Seq<
    FieldModel,
> {
    let p = field_position(table, name, 0);
    if p < table.len() {
        table.update(
            p,
            FieldModel {
                name: table[p].name,
                types: merged_types(table[p].types, t),
                optional: table[p].optional || t == any_type(),
            },
        )
    } else {
        table.push(FieldModel { name, types: seq![t], optional: !first || t == any_type() })
    }
}

/// The table after a sample with the fields `fields` was looked at for
/// missing fields: every field of the table that the sample lacks is
/// optional.
pub open spec fn marked_absent(table: Seq<FieldModel>, fields: Seq<(Seq<char>, Tree)>) -> Seq<
    FieldModel,
> {
    Seq::new(
        table.len(),
        |i: int|
            FieldModel {
                name: table[i].name,
                types: table[i].types,
                optional: table[i].optional || !has_field(fields, table[i].name),
            },
    )
}

/// Marks as optional every field of `table` that `fields` lacks.
pub fn mark_absent(table: &mut Vec<FieldEntry>, fields: &Vec<(String, Value)>)
    ensures
        field_models(final(table)@) == marked_absent(
            field_models(old(table)@),
            field_trees(fields@),
        ),
{
    let mut i: usize = 0;
    while i < table.len()
        invariant
            i <= table.len(),
            table.len() == old(table).len(),
            forall|k: int|
                0 <= k < i ==> (#[trigger] table@[k])@ == marked_absent(
                    field_models(old(table)@),
                    field_trees(fields@),
                )[k],
            forall|k: int| i <= k < table.len() ==> table@[k] == old(table)@[k],
        decreases table.len() - i,
    {
        if !contains_field(fields, &table[i].name) {
            table[i].optional = true;
        }
        i = i + 1;
    }
}

/// The position in `table` of the field called `name`, or the length of the
/// table where there is none.
pub fn find_field(table: &Vec<FieldEntry>, name: &String) -> (p: usize)
    ensures
        p == field_position(field_models(table@), name@, 0),
{
    let mut p: usize = 0;
    while p < table.len()
        invariant
            p <= table.len(),
            field_position(field_models(table@), name@, 0) == field_position(
                field_models(table@),
                name@,
                p as int,
            ),
        decreases table.len() - p,
    {
        if table[p].name == *name {
            return p;
        }
        p = p + 1;
    }
    p
}

/// Records in `table` that a field called `name` was seen with a value of
/// type `t`.
pub fn observe(table: &mut Vec<FieldEntry>, name: &String, t: TypeExpression, first: bool)
    ensures
        field_models(final(table)@) == observed(field_models(old(table)@), name@, t@, first),
{
    let ghost before = field_models(table@);
    let p = find_field(table, name);
    let ghost seen = t@;
    if p < table.len() {
        let ghost old_entry = table@[p as int];
        assert(old_entry@ == before[p as int]);
        if t.is_any() {
            table[p].optional = true;
        } else if table[p].types.len() == 1 && table[p].types[0].is_any() {
            assert(type_models(old_entry.types@)[0] == any_type());
            table[p].types = vec![t];
            assert(type_models(table@[p as int].types@) =~= seq![seen]);
        } else {
            assert(type_models(old_entry.types@).len() == 1 ==> type_models(old_entry.types@)[0]
                == old_entry.types@[0]@);
            insert_type(&mut table[p].types, t);
        }
        assert(table@[p as int]@ == observed(before, name@, seen, first)[p as int]);
        assert(forall|k: int| 0 <= k < table.len() && k != p ==> table@[k] == old(table)@[k]);
        assert(field_models(table@) =~= observed(before, name@, seen, first));
    } else {
        let optional = !first || t.is_any();
        let entry = FieldEntry { name: name.clone(), types: vec![t], optional };
        assert(type_models(entry.types@) =~= seq![seen]);
        table.push(entry);
        assert(field_models(table@) =~= observed(before, name@, seen, first));
    }
}

} // verus!
