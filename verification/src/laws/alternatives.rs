//! The alternatives of the fields of a merged record.

use vstd::prelude::*;
use crate::infer::{absorbed_fields, merged_fields, merged_upto, type_of};
use crate::laws::definitions::lemma_any_only_for_null;
use crate::laws::fields::{
    all_objects, lemma_field_position, lemma_merged_upto, sample_fields,
};
use crate::merge::{any_type, field_position, marked_absent, merged_types, observed};
use crate::registry::FieldModel;
use crate::types::{
    lemma_with_type_grows, lemma_with_type_sorted, rendered, sorted_types, TypeModel,
};
use crate::value::{any_object, Tree};

verus! {

/// Whether `types` can stand as the alternatives of a field: there is one
/// at least, they are in strictly ascending alphabetical order, and `any` is
/// among them only where it is the only one.
pub open spec fn clean_alternatives(types: Seq<TypeModel>) -> bool {
    &&& types.len() >= 1
    &&& sorted_types(types)
    &&& types.len() >= 2 ==> forall|m: int| 0 <= m < types.len() ==> types[m] != any_type()
}

/// Seeing one more value keeps the alternatives of a field clean, and a
/// null value changes nothing.
pub proof fn lemma_merged_types_clean(types: Seq<TypeModel>, t: TypeModel)
    requires
        clean_alternatives(types),
    ensures
        clean_alternatives(merged_types(types, t)),
        t == any_type() ==> merged_types(types, t) == types,
{
    let after = merged_types(types, t);
    if t == any_type() {
    } else if types.len() == 1 && types[0] == any_type() {
        assert(after.len() == 1);
    } else {
        lemma_with_type_sorted(types, t);
        lemma_with_type_grows(types, t);
        assert forall|m: int| 0 <= m < after.len() implies after[m] != any_type() by {
            if after[m] != t {
                assert(types.contains(after[m]));
                let m0 = choose|m0: int| 0 <= m0 < types.len() && types[m0] == after[m];
                assert(types[m0] != any_type());
            }
        }
    }
}

/// Seeing one more value loses no alternative of a field but a lone `any`,
/// and adds at most one.
pub proof fn lemma_merged_types_grow(types: Seq<TypeModel>, t: TypeModel)
    ensures
        forall|m: int|
            0 <= m < types.len() && types[m] != any_type() ==> merged_types(types, t).contains(
                #[trigger] types[m],
            ),
        merged_types(types, t).len() <= types.len() + 1,
{
    if t != any_type() && !(types.len() == 1 && types[0] == any_type()) {
        lemma_with_type_grows(types, t);
    } else if t == any_type() {
        assert forall|m: int| 0 <= m < types.len() implies merged_types(types, t).contains(
            #[trigger] types[m],
        ) by {}
    }
}

/// Whether the alternatives of every field of `table` are clean.
pub open spec fn clean_table(table: Seq<FieldModel>) -> bool {
    forall|k: int| 0 <= k < table.len() ==> clean_alternatives((#[trigger] table[k]).types)
}

proof fn lemma_observed_clean(table: Seq<FieldModel>, name: Seq<char>, t: TypeModel, first: bool)
    requires
        clean_table(table),
    ensures
        clean_table(observed(table, name, t, first)),
{
    let after = observed(table, name, t, first);
    let p = field_position(table, name, 0);
    lemma_field_position(table, name, 0);
    assert forall|k: int| 0 <= k < after.len() implies clean_alternatives(
        (#[trigger] after[k]).types,
    ) by {
        if p < table.len() {
            assert(clean_alternatives(table[k].types));
            if k == p {
                lemma_merged_types_clean(table[p].types, t);
            }
        } else if k < table.len() {
            assert(clean_alternatives(table[k].types));
        } else {
            assert(after[k].types =~= seq![t]);
        }
    }
}

pub(crate) proof fn lemma_absorbed_fields_clean(
    table: Seq<FieldModel>,
    fields: Seq<(Seq<char>, Tree)>,
    m: nat,
    first: bool,
)
    requires
        clean_table(table),
        m <= fields.len(),
    ensures
        clean_table(absorbed_fields(table, fields, m, first)),
    decreases m,
{
    if m > 0 {
        lemma_absorbed_fields_clean(table, fields, (m - 1) as nat, first);
        lemma_observed_clean(
            absorbed_fields(table, fields, (m - 1) as nat, first),
            fields[m - 1].0,
            type_of(fields[m - 1].0, fields[m - 1].1),
            first,
        );
    }
}

pub(crate) proof fn lemma_merged_upto_clean(samples: Seq<Tree>, n: nat)
    requires
        n <= samples.len(),
    ensures
        clean_table(merged_upto(samples, n)),
    decreases n,
{
    if n > 0 {
        lemma_merged_upto_clean(samples, (n - 1) as nat);
        let before = merged_upto(samples, (n - 1) as nat);
        match samples[n - 1] {
            Tree::Object(fields) => {
                let marked = marked_absent(before, fields);
                assert forall|k: int| 0 <= k < marked.len() implies clean_alternatives(
                    (#[trigger] marked[k]).types,
                ) by {
                    assert(clean_alternatives(before[k].types));
                }
                lemma_absorbed_fields_clean(
                    marked,
                    fields,
                    fields.len(),
                    !any_object(samples, (n - 1) as nat),
                );
            },
            _ => {},
        }
    }
}

/// Every field of a merged record has at least one alternative; its
/// alternatives are in strictly ascending alphabetical order, so that none
/// occurs twice; and `any` is among them only where the field was never seen
/// with a value other than null, as the only one.
pub proof fn lemma_merged_alternatives_clean(samples: Seq<Tree>, k: int)
    requires
        0 <= k < merged_fields(samples).len(),
    ensures
        clean_alternatives(merged_fields(samples)[k].types),
{
    lemma_merged_upto_clean(samples, samples.len());
}

/// Whether one of `types`, other than `any`, is written as `text`.
pub open spec fn has_text(types: Seq<TypeModel>, text: Seq<char>) -> bool {
    exists|m: int|
        0 <= m < types.len() && #[trigger] types[m] != any_type() && rendered(types[m]) == text
}

/// Whether `fields` holds a field called `name` whose value is not null and
/// has a type written as `text`.
pub open spec fn has_field_of_type(
    fields: Seq<(Seq<char>, Tree)>,
    name: Seq<char>,
    text: Seq<char>,
) -> bool {
    exists|j: int|
        0 <= j < fields.len() && (#[trigger] fields[j]).0 == name && !(fields[j].1 is Null)
            && rendered(type_of(name, fields[j].1)) == text
}

/// Whether in one of the first `n` samples the field called `name` has a
/// value that is not null and has a type written as `text`.
pub open spec fn seen_with_type(samples: Seq<Tree>, n: nat, name: Seq<char>, text: Seq<char>) -> bool {
    exists|i: int|
        0 <= i < n && i < samples.len() && has_field_of_type(
            #[trigger] sample_fields(samples, i),
            name,
            text,
        )
}

/// Whether `table` has a field called `name` with an alternative, other
/// than `any`, that is written as `text`.
spec fn text_in_table(table: Seq<FieldModel>, name: Seq<char>, text: Seq<char>) -> bool {
    exists|k: int|
        0 <= k < table.len() && (#[trigger] table[k]).name == name && has_text(
            table[k].types,
            text,
        )
}

/// Whether one of the first `m` of `fields` is called `name`, is not null
/// and has a type written as `text`.
spec fn typed_upto(fields: Seq<(Seq<char>, Tree)>, m: nat, name: Seq<char>, text: Seq<char>) -> bool {
    exists|j: int|
        0 <= j < m && j < fields.len() && (#[trigger] fields[j]).0 == name && !(fields[j].1
            is Null) && rendered(type_of(name, fields[j].1)) == text
}

/// The texts among the alternatives of a field after one more value was
/// seen: those that were there, and that of the new type unless it is `any`.
pub proof fn lemma_merged_types_texts(types: Seq<TypeModel>, t: TypeModel, text: Seq<char>)
    requires
        clean_alternatives(types),
    ensures
        has_text(merged_types(types, t), text) <==> has_text(types, text) || (t != any_type()
            && rendered(t) == text),
{
    let after = merged_types(types, t);
    if t == any_type() {
    } else if types.len() == 1 && types[0] == any_type() {
        assert(after.len() == 1 && after[0] == t);
        if has_text(after, text) {
            let m = choose|m: int|
                0 <= m < after.len() && #[trigger] after[m] != any_type() && rendered(after[m])
                    == text;
            assert(after[m] == t);
        }
        if rendered(t) == text {
            assert(after[0] != any_type() && rendered(after[0]) == text);
        }
        if has_text(types, text) {
            let m = choose|m: int|
                0 <= m < types.len() && #[trigger] types[m] != any_type() && rendered(types[m])
                    == text;
            assert(types[m] == any_type());
        }
    } else {
        lemma_with_type_grows(types, t);
        assert forall|m: int| 0 <= m < types.len() implies #[trigger] types[m] != any_type() by {}
        if has_text(after, text) {
            let m = choose|m: int|
                0 <= m < after.len() && #[trigger] after[m] != any_type() && rendered(after[m])
                    == text;
            if after[m] != t {
                assert(types.contains(after[m]));
                let m0 = choose|m0: int| 0 <= m0 < types.len() && types[m0] == after[m];
                assert(types[m0] != any_type() && rendered(types[m0]) == text);
            }
        }
        if has_text(types, text) {
            let m = choose|m: int|
                0 <= m < types.len() && #[trigger] types[m] != any_type() && rendered(types[m])
                    == text;
            assert(after.contains(types[m]));
            let m1 = choose|m1: int| 0 <= m1 < after.len() && after[m1] == types[m];
            assert(after[m1] != any_type() && rendered(after[m1]) == text);
        }
        if rendered(t) == text {
            let m = choose|m: int|
                0 <= m < after.len() && rendered(#[trigger] after[m]) == rendered(t);
            if after[m] != t {
                assert(types.contains(after[m]));
                let m0 = choose|m0: int| 0 <= m0 < types.len() && types[m0] == after[m];
                assert(types[m0] != any_type());
            }
            assert(after[m] != any_type() && rendered(after[m]) == text);
        }
    }
}

proof fn lemma_observed_texts(
    table: Seq<FieldModel>,
    name: Seq<char>,
    t: TypeModel,
    first: bool,
    x: Seq<char>,
    text: Seq<char>,
)
    requires
        clean_table(table),
    ensures
        text_in_table(observed(table, name, t, first), x, text) <==> text_in_table(table, x, text)
            || (x == name && t != any_type() && rendered(t) == text),
{
    let after = observed(table, name, t, first);
    let p = field_position(table, name, 0);
    lemma_field_position(table, name, 0);
    if p < table.len() {
        assert(clean_alternatives(table[p].types));
        lemma_merged_types_texts(table[p].types, t, text);
        if text_in_table(after, x, text) {
            let k = choose|k: int|
                0 <= k < after.len() && (#[trigger] after[k]).name == x && has_text(
                    after[k].types,
                    text,
                );
            if k == p {
                if has_text(table[p].types, text) {
                    assert(table[p].name == x);
                }
            } else {
                assert(table[k].name == x && has_text(table[k].types, text));
            }
        }
        if text_in_table(table, x, text) {
            let k = choose|k: int|
                0 <= k < table.len() && (#[trigger] table[k]).name == x && has_text(
                    table[k].types,
                    text,
                );
            assert(after[k].name == x && has_text(after[k].types, text));
        }
        if x == name && t != any_type() && rendered(t) == text {
            assert(after[p].name == x && has_text(after[p].types, text));
        }
    } else {
        let last = table.len() as int;
        assert(after[last].types =~= seq![t]);
        if text_in_table(after, x, text) {
            let k = choose|k: int|
                0 <= k < after.len() && (#[trigger] after[k]).name == x && has_text(
                    after[k].types,
                    text,
                );
            if k < last {
                assert(table[k].name == x && has_text(table[k].types, text));
            } else {
                let m = choose|m: int|
                    0 <= m < after[k].types.len() && #[trigger] after[k].types[m] != any_type()
                        && rendered(after[k].types[m]) == text;
                assert(after[k].types[m] == t);
            }
        }
        if text_in_table(table, x, text) {
            let k = choose|k: int|
                0 <= k < table.len() && (#[trigger] table[k]).name == x && has_text(
                    table[k].types,
                    text,
                );
            assert(after[k].name == x && has_text(after[k].types, text));
        }
        if x == name && t != any_type() && rendered(t) == text {
            assert(after[last].types[0] != any_type() && rendered(after[last].types[0]) == text);
            assert(has_text(after[last].types, text));
            assert(after[last].name == x);
        }
    }
}

proof fn lemma_absorbed_fields_texts(
    table: Seq<FieldModel>,
    fields: Seq<(Seq<char>, Tree)>,
    m: nat,
    first: bool,
    x: Seq<char>,
    text: Seq<char>,
)
    requires
        clean_table(table),
        m <= fields.len(),
    ensures
        text_in_table(absorbed_fields(table, fields, m, first), x, text) <==> text_in_table(
            table,
            x,
            text,
        ) || typed_upto(fields, m, x, text),
    decreases m,
{
    if m == 0 {
        assert(!typed_upto(fields, 0, x, text));
    } else {
        let before = absorbed_fields(table, fields, (m - 1) as nat, first);
        let name = fields[m - 1].0;
        let t = type_of(name, fields[m - 1].1);
        lemma_absorbed_fields_texts(table, fields, (m - 1) as nat, first, x, text);
        lemma_absorbed_fields_clean(table, fields, (m - 1) as nat, first);
        lemma_observed_texts(before, name, t, first, x, text);
        lemma_any_only_for_null(name, fields[m - 1].1);
        if typed_upto(fields, m, x, text) {
            let j = choose|j: int|
                0 <= j < m && j < fields.len() && (#[trigger] fields[j]).0 == x && !(fields[j].1
                    is Null) && rendered(type_of(x, fields[j].1)) == text;
            if j < m - 1 {
                assert(typed_upto(fields, (m - 1) as nat, x, text));
            }
        }
        if typed_upto(fields, (m - 1) as nat, x, text) {
            let j = choose|j: int|
                0 <= j < m - 1 && j < fields.len() && (#[trigger] fields[j]).0 == x && !(
                fields[j].1 is Null) && rendered(type_of(x, fields[j].1)) == text;
            assert(0 <= j < m && fields[j].0 == x);
            assert(typed_upto(fields, m, x, text));
        }
        if x == name && t != any_type() && rendered(t) == text {
            assert(fields[m - 1].0 == x && !(fields[m - 1].1 is Null));
            assert(typed_upto(fields, m, x, text));
        }
    }
}

proof fn lemma_merged_upto_texts(samples: Seq<Tree>, n: nat, x: Seq<char>, text: Seq<char>)
    requires
        all_objects(samples),
        n <= samples.len(),
    ensures
        text_in_table(merged_upto(samples, n), x, text) <==> seen_with_type(samples, n, x, text),
    decreases n,
{
    let table = merged_upto(samples, n);
    if n == 0 {
        assert(!seen_with_type(samples, 0, x, text));
        assert(!text_in_table(table, x, text));
    } else {
        let before = merged_upto(samples, (n - 1) as nat);
        let fields = sample_fields(samples, n - 1);
        let first = !any_object(samples, (n - 1) as nat);
        let marked = marked_absent(before, fields);
        assert(samples[n - 1] is Object);
        assert(table == absorbed_fields(marked, fields, fields.len(), first));
        lemma_merged_upto_texts(samples, (n - 1) as nat, x, text);
        lemma_merged_upto_clean(samples, (n - 1) as nat);
        assert forall|k: int| 0 <= k < marked.len() implies clean_alternatives(
            (#[trigger] marked[k]).types,
        ) by {
            assert(clean_alternatives(before[k].types));
        }
        lemma_absorbed_fields_texts(marked, fields, fields.len(), first, x, text);
        assert(text_in_table(marked, x, text) <==> text_in_table(before, x, text)) by {
            if text_in_table(marked, x, text) {
                let k = choose|k: int|
                    0 <= k < marked.len() && (#[trigger] marked[k]).name == x && has_text(
                        marked[k].types,
                        text,
                    );
                assert(before[k].name == x && has_text(before[k].types, text));
            }
            if text_in_table(before, x, text) {
                let k = choose|k: int|
                    0 <= k < before.len() && (#[trigger] before[k]).name == x && has_text(
                        before[k].types,
                        text,
                    );
                assert(marked[k].name == x && has_text(marked[k].types, text));
            }
        }
        assert(typed_upto(fields, fields.len(), x, text) <==> has_field_of_type(fields, x, text))
            by {
            if typed_upto(fields, fields.len(), x, text) {
                let j = choose|j: int|
                    0 <= j < fields.len() && j < fields.len() && (#[trigger] fields[j]).0 == x
                        && !(fields[j].1 is Null) && rendered(type_of(x, fields[j].1)) == text;
                assert(fields[j].0 == x);
            }
            if has_field_of_type(fields, x, text) {
                let j = choose|j: int|
                    0 <= j < fields.len() && (#[trigger] fields[j]).0 == x && !(fields[j].1
                        is Null) && rendered(type_of(x, fields[j].1)) == text;
                assert(0 <= j < fields.len() && fields[j].0 == x);
            }
        }
        if seen_with_type(samples, n, x, text) {
            let i = choose|i: int|
                0 <= i < n && i < samples.len() && has_field_of_type(
                    #[trigger] sample_fields(samples, i),
                    x,
                    text,
                );
            if i < n - 1 {
                assert(seen_with_type(samples, (n - 1) as nat, x, text));
            }
        }
        if seen_with_type(samples, (n - 1) as nat, x, text) {
            let i = choose|i: int|
                0 <= i < n - 1 && i < samples.len() && has_field_of_type(
                    #[trigger] sample_fields(samples, i),
                    x,
                    text,
                );
            assert(0 <= i < n && has_field_of_type(sample_fields(samples, i), x, text));
        }
        if has_field_of_type(fields, x, text) {
            assert(has_field_of_type(sample_fields(samples, n - 1), x, text));
        }
    }
}

/// The alternatives of a field of the merged record, other than a lone
/// `any`, are written as the types of the values, other than null, that
/// the samples hold for the field: each such text is there, and no other.
pub proof fn lemma_alternatives_are_the_types_seen(samples: Seq<Tree>, k: int, text: Seq<char>)
    requires
        all_objects(samples),
        0 <= k < merged_fields(samples).len(),
    ensures
        has_text(merged_fields(samples)[k].types, text) <==> seen_with_type(
            samples,
            samples.len(),
            merged_fields(samples)[k].name,
            text,
        ),
{
    let table = merged_fields(samples);
    let x = table[k].name;
    lemma_merged_upto(samples, samples.len());
    lemma_merged_upto_texts(samples, samples.len(), x, text);
    if has_text(table[k].types, text) {
        assert(text_in_table(table, x, text));
    }
    if text_in_table(table, x, text) {
        let k2 = choose|k2: int|
            0 <= k2 < table.len() && (#[trigger] table[k2]).name == x && has_text(
                table[k2].types,
                text,
            );
        if k2 < k {
            assert(table[k2].name != table[k].name);
        } else if k < k2 {
            assert(table[k].name != table[k2].name);
        }
    }
}

} // verus!
