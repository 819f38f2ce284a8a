//! The fields of a merged record: which names it has, and which of them are
//! optional.

use vstd::prelude::*;
use crate::infer::{absorbed, absorbed_fields, merged_fields, merged_upto, type_of};
use crate::laws::definitions::lemma_any_only_for_null;
use crate::merge::{any_type, field_position, marked_absent, observed};
use crate::registry::FieldModel;
use crate::types::TypeModel;
use crate::value::{any_object, has_field, has_null_field, Tree};

verus! {

/// Whether `table` has a field called `name`.
pub open spec fn in_table(table: Seq<FieldModel>, name: Seq<char>) -> bool {
    exists|k: int| 0 <= k < table.len() && (#[trigger] table[k]).name == name
}

/// Whether `table` has an optional field called `name`.
pub open spec fn optional_of(table: Seq<FieldModel>, name: Seq<char>) -> bool {
    exists|k: int| 0 <= k < table.len() && (#[trigger] table[k]).name == name && table[k].optional
}

/// Whether no two fields of `table` have the same name.
pub open spec fn distinct_fields(table: Seq<FieldModel>) -> bool {
    forall|i: int, j: int|
        0 <= i < j < table.len() ==> (#[trigger] table[i]).name != (#[trigger] table[j]).name
}

/// Whether every sample is object-shaped.
pub open spec fn all_objects(samples: Seq<Tree>) -> bool {
    forall|i: int| 0 <= i < samples.len() ==> #[trigger] samples[i] is Object
}

/// The fields of the sample at position `i`.
pub open spec fn sample_fields(samples: Seq<Tree>, i: int) -> Seq<(Seq<char>, Tree)> {
    samples[i]->Object_0
}

/// Whether one of the first `n` samples has a field called `name`.
pub open spec fn seen_in(samples: Seq<Tree>, n: nat, name: Seq<char>) -> bool {
    exists|i: int|
        0 <= i < n && i < samples.len() && has_field(#[trigger] sample_fields(samples, i), name)
}

/// Whether `fields` goes without a field called `name`, or holds it with a
/// null value.
pub open spec fn missing_or_null(fields: Seq<(Seq<char>, Tree)>, name: Seq<char>) -> bool {
    !has_field(fields, name) || has_null_field(fields, name)
}

/// Whether in one of the first `n` samples the field called `name` is
/// missing or null.
pub open spec fn missing_or_null_in(samples: Seq<Tree>, n: nat, name: Seq<char>) -> bool {
    exists|i: int|
        0 <= i < n && i < samples.len() && missing_or_null(
            #[trigger] sample_fields(samples, i),
            name,
        )
}

/// Whether one of the first `m` of `fields` is called `name`.
spec fn named_upto(fields: Seq<(Seq<char>, Tree)>, m: nat, name: Seq<char>) -> bool {
    exists|j: int| 0 <= j < m && j < fields.len() && (#[trigger] fields[j]).0 == name
}

/// Whether one of the first `m` of `fields` is called `name` and null.
spec fn null_upto(fields: Seq<(Seq<char>, Tree)>, m: nat, name: Seq<char>) -> bool {
    exists|j: int|
        0 <= j < m && j < fields.len() && (#[trigger] fields[j]).0 == name && fields[j].1 is Null
}

pub(crate) proof fn lemma_field_position(table: Seq<FieldModel>, name: Seq<char>, i: int)
    requires
        0 <= i <= table.len(),
    ensures
        i <= field_position(table, name, i) <= table.len(),
        forall|k: int| i <= k < field_position(table, name, i) ==> table[k].name != name,
        field_position(table, name, i) < table.len() ==> table[field_position(
            table,
            name,
            i,
        )].name == name,
    decreases table.len() - i,
{
    if i < table.len() && table[i].name != name {
        lemma_field_position(table, name, i + 1);
    }
}

/// What one observation does to the names and the optional marks of a table.
proof fn lemma_observed(table: Seq<FieldModel>, name: Seq<char>, t: TypeModel, first: bool)
    ensures
        forall|x: Seq<char>|
            in_table(observed(table, name, t, first), x) <==> in_table(table, x) || x == name,
        distinct_fields(table) ==> distinct_fields(observed(table, name, t, first)),
        forall|x: Seq<char>|
            optional_of(observed(table, name, t, first), x) <==> optional_of(table, x) || (x
                == name && (t == any_type() || (!in_table(table, name) && !first))),
{
    let after = observed(table, name, t, first);
    let p = field_position(table, name, 0);
    lemma_field_position(table, name, 0);
    if p < table.len() {
        assert(in_table(table, name)) by {
            assert(table[p].name == name);
        }
        assert forall|k: int| 0 <= k < table.len() implies (#[trigger] after[k]).name
            == table[k].name by {}
        assert forall|x: Seq<char>| in_table(after, x) <==> in_table(table, x) || x == name by {
            if in_table(after, x) {
                let k = choose|k: int| 0 <= k < after.len() && (#[trigger] after[k]).name == x;
                assert(table[k].name == x);
            }
            if in_table(table, x) {
                let k = choose|k: int| 0 <= k < table.len() && (#[trigger] table[k]).name == x;
                assert(after[k].name == x);
            }
            if x == name {
                assert(after[p].name == x);
            }
        }
        if distinct_fields(table) {
            assert forall|i: int, j: int| 0 <= i < j < after.len() implies (#[trigger] after[i]).name
                != (#[trigger] after[j]).name by {
                assert(table[i].name != table[j].name);
            }
        }
        assert forall|x: Seq<char>|
            optional_of(after, x) <==> optional_of(table, x) || (x == name && (t == any_type() || (
            !in_table(table, name) && !first))) by {
            if optional_of(after, x) {
                let k = choose|k: int|
                    0 <= k < after.len() && (#[trigger] after[k]).name == x && after[k].optional;
                if k == p {
                    if table[p].optional {
                        assert(table[p].name == x);
                    }
                } else {
                    assert(table[k].name == x && table[k].optional);
                }
            }
            if optional_of(table, x) {
                let k = choose|k: int|
                    0 <= k < table.len() && (#[trigger] table[k]).name == x && table[k].optional;
                assert(after[k].name == x && after[k].optional);
            }
            if x == name && t == any_type() {
                assert(after[p].name == x && after[p].optional);
            }
        }
    } else {
        assert(!in_table(table, name));
        let last = table.len() as int;
        assert(after[last].name == name);
        assert forall|x: Seq<char>| in_table(after, x) <==> in_table(table, x) || x == name by {
            if in_table(after, x) {
                let k = choose|k: int| 0 <= k < after.len() && (#[trigger] after[k]).name == x;
                if k < last {
                    assert(table[k].name == x);
                }
            }
            if in_table(table, x) {
                let k = choose|k: int| 0 <= k < table.len() && (#[trigger] table[k]).name == x;
                assert(after[k].name == x);
            }
            if x == name {
                assert(after[last].name == x);
            }
        }
        if distinct_fields(table) {
            assert forall|i: int, j: int| 0 <= i < j < after.len() implies (#[trigger] after[i]).name
                != (#[trigger] after[j]).name by {
                if j < last {
                    assert(table[i].name != table[j].name);
                } else {
                    assert(after[i] == table[i]);
                }
            }
        }
        assert forall|x: Seq<char>|
            optional_of(after, x) <==> optional_of(table, x) || (x == name && (t == any_type() || (
            !in_table(table, name) && !first))) by {
            if optional_of(after, x) {
                let k = choose|k: int|
                    0 <= k < after.len() && (#[trigger] after[k]).name == x && after[k].optional;
                if k < last {
                    assert(table[k].name == x && table[k].optional);
                }
            }
            if optional_of(table, x) {
                let k = choose|k: int|
                    0 <= k < table.len() && (#[trigger] table[k]).name == x && table[k].optional;
                assert(after[k].name == x && after[k].optional);
            }
            if x == name && (t == any_type() || !first) {
                assert(after[last].name == x && after[last].optional);
            }
        }
    }
}

/// What looking for missing fields does to the names and the optional marks
/// of a table.
proof fn lemma_marked_absent(table: Seq<FieldModel>, fields: Seq<(Seq<char>, Tree)>)
    ensures
        forall|x: Seq<char>| in_table(marked_absent(table, fields), x) <==> in_table(table, x),
        distinct_fields(table) ==> distinct_fields(marked_absent(table, fields)),
        forall|x: Seq<char>|
            optional_of(marked_absent(table, fields), x) <==> optional_of(table, x) || (in_table(
                table,
                x,
            ) && !has_field(fields, x)),
{
    let after = marked_absent(table, fields);
    assert forall|x: Seq<char>| in_table(after, x) <==> in_table(table, x) by {
        if in_table(after, x) {
            let k = choose|k: int| 0 <= k < after.len() && (#[trigger] after[k]).name == x;
            assert(table[k].name == x);
        }
        if in_table(table, x) {
            let k = choose|k: int| 0 <= k < table.len() && (#[trigger] table[k]).name == x;
            assert(after[k].name == x);
        }
    }
    if distinct_fields(table) {
        assert forall|i: int, j: int| 0 <= i < j < after.len() implies (#[trigger] after[i]).name
            != (#[trigger] after[j]).name by {
            assert(table[i].name != table[j].name);
        }
    }
    assert forall|x: Seq<char>|
        optional_of(after, x) <==> optional_of(table, x) || (in_table(table, x) && !has_field(
            fields,
            x,
        )) by {
        if optional_of(after, x) {
            let k = choose|k: int|
                0 <= k < after.len() && (#[trigger] after[k]).name == x && after[k].optional;
            assert(table[k].name == x);
        }
        if optional_of(table, x) {
            let k = choose|k: int|
                0 <= k < table.len() && (#[trigger] table[k]).name == x && table[k].optional;
            assert(after[k].name == x && after[k].optional);
        }
        if in_table(table, x) && !has_field(fields, x) {
            let k = choose|k: int| 0 <= k < table.len() && (#[trigger] table[k]).name == x;
            assert(after[k].name == x && after[k].optional);
        }
    }
}

/// What seeing the first `m` fields of a sample does to the names and the
/// optional marks of a table.
proof fn lemma_absorbed_fields(
    table: Seq<FieldModel>,
    fields: Seq<(Seq<char>, Tree)>,
    m: nat,
    first: bool,
)
    requires
        m <= fields.len(),
    ensures
        forall|x: Seq<char>|
            in_table(absorbed_fields(table, fields, m, first), x) <==> in_table(table, x)
                || named_upto(fields, m, x),
        distinct_fields(table) ==> distinct_fields(absorbed_fields(table, fields, m, first)),
        forall|x: Seq<char>|
            optional_of(absorbed_fields(table, fields, m, first), x) <==> optional_of(table, x) || (
            in_table(absorbed_fields(table, fields, m, first), x) && !in_table(table, x) && !first)
                || null_upto(fields, m, x),
    decreases m,
{
    let after = absorbed_fields(table, fields, m, first);
    if m == 0 {
        assert forall|x: Seq<char>| !named_upto(fields, 0, x) && !null_upto(fields, 0, x) by {}
    } else {
        let before = absorbed_fields(table, fields, (m - 1) as nat, first);
        let name = fields[m - 1].0;
        let t = type_of(name, fields[m - 1].1);
        lemma_absorbed_fields(table, fields, (m - 1) as nat, first);
        lemma_observed(before, name, t, first);
        lemma_any_only_for_null(name, fields[m - 1].1);
        assert(after == observed(before, name, t, first));
        assert forall|x: Seq<char>|
            named_upto(fields, m, x) <==> named_upto(fields, (m - 1) as nat, x) || x == name by {
            if named_upto(fields, m, x) {
                let j = choose|j: int|
                    0 <= j < m && j < fields.len() && (#[trigger] fields[j]).0 == x;
                if j < m - 1 {
                    assert(named_upto(fields, (m - 1) as nat, x));
                }
            }
            if named_upto(fields, (m - 1) as nat, x) {
                let j = choose|j: int|
                    0 <= j < m - 1 && j < fields.len() && (#[trigger] fields[j]).0 == x;
                assert(0 <= j < m && fields[j].0 == x);
            }
            if x == name {
                assert(fields[m - 1].0 == x);
            }
        }
        assert forall|x: Seq<char>|
            null_upto(fields, m, x) <==> null_upto(fields, (m - 1) as nat, x) || (x == name && t
                == any_type()) by {
            if null_upto(fields, m, x) {
                let j = choose|j: int|
                    0 <= j < m && j < fields.len() && (#[trigger] fields[j]).0 == x
                        && fields[j].1 is Null;
                if j < m - 1 {
                    assert(null_upto(fields, (m - 1) as nat, x));
                }
            }
            if null_upto(fields, (m - 1) as nat, x) {
                let j = choose|j: int|
                    0 <= j < m - 1 && j < fields.len() && (#[trigger] fields[j]).0 == x
                        && fields[j].1 is Null;
                assert(0 <= j < m && fields[j].0 == x && fields[j].1 is Null);
            }
            if x == name && t == any_type() {
                assert(fields[m - 1].0 == x && fields[m - 1].1 is Null);
            }
        }
        assert forall|x: Seq<char>|
            in_table(after, x) <==> in_table(table, x) || named_upto(fields, m, x) by {}
        assert forall|x: Seq<char>|
            optional_of(after, x) <==> optional_of(table, x) || (in_table(after, x) && !in_table(
                table,
                x,
            ) && !first) || null_upto(fields, m, x) by {
            assert(in_table(before, x) <==> in_table(table, x) || named_upto(
                fields,
                (m - 1) as nat,
                x,
            ));
            assert(in_table(before, name) <==> in_table(table, name) || named_upto(
                fields,
                (m - 1) as nat,
                name,
            ));
        }
    }
}

/// Seeing all fields of a sample: the names seen are the names of the
/// sample, the nulls seen are its null fields.
proof fn lemma_upto_all(fields: Seq<(Seq<char>, Tree)>, name: Seq<char>)
    ensures
        named_upto(fields, fields.len(), name) <==> has_field(fields, name),
        null_upto(fields, fields.len(), name) <==> has_null_field(fields, name),
{
    if named_upto(fields, fields.len(), name) {
        let j = choose|j: int|
            0 <= j < fields.len() && j < fields.len() && (#[trigger] fields[j]).0 == name;
        assert(fields[j].0 == name);
    }
    if has_field(fields, name) {
        let j = choose|j: int| 0 <= j < fields.len() && (#[trigger] fields[j]).0 == name;
        assert(0 <= j < fields.len() && fields[j].0 == name);
    }
    if null_upto(fields, fields.len(), name) {
        let j = choose|j: int|
            0 <= j < fields.len() && j < fields.len() && (#[trigger] fields[j]).0 == name
                && fields[j].1 is Null;
        assert(fields[j].0 == name && fields[j].1 is Null);
    }
    if has_null_field(fields, name) {
        let j = choose|j: int|
            0 <= j < fields.len() && (#[trigger] fields[j]).0 == name && fields[j].1 is Null;
        assert(0 <= j < fields.len() && fields[j].0 == name && fields[j].1 is Null);
    }
}

/// The table merged from the first `n` samples: its names are distinct and
/// are the names seen in those samples, and a field is marked optional
/// exactly where it is missing or null in one of them.
pub(crate) proof fn lemma_merged_upto(samples: Seq<Tree>, n: nat)
    requires
        all_objects(samples),
        n <= samples.len(),
    ensures
        distinct_fields(merged_upto(samples, n)),
        forall|x: Seq<char>| in_table(merged_upto(samples, n), x) <==> seen_in(samples, n, x),
        forall|x: Seq<char>|
            optional_of(merged_upto(samples, n), x) <==> in_table(merged_upto(samples, n), x)
                && missing_or_null_in(samples, n, x),
    decreases n,
{
    let table = merged_upto(samples, n);
    if n == 0 {
        assert forall|x: Seq<char>| !seen_in(samples, 0, x) && !in_table(table, x) && !optional_of(
            table,
            x,
        ) by {}
    } else {
        let before = merged_upto(samples, (n - 1) as nat);
        let fields = sample_fields(samples, n - 1);
        let first = !any_object(samples, (n - 1) as nat);
        let marked = marked_absent(before, fields);
        assert(samples[n - 1] is Object);
        assert(table == absorbed(before, fields, first));
        assert(first <==> n == 1) by {
            if n > 1 {
                assert(samples[0] is Object);
                assert(any_object(samples, (n - 1) as nat));
            }
        }
        lemma_merged_upto(samples, (n - 1) as nat);
        lemma_marked_absent(before, fields);
        lemma_absorbed_fields(marked, fields, fields.len(), first);
        assert forall|x: Seq<char>|
            seen_in(samples, n, x) <==> seen_in(samples, (n - 1) as nat, x) || has_field(
                fields,
                x,
            ) by {
            if seen_in(samples, n, x) {
                let i = choose|i: int|
                    0 <= i < n && i < samples.len() && has_field(
                        #[trigger] sample_fields(samples, i),
                        x,
                    );
                if i < n - 1 {
                    assert(seen_in(samples, (n - 1) as nat, x));
                }
            }
            if seen_in(samples, (n - 1) as nat, x) {
                let i = choose|i: int|
                    0 <= i < n - 1 && i < samples.len() && has_field(
                        #[trigger] sample_fields(samples, i),
                        x,
                    );
                assert(0 <= i < n && has_field(sample_fields(samples, i), x));
            }
            if has_field(fields, x) {
                assert(has_field(sample_fields(samples, n - 1), x));
            }
        }
        assert forall|x: Seq<char>|
            missing_or_null_in(samples, n, x) <==> missing_or_null_in(samples, (n - 1) as nat, x)
                || missing_or_null(fields, x) by {
            if missing_or_null_in(samples, n, x) {
                let i = choose|i: int|
                    0 <= i < n && i < samples.len() && missing_or_null(
                        #[trigger] sample_fields(samples, i),
                        x,
                    );
                if i < n - 1 {
                    assert(missing_or_null_in(samples, (n - 1) as nat, x));
                }
            }
            if missing_or_null_in(samples, (n - 1) as nat, x) {
                let i = choose|i: int|
                    0 <= i < n - 1 && i < samples.len() && missing_or_null(
                        #[trigger] sample_fields(samples, i),
                        x,
                    );
                assert(0 <= i < n && missing_or_null(sample_fields(samples, i), x));
            }
            if missing_or_null(fields, x) {
                assert(missing_or_null(sample_fields(samples, n - 1), x));
            }
        }
        assert forall|x: Seq<char>| in_table(table, x) <==> seen_in(samples, n, x) by {
            lemma_upto_all(fields, x);
        }
        assert forall|x: Seq<char>|
            optional_of(table, x) <==> in_table(table, x) && missing_or_null_in(
                samples,
                n,
                x,
            ) by {
            lemma_upto_all(fields, x);
            assert(optional_of(table, x) <==> optional_of(marked, x) || (in_table(table, x)
                && !in_table(marked, x) && !first) || null_upto(fields, fields.len(), x));
            assert(optional_of(marked, x) <==> optional_of(before, x) || (in_table(before, x)
                && !has_field(fields, x)));
            assert(in_table(marked, x) <==> in_table(before, x));
            assert(optional_of(before, x) <==> in_table(before, x) && missing_or_null_in(
                samples,
                (n - 1) as nat,
                x,
            ));
            assert(in_table(before, x) <==> seen_in(samples, (n - 1) as nat, x));
            assert(in_table(table, x) <==> seen_in(samples, n, x));
            assert(missing_or_null_in(samples, n, x) <==> missing_or_null_in(
                samples,
                (n - 1) as nat,
                x,
            ) || missing_or_null(fields, x));
            assert(seen_in(samples, n, x) <==> seen_in(samples, (n - 1) as nat, x) || has_field(
                fields,
                x,
            ));
            if !in_table(before, x) && n > 1 {
                // a name that is new here is missing from the first sample
                assert(!seen_in(samples, (n - 1) as nat, x));
                assert(!has_field(sample_fields(samples, 0), x));
                assert(missing_or_null(sample_fields(samples, 0), x));
                assert(missing_or_null_in(samples, (n - 1) as nat, x));
            }
            if !in_table(before, x) && n == 1 {
                assert(!missing_or_null_in(samples, 0, x));
            }
            if has_null_field(fields, x) {
                let j = choose|j: int|
                    0 <= j < fields.len() && (#[trigger] fields[j]).0 == x && fields[j].1 is Null;
                assert(has_field(fields, x));
            }
        }
    }
}

/// A field of the merged record is optional exactly where some sample goes
/// without it or holds it with a null value.
pub proof fn lemma_optional_iff_missing_or_null(samples: Seq<Tree>, k: int)
    requires
        all_objects(samples),
        0 <= k < merged_fields(samples).len(),
    ensures
        merged_fields(samples)[k].optional <==> missing_or_null_in(
            samples,
            samples.len(),
            merged_fields(samples)[k].name,
        ),
{
    let table = merged_fields(samples);
    let x = table[k].name;
    lemma_merged_upto(samples, samples.len());
    assert(in_table(table, x));
    if table[k].optional {
        assert(optional_of(table, x));
    }
    if optional_of(table, x) {
        let k2 = choose|k2: int|
            0 <= k2 < table.len() && (#[trigger] table[k2]).name == x && table[k2].optional;
        if k2 < k {
            assert(table[k2].name != table[k].name);
        } else if k < k2 {
            assert(table[k].name != table[k2].name);
        }
    }
}

/// The merged record has exactly one field for each field name that occurs
/// in the samples.
pub proof fn lemma_merged_names(samples: Seq<Tree>)
    requires
        all_objects(samples),
    ensures
        distinct_fields(merged_fields(samples)),
        forall|x: Seq<char>|
            in_table(merged_fields(samples), x) <==> seen_in(samples, samples.len(), x),
{
    lemma_merged_upto(samples, samples.len());
}

/// A field that one sample has and another lacks is optional in the merged
/// record, whichever of the two samples comes first.
pub proof fn lemma_absent_field_is_optional(samples: Seq<Tree>, i: int, j: int, name: Seq<char>)
    requires
        all_objects(samples),
        0 <= i < samples.len(),
        0 <= j < samples.len(),
        has_field(sample_fields(samples, i), name),
        !has_field(sample_fields(samples, j), name),
    ensures
        exists|k: int|
            0 <= k < merged_fields(samples).len() && (#[trigger] merged_fields(samples)[k]).name
                == name && merged_fields(samples)[k].optional,
{
    lemma_merged_upto(samples, samples.len());
    assert(seen_in(samples, samples.len(), name));
    assert(missing_or_null(sample_fields(samples, j), name));
    assert(missing_or_null_in(samples, samples.len(), name));
    assert(optional_of(merged_fields(samples), name));
}

/// A field that is null in some sample is optional in the merged record.
pub proof fn lemma_null_field_is_optional(samples: Seq<Tree>, i: int, name: Seq<char>)
    requires
        all_objects(samples),
        0 <= i < samples.len(),
        has_null_field(sample_fields(samples, i), name),
    ensures
        exists|k: int|
            0 <= k < merged_fields(samples).len() && (#[trigger] merged_fields(samples)[k]).name
                == name && merged_fields(samples)[k].optional,
{
    lemma_merged_upto(samples, samples.len());
    let fields = sample_fields(samples, i);
    let j = choose|j: int|
        0 <= j < fields.len() && (#[trigger] fields[j]).0 == name && fields[j].1 is Null;
    assert(has_field(fields, name));
    assert(seen_in(samples, samples.len(), name));
    assert(missing_or_null(sample_fields(samples, i), name));
    assert(missing_or_null_in(samples, samples.len(), name));
    assert(optional_of(merged_fields(samples), name));
}

} // verus!
