//! The order of the fields of a merged record.

use vstd::prelude::*;
use crate::infer::{absorbed_fields, lemma_merged_single, merged_fields, merged_upto, type_of};
use crate::laws::definitions::lemma_any_only_for_null;
use crate::laws::fields::{
    all_objects, in_table, lemma_field_position, lemma_merged_upto, seen_in,
};
use crate::merge::{field_position, marked_absent, observed};
use crate::registry::FieldModel;
use crate::types::TypeModel;
use crate::value::{any_object, Tree};

verus! {

/// Whether no two of `fields` have the same name.
pub open spec fn distinct_keys(fields: Seq<(Seq<char>, Tree)>) -> bool {
    forall|i: int, j: int|
        0 <= i < j < fields.len() ==> (#[trigger] fields[i]).0 != (#[trigger] fields[j]).0
}

/// The entry that a single object gives for its field at position `k`: the
/// type of the value as the only alternative, optional where the value is
/// null.
pub open spec fn single_entry(fields: Seq<(Seq<char>, Tree)>, k: int) -> FieldModel {
    FieldModel {
        name: fields[k].0,
        types: seq![type_of(fields[k].0, fields[k].1)],
        optional: fields[k].1 is Null,
    }
}

proof fn lemma_single_object_upto(fields: Seq<(Seq<char>, Tree)>, m: nat)
    requires
        distinct_keys(fields),
        m <= fields.len(),
    ensures
        absorbed_fields(Seq::empty(), fields, m, true) == Seq::new(
            m,
            |k: int| single_entry(fields, k),
        ),
    decreases m,
{
    let table = absorbed_fields(Seq::<FieldModel>::empty(), fields, m, true);
    if m == 0 {
        assert(table =~= Seq::new(m, |k: int| single_entry(fields, k)));
    } else {
        let before = absorbed_fields(Seq::<FieldModel>::empty(), fields, (m - 1) as nat, true);
        let name = fields[m - 1].0;
        let t = type_of(name, fields[m - 1].1);
        lemma_single_object_upto(fields, (m - 1) as nat);
        lemma_any_only_for_null(name, fields[m - 1].1);
        lemma_field_position(before, name, 0);
        let p = field_position(before, name, 0);
        if p < before.len() {
            assert(before[p].name == fields[p].0);
            assert(fields[p].0 != fields[m - 1].0);
        }
        assert(table == observed(before, name, t, true));
        assert(table =~= Seq::new(m, |k: int| single_entry(fields, k)));
    }
}

/// The record of a single object whose field names are distinct has one
/// entry for each field, in the order of the fields: the type of the value
/// as its only alternative, optional exactly where the value is null.
pub proof fn lemma_single_object_record(tree: Tree)
    requires
        tree is Object,
        distinct_keys(tree->Object_0),
    ensures
        merged_fields(seq![tree]) == Seq::new(
            tree->Object_0.len(),
            |k: int| single_entry(tree->Object_0, k),
        ),
{
    let fields = tree->Object_0;
    lemma_merged_single(tree);
    assert(marked_absent(Seq::<FieldModel>::empty(), fields) =~= Seq::<FieldModel>::empty());
    lemma_single_object_upto(fields, fields.len());
}

proof fn lemma_observed_appends(table: Seq<FieldModel>, name: Seq<char>, t: TypeModel, first: bool)
    ensures
        observed(table, name, t, first).len() >= table.len(),
        forall|k: int|
            0 <= k < table.len() ==> (#[trigger] observed(table, name, t, first)[k]).name
                == table[k].name,
{
    lemma_field_position(table, name, 0);
}

proof fn lemma_absorbed_fields_appends(
    table: Seq<FieldModel>,
    fields: Seq<(Seq<char>, Tree)>,
    m: nat,
    first: bool,
)
    requires
        m <= fields.len(),
    ensures
        absorbed_fields(table, fields, m, first).len() >= table.len(),
        forall|k: int|
            0 <= k < table.len() ==> (#[trigger] absorbed_fields(table, fields, m, first)[k]).name
                == table[k].name,
    decreases m,
{
    if m > 0 {
        let before = absorbed_fields(table, fields, (m - 1) as nat, first);
        lemma_absorbed_fields_appends(table, fields, (m - 1) as nat, first);
        lemma_observed_appends(
            before,
            fields[m - 1].0,
            type_of(fields[m - 1].0, fields[m - 1].1),
            first,
        );
        let after = absorbed_fields(table, fields, m, first);
        assert forall|k: int| 0 <= k < table.len() implies (#[trigger] after[k]).name
            == table[k].name by {
            assert(after[k].name == before[k].name);
            assert(before[k].name == table[k].name);
        }
    }
}

/// The fields merged from the first `n` samples keep their places when the
/// other samples are merged in: new fields go to the end.
pub proof fn lemma_merged_fields_keep_places(samples: Seq<Tree>, n: nat, upto: nat)
    requires
        n <= upto <= samples.len(),
    ensures
        merged_upto(samples, upto).len() >= merged_upto(samples, n).len(),
        forall|k: int|
            0 <= k < merged_upto(samples, n).len() ==> (#[trigger] merged_upto(
                samples,
                upto,
            )[k]).name == merged_upto(samples, n)[k].name,
    decreases upto - n,
{
    if n < upto {
        lemma_merged_fields_keep_places(samples, n, (upto - 1) as nat);
        let before = merged_upto(samples, (upto - 1) as nat);
        let after = merged_upto(samples, upto);
        match samples[upto - 1] {
            Tree::Object(fields) => {
                let marked = marked_absent(before, fields);
                lemma_absorbed_fields_appends(
                    marked,
                    fields,
                    fields.len(),
                    !any_object(samples, (upto - 1) as nat),
                );
                assert forall|k: int| 0 <= k < before.len() implies (#[trigger] after[k]).name
                    == before[k].name by {
                    assert(after[k].name == marked[k].name);
                }
            },
            _ => {},
        }
        assert forall|k: int| 0 <= k < merged_upto(samples, n).len() implies (#[trigger] after[k]).name
            == merged_upto(samples, n)[k].name by {
            assert(after[k].name == before[k].name);
            assert(before[k].name == merged_upto(samples, n)[k].name);
        }
    }
}

/// The fields of the merged record stand in the order in which they were
/// first seen: a field that one of the first `n` samples has comes before
/// every field that none of them has.
pub proof fn lemma_first_seen_order(samples: Seq<Tree>, n: nat, kx: int, ky: int)
    requires
        all_objects(samples),
        n <= samples.len(),
        0 <= kx < merged_fields(samples).len(),
        0 <= ky < merged_fields(samples).len(),
        seen_in(samples, n, merged_fields(samples)[kx].name),
        !seen_in(samples, n, merged_fields(samples)[ky].name),
    ensures
        kx < ky,
{
    let table = merged_fields(samples);
    let early = merged_upto(samples, n);
    let x = table[kx].name;
    let y = table[ky].name;
    lemma_merged_upto(samples, n);
    lemma_merged_upto(samples, samples.len());
    lemma_merged_fields_keep_places(samples, n, samples.len());
    assert(in_table(early, x));
    let k = choose|k: int| 0 <= k < early.len() && (#[trigger] early[k]).name == x;
    assert(table[k].name == x);
    if k < kx {
        assert(table[k].name != table[kx].name);
    } else if kx < k {
        assert(table[kx].name != table[k].name);
    }
    if ky < early.len() {
        assert(table[ky].name == early[ky].name);
        assert(in_table(early, y));
    }
}

} // verus!
