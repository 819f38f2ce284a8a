//! Synthesis reads the object-shaped samples only, and classification of
//! an object or of an array of objects is synthesis under the derived name.

use vstd::prelude::*;
use crate::infer::{
    classified, fields_classified, lemma_any_object_step, merged_fields, merged_upto,
    others_classified, samples_classified, synthesized,
};
use crate::laws::fields::all_objects;
use crate::naming::derived_name;
use crate::registry::DefinitionModel;
use crate::value::{any_object, Tree};

verus! {

/// The object-shaped ones among the first `n` of `items`, in order.
pub open spec fn objects_of(items: Seq<Tree>, n: nat) -> Seq<Tree>
    decreases n,
{
    if n == 0 || n > items.len() {
        Seq::empty()
    } else if items[n - 1] is Object {
        objects_of(items, (n - 1) as nat).push(items[n - 1])
    } else {
        objects_of(items, (n - 1) as nat)
    }
}

proof fn lemma_any_object_same_prefix(a: Seq<Tree>, b: Seq<Tree>, n: nat)
    requires
        n <= a.len(),
        n <= b.len(),
        forall|i: int| 0 <= i < n ==> a[i] == b[i],
    ensures
        any_object(a, n) == any_object(b, n),
{
    if any_object(a, n) {
        let i = choose|i: int| 0 <= i < n && i < a.len() && #[trigger] a[i] is Object;
        assert(b[i] is Object);
    }
    if any_object(b, n) {
        let i = choose|i: int| 0 <= i < n && i < b.len() && #[trigger] b[i] is Object;
        assert(a[i] is Object);
    }
}

proof fn lemma_merged_upto_same_prefix(a: Seq<Tree>, b: Seq<Tree>, n: nat)
    requires
        n <= a.len(),
        n <= b.len(),
        forall|i: int| 0 <= i < n ==> a[i] == b[i],
    ensures
        merged_upto(a, n) == merged_upto(b, n),
    decreases n,
{
    if n > 0 {
        lemma_merged_upto_same_prefix(a, b, (n - 1) as nat);
        lemma_any_object_same_prefix(a, b, (n - 1) as nat);
        assert(a[n - 1] == b[n - 1]);
    }
}

proof fn lemma_samples_classified_same_prefix(
    a: Seq<Tree>,
    b: Seq<Tree>,
    n: nat,
    registry: Seq<(Seq<char>, DefinitionModel)>,
)
    requires
        n <= a.len(),
        n <= b.len(),
        forall|i: int| 0 <= i < n ==> a[i] == b[i],
    ensures
        samples_classified(a, n, registry) == samples_classified(b, n, registry),
    decreases n,
{
    if n > 0 {
        lemma_samples_classified_same_prefix(a, b, (n - 1) as nat, registry);
        assert(a[n - 1] == b[n - 1]);
    }
}

/// Merging passes over the members that are not object-shaped: the table
/// merged from `items` is the table merged from the objects among them, the
/// objects among them all take part, and the same definitions are
/// registered on the way.
pub proof fn lemma_merging_passes_over_others(
    items: Seq<Tree>,
    n: nat,
    registry: Seq<(Seq<char>, DefinitionModel)>,
)
    requires
        n <= items.len(),
    ensures
        all_objects(objects_of(items, n)),
        objects_of(items, n).len() > 0 <==> any_object(items, n),
        merged_upto(items, n) == merged_fields(objects_of(items, n)),
        samples_classified(items, n, registry) == samples_classified(
            objects_of(items, n),
            objects_of(items, n).len(),
            registry,
        ),
    decreases n,
{
    let objects = objects_of(items, n);
    if n == 0 {
        assert(!any_object(items, 0));
    } else {
        let before = objects_of(items, (n - 1) as nat);
        lemma_merging_passes_over_others(items, (n - 1) as nat, registry);
        lemma_any_object_step(items, (n - 1) as nat);
        if items[n - 1] is Object {
            let m = before.len();
            assert(objects == before.push(items[n - 1]));
            assert forall|i: int| 0 <= i < objects.len() implies #[trigger] objects[i]
                is Object by {
                if i < m {
                    assert(before[i] is Object);
                }
            }
            lemma_merged_upto_same_prefix(objects, before, m);
            lemma_samples_classified_same_prefix(objects, before, m, registry);
            lemma_any_object_same_prefix(objects, before, m);
            assert(any_object(before, m) <==> m > 0) by {
                if m > 0 {
                    assert(before[0] is Object);
                }
            }
            assert(objects[m as int] == items[n - 1]);
        }
    }
}

/// Classifying an object is synthesizing the type named after its key from
/// that object alone.
pub proof fn lemma_classified_object(
    key: Seq<char>,
    tree: Tree,
    registry: Seq<(Seq<char>, DefinitionModel)>,
)
    requires
        tree is Object,
    ensures
        classified(key, tree, registry) == synthesized(derived_name(key), seq![tree], registry),
{
    let samples = seq![tree];
    assert(samples[0] == tree);
    assert(samples_classified(samples, 0, registry) == registry);
    assert(samples_classified(samples, 1, registry) == fields_classified(
        tree->Object_0,
        tree->Object_0.len(),
        samples_classified(samples, 0, registry),
    ));
}

/// Classifying an array with object-shaped members is classifying its other
/// members and then synthesizing the type named after its key from all its
/// object-shaped members.
pub proof fn lemma_classified_array(
    key: Seq<char>,
    items: Seq<Tree>,
    registry: Seq<(Seq<char>, DefinitionModel)>,
)
    requires
        any_object(items, items.len()),
    ensures
        classified(key, Tree::Array(items), registry) == synthesized(
            derived_name(key),
            objects_of(items, items.len()),
            others_classified(key, items, items.len(), registry),
        ),
{
    let n = items.len();
    let objects = objects_of(items, n);
    let others = others_classified(key, items, n, registry);
    lemma_merging_passes_over_others(items, n, others);
    assert(objects[0] is Object);
}

} // verus!
