//! The keys of the objects seen at one location, and which of them are
//! optional.

use crate::field_set::{is_sorted_listing, sorted_keys, texts, FieldSet};
use crate::trail_values::snapshots;
use vstd::prelude::*;

verus! {

/// Every key of every set of the list.
pub open spec fn all_keys(sets: Seq<Set<Seq<char>>>) -> Set<Seq<char>>
    decreases sets.len(),
{
    if sets.len() == 0 {
        Set::empty()
    } else {
        all_keys(sets.drop_last()).union(sets.last())
    }
}

/// The keys found optional in one pass over the list from its first set to
/// its last: at each set, the keys met so far, that set's included, which that
/// set lacks. A key that is first met in a later set is not held against the
/// earlier ones.
pub open spec fn optional_keys(sets: Seq<Set<Seq<char>>>) -> Set<Seq<char>>
    decreases sets.len(),
{
    if sets.len() == 0 {
        Set::empty()
    } else {
        optional_keys(sets.drop_last()).union(all_keys(sets).difference(sets.last()))
    }
}

/// A key is in `all_keys` exactly if some set of the list holds it.
pub proof fn lemma_all_keys_contains(sets: Seq<Set<Seq<char>>>, key: Seq<char>)
    ensures
        all_keys(sets).contains(key) <==> exists|i: int|
            0 <= i < sets.len() && (#[trigger] sets[i]).contains(key),
    decreases sets.len(),
{
    if sets.len() > 0 {
        let front = sets.drop_last();
        lemma_all_keys_contains(front, key);
        if all_keys(sets).contains(key) {
            if sets.last().contains(key) {
                assert(sets[sets.len() - 1].contains(key));
            } else {
                let i = choose|i: int| 0 <= i < front.len() && (#[trigger] front[i]).contains(key);
                assert(sets[i].contains(key));
            }
        }
        if exists|i: int| 0 <= i < sets.len() && (#[trigger] sets[i]).contains(key) {
            let i = choose|i: int| 0 <= i < sets.len() && (#[trigger] sets[i]).contains(key);
            if i < sets.len() - 1 {
                assert(front[i].contains(key));
            }
        }
    }
}

/// A key is optional exactly if some set of the list lacks it while a set
/// before it holds it.
pub proof fn lemma_optional_keys_contains(sets: Seq<Set<Seq<char>>>, key: Seq<char>)
    ensures
        optional_keys(sets).contains(key) <==> exists|i: int, j: int|
            0 <= i < j < sets.len() && (#[trigger] sets[i]).contains(key) && !(
            #[trigger] sets[j]).contains(key),
    decreases sets.len(),
{
    if sets.len() > 0 {
        let front = sets.drop_last();
        let last = sets.len() - 1;
        lemma_optional_keys_contains(front, key);
        lemma_all_keys_contains(front, key);
        if optional_keys(sets).contains(key) {
            if optional_keys(front).contains(key) {
                let (i, j) = choose|i: int, j: int|
                    0 <= i < j < front.len() && (#[trigger] front[i]).contains(key) && !(
                    #[trigger] front[j]).contains(key);
                assert(sets[i].contains(key) && !sets[j].contains(key));
            } else {
                let i = choose|i: int| 0 <= i < front.len() && (#[trigger] front[i]).contains(key);
                assert(sets[i].contains(key) && !sets[last].contains(key));
            }
        }
        if exists|i: int, j: int|
            0 <= i < j < sets.len() && (#[trigger] sets[i]).contains(key) && !(
            #[trigger] sets[j]).contains(key) {
            let (i, j) = choose|i: int, j: int|
                0 <= i < j < sets.len() && (#[trigger] sets[i]).contains(key) && !(
                #[trigger] sets[j]).contains(key);
            assert(front[i].contains(key));
            if j < last {
                assert(!front[j].contains(key));
            }
        }
    }
}

/// The keys of the objects seen at one location, in ascending order, and the
/// keys among them that are optional.
pub fn field_keys(field_sets: &Vec<FieldSet>) -> (r: (Vec<String>, FieldSet))
    ensures
        is_sorted_listing(texts(r.0@), all_keys(snapshots(field_sets@))),
        r.1@ == optional_keys(snapshots(field_sets@)),
{
    let ghost sets = snapshots(field_sets@);
    let mut all = FieldSet::new();
    let mut optional = FieldSet::new();
    let mut i: usize = 0;
    while i < field_sets.len()
        invariant
            i <= field_sets.len(),
            sets == snapshots(field_sets@),
            all@ == all_keys(sets.take(i as int)),
            optional@ == optional_keys(sets.take(i as int)),
        decreases field_sets.len() - i,
    {
        proof {
            assert(sets.take(i + 1).drop_last() =~= sets.take(i as int));
            assert(sets.take(i + 1).last() == field_sets@[i as int]@);
        }
        all.extend(&field_sets[i]);
        let missing = all.difference(&field_sets[i]);
        optional.extend(&missing);
        i += 1;
    }
    assert(sets.take(field_sets.len() as int) =~= sets);
    (sorted_keys(&all), optional)
}

} // verus!
