//! What holds of merging observations: in which order three are merged does
//! not matter, and in which order two are merged matters only for the sets of
//! keys, and there only where one side has a set that holds a set of the
//! other side without the other side having it too.

use crate::json_trail::PathStep;
use crate::observations::{keyed_by_trail, merged};
use crate::trail_values::{
    has_subset_of, insert_snapshot, is_deduplicated, merge_snapshots, TrailValuesView,
};
use vstd::prelude::*;

verus! {

/// A list that has a subset of `s` still has one after another set was
/// offered to it.
proof fn lemma_insert_keeps_subsets(
    list: Seq<Set<Seq<char>>>,
    offered: Set<Seq<char>>,
    s: Set<Seq<char>>,
)
    requires
        has_subset_of(list, s),
    ensures
        has_subset_of(insert_snapshot(list, offered), s),
{
    let i = choose|i: int| 0 <= i < list.len() && (#[trigger] list[i]).subset_of(s);
    assert(insert_snapshot(list, offered)[i].subset_of(s));
}

/// A list that has a subset of `s` still has one after more sets were offered
/// to it.
proof fn lemma_merge_keeps_subsets(
    list: Seq<Set<Seq<char>>>,
    incoming: Seq<Set<Seq<char>>>,
    s: Set<Seq<char>>,
)
    requires
        has_subset_of(list, s),
    ensures
        has_subset_of(merge_snapshots(list, incoming), s),
    decreases incoming.len(),
{
    if incoming.len() > 0 {
        lemma_merge_keeps_subsets(list, incoming.drop_last(), s);
        lemma_insert_keeps_subsets(
            merge_snapshots(list, incoming.drop_last()),
            incoming.last(),
            s,
        );
    }
}

/// After sets were offered to a list, the list has a subset of every one of
/// them.
proof fn lemma_merge_covers_incoming(
    list: Seq<Set<Seq<char>>>,
    incoming: Seq<Set<Seq<char>>>,
    i: int,
)
    requires
        0 <= i < incoming.len(),
    ensures
        has_subset_of(merge_snapshots(list, incoming), incoming[i]),
    decreases incoming.len(),
{
    let front = merge_snapshots(list, incoming.drop_last());
    if i == incoming.len() - 1 {
        if !has_subset_of(front, incoming.last()) {
            let after = front.push(incoming.last());
            assert(after[front.len() as int].subset_of(incoming[i]));
        }
    } else {
        lemma_merge_covers_incoming(list, incoming.drop_last(), i);
        assert(incoming.drop_last()[i] == incoming[i]);
        lemma_insert_keeps_subsets(front, incoming.last(), incoming[i]);
    }
}

/// Offering the sets of `z` after those of `y` is offering what `y` becomes
/// when the sets of `z` are offered to it.
pub proof fn lemma_merge_snapshots_associative(
    x: Seq<Set<Seq<char>>>,
    y: Seq<Set<Seq<char>>>,
    z: Seq<Set<Seq<char>>>,
)
    ensures
        merge_snapshots(merge_snapshots(x, y), z) == merge_snapshots(x, merge_snapshots(y, z)),
    decreases z.len(),
{
    if z.len() > 0 {
        let front = z.drop_last();
        let s = z.last();
        lemma_merge_snapshots_associative(x, y, front);
        let w = merge_snapshots(y, front);
        let left = merge_snapshots(x, w);
        if has_subset_of(w, s) {
            let i = choose|i: int| 0 <= i < w.len() && (#[trigger] w[i]).subset_of(s);
            lemma_merge_covers_incoming(x, w, i);
            let j = choose|j: int| 0 <= j < left.len() && (#[trigger] left[j]).subset_of(w[i]);
            assert(left[j].subset_of(s));
        } else {
            assert(w.push(s).drop_last() =~= w);
        }
    }
}

/// Merging observations that saw nothing changes nothing.
pub proof fn lemma_union_with_nothing(a: TrailValuesView, trail: Seq<PathStep>)
    ensures
        a.union(TrailValuesView::empty(trail)) == a,
{
}

/// The order in which three observations are merged does not matter.
pub proof fn lemma_union_associative(a: TrailValuesView, b: TrailValuesView, c: TrailValuesView)
    ensures
        a.union(b).union(c) == a.union(b.union(c)),
{
    lemma_merge_snapshots_associative(a.field_sets, b.field_sets, c.field_sets);
}

/// The two observations saw the same kinds of value.
pub open spec fn same_flags(a: TrailValuesView, b: TrailValuesView) -> bool {
    &&& a.was_string == b.was_string
    &&& a.was_number == b.was_number
    &&& a.was_boolean == b.was_boolean
    &&& a.was_null == b.was_null
    &&& a.was_array == b.was_array
    &&& a.was_object == b.was_object
    &&& a.was_empty_array == b.was_empty_array
}

/// The kinds of value seen do not depend on the order in which two
/// observations are merged.
pub proof fn lemma_union_flags_commute(a: TrailValuesView, b: TrailValuesView)
    ensures
        same_flags(a.union(b), b.union(a)),
{
}

/// Whenever a set of `list` holds a set of `other`, `other` has that set of
/// `list` too.
pub open spec fn supersets_shared(list: Seq<Set<Seq<char>>>, other: Seq<Set<Seq<char>>>) -> bool {
    forall|i: int, j: int|
        0 <= i < list.len() && 0 <= j < other.len() && (#[trigger] other[j]).subset_of(
            #[trigger] list[i],
        ) ==> other.contains(list[i])
}

/// What a list free of repetition holds after the sets of another such list
/// were offered to it: its own sets, and the offered sets of which it had no
/// subset.
pub proof fn lemma_merged_snapshots(
    list: Seq<Set<Seq<char>>>,
    incoming: Seq<Set<Seq<char>>>,
    s: Set<Seq<char>>,
)
    requires
        is_deduplicated(incoming),
    ensures
        merge_snapshots(list, incoming).contains(s) <==> list.contains(s) || (incoming.contains(s)
            && !has_subset_of(list, s)),
    decreases incoming.len(),
{
    if incoming.len() > 0 {
        let front = incoming.drop_last();
        let last = incoming.last();
        let before = merge_snapshots(list, front);
        let after = merge_snapshots(list, incoming);
        assert(is_deduplicated(front)) by {
            assert forall|i: int, j: int| 0 <= i < j < front.len() implies !(
            #[trigger] front[i]).subset_of(#[trigger] front[j]) by {
                assert(front[i] == incoming[i] && front[j] == incoming[j]);
            }
        }
        lemma_merged_snapshots(list, front, s);
        // The list has a subset of the last set exactly if it had one at the start.
        if has_subset_of(before, last) {
            let k = choose|k: int| 0 <= k < before.len() && (#[trigger] before[k]).subset_of(last);
            lemma_merged_snapshots(list, front, before[k]);
            assert(before.contains(before[k]));
            if !list.contains(before[k]) {
                let i = choose|i: int| 0 <= i < front.len() && front[i] == before[k];
                assert(incoming[i] == front[i]);
                assert(incoming[i].subset_of(incoming[incoming.len() - 1]));
                assert(false);
            }
            let i = choose|i: int| 0 <= i < list.len() && list[i] == before[k];
            assert(list[i].subset_of(last));
            assert(has_subset_of(list, last));
        }
        if has_subset_of(list, last) {
            lemma_merge_keeps_subsets(list, front, last);
        }
        if after.contains(s) {
            let k = choose|k: int| 0 <= k < after.len() && after[k] == s;
            if k < before.len() {
                assert(before[k] == s);
                assert(before.contains(s));
                if !list.contains(s) {
                    let i = choose|i: int| 0 <= i < front.len() && front[i] == s;
                    assert(incoming[i] == s);
                }
            } else {
                assert(s == last);
                assert(incoming[incoming.len() - 1] == s);
            }
        }
        if list.contains(s) {
            let k = choose|k: int| 0 <= k < before.len() && before[k] == s;
            assert(after[k] == s);
        }
        if incoming.contains(s) && !has_subset_of(list, s) {
            let i = choose|i: int| 0 <= i < incoming.len() && incoming[i] == s;
            if i < front.len() {
                assert(front[i] == s);
                assert(before.contains(s));
                let k = choose|k: int| 0 <= k < before.len() && before[k] == s;
                assert(after[k] == s);
            } else {
                assert(after[before.len() as int] == s);
            }
        }
    }
}

/// Merging two lists of sets, each free of repetition, gives the same sets in
/// either order exactly if each side has every set of the other side that
/// holds one of its own.
pub proof fn lemma_merge_snapshots_commute(a: Seq<Set<Seq<char>>>, b: Seq<Set<Seq<char>>>)
    requires
        is_deduplicated(a),
        is_deduplicated(b),
    ensures
        merge_snapshots(a, b).to_set() == merge_snapshots(b, a).to_set() <==> supersets_shared(a, b)
            && supersets_shared(b, a),
{
    let ab = merge_snapshots(a, b);
    let ba = merge_snapshots(b, a);
    assert forall|s: Set<Seq<char>>|
        (ab.contains(s) <==> a.contains(s) || (b.contains(s) && !has_subset_of(a, s))) && (
        ba.contains(s) <==> b.contains(s) || (a.contains(s) && !has_subset_of(b, s))) by {
        lemma_merged_snapshots(a, b, s);
        lemma_merged_snapshots(b, a, s);
    }
    if supersets_shared(a, b) && supersets_shared(b, a) {
        assert forall|s: Set<Seq<char>>| ab.contains(s) <==> ba.contains(s) by {
            if a.contains(s) && has_subset_of(b, s) {
                let i = choose|i: int| 0 <= i < a.len() && a[i] == s;
                let j = choose|j: int| 0 <= j < b.len() && (#[trigger] b[j]).subset_of(s);
                assert(b[j].subset_of(a[i]));
            }
            if b.contains(s) && has_subset_of(a, s) {
                let j = choose|j: int| 0 <= j < b.len() && b[j] == s;
                let i = choose|i: int| 0 <= i < a.len() && (#[trigger] a[i]).subset_of(s);
                assert(a[i].subset_of(b[j]));
            }
        }
        assert(ab.to_set() =~= ba.to_set());
    }
    if ab.to_set() == ba.to_set() {
        assert forall|s: Set<Seq<char>>| ab.contains(s) <==> ba.contains(s) by {
            assert(ab.to_set().contains(s) <==> ba.to_set().contains(s));
        }
        assert forall|i: int, j: int|
            0 <= i < a.len() && 0 <= j < b.len() && (#[trigger] b[j]).subset_of(
                #[trigger] a[i],
            ) implies b.contains(a[i]) by {
            assert(a.contains(a[i]));
            assert(ab.contains(a[i]));
            assert(has_subset_of(b, a[i]));
        }
        assert forall|j: int, i: int|
            0 <= j < b.len() && 0 <= i < a.len() && (#[trigger] a[i]).subset_of(
                #[trigger] b[j],
            ) implies a.contains(b[j]) by {
            assert(b.contains(b[j]));
            assert(ba.contains(b[j]));
            assert(has_subset_of(a, b[j]));
        }
    }
}

/// The two observations are the same but for the order of their sets of keys.
pub open spec fn same_observations(a: TrailValuesView, b: TrailValuesView) -> bool {
    &&& a.trail == b.trail
    &&& same_flags(a, b)
    &&& a.field_sets.to_set() == b.field_sets.to_set()
}

/// Two observations at one location, each with its sets of keys free of
/// repetition, merge to the same in either order, but for the order of the
/// sets of keys, where each has every set of the other that holds one of its
/// own.
pub proof fn lemma_union_commutative(a: TrailValuesView, b: TrailValuesView)
    requires
        a.trail == b.trail,
        a.wf(),
        b.wf(),
        supersets_shared(a.field_sets, b.field_sets),
        supersets_shared(b.field_sets, a.field_sets),
    ensures
        same_observations(a.union(b), b.union(a)),
{
    lemma_merge_snapshots_commute(a.field_sets, b.field_sets);
}

/// A list free of repetition comes out unchanged when its sets are offered to
/// the empty list.
pub proof fn lemma_merge_into_nothing(list: Seq<Set<Seq<char>>>)
    requires
        is_deduplicated(list),
    ensures
        merge_snapshots(Seq::empty(), list) == list,
    decreases list.len(),
{
    if list.len() > 0 {
        let front = list.drop_last();
        assert forall|i: int, j: int| 0 <= i < j < front.len() implies !(
        #[trigger] front[i]).subset_of(#[trigger] front[j]) by {
            assert(front[i] == list[i] && front[j] == list[j]);
        }
        lemma_merge_into_nothing(front);
        if has_subset_of(front, list.last()) {
            let i = choose|i: int| 0 <= i < front.len() && (#[trigger] front[i]).subset_of(list.last());
            assert(list[i].subset_of(list[list.len() - 1]));
        }
        assert(front.push(list.last()) =~= list);
    }
}

/// The order in which three maps of observations are merged does not matter.
pub proof fn lemma_merged_associative(
    a: Map<Seq<PathStep>, TrailValuesView>,
    b: Map<Seq<PathStep>, TrailValuesView>,
    c: Map<Seq<PathStep>, TrailValuesView>,
)
    requires
        keyed_by_trail(a),
        keyed_by_trail(b),
        keyed_by_trail(c),
    ensures
        merged(merged(a, b), c) == merged(a, merged(b, c)),
{
    let left = merged(merged(a, b), c);
    let right = merged(a, merged(b, c));
    assert forall|t: Seq<PathStep>| #[trigger] left.dom().contains(t) implies left[t] == right[t] by {
        let nothing = TrailValuesView::empty(t);
        let at_a = if a.dom().contains(t) {
            a[t]
        } else {
            nothing
        };
        let at_b = if b.dom().contains(t) {
            b[t]
        } else {
            nothing
        };
        let at_c = if c.dom().contains(t) {
            c[t]
        } else {
            nothing
        };
        assert(a.dom().contains(t) ==> a[t].trail == t);
        assert(b.dom().contains(t) ==> b[t].trail == t);
        assert(c.dom().contains(t) ==> c[t].trail == t);
        lemma_union_associative(at_a, at_b, at_c);
        lemma_union_with_nothing(at_a, t);
        lemma_union_with_nothing(at_b, t);
        lemma_union_with_nothing(nothing, t);
    }
    assert(left =~= right);
}

/// Two maps of observations merge to the same in either order, location by
/// location and but for the order of the sets of keys, where at every
/// location of both the observations do.
pub proof fn lemma_merged_commutative(
    a: Map<Seq<PathStep>, TrailValuesView>,
    b: Map<Seq<PathStep>, TrailValuesView>,
)
    requires
        keyed_by_trail(a),
        keyed_by_trail(b),
        forall|t: Seq<PathStep>| #[trigger] a.dom().contains(t) ==> a[t].wf(),
        forall|t: Seq<PathStep>| #[trigger] b.dom().contains(t) ==> b[t].wf(),
        forall|t: Seq<PathStep>|
            #![trigger a.dom().contains(t), b.dom().contains(t)]
            a.dom().contains(t) && b.dom().contains(t) ==> supersets_shared(
                a[t].field_sets,
                b[t].field_sets,
            ) && supersets_shared(b[t].field_sets, a[t].field_sets),
    ensures
        merged(a, b).dom() == merged(b, a).dom(),
        forall|t: Seq<PathStep>| #[trigger]
            merged(a, b).dom().contains(t) ==> same_observations(merged(a, b)[t], merged(b, a)[t]),
{
    assert(merged(a, b).dom() =~= merged(b, a).dom());
    assert forall|t: Seq<PathStep>| #[trigger] merged(a, b).dom().contains(t) implies same_observations(
        merged(a, b)[t],
        merged(b, a)[t],
    ) by {
        assert(a.dom().contains(t) ==> a[t].trail == t);
        assert(b.dom().contains(t) ==> b[t].trail == t);
        if a.dom().contains(t) && b.dom().contains(t) {
            lemma_union_commutative(a[t], b[t]);
        } else if a.dom().contains(t) {
            lemma_merge_into_nothing(a[t].field_sets);
        } else {
            lemma_merge_into_nothing(b[t].field_sets);
        }
    }
}

/// Sets of keys free of repetition stay so when more sets are offered.
pub proof fn lemma_merge_keeps_deduplicated(
    list: Seq<Set<Seq<char>>>,
    incoming: Seq<Set<Seq<char>>>,
)
    requires
        is_deduplicated(list),
    ensures
        is_deduplicated(merge_snapshots(list, incoming)),
    decreases incoming.len(),
{
    if incoming.len() > 0 {
        lemma_merge_keeps_deduplicated(list, incoming.drop_last());
    }
}

/// Well-formed observations stay so when others are merged into them.
pub proof fn lemma_union_keeps_wf(a: TrailValuesView, b: TrailValuesView)
    requires
        a.wf(),
    ensures
        a.union(b).wf(),
{
    lemma_merge_keeps_deduplicated(a.field_sets, b.field_sets);
}

/// Every entry of the map has its sets of keys free of repetition.
pub open spec fn all_wf(observations: Map<Seq<PathStep>, TrailValuesView>) -> bool {
    forall|t: Seq<PathStep>| #[trigger] observations.dom().contains(t) ==> observations[t].wf()
}

/// A map of well-formed observations stays one when another map is merged
/// into it, and every entry is still found under its own location.
pub proof fn lemma_merged_keeps_wf(
    a: Map<Seq<PathStep>, TrailValuesView>,
    b: Map<Seq<PathStep>, TrailValuesView>,
)
    requires
        keyed_by_trail(a),
        keyed_by_trail(b),
        all_wf(a),
    ensures
        keyed_by_trail(merged(a, b)),
        all_wf(merged(a, b)),
{
    assert forall|t: Seq<PathStep>| #[trigger] merged(a, b).dom().contains(t) implies merged(
        a,
        b,
    )[t].wf() && merged(a, b)[t].trail == t by {
        assert(a.dom().contains(t) ==> a[t].trail == t);
        assert(b.dom().contains(t) ==> b[t].trail == t);
        if b.dom().contains(t) {
            let seen = if a.dom().contains(t) {
                a[t]
            } else {
                TrailValuesView::empty(t)
            };
            lemma_union_keeps_wf(seen, b[t]);
        }
    }
}

} // verus!
