//! What was seen at one location: the kinds of value, and the sets of keys
//! that the objects there had.

use crate::field_set::FieldSet;
use crate::json_trail::{JsonTrail, PathStep};
use vstd::prelude::*;

verus! {

/// Some set of `list` holds no key that `s` lacks.
pub open spec fn has_subset_of(list: Seq<Set<Seq<char>>>, s: Set<Seq<char>>) -> bool {
    exists|i: int| 0 <= i < list.len() && (#[trigger] list[i]).subset_of(s)
}

/// The list after `s` was offered to it: `s` is dropped where the list holds a
/// subset of it, and goes to the end otherwise.
pub open spec fn insert_snapshot(list: Seq<Set<Seq<char>>>, s: Set<Seq<char>>) -> Seq<
    Set<Seq<char>>,
> {
    if has_subset_of(list, s) {
        list
    } else {
        list.push(s)
    }
}

/// The list after the sets of `incoming` were offered to it one by one, from
/// the first to the last.
pub open spec fn merge_snapshots(list: Seq<Set<Seq<char>>>, incoming: Seq<Set<Seq<char>>>) -> Seq<
    Set<Seq<char>>,
>
    decreases incoming.len(),
{
    if incoming.len() == 0 {
        list
    } else {
        insert_snapshot(merge_snapshots(list, incoming.drop_last()), incoming.last())
    }
}

/// No set of the list holds all the keys of a set before it.
pub open spec fn is_deduplicated(list: Seq<Set<Seq<char>>>) -> bool {
    forall|i: int, j: int| 0 <= i < j < list.len() ==> !(#[trigger] list[i]).subset_of(
        #[trigger] list[j],
    )
}

/// The observations at one location, as contracts see them.
pub struct TrailValuesView {
    pub trail: Seq<PathStep>,
    pub was_string: bool,
    pub was_number: bool,
    pub was_boolean: bool,
    pub was_null: bool,
    pub was_array: bool,
    pub was_object: bool,
    pub was_empty_array: bool,
    pub field_sets: Seq<Set<Seq<char>>>,
}

impl TrailValuesView {
    /// Nothing seen yet at `trail`.
    pub open spec fn empty(trail: Seq<PathStep>) -> TrailValuesView {
        TrailValuesView {
            trail,
            was_string: false,
            was_number: false,
            was_boolean: false,
            was_null: false,
            was_array: false,
            was_object: false,
            was_empty_array: false,
            field_sets: Seq::empty(),
        }
    }

    /// These observations after the set of keys `s` was offered to them.
    pub open spec fn insert_field_set(self, s: Set<Seq<char>>) -> TrailValuesView {
        TrailValuesView { field_sets: insert_snapshot(self.field_sets, s), ..self }
    }

    /// These observations after `other` was merged into them: a kind was seen
    /// if either saw it, and the sets of keys of `other` are offered in turn.
    pub open spec fn union(self, other: TrailValuesView) -> TrailValuesView {
        TrailValuesView {
            trail: self.trail,
            was_string: self.was_string || other.was_string,
            was_number: self.was_number || other.was_number,
            was_boolean: self.was_boolean || other.was_boolean,
            was_null: self.was_null || other.was_null,
            was_array: self.was_array || other.was_array,
            was_object: self.was_object || other.was_object,
            was_empty_array: self.was_empty_array || other.was_empty_array,
            field_sets: merge_snapshots(self.field_sets, other.field_sets),
        }
    }

    /// No string, number, boolean, null or array was seen. An object does not
    /// count.
    pub open spec fn was_unknown(self) -> bool {
        &&& !self.was_string
        &&& !self.was_number
        &&& !self.was_boolean
        &&& !self.was_null
        &&& !self.was_array
        &&& !self.was_empty_array
    }

    /// The sets of keys are free of sets that hold an earlier one.
    pub open spec fn wf(self) -> bool {
        is_deduplicated(self.field_sets)
    }
}

/// The sets of a vector, as contracts see them.
pub open spec fn snapshots(field_sets: Seq<FieldSet>) -> Seq<Set<Seq<char>>> {
    field_sets.map_values(|s: FieldSet| s@)
}

/// The observations at one location.
#[derive(Debug)]
pub struct TrailValues {
    pub trail: JsonTrail,
    pub was_string: bool,
    pub was_number: bool,
    pub was_boolean: bool,
    pub was_null: bool,
    pub was_array: bool,
    pub was_object: bool,
    pub was_empty_array: bool,
    pub field_sets: Vec<FieldSet>,
}

impl View for TrailValues {
    type V = TrailValuesView;

    open spec fn view(&self) -> TrailValuesView {
        TrailValuesView {
            trail: self.trail@,
            was_string: self.was_string,
            was_number: self.was_number,
            was_boolean: self.was_boolean,
            was_null: self.was_null,
            was_array: self.was_array,
            was_object: self.was_object,
            was_empty_array: self.was_empty_array,
            field_sets: snapshots(self.field_sets@),
        }
    }
}

impl Clone for TrailValues {
    fn clone(&self) -> (r: Self)
        ensures
            r@ == self@,
    {
        let mut field_sets: Vec<FieldSet> = Vec::new();
        let mut i: usize = 0;
        while i < self.field_sets.len()
            invariant
                i <= self.field_sets.len(),
                field_sets@.len() == i,
                forall|j: int| 0 <= j < i ==> field_sets@[j]@ == self.field_sets@[j]@,
            decreases self.field_sets.len() - i,
        {
            field_sets.push(self.field_sets[i].clone());
            i += 1;
        }
        assert(snapshots(field_sets@) =~= snapshots(self.field_sets@));
        TrailValues {
            trail: self.trail.clone(),
            was_string: self.was_string,
            was_number: self.was_number,
            was_boolean: self.was_boolean,
            was_null: self.was_null,
            was_array: self.was_array,
            was_object: self.was_object,
            was_empty_array: self.was_empty_array,
            field_sets,
        }
    }
}

impl TrailValues {
    /// The observations at `json_trail` before anything was seen there.
    pub fn new(json_trail: &JsonTrail) -> (r: TrailValues)
        ensures
            r@ == TrailValuesView::empty(json_trail@),
            r@.wf(),
    {
        let r = TrailValues {
            trail: json_trail.clone(),
            was_string: false,
            was_number: false,
            was_boolean: false,
            was_null: false,
            was_array: false,
            was_object: false,
            was_empty_array: false,
            field_sets: Vec::new(),
        };
        assert(r@.field_sets =~= Seq::empty());
        r
    }

    /// Merges `new_values` into these observations.
    pub fn union(&mut self, new_values: TrailValues)
        ensures
            final(self)@ == old(self)@.union(new_values@),
            old(self)@.wf() ==> final(self)@.wf(),
    {
        self.was_string = self.was_string || new_values.was_string;
        self.was_number = self.was_number || new_values.was_number;
        self.was_boolean = self.was_boolean || new_values.was_boolean;
        self.was_null = self.was_null || new_values.was_null;
        self.was_array = self.was_array || new_values.was_array;
        self.was_empty_array = self.was_empty_array || new_values.was_empty_array;
        self.was_object = self.was_object || new_values.was_object;

        let ghost incoming = new_values@.field_sets;
        let ghost merged = old(self)@.union(new_values@);
        let mut i: usize = 0;
        assert(incoming.take(0) =~= Seq::empty());
        while i < new_values.field_sets.len()
            invariant
                i <= new_values.field_sets.len(),
                incoming == snapshots(new_values.field_sets@),
                merged == old(self)@.union(new_values@),
                self@ == (TrailValuesView {
                    field_sets: merge_snapshots(old(self)@.field_sets, incoming.take(i as int)),
                    ..merged
                }),
                old(self)@.wf() ==> self@.wf(),
            decreases new_values.field_sets.len() - i,
        {
            self.insert_field_set(new_values.field_sets[i].clone());
            proof {
                assert(incoming.take(i + 1).drop_last() =~= incoming.take(i as int));
                assert(incoming.take(i + 1).last() == new_values.field_sets@[i as int]@);
            }
            i += 1;
        }
        assert(incoming.take(new_values.field_sets.len() as int) =~= incoming);
    }

    /// Tells whether no string, number, boolean, null or array was seen. An
    /// object does not count.
    pub fn was_unknown(&self) -> (r: bool)
        ensures
            r == self@.was_unknown(),
    {
        !self.was_string && !self.was_number && !self.was_boolean && !self.was_null
            && !self.was_array && !self.was_empty_array
    }

    /// Offers a set of keys to these observations: it is dropped where a set
    /// already there is a subset of it, and kept as the last one otherwise.
    pub fn insert_field_set(&mut self, field_set: FieldSet)
        ensures
            final(self)@ == old(self)@.insert_field_set(field_set@),
            old(self)@.wf() ==> final(self)@.wf(),
    {
        let mut exists = false;
        let mut i: usize = 0;
        while i < self.field_sets.len()
            invariant
                i <= self.field_sets.len(),
                *self == *old(self),
                exists == has_subset_of(self@.field_sets.take(i as int), field_set@),
            decreases self.field_sets.len() - i,
        {
            let ghost before = self@.field_sets.take(i as int);
            let ghost after = self@.field_sets.take(i + 1);
            if self.field_sets[i].is_subset(&field_set) {
                assert(after[i as int].subset_of(field_set@));
                exists = true;
            } else {
                proof {
                    if has_subset_of(after, field_set@) {
                        let j = choose|j: int|
                            0 <= j < after.len() && (#[trigger] after[j]).subset_of(field_set@);
                        assert(before[j].subset_of(field_set@));
                    }
                    if has_subset_of(before, field_set@) {
                        let j = choose|j: int|
                            0 <= j < before.len() && (#[trigger] before[j]).subset_of(field_set@);
                        assert(after[j].subset_of(field_set@));
                    }
                }
            }
            i += 1;
        }
        assert(self@.field_sets.take(self.field_sets.len() as int) =~= self@.field_sets);
        if !exists {
            self.field_sets.push(field_set);
            assert(self@.field_sets =~= old(self)@.field_sets.push(field_set@));
        }
    }
}

impl From<JsonTrail> for TrailValues {
    /// The observations at `json_trail` before anything was seen there.
    fn from(json_trail: JsonTrail) -> (r: TrailValues)
        ensures
            r@ == TrailValuesView::empty(json_trail@),
            r@.wf(),
    {
        TrailValues::new(&json_trail)
    }
}

impl vstd::std_specs::convert::FromSpecImpl<JsonTrail> for TrailValues {
    open spec fn obeys_from_spec() -> bool {
        false
    }

    open spec fn from_spec(json_trail: JsonTrail) -> TrailValues {
        arbitrary()
    }
}

} // verus!
