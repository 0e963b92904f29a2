//! The observations made in many documents, location by location.

use crate::json_trail::{JsonTrail, PathStep};
use crate::table::{
    distinct_keys, index_by, lemma_distinct_keys_push, lemma_index_by_distinct,
    lemma_index_by_domain, lemma_index_by_push, lemma_index_by_remove, lemma_index_by_value,
};
use crate::trail_values::{TrailValues, TrailValuesView};
use vstd::prelude::*;

verus! {

/// The key under which observations are looked up: their location.
pub open spec fn values_trail() -> spec_fn(TrailValuesView) -> Seq<PathStep> {
    |v: TrailValuesView| v.trail
}

/// The observations of a vector, as contracts see them.
pub open spec fn value_views(values: Seq<TrailValues>) -> Seq<TrailValuesView> {
    values.map_values(|v: TrailValues| v@)
}

/// The locations of a vector, as contracts see them.
pub open spec fn trail_views(trails: Seq<JsonTrail>) -> Seq<Seq<PathStep>> {
    trails.map_values(|t: JsonTrail| t@)
}

/// Every entry of the map is found under its own location.
pub open spec fn keyed_by_trail(observations: Map<Seq<PathStep>, TrailValuesView>) -> bool {
    forall|t: Seq<PathStep>| #[trigger]
        observations.dom().contains(t) ==> observations[t].trail == t
}

/// The observations after `incoming` was merged into them at its location.
/// Where nothing was seen there yet, it is merged into observations that saw
/// nothing.
pub open spec fn merged_at(
    observations: Map<Seq<PathStep>, TrailValuesView>,
    incoming: TrailValuesView,
) -> Map<Seq<PathStep>, TrailValuesView> {
    let seen = if observations.dom().contains(incoming.trail) {
        observations[incoming.trail]
    } else {
        TrailValuesView::empty(incoming.trail)
    };
    observations.insert(incoming.trail, seen.union(incoming))
}

/// The observations after those of `incoming` were merged into them, location
/// by location.
pub open spec fn merged(
    observations: Map<Seq<PathStep>, TrailValuesView>,
    incoming: Map<Seq<PathStep>, TrailValuesView>,
) -> Map<Seq<PathStep>, TrailValuesView> {
    Map::new(
        |t: Seq<PathStep>| observations.dom().contains(t) || incoming.dom().contains(t),
        |t: Seq<PathStep>|
            if incoming.dom().contains(t) {
                merged_at(observations, incoming[t])[incoming[t].trail]
            } else {
                observations[t]
            },
    )
}

/// The observations that come of merging those of `values` one after the
/// other into a map that has none.
pub open spec fn merged_all(values: Seq<TrailValuesView>) -> Map<Seq<PathStep>, TrailValuesView>
    decreases values.len(),
{
    if values.len() == 0 {
        Map::empty()
    } else {
        merged_at(merged_all(values.drop_last()), values.last())
    }
}

/// What was seen, location by location. No location occurs twice.
#[derive(Debug)]
pub struct TrailObservationsResult {
    values_by_trail: Vec<TrailValues>,
}

impl View for TrailObservationsResult {
    type V = Map<Seq<PathStep>, TrailValuesView>;

    closed spec fn view(&self) -> Map<Seq<PathStep>, TrailValuesView> {
        index_by(value_views(self.values_by_trail@), values_trail())
    }
}

impl TrailObservationsResult {
    #[verifier::type_invariant]
    spec fn distinct_trails(&self) -> bool {
        distinct_keys(value_views(self.values_by_trail@), values_trail())
    }

    /// The map is finite, and every entry is found under its own location.
    pub proof fn lemma_view(&self)
        ensures
            self@.dom().finite(),
            keyed_by_trail(self@),
    {
        let views = value_views(self.values_by_trail@);
        lemma_index_by_finite(views);
        assert forall|t: Seq<PathStep>| #[trigger] self@.dom().contains(t) implies self@[t].trail
            == t by {
            lemma_index_by_value(views, values_trail(), t);
        }
    }

    /// No observations at all.
    pub fn new() -> (r: TrailObservationsResult)
        ensures
            r@ == Map::<Seq<PathStep>, TrailValuesView>::empty(),
    {
        let r = TrailObservationsResult { values_by_trail: Vec::new() };
        assert(value_views(r.values_by_trail@) =~= Seq::empty());
        r
    }

    /// Takes the vector out, and leaves an empty one.
    fn take_values(&mut self) -> (r: Vec<TrailValues>)
        ensures
            r == old(self).values_by_trail,
            distinct_keys(value_views(r@), values_trail()),
            final(self)@ == Map::<Seq<PathStep>, TrailValuesView>::empty(),
    {
        proof {
            use_type_invariant(&*self);
        }
        let mut taken = TrailObservationsResult::new();
        core::mem::swap(self, &mut taken);
        let TrailObservationsResult { values_by_trail } = taken;
        values_by_trail
    }

    /// Puts a vector in.
    fn put_values(&mut self, values: Vec<TrailValues>)
        requires
            distinct_keys(value_views(values@), values_trail()),
        ensures
            final(self).values_by_trail == values,
    {
        *self = TrailObservationsResult { values_by_trail: values };
    }

    /// The place of the observations at `trail` in the vector.
    fn position(&self, trail: &JsonTrail) -> (r: Option<usize>)
        ensures
            match r {
                Some(i) => {
                    &&& i < self.values_by_trail@.len()
                    &&& self.values_by_trail@[i as int]@.trail == trail@
                    &&& self@.dom().contains(trail@)
                    &&& self@[trail@] == self.values_by_trail@[i as int]@
                },
                None => {
                    &&& !self@.dom().contains(trail@)
                    &&& forall|j: int|
                        0 <= j < self.values_by_trail@.len() ==> (
                        #[trigger] self.values_by_trail@[j])@.trail != trail@
                },
            },
    {
        proof {
            use_type_invariant(self);
        }
        let ghost views = value_views(self.values_by_trail@);
        let mut i: usize = 0;
        while i < self.values_by_trail.len()
            invariant
                i <= self.values_by_trail.len(),
                views == value_views(self.values_by_trail@),
                distinct_keys(views, values_trail()),
                forall|j: int| 0 <= j < i ==> (#[trigger] self.values_by_trail@[j])@.trail != trail@,
            decreases self.values_by_trail.len() - i,
        {
            if self.values_by_trail[i].trail.same_as(trail) {
                proof {
                    assert(views[i as int] == self.values_by_trail@[i as int]@);
                    lemma_index_by_distinct(views, values_trail(), i as int);
                }
                return Some(i);
            }
            i += 1;
        }
        proof {
            lemma_index_by_domain(views, values_trail(), trail@);
            if self@.dom().contains(trail@) {
                let j = choose|j: int|
                    0 <= j < views.len() && values_trail()(#[trigger] views[j]) == trail@;
                assert(self.values_by_trail@[j]@.trail != trail@);
            }
        }
        None
    }

    /// The observations at `trail`, if there are any.
    pub fn get(&self, trail: &JsonTrail) -> (r: Option<&TrailValues>)
        ensures
            match r {
                Some(values) => self@.dom().contains(trail@) && values@ == self@[trail@],
                None => !self@.dom().contains(trail@),
            },
    {
        match self.position(trail) {
            Some(i) => Some(&self.values_by_trail[i]),
            None => None,
        }
    }

    /// Takes the observations at `trail` out, if there are any.
    pub fn remove(&mut self, trail: &JsonTrail) -> (r: Option<TrailValues>)
        ensures
            final(self)@ == old(self)@.remove(trail@),
            match r {
                Some(values) => old(self)@.dom().contains(trail@) && values@ == old(self)@[trail@],
                None => !old(self)@.dom().contains(trail@),
            },
    {
        match self.position(trail) {
            Some(i) => {
                let mut values_by_trail = self.take_values();
                proof {
                    let views = value_views(values_by_trail@);
                    assert(views[i as int] == values_by_trail@[i as int]@);
                    lemma_index_by_remove(views, values_trail(), i as int);
                    assert(value_views(values_by_trail@.remove(i as int)) =~= views.remove(i as int));
                }
                let values = values_by_trail.remove(i);
                self.put_values(values_by_trail);
                Some(values)
            },
            None => {
                assert(self@.remove(trail@) =~= self@);
                None
            },
        }
    }

    /// Puts `values` at their location, in place of what was there, and hands
    /// back what was there.
    pub fn insert(&mut self, values: TrailValues) -> (r: Option<TrailValues>)
        ensures
            final(self)@ == old(self)@.insert(values@.trail, values@),
            match r {
                Some(previous) => old(self)@.dom().contains(values@.trail) && previous@ == old(
                    self,
                )@[values@.trail],
                None => !old(self)@.dom().contains(values@.trail),
            },
    {
        let previous = self.remove(&values.trail);
        let mut values_by_trail = self.take_values();
        proof {
            let views = value_views(values_by_trail@);
            lemma_index_by_push(views, values_trail(), values@);
            lemma_distinct_keys_push(views, values_trail(), values@);
            assert(value_views(values_by_trail@.push(values)) =~= views.push(values@));
            assert(old(self)@.remove(values@.trail).insert(values@.trail, values@) =~= old(
                self,
            )@.insert(values@.trail, values@));
        }
        values_by_trail.push(values);
        self.put_values(values_by_trail);
        previous
    }

    /// Merges `new_values` into the observations at their location. Where
    /// nothing was seen there yet, they are merged into observations that saw
    /// nothing.
    pub fn union_values(&mut self, new_values: TrailValues)
        ensures
            final(self)@ == merged_at(old(self)@, new_values@),
    {
        let mut seen = match self.remove(&new_values.trail) {
            Some(values) => values,
            None => TrailValues::new(&new_values.trail),
        };
        seen.union(new_values);
        proof {
            assert(old(self)@.remove(new_values@.trail).insert(new_values@.trail, seen@)
                =~= merged_at(old(self)@, new_values@));
            self.lemma_view();
            old(self).lemma_view();
        }
        self.insert(seen);
    }

    /// Merges the observations of `new_result` into these, location by
    /// location.
    pub fn union(&mut self, new_result: TrailObservationsResult)
        ensures
            final(self)@ == merged(old(self)@, new_result@),
    {
        proof {
            use_type_invariant(&new_result);
        }
        let TrailObservationsResult { values_by_trail: incoming } = new_result;
        let ghost all = value_views(incoming@);
        assert(all.take(0) =~= Seq::empty());
        assert(self@ =~= merged(self@, index_by(all.take(0), values_trail())));
        for new_trail_values in it: incoming
            invariant
                all == value_views(incoming@),
                distinct_keys(all, values_trail()),
                self@ == merged(old(self)@, index_by(all.take(it.index()), values_trail())),
        {
            proof {
                let i = it.index();
                let done = index_by(all.take(i), values_trail());
                assert(all[i] == new_trail_values@);
                assert(all.take(i + 1) =~= all.take(i).push(all[i]));
                lemma_index_by_push(all.take(i), values_trail(), all[i]);
                lemma_index_by_domain(all.take(i), values_trail(), all[i].trail);
                assert(!done.dom().contains(all[i].trail)) by {
                    if done.dom().contains(all[i].trail) {
                        let j = choose|j: int|
                            0 <= j < all.take(i).len() && values_trail()(#[trigger] all.take(i)[j])
                                == all[i].trail;
                        assert(all.take(i)[j] == all[j]);
                    }
                }
                assert forall|t: Seq<PathStep>| #[trigger] done.dom().contains(t) implies done[t].trail
                    == t by {
                    lemma_index_by_value(all.take(i), values_trail(), t);
                }
                assert(merged_at(merged(old(self)@, done), all[i]) =~= merged(
                    old(self)@,
                    done.insert(all[i].trail, all[i]),
                ));
            }
            self.union_values(new_trail_values);
        }
        assert(all.take(all.len() as int) =~= all);
    }

    /// The locations at which something was seen, each once, in no particular
    /// order.
    pub fn trails(&self) -> (r: Vec<JsonTrail>)
        ensures
            trail_views(r@).to_set() == self@.dom(),
            trail_views(r@).no_duplicates(),
    {
        proof {
            use_type_invariant(self);
        }
        let ghost views = value_views(self.values_by_trail@);
        let mut r: Vec<JsonTrail> = Vec::new();
        let mut i: usize = 0;
        while i < self.values_by_trail.len()
            invariant
                i <= self.values_by_trail.len(),
                views == value_views(self.values_by_trail@),
                r@.len() == i,
                forall|j: int| 0 <= j < i ==> (#[trigger] r@[j])@ == views[j].trail,
            decreases self.values_by_trail.len() - i,
        {
            r.push(self.values_by_trail[i].trail.clone());
            i += 1;
        }
        proof {
            let trails = trail_views(r@);
            assert forall|a: int, b: int| 0 <= a < trails.len() && 0 <= b < trails.len() && a
                != b implies trails[a] != trails[b] by {
                assert(trails[a] == r@[a]@ && trails[b] == r@[b]@);
                assert(values_trail()(views[a]) == trails[a]);
                assert(values_trail()(views[b]) == trails[b]);
            }
            assert forall|t: Seq<PathStep>| trails.to_set().contains(t) <==> self@.dom().contains(
                t,
            ) by {
                lemma_index_by_domain(views, values_trail(), t);
                if trails.contains(t) {
                    let a = choose|a: int| 0 <= a < trails.len() && trails[a] == t;
                    assert(trails[a] == r@[a]@);
                    assert(values_trail()(views[a]) == t);
                }
                if self@.dom().contains(t) {
                    let a = choose|a: int|
                        0 <= a < views.len() && values_trail()(#[trigger] views[a]) == t;
                    assert(trails[a] == r@[a]@);
                }
            }
            assert(trails.to_set() =~= self@.dom());
        }
        r
    }

    /// The observations as a vector, each location once, in no particular
    /// order.
    pub fn into_values(self) -> (r: Vec<TrailValues>)
        ensures
            index_by(value_views(r@), values_trail()) == self@,
            distinct_keys(value_views(r@), values_trail()),
    {
        proof {
            use_type_invariant(&self);
        }
        let TrailObservationsResult { values_by_trail } = self;
        values_by_trail
    }

    /// All the observations, each location once, in no particular order.
    pub fn values(&self) -> (r: &Vec<TrailValues>)
        ensures
            index_by(value_views(r@), values_trail()) == self@,
            distinct_keys(value_views(r@), values_trail()),
    {
        proof {
            use_type_invariant(self);
        }
        &self.values_by_trail
    }
}

/// The table of a sequence is finite.
pub proof fn lemma_index_by_finite(values: Seq<TrailValuesView>)
    ensures
        index_by(values, values_trail()).dom().finite(),
    decreases values.len(),
{
    if values.len() > 0 {
        lemma_index_by_finite(values.drop_last());
    }
}

impl Clone for TrailObservationsResult {
    fn clone(&self) -> (r: Self)
        ensures
            r@ == self@,
    {
        proof {
            use_type_invariant(self);
        }
        let ghost views = value_views(self.values_by_trail@);
        let mut values_by_trail: Vec<TrailValues> = Vec::new();
        let mut i: usize = 0;
        while i < self.values_by_trail.len()
            invariant
                i <= self.values_by_trail.len(),
                views == value_views(self.values_by_trail@),
                values_by_trail@.len() == i,
                forall|j: int| 0 <= j < i ==> (#[trigger] values_by_trail@[j])@ == views[j],
            decreases self.values_by_trail.len() - i,
        {
            values_by_trail.push(self.values_by_trail[i].clone());
            i += 1;
        }
        assert(value_views(values_by_trail@) =~= views);
        TrailObservationsResult { values_by_trail }
    }
}

impl Default for TrailObservationsResult {
    fn default() -> (r: TrailObservationsResult)
        ensures
            r@ == Map::<Seq<PathStep>, TrailValuesView>::empty(),
    {
        TrailObservationsResult::new()
    }
}

impl From<Vec<TrailValues>> for TrailObservationsResult {
    /// The observations of `values`, merged where they share a location.
    fn from(values: Vec<TrailValues>) -> (r: TrailObservationsResult)
        ensures
            r@ == merged_all(value_views(values@)),
    {
        let ghost all = value_views(values@);
        let mut r = TrailObservationsResult::new();
        assert(all.take(0) =~= Seq::empty());
        for new_values in it: values
            invariant
                all == value_views(values@),
                r@ == merged_all(all.take(it.index())),
        {
            proof {
                let i = it.index();
                assert(all[i] == new_values@);
                assert(all.take(i + 1).drop_last() =~= all.take(i));
            }
            r.union_values(new_values);
        }
        assert(all.take(all.len() as int) =~= all);
        r
    }
}

impl vstd::std_specs::convert::FromSpecImpl<Vec<TrailValues>> for TrailObservationsResult {
    open spec fn obeys_from_spec() -> bool {
        false
    }

    open spec fn from_spec(values: Vec<TrailValues>) -> TrailObservationsResult {
        arbitrary()
    }
}

} // verus!
