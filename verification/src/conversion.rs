//! From the observations of all locations to the shape tree, deepest
//! locations first, and on to the commands that build it.

use crate::builder::{
    all_requests, by_trail, can_build, children_among, descriptor_fits, field_trail, find_prototype,
    item_trail, kinds_fit, observed_kinds, prototype_fits, prototypes_by_trail, ObservedKind,
};
use crate::commands::{command_views, no_forward_references, CommandView, ShapeCommand};
use crate::field_keys::{all_keys, field_keys};
use crate::field_set::texts;
use crate::id_source::IdSource;
use crate::identifier_laws::{
    declares_once, lemma_later_part_never_repeats, lemma_no_shape_declared_twice, never_repeats,
};
use crate::json_trail::{
    lemma_parent_before_child, lemma_trail_less_irreflexive, lemma_trail_less_total,
    lemma_trail_less_transitive, trail_less, JsonTrail, PathStep,
};
use crate::observations::{value_views, values_trail, TrailObservationsResult};
use crate::prototype::{prototype_views, DescriptorView, PrototypeView, ShapePrototype};
use crate::state::SpecIdGenerator;
use crate::synthesis::{
    all_commands, each_takes_from_earlier, lemma_all_commands_refer_back, paired, prototype_ids,
    shape_prototypes_to_commands, takes_from,
};
use crate::table::{
    distinct_keys, index_by, lemma_index_by_distinct, lemma_index_by_domain,
    lemma_index_by_same_items, lemma_index_by_value,
};
use crate::trail_values::{TrailValues, TrailValuesView};
use vstd::prelude::*;

verus! {

/// The observations of a sequence come in the ascending order of their
/// locations.
pub open spec fn ascending_trails(values: Seq<TrailValuesView>) -> bool {
    forall|i: int, j: int|
        0 <= i < j < values.len() ==> trail_less((#[trigger] values[i]).trail, (#[trigger] values[j]).trail)
}

/// Observations in the ascending order of their locations have distinct
/// locations.
proof fn lemma_ascending_distinct(values: Seq<TrailValuesView>)
    requires
        ascending_trails(values),
    ensures
        distinct_keys(values, values_trail()),
{
    assert forall|i: int, j: int| 0 <= i < j < values.len() implies values_trail()(values[i])
        != values_trail()(values[j]) by {
        assert(trail_less(values[i].trail, values[j].trail));
        lemma_trail_less_irreflexive(values[i].trail);
    }
}

/// Puts observations of distinct locations in the ascending order of their
/// locations.
pub fn sort_by_trail(values: Vec<TrailValues>) -> (r: Vec<TrailValues>)
    requires
        distinct_keys(value_views(values@), values_trail()),
    ensures
        ascending_trails(value_views(r@)),
        index_by(value_views(r@), values_trail()) == index_by(value_views(values@), values_trail()),
{
    let ghost all = value_views(values@);
    let mut rest = values;
    let mut sorted: Vec<TrailValues> = Vec::new();
    while rest.len() > 0
        invariant
            distinct_keys(all, values_trail()),
            rest@.len() <= all.len(),
            value_views(rest@) == all.take(rest@.len() as int),
            ascending_trails(value_views(sorted@)),
            forall|i: int|
                0 <= i < sorted@.len() ==> all.skip(rest@.len() as int).contains(
                    #[trigger] value_views(sorted@)[i],
                ),
            forall|j: int|
                rest@.len() <= j < all.len() ==> value_views(sorted@).contains(#[trigger] all[j]),
        decreases rest@.len(),
    {
        let ghost m = rest@.len() as int;
        let ghost before = value_views(sorted@);
        let item = rest.pop().unwrap();
        assert(value_views(rest@) =~= all.take(m - 1));
        assert(item@ == all[m - 1]) by {
            assert(all.take(m)[m - 1] == all[m - 1]);
        }
        let mut p: usize = 0;
        while p < sorted.len() && sorted[p].trail.precedes(&item.trail)
            invariant
                p <= sorted@.len(),
                before == value_views(sorted@),
                forall|i: int| 0 <= i < p ==> trail_less((#[trigger] before[i]).trail, item@.trail),
            decreases sorted@.len() - p,
        {
            assert(before[p as int] == sorted@[p as int]@);
            p += 1;
        }
        proof {
            if p < sorted@.len() {
                assert(before[p as int] == sorted@[p as int]@);
                assert(all.skip(m).contains(before[p as int]));
                let j = choose|j: int|
                    0 <= j < all.skip(m).len() && all.skip(m)[j] == before[p as int];
                assert(all[j + m] == before[p as int]);
                assert(values_trail()(all[m - 1]) != values_trail()(all[j + m]));
                lemma_trail_less_total(before[p as int].trail, item@.trail);
            }
        }
        sorted.insert(p, item);
        proof {
            let after = value_views(sorted@);
            assert(after =~= before.insert(p as int, all[m - 1]));
            assert forall|i: int, j: int| 0 <= i < j < after.len() implies trail_less(
                (#[trigger] after[i]).trail,
                (#[trigger] after[j]).trail,
            ) by {
                if j < p {
                    assert(after[i] == before[i] && after[j] == before[j]);
                } else if j == p {
                    assert(after[i] == before[i]);
                } else if i == p {
                    assert(after[j] == before[j - 1]);
                    if j - 1 > p {
                        assert(trail_less(before[p as int].trail, before[j - 1].trail));
                        lemma_trail_less_transitive(
                            all[m - 1].trail,
                            before[p as int].trail,
                            before[j - 1].trail,
                        );
                    }
                } else if i < p {
                    assert(after[i] == before[i] && after[j] == before[j - 1]);
                } else {
                    assert(after[i] == before[i - 1] && after[j] == before[j - 1]);
                }
            }
            assert forall|i: int| 0 <= i < after.len() implies all.skip(m - 1).contains(
                #[trigger] after[i],
            ) by {
                if i == p {
                    assert(all.skip(m - 1)[0] == after[i]);
                } else {
                    let i0 = if i < p {
                        i
                    } else {
                        i - 1
                    };
                    assert(after[i] == before[i0]);
                    assert(all.skip(m).contains(before[i0]));
                    let j = choose|j: int| 0 <= j < all.skip(m).len() && all.skip(m)[j] == before[i0];
                    assert(all.skip(m - 1)[j + 1] == after[i]);
                }
            }
            assert forall|j: int| m - 1 <= j < all.len() implies after.contains(
                #[trigger] all[j],
            ) by {
                if j == m - 1 {
                    assert(after[p as int] == all[j]);
                } else {
                    assert(before.contains(all[j]));
                    let i0 = choose|i0: int| 0 <= i0 < before.len() && before[i0] == all[j];
                    if i0 < p {
                        assert(after[i0] == all[j]);
                    } else {
                        assert(after[i0 + 1] == all[j]);
                    }
                }
            }
        }
    }
    proof {
        let done = value_views(sorted@);
        lemma_ascending_distinct(done);
        assert(all.skip(0) =~= all);
        assert forall|i: int| 0 <= i < all.len() implies done.contains(#[trigger] all[i]) by {}
        lemma_index_by_same_items(done, all, values_trail());
    }
    sorted
}

/// Wherever an array was seen and never an empty one, something was seen of
/// its items; and wherever an object was seen, something was seen under each
/// of its keys.
pub open spec fn complete(observations: Map<Seq<PathStep>, TrailValuesView>) -> bool {
    forall|t: Seq<PathStep>| #[trigger]
        observations.dom().contains(t) ==> children_among(observations[t], observations.dom())
}

/// `prototypes` is the shape tree of `observations`: one node for each
/// location, the deepest locations first, each node built from the
/// observations at its location and from the nodes before it.
pub open spec fn builds(
    observations: Map<Seq<PathStep>, TrailValuesView>,
    prototypes: Seq<PrototypeView>,
) -> bool {
    &&& forall|t: Seq<PathStep>| #[trigger]
        observations.dom().contains(t) <==> exists|i: int|
            0 <= i < prototypes.len() && (#[trigger] prototypes[i]).trail == t
    &&& forall|i: int, j: int|
        0 <= i < j < prototypes.len() ==> trail_less(
            (#[trigger] prototypes[j]).trail,
            (#[trigger] prototypes[i]).trail,
        )
    &&& forall|i: int|
        0 <= i < prototypes.len() ==> prototype_fits(
            observations[(#[trigger] prototypes[i]).trail],
            prototypes_by_trail(prototypes.take(i)),
            prototypes[i],
        )
}

/// `commands` and `root_id` are what the conversion hands back for
/// `observations` and the location `root`, by way of the shape tree
/// `prototypes`: the commands of that tree, and the identifier of its node at
/// `root`, if it has one there.
pub open spec fn converts(
    observations: Map<Seq<PathStep>, TrailValuesView>,
    root: Seq<PathStep>,
    prototypes: Seq<PrototypeView>,
    root_id: Option<Seq<char>>,
    commands: Seq<CommandView>,
) -> bool {
    &&& builds(observations, prototypes)
    &&& commands == all_commands(prototypes)
    &&& root_id == if prototypes_by_trail(prototypes).dom().contains(root) {
        Some(prototypes_by_trail(prototypes)[root].id)
    } else {
        None
    }
}

/// The identifier, as contracts see it.
pub open spec fn option_text(id: Option<String>) -> Option<Seq<char>> {
    match id {
        Some(id) => Some(id@),
        None => None,
    }
}

/// A node that has its shape for values of one kind takes from outside only
/// shapes of the nodes that it was built from.
proof fn lemma_descriptor_fits_takes_from(
    kind: ObservedKind,
    values: TrailValuesView,
    before: Seq<PrototypeView>,
    prototype: PrototypeView,
)
    requires
        descriptor_fits(kind, values, prototypes_by_trail(before), prototype.descriptor),
    ensures
        takes_from(prototype, prototype_ids(before)),
{
    let table = prototypes_by_trail(before);
    match prototype.descriptor {
        DescriptorView::List { item_shape_id, item_is_unknown } => {
            if !item_is_unknown {
                lemma_index_by_value(before, by_trail(), item_trail(values.trail));
            }
        },
        DescriptorView::Object { fields } => {
            assert forall|i: int| 0 <= i < fields.len() implies prototype_ids(before).contains(
                (#[trigger] fields[i]).value_shape_id,
            ) by {
                lemma_index_by_value(before, by_trail(), field_trail(values.trail, fields[i].key));
            }
        },
        _ => {},
    }
}

/// A node that stands for all the kinds seen at a location, null aside, takes
/// from outside only shapes of the nodes that it was built from.
proof fn lemma_kinds_fit_takes_from(
    values: TrailValuesView,
    before: Seq<PrototypeView>,
    prototype: PrototypeView,
)
    requires
        kinds_fit(values, prototypes_by_trail(before), prototype),
    ensures
        takes_from(prototype, prototype_ids(before)),
{
    let kinds = observed_kinds(values);
    if kinds.len() == 1 {
        lemma_descriptor_fits_takes_from(kinds[0], values, before, prototype);
    } else if kinds.len() > 1 {
        let branches = prototype.descriptor->branches;
        let parameter_ids = prototype.descriptor->parameter_ids;
        assert forall|i: int| 0 <= i < paired(branches, parameter_ids) implies takes_from(
            #[trigger] branches[i],
            prototype_ids(before),
        ) by {
            lemma_descriptor_fits_takes_from(kinds[i], values, before, branches[i]);
        }
    }
}

/// The node of a location takes from outside only shapes of the nodes that it
/// was built from.
pub proof fn lemma_fits_takes_from(
    values: TrailValuesView,
    before: Seq<PrototypeView>,
    prototype: PrototypeView,
)
    requires
        prototype_fits(values, prototypes_by_trail(before), prototype),
    ensures
        takes_from(prototype, prototype_ids(before)),
{
    if values.was_null {
        lemma_kinds_fit_takes_from(values, before, *prototype.descriptor->shape);
    } else {
        lemma_kinds_fit_takes_from(values, before, prototype);
    }
}

/// In a shape tree every node takes from outside only shapes of nodes before
/// it.
pub proof fn lemma_built_takes_from_earlier(
    observations: Map<Seq<PathStep>, TrailValuesView>,
    prototypes: Seq<PrototypeView>,
)
    requires
        builds(observations, prototypes),
    ensures
        each_takes_from_earlier(prototypes),
{
    assert forall|i: int| 0 <= i < prototypes.len() implies takes_from(
        #[trigger] prototypes[i],
        prototype_ids(prototypes.take(i)),
    ) by {
        lemma_fits_takes_from(observations[prototypes[i].trail], prototypes.take(i), prototypes[i]);
    }
}

/// The commands of a shape tree refer to no shape that is declared later or
/// not at all.
pub proof fn lemma_built_commands_refer_back(
    observations: Map<Seq<PathStep>, TrailValuesView>,
    prototypes: Seq<PrototypeView>,
)
    requires
        builds(observations, prototypes),
    ensures
        no_forward_references(all_commands(prototypes)),
{
    lemma_built_takes_from_earlier(observations, prototypes);
    lemma_all_commands_refer_back(prototypes);
}

/// A location that lies after the next one to be built has its node already.
proof fn lemma_later_location_built(
    sorted: Seq<TrailValuesView>,
    built: Seq<PrototypeView>,
    m: int,
    location: Seq<PathStep>,
)
    requires
        ascending_trails(sorted),
        0 < m <= sorted.len(),
        built.len() == sorted.len() - m,
        forall|j: int|
            0 <= j < built.len() ==> (#[trigger] built[j]).trail == sorted[sorted.len() - 1 - j].trail,
        index_by(sorted, values_trail()).dom().contains(location),
        trail_less(sorted[m - 1].trail, location),
    ensures
        prototypes_by_trail(built).dom().contains(location),
{
    lemma_index_by_domain(sorted, values_trail(), location);
    let q = choose|q: int| 0 <= q < sorted.len() && values_trail()(#[trigger] sorted[q]) == location;
    if q == m - 1 {
        lemma_trail_less_irreflexive(location);
    } else if q < m - 1 {
        assert(trail_less(sorted[q].trail, sorted[m - 1].trail));
        lemma_trail_less_transitive(location, sorted[m - 1].trail, location);
        lemma_trail_less_irreflexive(location);
    } else {
        let j = sorted.len() - 1 - q;
        assert(built[j].trail == sorted[sorted.len() - 1 - j].trail);
        assert(by_trail()(built[j]) == location);
        lemma_index_by_domain(built, by_trail(), location);
    }
}

/// The next location to be built finds the nodes that it is built from.
proof fn lemma_can_build_next(
    observations: Map<Seq<PathStep>, TrailValuesView>,
    sorted: Seq<TrailValuesView>,
    built: Seq<PrototypeView>,
    m: int,
)
    requires
        complete(observations),
        index_by(sorted, values_trail()) == observations,
        ascending_trails(sorted),
        0 < m <= sorted.len(),
        built.len() == sorted.len() - m,
        forall|j: int|
            0 <= j < built.len() ==> (#[trigger] built[j]).trail == sorted[sorted.len() - 1 - j].trail,
    ensures
        can_build(sorted[m - 1], prototypes_by_trail(built)),
{
    let values = sorted[m - 1];
    lemma_ascending_distinct(sorted);
    lemma_index_by_distinct(sorted, values_trail(), m - 1);
    assert(observations.dom().contains(values.trail));
    assert(children_among(values, observations.dom()));
    if values.was_array && !values.was_empty_array {
        lemma_parent_before_child(values.trail, PathStep::ArrayItem { index: 0 });
        lemma_later_location_built(sorted, built, m, item_trail(values.trail));
    }
    if values.was_object {
        assert forall|key: Seq<char>| #[trigger]
            all_keys(values.field_sets).contains(key) implies prototypes_by_trail(
            built,
        ).dom().contains(field_trail(values.trail, key)) by {
            lemma_parent_before_child(values.trail, PathStep::ObjectKey { key });
            lemma_later_location_built(sorted, built, m, field_trail(values.trail, key));
        }
    }
}

impl TrailObservationsResult {
    /// Tells whether something was seen at every location that a node of the
    /// shape tree is built from.
    fn children_present(&self, values: &TrailValues) -> (r: bool)
        ensures
            r == children_among(values@, self@.dom()),
    {
        if values.was_array && !values.was_empty_array {
            if self.get(&values.trail.with_array_item(0)).is_none() {
                return false;
            }
        }
        if values.was_object {
            let (keys, _) = field_keys(&values.field_sets);
            let mut k: usize = 0;
            while k < keys.len()
                invariant
                    k <= keys.len(),
                    values@.was_object,
                    texts(keys@).to_set() == all_keys(values@.field_sets),
                    forall|q: int|
                        0 <= q < k ==> self@.dom().contains(
                            field_trail(values@.trail, #[trigger] texts(keys@)[q]),
                        ),
                decreases keys.len() - k,
            {
                if self.get(&values.trail.with_object_key(keys[k].clone())).is_none() {
                    proof {
                        let key = texts(keys@)[k as int];
                        assert(key == keys@[k as int]@);
                        assert(texts(keys@).to_set().contains(key));
                        assert(all_keys(values@.field_sets).contains(key));
                    }
                    return false;
                }
                assert(texts(keys@)[k as int] == keys@[k as int]@);
                k += 1;
            }
            assert forall|key: Seq<char>| #[trigger]
                all_keys(values@.field_sets).contains(key) implies self@.dom().contains(
                field_trail(values@.trail, key),
            ) by {
                assert(texts(keys@).to_set().contains(key));
                let q = choose|q: int| 0 <= q < texts(keys@).len() && texts(keys@)[q] == key;
            }
        }
        true
    }

    /// Tells whether the observations are complete: whether something was
    /// seen of the items of every array that was never empty, and under each
    /// key of every object.
    pub fn is_complete(&self) -> (r: bool)
        ensures
            r == complete(self@),
    {
        let values = self.values();
        let ghost views = value_views(values@);
        let mut i: usize = 0;
        while i < values.len()
            invariant
                i <= values.len(),
                views == value_views(values@),
                index_by(views, values_trail()) == self@,
                distinct_keys(views, values_trail()),
                forall|j: int| 0 <= j < i ==> children_among(#[trigger] views[j], self@.dom()),
            decreases values.len() - i,
        {
            assert(views[i as int] == values@[i as int]@);
            if !self.children_present(&values[i]) {
                proof {
                    lemma_index_by_distinct(views, values_trail(), i as int);
                    assert(self@.dom().contains(views[i as int].trail));
                }
                return false;
            }
            i += 1;
        }
        assert forall|t: Seq<PathStep>| #[trigger] self@.dom().contains(t) implies children_among(
            self@[t],
            self@.dom(),
        ) by {
            lemma_index_by_value(views, values_trail(), t);
        }
        true
    }

    /// Builds the shape tree of the observations: the node of every location,
    /// the deepest locations first. The identifiers that are new with the
    /// nodes come from `id_source`, node after node.
    pub fn into_shape_prototypes_with<G: SpecIdGenerator>(
        self,
        id_source: &mut IdSource<G>,
    ) -> (r: Vec<ShapePrototype>)
        requires
            complete(self@),
        ensures
            builds(self@, prototype_views(r@)),
            final(id_source).issued() == old(id_source).issued() + all_requests(
                prototype_views(r@),
            ),
    {
        let ghost observations = self@;
        let mut remaining = sort_by_trail(self.into_values());
        let ghost sorted = value_views(remaining@);
        let ghost n = sorted.len() as int;
        let mut prototypes: Vec<ShapePrototype> = Vec::new();
        proof {
            lemma_ascending_distinct(sorted);
            assert(prototype_views(prototypes@) =~= Seq::empty());
            assert(id_source.issued() + all_requests(prototype_views(prototypes@))
                =~= id_source.issued());
        }
        while remaining.len() > 0
            invariant
                id_source.issued() == old(id_source).issued() + all_requests(
                    prototype_views(prototypes@),
                ),
                complete(observations),
                index_by(sorted, values_trail()) == observations,
                ascending_trails(sorted),
                distinct_keys(sorted, values_trail()),
                n == sorted.len(),
                remaining@.len() <= n,
                value_views(remaining@) == sorted.take(remaining@.len() as int),
                prototypes@.len() == n - remaining@.len(),
                forall|j: int|
                    0 <= j < prototypes@.len() ==> {
                        &&& (#[trigger] prototype_views(prototypes@)[j]).trail == sorted[n - 1
                            - j].trail
                        &&& prototype_fits(
                            sorted[n - 1 - j],
                            prototypes_by_trail(prototype_views(prototypes@).take(j)),
                            prototype_views(prototypes@)[j],
                        )
                    },
            decreases remaining@.len(),
        {
            let ghost m = remaining@.len() as int;
            let ghost before = prototype_views(prototypes@);
            let values = remaining.pop().unwrap();
            proof {
                assert(value_views(remaining@) =~= sorted.take(m - 1));
                assert(values@ == sorted[m - 1]) by {
                    assert(sorted.take(m)[m - 1] == sorted[m - 1]);
                }
                lemma_can_build_next(observations, sorted, before, m);
            }
            let prototype = values.into_shape_prototype_with(id_source, &prototypes);
            prototypes.push(prototype);
            proof {
                let after = prototype_views(prototypes@);
                assert(after =~= before.push(prototype@));
                assert(after.drop_last() =~= before);
                assert(id_source.issued() =~= old(id_source).issued() + all_requests(after));
                assert(after.take(before.len() as int) =~= before);
                assert forall|j: int| 0 <= j < after.len() implies {
                    &&& (#[trigger] after[j]).trail == sorted[n - 1 - j].trail
                    &&& prototype_fits(
                        sorted[n - 1 - j],
                        prototypes_by_trail(after.take(j)),
                        after[j],
                    )
                } by {
                    if j < before.len() {
                        assert(after[j] == before[j]);
                        assert(after.take(j) =~= before.take(j));
                    }
                }
            }
        }
        proof {
            let built = prototype_views(prototypes@);
            assert forall|t: Seq<PathStep>| #[trigger]
                observations.dom().contains(t) <==> exists|i: int|
                    0 <= i < built.len() && (#[trigger] built[i]).trail == t by {
                lemma_index_by_domain(sorted, values_trail(), t);
                if observations.dom().contains(t) {
                    let q = choose|q: int|
                        0 <= q < sorted.len() && values_trail()(#[trigger] sorted[q]) == t;
                    assert(built[n - 1 - q].trail == t);
                }
                if exists|i: int| 0 <= i < built.len() && (#[trigger] built[i]).trail == t {
                    let i = choose|i: int| 0 <= i < built.len() && (#[trigger] built[i]).trail == t;
                    assert(values_trail()(sorted[n - 1 - i]) == t);
                }
            }
            assert forall|i: int, j: int| 0 <= i < j < built.len() implies trail_less(
                (#[trigger] built[j]).trail,
                (#[trigger] built[i]).trail,
            ) by {
                assert(trail_less(sorted[n - 1 - j].trail, sorted[n - 1 - i].trail));
            }
            assert forall|i: int| 0 <= i < built.len() implies prototype_fits(
                observations[(#[trigger] built[i]).trail],
                prototypes_by_trail(built.take(i)),
                built[i],
            ) by {
                lemma_index_by_distinct(sorted, values_trail(), n - 1 - i);
            }
        }
        prototypes
    }

    /// Builds the shape tree of the observations: the node of every location,
    /// the deepest locations first.
    pub fn into_shape_prototypes<G: SpecIdGenerator>(self, id_generator: &mut G) -> (r: Vec<
        ShapePrototype,
    >)
        requires
            complete(self@),
        ensures
            builds(self@, prototype_views(r@)),
    {
        let mut id_source = IdSource::new(id_generator);
        self.into_shape_prototypes_with(&mut id_source)
    }

    /// Converts the observations into the commands that build their shape:
    /// the node of every location, the deepest locations first, and for each
    /// node its commands. Hands back the commands with the identifier of the
    /// shape at `root_trail`, if something was seen there. The identifiers
    /// that are new with the nodes come from `id_source`, node after node.
    pub fn into_commands_with<G: SpecIdGenerator>(
        self,
        id_source: &mut IdSource<G>,
        root_trail: &JsonTrail,
    ) -> (r: (Option<String>, Vec<ShapeCommand>))
        requires
            complete(self@),
        ensures
            exists|prototypes: Seq<PrototypeView>|
                {
                    &&& #[trigger] converts(
                        self@,
                        root_trail@,
                        prototypes,
                        option_text(r.0),
                        command_views(r.1@),
                    )
                    &&& final(id_source).issued() == old(id_source).issued() + all_requests(
                        prototypes,
                    )
                },
            r.0 is Some <==> self@.dom().contains(root_trail@),
            no_forward_references(command_views(r.1@)),
            never_repeats(final(id_source).issued()) ==> declares_once(command_views(r.1@)),
    {
        let ghost observations = self@;
        let shape_prototypes = self.into_shape_prototypes_with(id_source);
        let ghost built = prototype_views(shape_prototypes@);
        let root_shape_id = match find_prototype(&shape_prototypes, root_trail) {
            Some(root_shape_prototype) => Some(root_shape_prototype.id.clone()),
            None => None,
        };
        proof {
            lemma_index_by_domain(built, by_trail(), root_trail@);
            lemma_built_commands_refer_back(observations, built);
        }
        let commands = shape_prototypes_to_commands(shape_prototypes);
        let r = (root_shape_id, commands);
        proof {
            assert(converts(
                observations,
                root_trail@,
                built,
                option_text(r.0),
                command_views(r.1@),
            ));
            assert(id_source.issued() == old(id_source).issued() + all_requests(built));
            if never_repeats(id_source.issued()) {
                lemma_later_part_never_repeats(old(id_source).issued(), all_requests(built));
                lemma_no_shape_declared_twice(observations, built);
            }
        }
        r
    }

    /// Converts the observations into the commands that build their shape:
    /// the node of every location, the deepest locations first, and for each
    /// node its commands. Hands back the commands with the identifier of the
    /// shape at `root_trail`, if something was seen there.
    pub fn into_commands<G: SpecIdGenerator>(
        self,
        id_generator: &mut G,
        root_trail: &JsonTrail,
    ) -> (r: (Option<String>, Vec<ShapeCommand>))
        requires
            complete(self@),
        ensures
            exists|prototypes: Seq<PrototypeView>| #[trigger]
                converts(self@, root_trail@, prototypes, option_text(r.0), command_views(r.1@)),
            r.0 is Some <==> self@.dom().contains(root_trail@),
            no_forward_references(command_views(r.1@)),
    {
        let mut id_source = IdSource::new(id_generator);
        self.into_commands_with(&mut id_source, root_trail)
    }

    /// Converts the observations as `into_commands` does where they are
    /// complete, and hands back nothing where they are not.
    pub fn checked_into_commands<G: SpecIdGenerator>(
        self,
        id_generator: &mut G,
        root_trail: &JsonTrail,
    ) -> (r: Option<(Option<String>, Vec<ShapeCommand>)>)
        ensures
            r is Some <==> complete(self@),
            r matches Some(done) ==> {
                &&& exists|prototypes: Seq<PrototypeView>| #[trigger]
                    converts(
                        self@,
                        root_trail@,
                        prototypes,
                        option_text(done.0),
                        command_views(done.1@),
                    )
                &&& done.0 is Some <==> self@.dom().contains(root_trail@)
                &&& no_forward_references(command_views(done.1@))
            },
    {
        if self.is_complete() {
            Some(self.into_commands(id_generator, root_trail))
        } else {
            None
        }
    }
}

} // verus!
