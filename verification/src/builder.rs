//! From the observations at one location to the node of the shape tree that
//! stands for them.

use crate::field_keys::{all_keys, field_keys, optional_keys};
use crate::field_set::{is_sorted_listing, texts};
use crate::id_source::{issued_field, issued_parameter, issued_shape, IdSource, IssuedId};
use crate::json_trail::{JsonTrail, PathStep};
use crate::prototype::{
    descriptor_view, field_views, prototype_views, DescriptorView, FieldPrototypeDescriptor,
    FieldPrototypeView, PrototypeView, ShapePrototype, ShapePrototypeDescriptor,
};
use crate::state::{ShapeKind, SpecIdGenerator};
use crate::table::{index_by, lemma_index_by_domain, lemma_index_by_last};
use crate::trail_values::{TrailValues, TrailValuesView};
use vstd::prelude::*;

verus! {

/// The key under which a node is looked up: its location.
pub open spec fn by_trail() -> spec_fn(PrototypeView) -> Seq<PathStep> {
    |p: PrototypeView| p.trail
}

/// The nodes of a sequence by their location. Where two nodes share a
/// location, the later one is found.
pub open spec fn prototypes_by_trail(prototypes: Seq<PrototypeView>) -> Map<
    Seq<PathStep>,
    PrototypeView,
> {
    index_by(prototypes, by_trail())
}

/// The location of the items of the array at `trail`. All the items of an
/// array share the one location of its first item.
pub open spec fn item_trail(trail: Seq<PathStep>) -> Seq<PathStep> {
    trail.push(PathStep::ArrayItem { index: 0 })
}

/// The location of the value under `key` in the object at `trail`.
pub open spec fn field_trail(trail: Seq<PathStep>, key: Seq<char>) -> Seq<PathStep> {
    trail.push(PathStep::ObjectKey { key })
}

/// The kinds of value that get a shape of their own. Null does not: it wraps
/// what the others give.
pub enum ObservedKind {
    String,
    Number,
    Boolean,
    Array,
    Object,
}

/// The kinds seen at a location, in the order in which their shapes are made.
pub open spec fn observed_kinds(values: TrailValuesView) -> Seq<ObservedKind> {
    let none = Seq::<ObservedKind>::empty();
    let s = if values.was_string {
        none.push(ObservedKind::String)
    } else {
        none
    };
    let n = if values.was_number {
        s.push(ObservedKind::Number)
    } else {
        s
    };
    let b = if values.was_boolean {
        n.push(ObservedKind::Boolean)
    } else {
        n
    };
    let a = if values.was_array {
        b.push(ObservedKind::Array)
    } else {
        b
    };
    if values.was_object {
        a.push(ObservedKind::Object)
    } else {
        a
    }
}

/// The locations below that of `values` whose nodes its own node is built
/// from are among `locations`: the location of the items, where an array was
/// seen and never an empty one, and the location of the value of every key,
/// where an object was seen.
pub open spec fn children_among(values: TrailValuesView, locations: Set<Seq<PathStep>>) -> bool {
    &&& values.was_array && !values.was_empty_array ==> locations.contains(item_trail(values.trail))
    &&& values.was_object ==> forall|key: Seq<char>| #[trigger]
        all_keys(values.field_sets).contains(key) ==> locations.contains(
            field_trail(values.trail, key),
        )
}

/// `table` holds the nodes that the node of `values` is built from.
pub open spec fn can_build(values: TrailValuesView, table: Map<Seq<PathStep>, PrototypeView>) -> bool {
    children_among(values, table.dom())
}

/// `descriptor` is the list shape for the arrays of `values`. Where an empty
/// array was seen and the items have no node, the item shape is a new one that
/// is yet to be declared; otherwise it is the shape of the node of the items.
pub open spec fn list_fits(
    values: TrailValuesView,
    table: Map<Seq<PathStep>, PrototypeView>,
    descriptor: DescriptorView,
) -> bool {
    &&& descriptor matches DescriptorView::List { item_shape_id, item_is_unknown }
    &&& if values.was_empty_array && !table.dom().contains(item_trail(values.trail)) {
        item_is_unknown
    } else {
        &&& !item_is_unknown
        &&& table.dom().contains(item_trail(values.trail))
        &&& item_shape_id == table[item_trail(values.trail)].id
    }
}

/// `field` is the field for its key in the objects of `values`: its values
/// have the shape of the node of that key, and it has an optional shape
/// exactly if the key is optional.
pub open spec fn field_fits(
    values: TrailValuesView,
    table: Map<Seq<PathStep>, PrototypeView>,
    field: FieldPrototypeView,
) -> bool {
    &&& table.dom().contains(field_trail(values.trail, field.key))
    &&& field.value_shape_id == table[field_trail(values.trail, field.key)].id
    &&& field.optional_shape_id is Some <==> optional_keys(values.field_sets).contains(field.key)
}

/// The keys of the fields, in the order of the fields.
pub open spec fn field_key_list(fields: Seq<FieldPrototypeView>) -> Seq<Seq<char>> {
    fields.map_values(|f: FieldPrototypeView| f.key)
}

/// `descriptor` is the object shape for the objects of `values`: one field
/// for each key that was seen, in the ascending order of the keys.
pub open spec fn object_fits(
    values: TrailValuesView,
    table: Map<Seq<PathStep>, PrototypeView>,
    descriptor: DescriptorView,
) -> bool {
    &&& descriptor matches DescriptorView::Object { fields }
    &&& is_sorted_listing(field_key_list(fields), all_keys(values.field_sets))
    &&& forall|i: int| 0 <= i < fields.len() ==> field_fits(values, table, #[trigger] fields[i])
}

/// `descriptor` is the shape for the values of kind `kind` among `values`.
pub open spec fn descriptor_fits(
    kind: ObservedKind,
    values: TrailValuesView,
    table: Map<Seq<PathStep>, PrototypeView>,
    descriptor: DescriptorView,
) -> bool {
    match kind {
        ObservedKind::String => descriptor == (DescriptorView::Primitive {
            base_shape_kind: ShapeKind::StringKind,
        }),
        ObservedKind::Number => descriptor == (DescriptorView::Primitive {
            base_shape_kind: ShapeKind::NumberKind,
        }),
        ObservedKind::Boolean => descriptor == (DescriptorView::Primitive {
            base_shape_kind: ShapeKind::BooleanKind,
        }),
        ObservedKind::Array => list_fits(values, table, descriptor),
        ObservedKind::Object => object_fits(values, table, descriptor),
    }
}

/// `prototype` joins `descriptors` into one node at `trail`: the unknown
/// shape for none, the descriptor itself for one, and for more a polymorphic
/// shape with one branch at `trail` and one parameter for each.
pub open spec fn combines(
    trail: Seq<PathStep>,
    descriptors: Seq<DescriptorView>,
    prototype: PrototypeView,
) -> bool {
    &&& prototype.trail == trail
    &&& if descriptors.len() == 0 {
        prototype.descriptor == DescriptorView::Unknown
    } else if descriptors.len() == 1 {
        prototype.descriptor == descriptors[0]
    } else {
        &&& prototype.descriptor matches DescriptorView::OneOf { branches, parameter_ids }
        &&& branches.len() == descriptors.len()
        &&& parameter_ids.len() == descriptors.len()
        &&& forall|i: int|
            0 <= i < branches.len() ==> {
                &&& (#[trigger] branches[i]).trail == trail
                &&& branches[i].descriptor == descriptors[i]
            }
    }
}

/// `prototype` stands for all the kinds of `values` but null: the unknown
/// shape where none was seen, the shape of the one kind where one was seen,
/// and a polymorphic shape with a branch for each kind where more were seen.
pub open spec fn kinds_fit(
    values: TrailValuesView,
    table: Map<Seq<PathStep>, PrototypeView>,
    prototype: PrototypeView,
) -> bool {
    let kinds = observed_kinds(values);
    &&& prototype.trail == values.trail
    &&& if kinds.len() == 0 {
        prototype.descriptor == DescriptorView::Unknown
    } else if kinds.len() == 1 {
        descriptor_fits(kinds[0], values, table, prototype.descriptor)
    } else {
        &&& prototype.descriptor matches DescriptorView::OneOf { branches, parameter_ids }
        &&& branches.len() == kinds.len()
        &&& parameter_ids.len() == kinds.len()
        &&& forall|i: int|
            0 <= i < branches.len() ==> {
                &&& (#[trigger] branches[i]).trail == values.trail
                &&& descriptor_fits(kinds[i], values, table, branches[i].descriptor)
            }
    }
}

/// `prototype` is the node for `values`, given the nodes of `table` for the
/// locations below: what `kinds_fit` says, inside a nullable shape at the same
/// location where null was seen. Which identifiers are new with the node, and
/// in which order they were asked for, `node_requests` says.
pub open spec fn prototype_fits(
    values: TrailValuesView,
    table: Map<Seq<PathStep>, PrototypeView>,
    prototype: PrototypeView,
) -> bool {
    if values.was_null {
        &&& prototype.trail == values.trail
        &&& prototype.descriptor matches DescriptorView::Nullable { shape }
        &&& kinds_fit(values, table, *shape)
    } else {
        kinds_fit(values, table, prototype)
    }
}

/// The descriptors of a vector, as contracts see them.
pub open spec fn descriptor_views(descriptors: Seq<ShapePrototypeDescriptor>) -> Seq<
    DescriptorView,
> {
    descriptors.map_values(|d: ShapePrototypeDescriptor| descriptor_view(d))
}

/// Looks up the node at `trail`.
pub fn find_prototype<'a>(prototypes: &'a Vec<ShapePrototype>, trail: &JsonTrail) -> (r: Option<
    &'a ShapePrototype,
>)
    ensures
        match r {
            Some(p) => {
                &&& prototypes_by_trail(prototype_views(prototypes@)).dom().contains(trail@)
                &&& p@ == prototypes_by_trail(prototype_views(prototypes@))[trail@]
            },
            None => !prototypes_by_trail(prototype_views(prototypes@)).dom().contains(trail@),
        },
{
    let ghost views = prototype_views(prototypes@);
    let mut i: usize = prototypes.len();
    while i > 0
        invariant
            i <= prototypes.len(),
            views == prototype_views(prototypes@),
            forall|j: int| i <= j < views.len() ==> (#[trigger] views[j]).trail != trail@,
        decreases i,
    {
        i -= 1;
        if prototypes[i].trail.same_as(trail) {
            proof {
                assert(views[i as int] == prototypes@[i as int]@);
                assert forall|j: int| i < j < views.len() implies by_trail()(#[trigger] views[j])
                    != by_trail()(views[i as int]) by {}
                lemma_index_by_last(views, by_trail(), i as int);
            }
            return Some(&prototypes[i]);
        }
        assert(views[i as int] == prototypes@[i as int]@);
    }
    proof {
        lemma_index_by_domain(views, by_trail(), trail@);
        if prototypes_by_trail(views).dom().contains(trail@) {
            let j = choose|j: int| 0 <= j < views.len() && by_trail()(#[trigger] views[j]) == trail@;
            assert(views[j].trail != trail@);
        }
    }
    None
}

/// The identifiers that are new with a field, in the order in which they
/// are asked for: that of the field, then that of its optional shape, if it
/// has one.
pub open spec fn field_requests(field: FieldPrototypeView) -> Seq<IssuedId> {
    match field.optional_shape_id {
        Some(optional) => seq![issued_field(field.field_id), issued_shape(optional)],
        None => seq![issued_field(field.field_id)],
    }
}

/// The identifiers that are new with the fields, field after field.
pub open spec fn fields_requests(fields: Seq<FieldPrototypeView>) -> Seq<IssuedId>
    decreases fields.len(),
{
    if fields.len() == 0 {
        Seq::empty()
    } else {
        fields_requests(fields.drop_last()) + field_requests(fields.last())
    }
}

/// The identifiers that are new with the shape of one kind of value: the item
/// shape of a list whose items were never seen, and what is new with the
/// fields of an object.
pub open spec fn descriptor_requests(descriptor: DescriptorView) -> Seq<IssuedId> {
    match descriptor {
        DescriptorView::List { item_shape_id, item_is_unknown } => if item_is_unknown {
            seq![issued_shape(item_shape_id)]
        } else {
            Seq::empty()
        },
        DescriptorView::Object { fields } => fields_requests(fields),
        _ => Seq::empty(),
    }
}

/// The identifiers that are new with the shapes of several kinds of value,
/// shape after shape.
pub open spec fn descriptors_requests(descriptors: Seq<DescriptorView>) -> Seq<IssuedId>
    decreases descriptors.len(),
{
    if descriptors.len() == 0 {
        Seq::empty()
    } else {
        descriptors_requests(descriptors.drop_last()) + descriptor_requests(descriptors.last())
    }
}

/// What the branches are, branch after branch.
pub open spec fn branch_descriptors(branches: Seq<PrototypeView>) -> Seq<DescriptorView> {
    branches.map_values(|b: PrototypeView| b.descriptor)
}

/// The identifiers of the parameters, as they were asked for.
pub open spec fn parameter_requests(parameter_ids: Seq<Seq<char>>) -> Seq<IssuedId> {
    parameter_ids.map_values(|id: Seq<char>| issued_parameter(id))
}

/// The identifiers of the branches, as they were asked for.
pub open spec fn branch_requests(branches: Seq<PrototypeView>) -> Seq<IssuedId> {
    branches.map_values(|b: PrototypeView| issued_shape(b.id))
}

/// The identifiers that are new with the node that stands for the kinds seen
/// at a location, null aside, in the order in which they are asked for: what
/// is new with the shape of each kind, then the identifier of the node, and
/// for a polymorphic shape the identifiers of its parameters and then those
/// of its branches.
pub open spec fn kinds_requests(prototype: PrototypeView) -> Seq<IssuedId> {
    match prototype.descriptor {
        DescriptorView::OneOf { branches, parameter_ids } => descriptors_requests(
            branch_descriptors(branches),
        ) + seq![issued_shape(prototype.id)] + parameter_requests(parameter_ids) + branch_requests(
            branches,
        ),
        _ => descriptor_requests(prototype.descriptor) + seq![issued_shape(prototype.id)],
    }
}

/// The identifiers that are new with the node of a location, in the order in
/// which they are asked for: those of `kinds_requests` for the node itself, or
/// for the node inside a nullable shape and then the identifier of the
/// nullable shape.
pub open spec fn node_requests(prototype: PrototypeView) -> Seq<IssuedId> {
    match prototype.descriptor {
        DescriptorView::Nullable { shape } => kinds_requests(*shape).push(
            issued_shape(prototype.id),
        ),
        _ => kinds_requests(prototype),
    }
}

/// The identifiers that are new with the nodes of a sequence, node after
/// node.
pub open spec fn all_requests(prototypes: Seq<PrototypeView>) -> Seq<IssuedId>
    decreases prototypes.len(),
{
    if prototypes.len() == 0 {
        Seq::empty()
    } else {
        all_requests(prototypes.drop_last()) + node_requests(prototypes.last())
    }
}

/// The list shape for the arrays seen at a location.
fn list_descriptor<G: SpecIdGenerator>(
    values: &TrailValues,
    id_source: &mut IdSource<G>,
    existing_prototypes: &Vec<ShapePrototype>,
) -> (r: ShapePrototypeDescriptor)
    requires
        values@.was_empty_array || prototypes_by_trail(
            prototype_views(existing_prototypes@),
        ).dom().contains(item_trail(values@.trail)),
    ensures
        list_fits(values@, prototypes_by_trail(prototype_views(existing_prototypes@)), r@),
        final(id_source).issued() == old(id_source).issued() + descriptor_requests(r@),
{
    let item_trail = values.trail.with_array_item(0);
    match find_prototype(existing_prototypes, &item_trail) {
        Some(item_prototype) => {
            let r = ShapePrototypeDescriptor::ListOfShape {
                item_shape_id: item_prototype.id.clone(),
                item_is_unknown: false,
            };
            assert(id_source.issued() + descriptor_requests(r@) =~= id_source.issued());
            r
        },
        None => {
            let r = ShapePrototypeDescriptor::ListOfShape {
                item_shape_id: id_source.shape(),
                item_is_unknown: true,
            };
            assert(old(id_source).issued() + descriptor_requests(r@) =~= id_source.issued());
            r
        },
    }
}

/// The object shape for the objects seen at a location.
fn object_descriptor<G: SpecIdGenerator>(
    values: &TrailValues,
    id_source: &mut IdSource<G>,
    existing_prototypes: &Vec<ShapePrototype>,
) -> (r: ShapePrototypeDescriptor)
    requires
        forall|key: Seq<char>| #[trigger]
            all_keys(values@.field_sets).contains(key) ==> prototypes_by_trail(
                prototype_views(existing_prototypes@),
            ).dom().contains(field_trail(values@.trail, key)),
    ensures
        object_fits(values@, prototypes_by_trail(prototype_views(existing_prototypes@)), r@),
        final(id_source).issued() == old(id_source).issued() + descriptor_requests(r@),
{
    let ghost table = prototypes_by_trail(prototype_views(existing_prototypes@));
    let (keys, optional) = field_keys(&values.field_sets);
    let mut fields: Vec<FieldPrototypeDescriptor> = Vec::new();
    let mut i: usize = 0;
    assert(field_views(fields@) =~= Seq::empty());
    assert(id_source.issued() + fields_requests(field_views(fields@)) =~= id_source.issued());
    while i < keys.len()
        invariant
            i <= keys.len(),
            table == prototypes_by_trail(prototype_views(existing_prototypes@)),
            is_sorted_listing(texts(keys@), all_keys(values@.field_sets)),
            optional@ == optional_keys(values@.field_sets),
            forall|key: Seq<char>| #[trigger]
                all_keys(values@.field_sets).contains(key) ==> table.dom().contains(
                    field_trail(values@.trail, key),
                ),
            fields@.len() == i,
            forall|j: int|
                0 <= j < i ==> {
                    &&& (#[trigger] fields@[j])@.key == keys@[j]@
                    &&& field_fits(values@, table, fields@[j]@)
                },
            id_source.issued() == old(id_source).issued() + fields_requests(field_views(fields@)),
        decreases keys.len() - i,
    {
        let ghost issued_before = id_source.issued();
        let ghost fields_before = field_views(fields@);
        let key = keys[i].clone();
        proof {
            assert(texts(keys@)[i as int] == key@);
            assert(texts(keys@).to_set().contains(key@));
        }
        let field_trail = values.trail.with_object_key(key.clone());
        let is_optional = optional.contains(&key);
        let field_shape_prototype = find_prototype(existing_prototypes, &field_trail).unwrap();
        let field_id = id_source.field();
        let optional_shape_id = if is_optional {
            Some(id_source.shape())
        } else {
            None
        };
        let field = FieldPrototypeDescriptor {
            field_id,
            key,
            optional_shape_id,
            value_shape_id: field_shape_prototype.id.clone(),
        };
        proof {
            assert(field_views(fields@.push(field)) =~= fields_before.push(field@));
            assert(fields_before.push(field@).drop_last() =~= fields_before);
            assert(id_source.issued() =~= issued_before + field_requests(field@));
            assert(id_source.issued() =~= old(id_source).issued() + fields_requests(
                fields_before.push(field@),
            ));
        }
        fields.push(field);
        i += 1;
    }
    let r = ShapePrototypeDescriptor::ObjectWithFields { fields };
    proof {
        let views = r@->fields;
        assert(views == field_views(fields@));
        assert(field_key_list(views) =~= texts(keys@));
        assert forall|j: int| 0 <= j < views.len() implies field_fits(
            values@,
            table,
            #[trigger] views[j],
        ) by {
            assert(views[j] == fields@[j]@);
        }
    }
    r
}

/// The shapes of a sequence with one more shape ask for what the sequence
/// asks for and then for what that shape asks for.
proof fn lemma_descriptors_requests_push(
    descriptors: Seq<ShapePrototypeDescriptor>,
    descriptor: ShapePrototypeDescriptor,
)
    ensures
        descriptor_views(descriptors.push(descriptor)) == descriptor_views(descriptors).push(
            descriptor@,
        ),
        descriptors_requests(descriptor_views(descriptors.push(descriptor)))
            == descriptors_requests(descriptor_views(descriptors)) + descriptor_requests(
            descriptor@,
        ),
{
    let views = descriptor_views(descriptors);
    assert(descriptor_views(descriptors.push(descriptor)) =~= views.push(descriptor@));
    assert(views.push(descriptor@).drop_last() =~= views);
}

/// The shapes for the kinds seen at a location, null aside, in the order of
/// `observed_kinds`.
fn kind_descriptors<G: SpecIdGenerator>(
    values: &TrailValues,
    id_source: &mut IdSource<G>,
    existing_prototypes: &Vec<ShapePrototype>,
) -> (r: Vec<ShapePrototypeDescriptor>)
    requires
        can_build(values@, prototypes_by_trail(prototype_views(existing_prototypes@))),
    ensures
        r@.len() == observed_kinds(values@).len(),
        forall|i: int|
            0 <= i < r@.len() ==> descriptor_fits(
                observed_kinds(values@)[i],
                values@,
                prototypes_by_trail(prototype_views(existing_prototypes@)),
                #[trigger] descriptor_views(r@)[i],
            ),
        final(id_source).issued() == old(id_source).issued() + descriptors_requests(
            descriptor_views(r@),
        ),
{
    let mut descriptors: Vec<ShapePrototypeDescriptor> = Vec::new();
    assert(descriptor_views(descriptors@) =~= Seq::empty());
    assert(id_source.issued() + descriptors_requests(descriptor_views(descriptors@))
        =~= id_source.issued());
    if values.was_string {
        let descriptor = ShapePrototypeDescriptor::PrimitiveKind {
            base_shape_kind: ShapeKind::StringKind,
        };
        proof {
            lemma_descriptors_requests_push(descriptors@, descriptor);
        }
        descriptors.push(descriptor);
    }
    if values.was_number {
        let descriptor = ShapePrototypeDescriptor::PrimitiveKind {
            base_shape_kind: ShapeKind::NumberKind,
        };
        proof {
            lemma_descriptors_requests_push(descriptors@, descriptor);
        }
        descriptors.push(descriptor);
    }
    if values.was_boolean {
        let descriptor = ShapePrototypeDescriptor::PrimitiveKind {
            base_shape_kind: ShapeKind::BooleanKind,
        };
        proof {
            lemma_descriptors_requests_push(descriptors@, descriptor);
        }
        descriptors.push(descriptor);
    }
    assert(id_source.issued() =~= old(id_source).issued() + descriptors_requests(
        descriptor_views(descriptors@),
    ));
    if values.was_array {
        let descriptor = list_descriptor(values, id_source, existing_prototypes);
        proof {
            lemma_descriptors_requests_push(descriptors@, descriptor);
        }
        descriptors.push(descriptor);
    }
    assert(id_source.issued() =~= old(id_source).issued() + descriptors_requests(
        descriptor_views(descriptors@),
    ));
    if values.was_object {
        let descriptor = object_descriptor(values, id_source, existing_prototypes);
        proof {
            lemma_descriptors_requests_push(descriptors@, descriptor);
        }
        descriptors.push(descriptor);
    }
    assert(id_source.issued() =~= old(id_source).issued() + descriptors_requests(
        descriptor_views(descriptors@),
    ));
    descriptors
}

/// Joins the shapes of the kinds seen at `trail` into one node. Asks for the
/// identifier of the node and, where there are several shapes, for those of
/// the parameters and then for those of the branches.
fn combine_descriptors<G: SpecIdGenerator>(
    trail: &JsonTrail,
    descriptors: Vec<ShapePrototypeDescriptor>,
    id_source: &mut IdSource<G>,
) -> (r: ShapePrototype)
    ensures
        combines(trail@, descriptor_views(descriptors@), r@),
        final(id_source).issued() == old(id_source).issued().push(issued_shape(r@.id)) + (
        if descriptors@.len() >= 2 {
            parameter_requests(r@.descriptor->parameter_ids) + branch_requests(
                r@.descriptor->branches,
            )
        } else {
            Seq::empty()
        }),
{
    let mut descriptors = descriptors;
    let ghost all = descriptors@;
    let count = descriptors.len();
    let shape_id = id_source.shape();
    let ghost started = id_source.issued();
    if count == 0 {
        assert(started + Seq::<IssuedId>::empty() =~= started);
        ShapePrototype {
            id: shape_id,
            trail: trail.clone(),
            prototype_descriptor: ShapePrototypeDescriptor::Unknown,
        }
    } else if count == 1 {
        assert(started + Seq::<IssuedId>::empty() =~= started);
        let descriptor = descriptors.remove(0);
        ShapePrototype { id: shape_id, trail: trail.clone(), prototype_descriptor: descriptor }
    } else {
        let mut parameter_ids: Vec<String> = Vec::new();
        let mut i: usize = 0;
        assert(started + parameter_requests(texts(parameter_ids@)) =~= started);
        while i < count
            invariant
                i <= count,
                parameter_ids@.len() == i,
                id_source.issued() == started + parameter_requests(texts(parameter_ids@)),
            decreases count - i,
        {
            let ghost before = texts(parameter_ids@);
            let parameter_id = id_source.shape_param();
            proof {
                assert(texts(parameter_ids@.push(parameter_id)) =~= before.push(parameter_id@));
                assert(parameter_requests(before.push(parameter_id@)) =~= parameter_requests(
                    before,
                ).push(issued_parameter(parameter_id@)));
                assert(id_source.issued() =~= started + parameter_requests(
                    before.push(parameter_id@),
                ));
            }
            parameter_ids.push(parameter_id);
            i += 1;
        }
        let ghost with_parameters = id_source.issued();
        let mut branches: Vec<ShapePrototype> = Vec::new();
        let mut k: usize = 0;
        assert(with_parameters + branch_requests(prototype_views(branches@)) =~= with_parameters);
        while k < count
            invariant
                k <= count,
                count == all.len(),
                branches@.len() == k,
                descriptors@ == all.skip(k as int),
                forall|j: int|
                    0 <= j < k ==> {
                        &&& (#[trigger] branches@[j])@.trail == trail@
                        &&& branches@[j]@.descriptor == descriptor_view(all[j])
                    },
                id_source.issued() == with_parameters + branch_requests(
                    prototype_views(branches@),
                ),
            decreases count - k,
        {
            let ghost before = prototype_views(branches@);
            let descriptor = descriptors.remove(0);
            assert(descriptors@ =~= all.skip(k + 1));
            let branch = ShapePrototype {
                id: id_source.shape(),
                trail: trail.clone(),
                prototype_descriptor: descriptor,
            };
            proof {
                assert(prototype_views(branches@.push(branch)) =~= before.push(branch@));
                assert(branch_requests(before.push(branch@)) =~= branch_requests(before).push(
                    issued_shape(branch@.id),
                ));
                assert(id_source.issued() =~= with_parameters + branch_requests(
                    before.push(branch@),
                ));
            }
            branches.push(branch);
            k += 1;
        }
        let r = ShapePrototype {
            id: shape_id,
            trail: trail.clone(),
            prototype_descriptor: ShapePrototypeDescriptor::OneOfShape { branches, parameter_ids },
        };
        proof {
            let views = r@.descriptor->branches;
            assert(views =~= prototype_views(branches@));
            assert forall|j: int| 0 <= j < views.len() implies {
                &&& (#[trigger] views[j]).trail == trail@
                &&& views[j].descriptor == descriptor_views(all)[j]
            } by {
                assert(views[j] == branches@[j]@);
            }
            assert(id_source.issued() =~= old(id_source).issued().push(issued_shape(r@.id)) + (
            parameter_requests(r@.descriptor->parameter_ids) + branch_requests(
                r@.descriptor->branches,
            )));
        }
        r
    }
}

/// The nullable shape `id` around `prototype`, at the same location.
pub fn nullable_prototype(id: String, prototype: ShapePrototype) -> (r: ShapePrototype)
    ensures
        r@ == (PrototypeView {
            id: id@,
            trail: prototype@.trail,
            descriptor: DescriptorView::Nullable { shape: Box::new(prototype@) },
        }),
{
    ShapePrototype {
        id,
        trail: prototype.trail.clone(),
        prototype_descriptor: ShapePrototypeDescriptor::NullableShape { shape: Box::new(prototype) },
    }
}

impl TrailValues {
    /// Builds the node of the shape tree for these observations. The nodes of
    /// the locations below come from `existing_prototypes`, the identifiers
    /// that are new with this node from `id_source`, in the order of
    /// `node_requests`.
    pub fn into_shape_prototype_with<G: SpecIdGenerator>(
        self,
        id_source: &mut IdSource<G>,
        existing_prototypes: &Vec<ShapePrototype>,
    ) -> (r: ShapePrototype)
        requires
            can_build(self@, prototypes_by_trail(prototype_views(existing_prototypes@))),
        ensures
            prototype_fits(self@, prototypes_by_trail(prototype_views(existing_prototypes@)), r@),
            final(id_source).issued() == old(id_source).issued() + node_requests(r@),
    {
        let descriptors = kind_descriptors(&self, id_source, existing_prototypes);
        let ghost shapes = descriptor_views(descriptors@);
        let shape_prototype = combine_descriptors(&self.trail, descriptors, id_source);
        proof {
            let inner = shape_prototype@;
            if shapes.len() == 1 {
                assert(shapes.drop_last() =~= Seq::empty());
                assert(descriptors_requests(Seq::empty()) =~= Seq::<IssuedId>::empty());
                assert(shapes.last() == shapes[0]);
                assert(descriptors_requests(shapes) =~= descriptor_requests(shapes[0]));
            } else if shapes.len() >= 2 {
                assert(branch_descriptors(inner.descriptor->branches) =~= shapes);
            }
            assert(id_source.issued() =~= old(id_source).issued() + kinds_requests(inner));
        }
        if self.was_null {
            let id = id_source.shape();
            let r = nullable_prototype(id, shape_prototype);
            assert(id_source.issued() =~= old(id_source).issued() + node_requests(r@));
            r
        } else {
            shape_prototype
        }
    }

    /// Builds the node of the shape tree for these observations. The nodes of
    /// the locations below come from `existing_prototypes`, the identifiers
    /// that are new with this node from `id_generator`.
    pub fn into_shape_prototype<G: SpecIdGenerator>(
        self,
        id_generator: &mut G,
        existing_prototypes: &Vec<ShapePrototype>,
    ) -> (r: ShapePrototype)
        requires
            can_build(self@, prototypes_by_trail(prototype_views(existing_prototypes@))),
        ensures
            prototype_fits(self@, prototypes_by_trail(prototype_views(existing_prototypes@)), r@),
    {
        let mut id_source = IdSource::new(id_generator);
        self.into_shape_prototype_with(&mut id_source, existing_prototypes)
    }
}

} // verus!
