//! What holds of the node that is built for a location, whatever identifiers
//! it was given.

use crate::builder::{item_trail, kinds_fit, observed_kinds, prototype_fits, ObservedKind};
use crate::json_trail::PathStep;
use crate::prototype::{DescriptorView, PrototypeView};
use crate::state::ShapeKind;
use crate::synthesis::{bind_wrapped, declare_shape, prototype_commands};
use crate::trail_values::TrailValuesView;
use vstd::prelude::*;

verus! {

/// What stands for the kinds seen at a location, null aside: the node itself,
/// or the node inside it where null was seen.
pub open spec fn kinds_node(values: TrailValuesView, prototype: PrototypeView) -> PrototypeView {
    if values.was_null {
        *prototype.descriptor->shape
    } else {
        prototype
    }
}

/// A location at which at most one kind of value was seen, null aside, gets
/// no polymorphic shape.
pub proof fn lemma_single_kind_is_not_polymorphic(
    values: TrailValuesView,
    table: Map<Seq<PathStep>, PrototypeView>,
    prototype: PrototypeView,
)
    requires
        prototype_fits(values, table, prototype),
        observed_kinds(values).len() <= 1,
    ensures
        !(prototype.descriptor is OneOf),
        !(kinds_node(values, prototype).descriptor is OneOf),
{
}

/// A location at which only strings were seen gets one command: the
/// declaration of a string shape.
pub proof fn lemma_only_strings_give_one_declaration(
    values: TrailValuesView,
    table: Map<Seq<PathStep>, PrototypeView>,
    prototype: PrototypeView,
)
    requires
        prototype_fits(values, table, prototype),
        values.was_string,
        !values.was_number,
        !values.was_boolean,
        !values.was_null,
        !values.was_array,
        !values.was_object,
    ensures
        prototype_commands(prototype) == seq![declare_shape(prototype.id, ShapeKind::StringKind)],
{
    assert(observed_kinds(values) =~= seq![ObservedKind::String]);
}

/// A location at which several kinds of value were seen, null aside, gets a
/// polymorphic shape with one branch and one parameter for each kind.
pub proof fn lemma_branches_match_kinds(
    values: TrailValuesView,
    table: Map<Seq<PathStep>, PrototypeView>,
    prototype: PrototypeView,
)
    requires
        prototype_fits(values, table, prototype),
        observed_kinds(values).len() >= 2,
    ensures
        kinds_node(values, prototype).descriptor is OneOf,
        kinds_node(values, prototype).descriptor->branches.len() == observed_kinds(values).len(),
        kinds_node(values, prototype).descriptor->parameter_ids.len() == observed_kinds(
            values,
        ).len(),
{
}

/// The number of kinds seen at a location, null aside, is the number of its
/// flags for strings, numbers, booleans, arrays and objects.
pub proof fn lemma_observed_kinds_count(values: TrailValuesView)
    ensures
        observed_kinds(values).len() == (if values.was_string {
            1nat
        } else {
            0nat
        }) + (if values.was_number {
            1nat
        } else {
            0nat
        }) + (if values.was_boolean {
            1nat
        } else {
            0nat
        }) + (if values.was_array {
            1nat
        } else {
            0nat
        }) + (if values.was_object {
            1nat
        } else {
            0nat
        }),
{
}

/// A location at which only arrays were seen, an empty one among them, and
/// whose items have no node, gets a list shape with a new item shape: the
/// list is declared, then the item as unknown, then the item is bound.
pub proof fn lemma_empty_array_gets_unknown_item(
    values: TrailValuesView,
    table: Map<Seq<PathStep>, PrototypeView>,
    prototype: PrototypeView,
)
    requires
        prototype_fits(values, table, prototype),
        values.was_array,
        values.was_empty_array,
        !values.was_string,
        !values.was_number,
        !values.was_boolean,
        !values.was_null,
        !values.was_object,
        !table.dom().contains(item_trail(values.trail)),
    ensures
        prototype.descriptor is List,
        prototype.descriptor->item_is_unknown,
        prototype_commands(prototype) == seq![
            declare_shape(prototype.id, ShapeKind::ListKind),
            declare_shape(prototype.descriptor->item_shape_id, ShapeKind::UnknownKind),
            bind_wrapped(prototype.id, ShapeKind::ListKind, prototype.descriptor->item_shape_id),
        ],
{
    assert(observed_kinds(values) =~= seq![ObservedKind::Array]);
}

/// A location at which null was seen gets a nullable shape around what
/// stands for the other kinds, however many they are; its commands are those
/// of what is inside, then the declaration of the nullable shape and the
/// binding of what is inside.
pub proof fn lemma_null_wraps(
    values: TrailValuesView,
    table: Map<Seq<PathStep>, PrototypeView>,
    prototype: PrototypeView,
)
    requires
        prototype_fits(values, table, prototype),
        values.was_null,
    ensures
        prototype.descriptor is Nullable,
        kinds_fit(values, table, *prototype.descriptor->shape),
        prototype_commands(prototype) == prototype_commands(*prototype.descriptor->shape) + seq![
            declare_shape(prototype.id, ShapeKind::NullableKind),
            bind_wrapped(prototype.id, ShapeKind::NullableKind, prototype.descriptor->shape.id),
        ],
{
}

/// A string with null gives a nullable shape around a string shape, and no
/// polymorphic shape.
pub proof fn lemma_nullable_string(
    values: TrailValuesView,
    table: Map<Seq<PathStep>, PrototypeView>,
    prototype: PrototypeView,
)
    requires
        prototype_fits(values, table, prototype),
        values.was_string,
        values.was_null,
        !values.was_number,
        !values.was_boolean,
        !values.was_array,
        !values.was_object,
    ensures
        prototype.descriptor is Nullable,
        prototype.descriptor->shape.descriptor == (DescriptorView::Primitive {
            base_shape_kind: ShapeKind::StringKind,
        }),
{
    assert(observed_kinds(values) =~= seq![ObservedKind::String]);
}

/// Everything inside the node of a location has that location: the node
/// inside a nullable shape, and the branches of a polymorphic shape.
pub proof fn lemma_node_keeps_its_location(
    values: TrailValuesView,
    table: Map<Seq<PathStep>, PrototypeView>,
    prototype: PrototypeView,
)
    requires
        prototype_fits(values, table, prototype),
    ensures
        prototype.trail == values.trail,
        kinds_node(values, prototype).trail == values.trail,
        kinds_node(values, prototype).descriptor matches DescriptorView::OneOf { branches, .. }
            ==> forall|i: int| 0 <= i < branches.len() ==> (#[trigger] branches[i]).trail
            == values.trail,
{
}

} // verus!
