//! The shape tree that is built from the observations, before any command is
//! written.

use crate::field_set::texts;
use crate::json_trail::{JsonTrail, PathStep};
use crate::state::ShapeKind;
use vstd::prelude::*;

verus! {

/// A field of an object shape, as contracts see it.
pub struct FieldPrototypeView {
    pub field_id: Seq<char>,
    pub key: Seq<char>,
    pub optional_shape_id: Option<Seq<char>>,
    pub value_shape_id: Seq<char>,
}

/// A node of the shape tree, as contracts see it.
pub struct PrototypeView {
    pub id: Seq<char>,
    pub trail: Seq<PathStep>,
    pub descriptor: DescriptorView,
}

/// What a node of the shape tree is, as contracts see it.
pub enum DescriptorView {
    Nullable { shape: Box<PrototypeView> },
    OneOf { branches: Seq<PrototypeView>, parameter_ids: Seq<Seq<char>> },
    Object { fields: Seq<FieldPrototypeView> },
    List { item_shape_id: Seq<char>, item_is_unknown: bool },
    Primitive { base_shape_kind: ShapeKind },
    Unknown,
}

/// A field of an object shape: its own identifier, its key, the shape of its
/// values and, where the key is optional, the identifier of the optional
/// shape that wraps the shape of its values.
#[derive(Debug)]
pub struct FieldPrototypeDescriptor {
    pub field_id: String,
    pub key: String,
    pub optional_shape_id: Option<String>,
    pub value_shape_id: String,
}

impl View for FieldPrototypeDescriptor {
    type V = FieldPrototypeView;

    open spec fn view(&self) -> FieldPrototypeView {
        FieldPrototypeView {
            field_id: self.field_id@,
            key: self.key@,
            optional_shape_id: match self.optional_shape_id {
                Some(id) => Some(id@),
                None => None,
            },
            value_shape_id: self.value_shape_id@,
        }
    }
}

/// The fields of a vector, as contracts see them.
pub open spec fn field_views(fields: Seq<FieldPrototypeDescriptor>) -> Seq<FieldPrototypeView> {
    fields.map_values(|f: FieldPrototypeDescriptor| f@)
}

/// A node of the shape tree: a shape with its identifier, at a location.
#[derive(Debug)]
pub struct ShapePrototype {
    pub id: String,
    pub trail: JsonTrail,
    pub prototype_descriptor: ShapePrototypeDescriptor,
}

/// What a node of the shape tree is.
#[derive(Debug)]
pub enum ShapePrototypeDescriptor {
    /// The shape inside, or null.
    NullableShape { shape: Box<ShapePrototype> },
    /// One of the branches, each bound to the parameter at its position.
    OneOfShape { branches: Vec<ShapePrototype>, parameter_ids: Vec<String> },
    /// An object with these fields.
    ObjectWithFields { fields: Vec<FieldPrototypeDescriptor> },
    /// A list of items of the shape `item_shape_id`. Where `item_is_unknown`
    /// holds no item was ever seen, and that shape is yet to be declared, as
    /// unknown.
    ListOfShape { item_shape_id: String, item_is_unknown: bool },
    /// A string, a number or a boolean.
    PrimitiveKind { base_shape_kind: ShapeKind },
    /// Nothing was seen.
    Unknown,
}

/// The node `prototype` as contracts see it.
pub open spec fn prototype_view(prototype: ShapePrototype) -> PrototypeView
    decreases prototype,
{
    PrototypeView {
        id: prototype.id@,
        trail: prototype.trail@,
        descriptor: descriptor_view(prototype.prototype_descriptor),
    }
}

/// The descriptor as contracts see it.
pub open spec fn descriptor_view(descriptor: ShapePrototypeDescriptor) -> DescriptorView
    decreases descriptor,
{
    match descriptor {
        ShapePrototypeDescriptor::NullableShape { shape } => DescriptorView::Nullable {
            shape: Box::new(prototype_view(*shape)),
        },
        ShapePrototypeDescriptor::OneOfShape { branches, parameter_ids } => DescriptorView::OneOf {
            branches: Seq::new(
                branches@.len(),
                |i: int|
                    if 0 <= i < branches@.len() {
                        prototype_view(branches@[i])
                    } else {
                        arbitrary()
                    },
            ),
            parameter_ids: texts(parameter_ids@),
        },
        ShapePrototypeDescriptor::ObjectWithFields { fields } => DescriptorView::Object {
            fields: field_views(fields@),
        },
        ShapePrototypeDescriptor::ListOfShape { item_shape_id, item_is_unknown } => DescriptorView::List {
            item_shape_id: item_shape_id@,
            item_is_unknown,
        },
        ShapePrototypeDescriptor::PrimitiveKind { base_shape_kind } => DescriptorView::Primitive {
            base_shape_kind,
        },
        ShapePrototypeDescriptor::Unknown => DescriptorView::Unknown,
    }
}

impl View for ShapePrototype {
    type V = PrototypeView;

    open spec fn view(&self) -> PrototypeView {
        prototype_view(*self)
    }
}

impl View for ShapePrototypeDescriptor {
    type V = DescriptorView;

    open spec fn view(&self) -> DescriptorView {
        descriptor_view(*self)
    }
}

/// The nodes of a vector, as contracts see them.
pub open spec fn prototype_views(prototypes: Seq<ShapePrototype>) -> Seq<PrototypeView> {
    prototypes.map_values(|p: ShapePrototype| p@)
}

} // verus!
