//! The kinds of shape, and the source of fresh identifiers.

use vstd::prelude::*;

verus! {

/// The kinds of shape that the commands declare.
#[derive(Clone, Copy, Debug, PartialEq, Eq, Structural, Hash)]
pub enum ShapeKind {
    ObjectKind,
    ListKind,
    OneOfKind,
    StringKind,
    NumberKind,
    BooleanKind,
    NullableKind,
    OptionalKind,
    UnknownKind,
}

/// The one parameter of a wrapper kind.
#[derive(Clone, Copy, Debug)]
pub struct ShapeParameterDescriptor {
    pub shape_parameter_id: &'static str,
    pub name: &'static str,
}

impl ShapeKind {
    /// The identifier of the parameter that a shape of this kind takes: the
    /// item of a list, what a nullable or an optional shape wraps. The other
    /// kinds have no fixed parameter.
    pub open spec fn parameter_id(self) -> Option<Seq<char>> {
        match self {
            ShapeKind::ListKind => Some("$listItem"@),
            ShapeKind::NullableKind => Some("$nullableInner"@),
            ShapeKind::OptionalKind => Some("$optionalInner"@),
            _ => None,
        }
    }

    /// The parameter that a shape of this kind takes, if it has a fixed one.
    pub fn get_parameter_descriptor(&self) -> (r: Option<ShapeParameterDescriptor>)
        ensures
            r is Some <==> self.parameter_id() is Some,
            r is Some ==> r->0.shape_parameter_id@ == self.parameter_id()->0,
    {
        match self {
            ShapeKind::ListKind => Some(
                ShapeParameterDescriptor { shape_parameter_id: "$listItem", name: "T" },
            ),
            ShapeKind::NullableKind => Some(
                ShapeParameterDescriptor { shape_parameter_id: "$nullableInner", name: "T" },
            ),
            ShapeKind::OptionalKind => Some(
                ShapeParameterDescriptor { shape_parameter_id: "$optionalInner", name: "T" },
            ),
            _ => None,
        }
    }
}

/// A source of identifiers. Each call is expected to hand out an identifier
/// that it has not handed out before; nothing here depends on that.
pub trait SpecIdGenerator {
    fn generate_id(&mut self, prefix: &str) -> String;

    /// An identifier for a shape.
    fn shape(&mut self) -> String {
        self.generate_id("shape")
    }

    /// An identifier for a field.
    fn field(&mut self) -> String {
        self.generate_id("field")
    }

    /// An identifier for a parameter of a shape.
    fn shape_param(&mut self) -> String {
        self.shape()
    }
}

} // verus!
