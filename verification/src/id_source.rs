//! A generator of identifiers together with a record of what it handed out.

use crate::state::SpecIdGenerator;
use vstd::prelude::*;

verus! {

/// What an identifier is asked for.
pub enum IdKind {
    Shape,
    Field,
    ShapeParameter,
}

/// One identifier that was handed out, with what it was asked for.
pub struct IssuedId {
    pub kind: IdKind,
    pub id: Seq<char>,
}

/// The identifier `id`, handed out for a shape.
pub open spec fn issued_shape(id: Seq<char>) -> IssuedId {
    IssuedId { kind: IdKind::Shape, id }
}

/// The identifier `id`, handed out for a field.
pub open spec fn issued_field(id: Seq<char>) -> IssuedId {
    IssuedId { kind: IdKind::Field, id }
}

/// The identifier `id`, handed out for a parameter of a shape.
pub open spec fn issued_parameter(id: Seq<char>) -> IssuedId {
    IssuedId { kind: IdKind::ShapeParameter, id }
}

/// A generator of identifiers together with the record of the identifiers
/// that it handed out since the record was begun, oldest first.
pub struct IdSource<'a, G: SpecIdGenerator> {
    generator: &'a mut G,
    issued: Ghost<Seq<IssuedId>>,
}

impl<'a, G: SpecIdGenerator> IdSource<'a, G> {
    /// The identifiers handed out since the record was begun, oldest first.
    pub closed spec fn issued(&self) -> Seq<IssuedId> {
        self.issued@
    }

    /// Begins a record for `generator`.
    pub fn new(generator: &'a mut G) -> (r: IdSource<'a, G>)
        ensures
            r.issued() == Seq::<IssuedId>::empty(),
    {
        IdSource { generator, issued: Ghost(Seq::empty()) }
    }

    /// Asks the generator for the identifier of a shape.
    pub fn shape(&mut self) -> (id: String)
        ensures
            final(self).issued() == old(self).issued().push(issued_shape(id@)),
    {
        let id = self.generator.shape();
        proof {
            self.issued@ = self.issued@.push(issued_shape(id@));
        }
        id
    }

    /// Asks the generator for the identifier of a field.
    pub fn field(&mut self) -> (id: String)
        ensures
            final(self).issued() == old(self).issued().push(issued_field(id@)),
    {
        let id = self.generator.field();
        proof {
            self.issued@ = self.issued@.push(issued_field(id@));
        }
        id
    }

    /// Asks the generator for the identifier of a parameter of a shape.
    pub fn shape_param(&mut self) -> (id: String)
        ensures
            final(self).issued() == old(self).issued().push(issued_parameter(id@)),
    {
        let id = self.generator.shape_param();
        proof {
            self.issued@ = self.issued@.push(issued_parameter(id@));
        }
        id
    }
}

} // verus!
