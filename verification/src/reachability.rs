//! The locations of the leaves that a node of the shape tree leads to.

use crate::builder::{by_trail, field_trail, find_prototype, item_trail, prototypes_by_trail};
use crate::json_trail::{JsonTrail, PathStep};
use crate::observations::trail_views;
use crate::prototype::{
    field_views, prototype_views, DescriptorView, PrototypeView, ShapePrototype,
    ShapePrototypeDescriptor,
};
use crate::table::lemma_index_by_value;
use vstd::prelude::*;

verus! {

/// A number of steps that no location of the nodes reaches.
pub open spec fn depth_limit(prototypes: Seq<PrototypeView>) -> nat
    decreases prototypes.len(),
{
    if prototypes.len() == 0 {
        0
    } else {
        let others = depth_limit(prototypes.drop_last());
        let own = prototypes.last().trail.len() + 1;
        if own > others {
            own
        } else {
            others
        }
    }
}

/// Every node lies above the limit.
pub proof fn lemma_depth_limit(prototypes: Seq<PrototypeView>, i: int)
    requires
        0 <= i < prototypes.len(),
    ensures
        prototypes[i].trail.len() < depth_limit(prototypes),
    decreases prototypes.len(),
{
    if i < prototypes.len() - 1 {
        lemma_depth_limit(prototypes.drop_last(), i);
    }
}

/// A node that is found at a location has that location, above the limit.
pub proof fn lemma_found_above_limit(prototypes: Seq<PrototypeView>, location: Seq<PathStep>)
    requires
        prototypes_by_trail(prototypes).dom().contains(location),
    ensures
        prototypes_by_trail(prototypes)[location].trail == location,
        location.len() < depth_limit(prototypes),
{
    lemma_index_by_value(prototypes, by_trail(), location);
    let i = choose|i: int|
        0 <= i < prototypes.len() && #[trigger] prototypes[i] == prototypes_by_trail(
            prototypes,
        )[location];
    lemma_depth_limit(prototypes, i);
}

/// The locations of the leaves that `prototype` leads to, by way of the nodes
/// of `prototypes`: its own location where it is a leaf, a string, a number,
/// a boolean or the unknown shape; what the shape inside leads to, for a
/// nullable shape; what the branches lead to, for a polymorphic shape; what
/// the node of the items leads to, for a list; and what the nodes of the
/// values of its fields lead to, for an object. What is inside a node counts
/// only where it has the location of the node.
pub open spec fn leaf_trails(prototype: PrototypeView, prototypes: Seq<PrototypeView>) -> Seq<
    Seq<PathStep>,
>
    decreases depth_limit(prototypes) - prototype.trail.len(), prototype, 1nat, 0nat,
{
    match prototype.descriptor {
        DescriptorView::Primitive { .. } => seq![prototype.trail],
        DescriptorView::Unknown => seq![prototype.trail],
        DescriptorView::Nullable { shape } => if shape.trail == prototype.trail {
            leaf_trails(*shape, prototypes)
        } else {
            Seq::empty()
        },
        DescriptorView::OneOf { branches, .. } => branches_leaf_trails(
            prototype.trail,
            branches,
            prototypes,
            branches.len(),
        ),
        DescriptorView::List { .. } => if prototypes_by_trail(prototypes).dom().contains(
            item_trail(prototype.trail),
        ) {
            proof {
                lemma_found_above_limit(prototypes, item_trail(prototype.trail));
            }
            leaf_trails(prototypes_by_trail(prototypes)[item_trail(prototype.trail)], prototypes)
        } else {
            Seq::empty()
        },
        DescriptorView::Object { fields } => fields_leaf_trails(prototype, prototypes, fields.len()),
    }
}

/// What the first `n` branches of a polymorphic shape at `trail` lead to.
pub open spec fn branches_leaf_trails(
    trail: Seq<PathStep>,
    branches: Seq<PrototypeView>,
    prototypes: Seq<PrototypeView>,
    n: nat,
) -> Seq<Seq<PathStep>>
    decreases depth_limit(prototypes) - trail.len(), branches, 0nat, n,
{
    if n == 0 || n > branches.len() {
        Seq::empty()
    } else {
        branches_leaf_trails(trail, branches, prototypes, (n - 1) as nat) + if branches[n
            - 1].trail == trail {
            leaf_trails(branches[n - 1], prototypes)
        } else {
            Seq::empty()
        }
    }
}

/// What the nodes of the values of the first `n` fields of the object
/// `prototype` lead to.
pub open spec fn fields_leaf_trails(
    prototype: PrototypeView,
    prototypes: Seq<PrototypeView>,
    n: nat,
) -> Seq<Seq<PathStep>>
    decreases depth_limit(prototypes) - prototype.trail.len(), prototype, 0nat, n,
{
    let fields = prototype.descriptor->fields;
    if n == 0 || n > fields.len() || !(prototype.descriptor is Object) {
        Seq::empty()
    } else {
        let location = field_trail(prototype.trail, fields[n - 1].key);
        fields_leaf_trails(prototype, prototypes, (n - 1) as nat) + if prototypes_by_trail(
            prototypes,
        ).dom().contains(location) {
            proof {
                lemma_found_above_limit(prototypes, location);
            }
            leaf_trails(prototypes_by_trail(prototypes)[location], prototypes)
        } else {
            Seq::empty()
        }
    }
}

/// The locations of a vector with one more location.
proof fn lemma_trail_views_push(trails: Seq<JsonTrail>, trail: JsonTrail)
    ensures
        trail_views(trails.push(trail)) == trail_views(trails).push(trail@),
{
    assert(trail_views(trails.push(trail)) =~= trail_views(trails).push(trail@));
}

/// Appends the locations of the leaves that `prototype` leads to.
fn push_leaf_trails(
    prototype: &ShapePrototype,
    prototypes: &Vec<ShapePrototype>,
    trails: &mut Vec<JsonTrail>,
)
    ensures
        trail_views(final(trails)@) == trail_views(old(trails)@) + leaf_trails(
            prototype@,
            prototype_views(prototypes@),
        ),
    decreases depth_limit(prototype_views(prototypes@)) - prototype@.trail.len(), prototype,
{
    let ghost before = trail_views(trails@);
    let ghost views = prototype_views(prototypes@);
    match &prototype.prototype_descriptor {
        ShapePrototypeDescriptor::PrimitiveKind { .. } => {
            let trail = prototype.trail.clone();
            proof {
                lemma_trail_views_push(trails@, trail);
            }
            trails.push(trail);
            assert(trail_views(trails@) =~= before + leaf_trails(prototype@, views));
        },
        ShapePrototypeDescriptor::Unknown => {
            let trail = prototype.trail.clone();
            proof {
                lemma_trail_views_push(trails@, trail);
            }
            trails.push(trail);
            assert(trail_views(trails@) =~= before + leaf_trails(prototype@, views));
        },
        ShapePrototypeDescriptor::NullableShape { shape } => {
            if shape.trail.same_as(&prototype.trail) {
                push_leaf_trails(shape, prototypes, trails);
            } else {
                assert(trail_views(trails@) =~= before + leaf_trails(prototype@, views));
            }
        },
        ShapePrototypeDescriptor::OneOfShape { branches, parameter_ids } => {
            let ghost branch_views = prototype@.descriptor->branches;
            let mut i: usize = 0;
            assert(trail_views(trails@) =~= before + branches_leaf_trails(
                prototype@.trail,
                branch_views,
                views,
                0,
            ));
            while i < branches.len()
                invariant
                    i <= branches.len(),
                    views == prototype_views(prototypes@),
                    prototype.prototype_descriptor == (ShapePrototypeDescriptor::OneOfShape {
                        branches: *branches,
                        parameter_ids: *parameter_ids,
                    }),
                    branch_views == prototype@.descriptor->branches,
                    trail_views(trails@) == before + branches_leaf_trails(
                        prototype@.trail,
                        branch_views,
                        views,
                        i as nat,
                    ),
                decreases branches.len() - i,
            {
                let ghost so_far = trail_views(trails@);
                assert(branch_views[i as int] == branches@[i as int]@);
                if branches[i].trail.same_as(&prototype.trail) {
                    push_leaf_trails(&branches[i], prototypes, trails);
                }
                assert(trail_views(trails@) =~= before + branches_leaf_trails(
                    prototype@.trail,
                    branch_views,
                    views,
                    (i + 1) as nat,
                ));
                i += 1;
            }
        },
        ShapePrototypeDescriptor::ListOfShape { .. } => {
            let item_trail = prototype.trail.with_array_item(0);
            match find_prototype(prototypes, &item_trail) {
                Some(item_prototype) => {
                    proof {
                        lemma_found_above_limit(views, item_trail@);
                    }
                    push_leaf_trails(item_prototype, prototypes, trails);
                },
                None => {
                    assert(trail_views(trails@) =~= before + leaf_trails(prototype@, views));
                },
            }
        },
        ShapePrototypeDescriptor::ObjectWithFields { fields } => {
            let ghost field_list = prototype@.descriptor->fields;
            let mut i: usize = 0;
            assert(trail_views(trails@) =~= before + fields_leaf_trails(prototype@, views, 0));
            while i < fields.len()
                invariant
                    i <= fields.len(),
                    views == prototype_views(prototypes@),
                    prototype@.descriptor is Object,
                    field_list == prototype@.descriptor->fields,
                    field_list == field_views(fields@),
                    trail_views(trails@) == before + fields_leaf_trails(prototype@, views, i as nat),
                decreases fields.len() - i,
            {
                assert(field_list[i as int] == fields@[i as int]@);
                let field_trail = prototype.trail.with_object_key(fields[i].key.clone());
                match find_prototype(prototypes, &field_trail) {
                    Some(field_prototype) => {
                        proof {
                            lemma_found_above_limit(views, field_trail@);
                        }
                        push_leaf_trails(field_prototype, prototypes, trails);
                    },
                    None => {},
                }
                assert(trail_views(trails@) =~= before + fields_leaf_trails(
                    prototype@,
                    views,
                    (i + 1) as nat,
                ));
                i += 1;
            }
        },
    }
}

/// The locations of the leaves that `shape_prototype` leads to, by way of the
/// nodes of `prototypes_by_trail`; none where there is no node to start from.
pub fn shape_prototypes_trails(
    shape_prototype: Option<&ShapePrototype>,
    prototypes_by_trail: &Vec<ShapePrototype>,
) -> (r: Vec<JsonTrail>)
    ensures
        trail_views(r@) == match shape_prototype {
            Some(prototype) => leaf_trails(prototype@, prototype_views(prototypes_by_trail@)),
            None => Seq::empty(),
        },
{
    let mut trails: Vec<JsonTrail> = Vec::new();
    assert(trail_views(trails@) =~= Seq::empty());
    match shape_prototype {
        Some(prototype) => {
            push_leaf_trails(prototype, prototypes_by_trail, &mut trails);
        },
        None => {},
    }
    trails
}

} // verus!
