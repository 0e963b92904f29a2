//! Where the generator never hands out an identifier twice, no shape is
//! declared twice.

use crate::builder::{
    all_requests, branch_descriptors, branch_requests, descriptor_requests, descriptors_requests,
    field_requests, fields_requests, kinds_fit, kinds_requests, node_requests, parameter_requests,
    prototype_fits, prototypes_by_trail,
};
use crate::commands::CommandView;
use crate::conversion::builds;
use crate::id_source::{issued_shape, IssuedId};
use crate::json_trail::PathStep;
use crate::prototype::{DescriptorView, FieldPrototypeView, PrototypeView};
use crate::synthesis::{
    all_commands, branches_commands, field_commands, fields_commands, paired, prototype_commands,
};
use crate::trail_values::TrailValuesView;
use vstd::multiset::Multiset;
use vstd::prelude::*;

verus! {

/// The shapes that the commands declare, each as often as it is declared.
pub open spec fn declared_bag(commands: Seq<CommandView>) -> Multiset<Seq<char>>
    decreases commands.len(),
{
    if commands.len() == 0 {
        Multiset::empty()
    } else {
        match commands.last().declares() {
            Some(id) => declared_bag(commands.drop_last()).insert(id),
            None => declared_bag(commands.drop_last()),
        }
    }
}

/// The identifiers handed out for shapes, each as often as it was handed
/// out.
pub open spec fn shape_bag(requests: Seq<IssuedId>) -> Multiset<Seq<char>>
    decreases requests.len(),
{
    if requests.len() == 0 {
        Multiset::empty()
    } else if requests.last().kind is Shape {
        shape_bag(requests.drop_last()).insert(requests.last().id)
    } else {
        shape_bag(requests.drop_last())
    }
}

/// No identifier was handed out twice, whatever it was asked for.
pub open spec fn never_repeats(requests: Seq<IssuedId>) -> bool {
    forall|i: int, j: int|
        0 <= i < j < requests.len() ==> (#[trigger] requests[i]).id != (#[trigger] requests[j]).id
}

/// No shape is declared twice.
pub open spec fn declares_once(commands: Seq<CommandView>) -> bool {
    forall|i: int, j: int|
        0 <= i < j < commands.len() && (#[trigger] commands[i]).declares() is Some
            ==> commands[i].declares() != (#[trigger] commands[j]).declares()
}

proof fn lemma_declared_bag_concat(a: Seq<CommandView>, b: Seq<CommandView>)
    ensures
        declared_bag(a + b) == declared_bag(a).add(declared_bag(b)),
    decreases b.len(),
{
    if b.len() == 0 {
        assert(a + b =~= a);
        assert(declared_bag(a).add(declared_bag(b)) =~= declared_bag(a));
    } else {
        lemma_declared_bag_concat(a, b.drop_last());
        assert((a + b).drop_last() =~= a + b.drop_last());
        assert((a + b).last() == b.last());
        assert(declared_bag(a + b) =~= declared_bag(a).add(declared_bag(b)));
    }
}

proof fn lemma_shape_bag_concat(a: Seq<IssuedId>, b: Seq<IssuedId>)
    ensures
        shape_bag(a + b) == shape_bag(a).add(shape_bag(b)),
    decreases b.len(),
{
    if b.len() == 0 {
        assert(a + b =~= a);
        assert(shape_bag(a).add(shape_bag(b)) =~= shape_bag(a));
    } else {
        lemma_shape_bag_concat(a, b.drop_last());
        assert((a + b).drop_last() =~= a + b.drop_last());
        assert((a + b).last() == b.last());
        assert(shape_bag(a + b) =~= shape_bag(a).add(shape_bag(b)));
    }
}

/// The bag of a sequence with one more command.
proof fn lemma_declared_bag_push(a: Seq<CommandView>, command: CommandView)
    ensures
        declared_bag(a.push(command)) == match command.declares() {
            Some(id) => declared_bag(a).insert(id),
            None => declared_bag(a),
        },
{
    assert(a.push(command).drop_last() =~= a);
}

/// The bag of a sequence with one more identifier.
proof fn lemma_shape_bag_push(a: Seq<IssuedId>, request: IssuedId)
    ensures
        shape_bag(a.push(request)) == if request.kind is Shape {
            shape_bag(a).insert(request.id)
        } else {
            shape_bag(a)
        },
{
    assert(a.push(request).drop_last() =~= a);
}

/// The commands for a field declare the shapes that were asked for with it.
proof fn lemma_field_bags(owner: Seq<char>, field: FieldPrototypeView)
    ensures
        declared_bag(field_commands(owner, field)) == shape_bag(field_requests(field)),
{
    let none = Seq::<CommandView>::empty();
    let nothing = Seq::<IssuedId>::empty();
    let commands = field_commands(owner, field);
    let requests = field_requests(field);
    match field.optional_shape_id {
        Some(optional) => {
            assert(commands =~= none.push(commands[0]).push(commands[1]).push(commands[2]));
            lemma_declared_bag_push(none, commands[0]);
            lemma_declared_bag_push(none.push(commands[0]), commands[1]);
            lemma_declared_bag_push(none.push(commands[0]).push(commands[1]), commands[2]);
            assert(requests =~= nothing.push(requests[0]).push(requests[1]));
            lemma_shape_bag_push(nothing, requests[0]);
            lemma_shape_bag_push(nothing.push(requests[0]), requests[1]);
        },
        None => {
            assert(commands =~= none.push(commands[0]));
            lemma_declared_bag_push(none, commands[0]);
            assert(requests =~= nothing.push(requests[0]));
            lemma_shape_bag_push(nothing, requests[0]);
        },
    }
}

/// The commands for the fields of an object declare the shapes that were
/// asked for with them.
proof fn lemma_fields_bags(owner: Seq<char>, fields: Seq<FieldPrototypeView>)
    ensures
        declared_bag(fields_commands(owner, fields)) == shape_bag(fields_requests(fields)),
    decreases fields.len(),
{
    if fields.len() > 0 {
        lemma_fields_bags(owner, fields.drop_last());
        lemma_field_bags(owner, fields.last());
        lemma_declared_bag_concat(
            fields_commands(owner, fields.drop_last()),
            field_commands(owner, fields.last()),
        );
        lemma_shape_bag_concat(fields_requests(fields.drop_last()), field_requests(fields.last()));
    }
}

/// The shape of one kind of value: a string, a number, a boolean, a list, an
/// object or the unknown shape.
pub open spec fn is_plain(descriptor: DescriptorView) -> bool {
    !(descriptor is OneOf) && !(descriptor is Nullable)
}

/// A node as it stands for the kinds seen at a location, null aside: a plain
/// shape, or a polymorphic shape with plain branches and as many parameters.
pub open spec fn is_kinds_node(prototype: PrototypeView) -> bool {
    ||| is_plain(prototype.descriptor)
    ||| {
        &&& prototype.descriptor matches DescriptorView::OneOf { branches, parameter_ids }
        &&& branches.len() == parameter_ids.len()
        &&& forall|i: int| 0 <= i < branches.len() ==> is_plain((#[trigger] branches[i]).descriptor)
    }
}

/// A node as it is built for a location: what stands for the kinds seen
/// there, or a nullable shape around that.
pub open spec fn is_built_node(prototype: PrototypeView) -> bool {
    ||| is_kinds_node(prototype)
    ||| {
        &&& prototype.descriptor matches DescriptorView::Nullable { shape }
        &&& is_kinds_node(*shape)
    }
}

/// The commands of a plain node declare the node and the shapes that were
/// asked for with it.
proof fn lemma_plain_bags(prototype: PrototypeView)
    requires
        is_plain(prototype.descriptor),
    ensures
        declared_bag(prototype_commands(prototype)) == shape_bag(
            descriptor_requests(prototype.descriptor),
        ).insert(prototype.id),
{
    let none = Seq::<CommandView>::empty();
    let nothing = Seq::<IssuedId>::empty();
    let commands = prototype_commands(prototype);
    let requests = descriptor_requests(prototype.descriptor);
    match prototype.descriptor {
        DescriptorView::List { item_shape_id, item_is_unknown } => {
            if item_is_unknown {
                assert(commands =~= none.push(commands[0]).push(commands[1]).push(commands[2]));
                lemma_declared_bag_push(none, commands[0]);
                lemma_declared_bag_push(none.push(commands[0]), commands[1]);
                lemma_declared_bag_push(none.push(commands[0]).push(commands[1]), commands[2]);
                assert(requests =~= nothing.push(requests[0]));
                lemma_shape_bag_push(nothing, requests[0]);
                assert(declared_bag(commands) =~= shape_bag(requests).insert(prototype.id));
            } else {
                assert(commands =~= none.push(commands[0]).push(commands[1]));
                lemma_declared_bag_push(none, commands[0]);
                lemma_declared_bag_push(none.push(commands[0]), commands[1]);
                assert(declared_bag(commands) =~= shape_bag(requests).insert(prototype.id));
            }
        },
        DescriptorView::Object { fields } => {
            let head = none.push(commands[0]);
            assert(commands =~= head + fields_commands(prototype.id, fields));
            lemma_declared_bag_push(none, commands[0]);
            lemma_declared_bag_concat(head, fields_commands(prototype.id, fields));
            lemma_fields_bags(prototype.id, fields);
            assert(declared_bag(commands) =~= shape_bag(requests).insert(prototype.id));
        },
        _ => {
            assert(commands =~= none.push(commands[0]));
            lemma_declared_bag_push(none, commands[0]);
            assert(declared_bag(commands) =~= shape_bag(requests).insert(prototype.id));
        },
    }
}

/// The parameters are no shapes.
proof fn lemma_parameters_bag(parameter_ids: Seq<Seq<char>>)
    ensures
        shape_bag(parameter_requests(parameter_ids)) == Multiset::<Seq<char>>::empty(),
    decreases parameter_ids.len(),
{
    if parameter_ids.len() > 0 {
        lemma_parameters_bag(parameter_ids.drop_last());
        assert(parameter_requests(parameter_ids).drop_last() =~= parameter_requests(
            parameter_ids.drop_last(),
        ));
    }
}

/// The commands for the first `n` branches of a polymorphic shape declare the
/// branches and the shapes that were asked for with them.
proof fn lemma_branches_bags(
    owner: Seq<char>,
    branches: Seq<PrototypeView>,
    parameter_ids: Seq<Seq<char>>,
    n: nat,
)
    requires
        n <= branches.len(),
        n <= parameter_ids.len(),
        forall|i: int| 0 <= i < branches.len() ==> is_plain((#[trigger] branches[i]).descriptor),
    ensures
        declared_bag(branches_commands(owner, branches, parameter_ids, n)) == shape_bag(
            descriptors_requests(branch_descriptors(branches.take(n as int))),
        ).add(shape_bag(branch_requests(branches.take(n as int)))),
    decreases n,
{
    if n == 0 {
        assert(branches.take(0) =~= Seq::empty());
        assert(branch_descriptors(branches.take(0)) =~= Seq::empty());
        assert(branch_requests(branches.take(0)) =~= Seq::empty());
        assert(Multiset::<Seq<char>>::empty().add(Multiset::empty()) =~= Multiset::empty());
    } else {
        let m = (n - 1) as nat;
        lemma_branches_bags(owner, branches, parameter_ids, m);
        let branch = branches[n - 1];
        let front = branches_commands(owner, branches, parameter_ids, m);
        let own = prototype_commands(branch);
        let c0 = CommandView::AddShapeParameter {
            shape_parameter_id: parameter_ids[n - 1],
            shape_id: owner,
            name: Seq::empty(),
        };
        let c1 = CommandView::SetParameterShape {
            shape_id: owner,
            shape_parameter_id: parameter_ids[n - 1],
            provider_shape_id: branch.id,
        };
        assert(branches_commands(owner, branches, parameter_ids, n) =~= (front + own).push(
            c0,
        ).push(c1));
        lemma_declared_bag_push((front + own).push(c0), c1);
        lemma_declared_bag_push(front + own, c0);
        lemma_declared_bag_concat(front, own);
        lemma_plain_bags(branch);

        let before = branches.take(m as int);
        let now = branches.take(n as int);
        assert(now =~= before.push(branch));
        assert(branch_descriptors(now) =~= branch_descriptors(before).push(branch.descriptor));
        assert(branch_descriptors(now).drop_last() =~= branch_descriptors(before));
        lemma_shape_bag_concat(
            descriptors_requests(branch_descriptors(before)),
            descriptor_requests(branch.descriptor),
        );
        assert(branch_requests(now).drop_last() =~= branch_requests(before));
        assert(declared_bag(branches_commands(owner, branches, parameter_ids, n)) =~= shape_bag(
            descriptors_requests(branch_descriptors(now)),
        ).add(shape_bag(branch_requests(now))));
    }
}

/// The commands of a node that stands for the kinds seen at a location
/// declare the shapes that were asked for with it.
proof fn lemma_kinds_node_bags(prototype: PrototypeView)
    requires
        is_kinds_node(prototype),
    ensures
        declared_bag(prototype_commands(prototype)) == shape_bag(kinds_requests(prototype)),
{
    match prototype.descriptor {
        DescriptorView::OneOf { branches, parameter_ids } => {
            let none = Seq::<CommandView>::empty();
            let commands = prototype_commands(prototype);
            let n = branches.len();
            assert(paired(branches, parameter_ids) == n);
            let head = none.push(commands[0]);
            let tail = branches_commands(prototype.id, branches, parameter_ids, n);
            assert(commands =~= head + tail);
            lemma_declared_bag_push(none, commands[0]);
            lemma_declared_bag_concat(head, tail);
            lemma_branches_bags(prototype.id, branches, parameter_ids, n);
            assert(branches.take(n as int) =~= branches);
            let first = descriptors_requests(branch_descriptors(branches));
            let own = seq![issued_shape(prototype.id)];
            lemma_shape_bag_concat(first, own);
            lemma_shape_bag_push(Seq::empty(), own[0]);
            assert(own =~= Seq::<IssuedId>::empty().push(own[0]));
            lemma_shape_bag_concat(first + own, parameter_requests(parameter_ids));
            lemma_parameters_bag(parameter_ids);
            lemma_shape_bag_concat(
                first + own + parameter_requests(parameter_ids),
                branch_requests(branches),
            );
            assert(declared_bag(commands) =~= shape_bag(kinds_requests(prototype)));
        },
        _ => {
            lemma_plain_bags(prototype);
            let first = descriptor_requests(prototype.descriptor);
            assert(kinds_requests(prototype) =~= first.push(
                issued_shape(prototype.id),
            ));
            lemma_shape_bag_push(first, issued_shape(prototype.id));
        },
    }
}

/// The commands of a node declare the shapes that were asked for with it.
pub proof fn lemma_node_bags(prototype: PrototypeView)
    requires
        is_built_node(prototype),
    ensures
        declared_bag(prototype_commands(prototype)) == shape_bag(node_requests(prototype)),
{
    match prototype.descriptor {
        DescriptorView::Nullable { shape } => {
            let inner = prototype_commands(*shape);
            let commands = prototype_commands(prototype);
            lemma_kinds_node_bags(*shape);
            let c0 = commands[inner.len() as int];
            let c1 = commands[inner.len() as int + 1];
            assert(commands =~= inner.push(c0).push(c1));
            lemma_declared_bag_push(inner.push(c0), c1);
            lemma_declared_bag_push(inner, c0);
            lemma_shape_bag_push(
                kinds_requests(*shape),
                issued_shape(prototype.id),
            );
        },
        _ => {
            lemma_kinds_node_bags(prototype);
        },
    }
}

/// The commands of a sequence of nodes declare the shapes that were asked
/// for with them.
pub proof fn lemma_all_bags(prototypes: Seq<PrototypeView>)
    requires
        forall|i: int| 0 <= i < prototypes.len() ==> is_built_node(#[trigger] prototypes[i]),
    ensures
        declared_bag(all_commands(prototypes)) == shape_bag(all_requests(prototypes)),
    decreases prototypes.len(),
{
    if prototypes.len() > 0 {
        let front = prototypes.drop_last();
        assert forall|i: int| 0 <= i < front.len() implies is_built_node(#[trigger] front[i]) by {
            assert(front[i] == prototypes[i]);
        }
        lemma_all_bags(front);
        assert(is_built_node(prototypes[prototypes.len() - 1]));
        lemma_node_bags(prototypes.last());
        lemma_declared_bag_concat(all_commands(front), prototype_commands(prototypes.last()));
        lemma_shape_bag_concat(all_requests(front), node_requests(prototypes.last()));
    }
}

/// The node that is built for a location has the form of a built node.
pub proof fn lemma_fits_is_built_node(
    values: TrailValuesView,
    table: Map<Seq<PathStep>, PrototypeView>,
    prototype: PrototypeView,
)
    requires
        prototype_fits(values, table, prototype),
    ensures
        is_built_node(prototype),
{
    let inner = if values.was_null {
        *prototype.descriptor->shape
    } else {
        prototype
    };
    assert(kinds_fit(values, table, inner));
    assert(is_kinds_node(inner));
}

/// An identifier that is in the bag was handed out.
proof fn lemma_shape_bag_member(requests: Seq<IssuedId>, id: Seq<char>)
    requires
        shape_bag(requests).count(id) > 0,
    ensures
        exists|i: int| 0 <= i < requests.len() && (#[trigger] requests[i]).id == id,
    decreases requests.len(),
{
    if requests.len() > 0 {
        if requests.last().id == id {
            assert(requests[requests.len() - 1].id == id);
        } else {
            lemma_shape_bag_member(requests.drop_last(), id);
            let i = choose|i: int|
                0 <= i < requests.drop_last().len() && (#[trigger] requests.drop_last()[i]).id == id;
            assert(requests[i].id == id);
        }
    }
}

/// Where no identifier was handed out twice, no identifier is in the bag
/// twice.
proof fn lemma_shape_bag_single(requests: Seq<IssuedId>, id: Seq<char>)
    requires
        never_repeats(requests),
    ensures
        shape_bag(requests).count(id) <= 1,
    decreases requests.len(),
{
    if requests.len() > 0 {
        let front = requests.drop_last();
        assert forall|i: int, j: int| 0 <= i < j < front.len() implies (#[trigger] front[i]).id != (
        #[trigger] front[j]).id by {
            assert(front[i] == requests[i] && front[j] == requests[j]);
        }
        lemma_shape_bag_single(front, id);
        if requests.last().id == id && shape_bag(front).count(id) > 0 {
            lemma_shape_bag_member(front, id);
            let i = choose|i: int| 0 <= i < front.len() && (#[trigger] front[i]).id == id;
            assert(requests[i].id == requests[requests.len() - 1].id);
        }
    }
}

/// A shape that a command declares is in the bag.
proof fn lemma_declared_bag_member(commands: Seq<CommandView>, i: int)
    requires
        0 <= i < commands.len(),
        commands[i].declares() is Some,
    ensures
        declared_bag(commands).count(commands[i].declares()->0) > 0,
    decreases commands.len(),
{
    if i < commands.len() - 1 {
        lemma_declared_bag_member(commands.drop_last(), i);
    }
}

/// Where no shape is in the bag twice, no shape is declared twice.
proof fn lemma_single_declares_once(commands: Seq<CommandView>)
    requires
        forall|id: Seq<char>| declared_bag(commands).count(id) <= 1,
    ensures
        declares_once(commands),
    decreases commands.len(),
{
    if commands.len() > 0 {
        let front = commands.drop_last();
        assert forall|id: Seq<char>| declared_bag(front).count(id) <= 1 by {
            assert(declared_bag(commands).count(id) <= 1);
        }
        lemma_single_declares_once(front);
        assert forall|i: int, j: int|
            0 <= i < j < commands.len() && (#[trigger] commands[i]).declares() is Some implies commands[i].declares()
            != (#[trigger] commands[j]).declares() by {
            if j == commands.len() - 1 {
                if commands[i].declares() == commands[j].declares() {
                    let id = commands[i].declares()->0;
                    lemma_declared_bag_member(front, i);
                    assert(declared_bag(commands).count(id) <= 1);
                }
            } else {
                assert(front[i] == commands[i] && front[j] == commands[j]);
            }
        }
    }
}

/// Where the generator hands out no identifier twice, the commands of a shape
/// tree declare no shape twice.
pub proof fn lemma_no_shape_declared_twice(
    observations: Map<Seq<PathStep>, TrailValuesView>,
    prototypes: Seq<PrototypeView>,
)
    requires
        builds(observations, prototypes),
        never_repeats(all_requests(prototypes)),
    ensures
        declares_once(all_commands(prototypes)),
{
    assert forall|i: int| 0 <= i < prototypes.len() implies is_built_node(
        #[trigger] prototypes[i],
    ) by {
        lemma_fits_is_built_node(
            observations[prototypes[i].trail],
            prototypes_by_trail(prototypes.take(i)),
            prototypes[i],
        );
    }
    lemma_all_bags(prototypes);
    assert forall|id: Seq<char>| declared_bag(all_commands(prototypes)).count(id) <= 1 by {
        lemma_shape_bag_single(all_requests(prototypes), id);
    }
    lemma_single_declares_once(all_commands(prototypes));
}

/// Where no identifier was handed out twice, none was handed out twice in
/// the later part of the record.
pub proof fn lemma_later_part_never_repeats(earlier: Seq<IssuedId>, later: Seq<IssuedId>)
    requires
        never_repeats(earlier + later),
    ensures
        never_repeats(later),
{
    let all = earlier + later;
    assert forall|i: int, j: int| 0 <= i < j < later.len() implies (#[trigger] later[i]).id != (
    #[trigger] later[j]).id by {
        assert(all[earlier.len() + i] == later[i]);
        assert(all[earlier.len() + j] == later[j]);
    }
}

} // verus!
