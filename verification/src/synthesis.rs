//! From the shape tree to the commands that build it, each shape declared
//! before anything refers to it.

use crate::commands::{
    command_views, declared_shapes, lemma_declared_shapes_concat, lemma_declared_shapes_push,
    lemma_refers_back_concat, lemma_refers_back_push, no_forward_references, refers_back,
    CommandView, ShapeCommand,
};
use crate::prototype::{
    prototype_views, DescriptorView, FieldPrototypeDescriptor, FieldPrototypeView, PrototypeView,
    ShapePrototype, ShapePrototypeDescriptor,
};
use crate::state::ShapeKind;
use vstd::prelude::*;

verus! {

/// The command that declares the shape `id` of the given kind, without a name.
pub open spec fn declare_shape(id: Seq<char>, kind: ShapeKind) -> CommandView {
    CommandView::AddShape { shape_id: id, shape_kind: kind, name: Seq::empty() }
}

/// The command that binds the one parameter of the wrapper `owner`, a shape of
/// the given kind, to the shape `provider`.
pub open spec fn bind_wrapped(owner: Seq<char>, kind: ShapeKind, provider: Seq<char>) -> CommandView {
    CommandView::SetParameterShape {
        shape_id: owner,
        shape_parameter_id: kind.parameter_id()->0,
        provider_shape_id: provider,
    }
}

/// The commands for one field of the object shape `owner`. An optional field
/// gets its optional shape declared and bound to the shape of its values
/// first, and is declared with the optional shape; any other field is
/// declared with the shape of its values.
pub open spec fn field_commands(owner: Seq<char>, field: FieldPrototypeView) -> Seq<CommandView> {
    match field.optional_shape_id {
        Some(optional) => seq![
            declare_shape(optional, ShapeKind::OptionalKind),
            bind_wrapped(optional, ShapeKind::OptionalKind, field.value_shape_id),
            CommandView::AddField {
                key: field.key,
                field_id: field.field_id,
                shape_id: owner,
                field_shape_id: optional,
            },
        ],
        None => seq![
            CommandView::AddField {
                key: field.key,
                field_id: field.field_id,
                shape_id: owner,
                field_shape_id: field.value_shape_id,
            },
        ],
    }
}

/// The commands for the fields of the object shape `owner`, in their order.
pub open spec fn fields_commands(owner: Seq<char>, fields: Seq<FieldPrototypeView>) -> Seq<
    CommandView,
>
    decreases fields.len(),
{
    if fields.len() == 0 {
        Seq::empty()
    } else {
        fields_commands(owner, fields.drop_last()) + field_commands(owner, fields.last())
    }
}

/// The number of branches of a polymorphic shape that come with a parameter.
pub open spec fn paired(branches: Seq<PrototypeView>, parameter_ids: Seq<Seq<char>>) -> nat {
    if branches.len() <= parameter_ids.len() {
        branches.len()
    } else {
        parameter_ids.len()
    }
}

/// The commands that build one node of the shape tree.
pub open spec fn prototype_commands(prototype: PrototypeView) -> Seq<CommandView>
    decreases prototype, 0nat,
{
    match prototype.descriptor {
        DescriptorView::Primitive { base_shape_kind } => seq![
            declare_shape(prototype.id, base_shape_kind),
        ],
        DescriptorView::Unknown => seq![declare_shape(prototype.id, ShapeKind::UnknownKind)],
        DescriptorView::Nullable { shape } => prototype_commands(*shape) + seq![
            declare_shape(prototype.id, ShapeKind::NullableKind),
            bind_wrapped(prototype.id, ShapeKind::NullableKind, shape.id),
        ],
        DescriptorView::OneOf { branches, parameter_ids } => seq![
            declare_shape(prototype.id, ShapeKind::OneOfKind),
        ] + branches_commands(
            prototype.id,
            branches,
            parameter_ids,
            paired(branches, parameter_ids),
        ),
        DescriptorView::List { item_shape_id, item_is_unknown } => if item_is_unknown {
            seq![
                declare_shape(prototype.id, ShapeKind::ListKind),
                declare_shape(item_shape_id, ShapeKind::UnknownKind),
                bind_wrapped(prototype.id, ShapeKind::ListKind, item_shape_id),
            ]
        } else {
            seq![
                declare_shape(prototype.id, ShapeKind::ListKind),
                bind_wrapped(prototype.id, ShapeKind::ListKind, item_shape_id),
            ]
        },
        DescriptorView::Object { fields } => seq![
            declare_shape(prototype.id, ShapeKind::ObjectKind),
        ] + fields_commands(prototype.id, fields),
    }
}

/// The commands for the first `n` branches of the polymorphic shape `owner`:
/// for each branch its own commands, then the declaration of its parameter on
/// `owner`, then the binding of that parameter to the branch.
pub open spec fn branches_commands(
    owner: Seq<char>,
    branches: Seq<PrototypeView>,
    parameter_ids: Seq<Seq<char>>,
    n: nat,
) -> Seq<CommandView>
    decreases branches, n,
{
    if n == 0 || n > branches.len() {
        Seq::empty()
    } else {
        branches_commands(owner, branches, parameter_ids, (n - 1) as nat) + prototype_commands(
            branches[n - 1],
        ) + seq![
            CommandView::AddShapeParameter {
                shape_parameter_id: parameter_ids[n - 1],
                shape_id: owner,
                name: Seq::empty(),
            },
            CommandView::SetParameterShape {
                shape_id: owner,
                shape_parameter_id: parameter_ids[n - 1],
                provider_shape_id: branches[n - 1].id,
            },
        ]
    }
}

/// The commands that build the nodes of `prototypes`, one node after the
/// other.
pub open spec fn all_commands(prototypes: Seq<PrototypeView>) -> Seq<CommandView>
    decreases prototypes.len(),
{
    if prototypes.len() == 0 {
        Seq::empty()
    } else {
        all_commands(prototypes.drop_last()) + prototype_commands(prototypes.last())
    }
}

/// The commands of a vector with one more command.
proof fn lemma_command_views_push(commands: Seq<ShapeCommand>, command: ShapeCommand)
    ensures
        command_views(commands.push(command)) == command_views(commands).push(command@),
{
    assert(command_views(commands.push(command)) =~= command_views(commands).push(command@));
}

/// The identifier of the one parameter of a wrapper kind.
fn wrapped_parameter_id(kind: ShapeKind) -> (r: String)
    requires
        kind.parameter_id() is Some,
    ensures
        r@ == kind.parameter_id()->0,
{
    kind.get_parameter_descriptor().unwrap().shape_parameter_id.to_owned()
}

/// Appends the commands for one field of the object shape `owner`.
fn push_field_commands(
    owner: &String,
    field: &FieldPrototypeDescriptor,
    commands: &mut Vec<ShapeCommand>,
)
    ensures
        command_views(final(commands)@) == command_views(old(commands)@) + field_commands(
            owner@,
            field@,
        ),
{
    let ghost before = command_views(commands@);
    let field_shape_id = match &field.optional_shape_id {
        Some(optional_shape_id) => {
            let declare_optional = ShapeCommand::add_shape(
                optional_shape_id.clone(),
                ShapeKind::OptionalKind,
                String::new(),
            );
            proof {
                lemma_command_views_push(commands@, declare_optional);
            }
            commands.push(declare_optional);
            let parameter_id = wrapped_parameter_id(ShapeKind::OptionalKind);
            let bind = ShapeCommand::set_parameter_shape(
                optional_shape_id.clone(),
                parameter_id,
                field.value_shape_id.clone(),
            );
            proof {
                lemma_command_views_push(commands@, bind);
            }
            commands.push(bind);
            optional_shape_id.clone()
        },
        None => field.value_shape_id.clone(),
    };
    let declare = ShapeCommand::add_field(
        field.key.clone(),
        field.field_id.clone(),
        owner.clone(),
        field_shape_id,
    );
    proof {
        lemma_command_views_push(commands@, declare);
    }
    commands.push(declare);
    assert(command_views(commands@) =~= before + field_commands(owner@, field@));
}

/// Appends the commands that build one node of the shape tree.
fn push_prototype_commands(prototype: &ShapePrototype, commands: &mut Vec<ShapeCommand>)
    ensures
        command_views(final(commands)@) == command_views(old(commands)@) + prototype_commands(
            prototype@,
        ),
    decreases prototype,
{
    let ghost before = command_views(commands@);
    match &prototype.prototype_descriptor {
        ShapePrototypeDescriptor::PrimitiveKind { base_shape_kind } => {
            let declare = ShapeCommand::add_shape(
                prototype.id.clone(),
                *base_shape_kind,
                String::new(),
            );
            proof {
                lemma_command_views_push(commands@, declare);
            }
            commands.push(declare);
            assert(command_views(commands@) =~= before + prototype_commands(prototype@));
        },
        ShapePrototypeDescriptor::OneOfShape { branches, parameter_ids } => {
            let declare = ShapeCommand::add_shape(
                prototype.id.clone(),
                ShapeKind::OneOfKind,
                String::new(),
            );
            proof {
                lemma_command_views_push(commands@, declare);
            }
            commands.push(declare);
            let ghost branch_views = prototype@.descriptor->branches;
            let ghost parameter_views = prototype@.descriptor->parameter_ids;
            let count = if branches.len() <= parameter_ids.len() {
                branches.len()
            } else {
                parameter_ids.len()
            };
            let mut i: usize = 0;
            assert(command_views(commands@) =~= before + seq![
                declare_shape(prototype.id@, ShapeKind::OneOfKind),
            ] + branches_commands(prototype.id@, branch_views, parameter_views, 0));
            while i < count
                invariant
                    i <= count,
                    count == paired(branch_views, parameter_views),
                    prototype.prototype_descriptor == (ShapePrototypeDescriptor::OneOfShape {
                        branches: *branches,
                        parameter_ids: *parameter_ids,
                    }),
                    branch_views == prototype@.descriptor->branches,
                    parameter_views == prototype@.descriptor->parameter_ids,
                    command_views(commands@) == before + seq![
                        declare_shape(prototype.id@, ShapeKind::OneOfKind),
                    ] + branches_commands(prototype.id@, branch_views, parameter_views, i as nat),
                decreases count - i,
            {
                let ghost so_far = command_views(commands@);
                push_prototype_commands(&branches[i], commands);
                let declare_parameter = ShapeCommand::add_shape_parameter(
                    parameter_ids[i].clone(),
                    prototype.id.clone(),
                    String::new(),
                );
                proof {
                    lemma_command_views_push(commands@, declare_parameter);
                }
                commands.push(declare_parameter);
                let bind = ShapeCommand::set_parameter_shape(
                    prototype.id.clone(),
                    parameter_ids[i].clone(),
                    branches[i].id.clone(),
                );
                proof {
                    lemma_command_views_push(commands@, bind);
                }
                commands.push(bind);
                proof {
                    assert(branch_views[i as int] == branches@[i as int]@);
                    assert(parameter_views[i as int] == parameter_ids@[i as int]@);
                    assert(command_views(commands@) =~= so_far + prototype_commands(
                        branch_views[i as int],
                    ) + seq![
                        CommandView::AddShapeParameter {
                            shape_parameter_id: parameter_views[i as int],
                            shape_id: prototype.id@,
                            name: Seq::empty(),
                        },
                        CommandView::SetParameterShape {
                            shape_id: prototype.id@,
                            shape_parameter_id: parameter_views[i as int],
                            provider_shape_id: branch_views[i as int].id,
                        },
                    ]);
                    assert(command_views(commands@) =~= before + seq![
                        declare_shape(prototype.id@, ShapeKind::OneOfKind),
                    ] + branches_commands(
                        prototype.id@,
                        branch_views,
                        parameter_views,
                        (i + 1) as nat,
                    ));
                }
                i += 1;
            }
            assert(command_views(commands@) =~= before + prototype_commands(prototype@));
        },
        ShapePrototypeDescriptor::NullableShape { shape } => {
            push_prototype_commands(shape, commands);
            let declare = ShapeCommand::add_shape(
                prototype.id.clone(),
                ShapeKind::NullableKind,
                String::new(),
            );
            proof {
                lemma_command_views_push(commands@, declare);
            }
            commands.push(declare);
            let parameter_id = wrapped_parameter_id(ShapeKind::NullableKind);
            let bind = ShapeCommand::set_parameter_shape(
                prototype.id.clone(),
                parameter_id,
                shape.id.clone(),
            );
            proof {
                lemma_command_views_push(commands@, bind);
            }
            commands.push(bind);
            assert(command_views(commands@) =~= before + prototype_commands(prototype@));
        },
        ShapePrototypeDescriptor::ListOfShape { item_shape_id, item_is_unknown } => {
            let declare = ShapeCommand::add_shape(
                prototype.id.clone(),
                ShapeKind::ListKind,
                String::new(),
            );
            proof {
                lemma_command_views_push(commands@, declare);
            }
            commands.push(declare);
            if *item_is_unknown {
                let declare_item = ShapeCommand::add_shape(
                    item_shape_id.clone(),
                    ShapeKind::UnknownKind,
                    String::new(),
                );
                proof {
                    lemma_command_views_push(commands@, declare_item);
                }
                commands.push(declare_item);
            }
            let parameter_id = wrapped_parameter_id(ShapeKind::ListKind);
            let bind = ShapeCommand::set_parameter_shape(
                prototype.id.clone(),
                parameter_id,
                item_shape_id.clone(),
            );
            proof {
                lemma_command_views_push(commands@, bind);
            }
            commands.push(bind);
            assert(command_views(commands@) =~= before + prototype_commands(prototype@));
        },
        ShapePrototypeDescriptor::ObjectWithFields { fields } => {
            let declare = ShapeCommand::add_shape(
                prototype.id.clone(),
                ShapeKind::ObjectKind,
                String::new(),
            );
            proof {
                lemma_command_views_push(commands@, declare);
            }
            commands.push(declare);
            let ghost views = prototype@.descriptor->fields;
            let mut i: usize = 0;
            assert(views.take(0) =~= Seq::empty());
            assert(command_views(commands@) =~= before + seq![
                declare_shape(prototype.id@, ShapeKind::ObjectKind),
            ] + fields_commands(prototype.id@, views.take(0)));
            while i < fields.len()
                invariant
                    i <= fields.len(),
                    views == crate::prototype::field_views(fields@),
                    command_views(commands@) == before + seq![
                        declare_shape(prototype.id@, ShapeKind::ObjectKind),
                    ] + fields_commands(prototype.id@, views.take(i as int)),
                decreases fields.len() - i,
            {
                push_field_commands(&prototype.id, &fields[i], commands);
                proof {
                    assert(views.take(i + 1).drop_last() =~= views.take(i as int));
                    assert(views.take(i + 1).last() == fields@[i as int]@);
                    assert(command_views(commands@) =~= before + seq![
                        declare_shape(prototype.id@, ShapeKind::ObjectKind),
                    ] + fields_commands(prototype.id@, views.take(i + 1)));
                }
                i += 1;
            }
            assert(views.take(fields.len() as int) =~= views);
            assert(command_views(commands@) =~= before + prototype_commands(prototype@));
        },
        ShapePrototypeDescriptor::Unknown => {
            let declare = ShapeCommand::add_shape(
                prototype.id.clone(),
                ShapeKind::UnknownKind,
                String::new(),
            );
            proof {
                lemma_command_views_push(commands@, declare);
            }
            commands.push(declare);
            assert(command_views(commands@) =~= before + prototype_commands(prototype@));
        },
    }
}

/// Writes the commands that build the nodes of `shape_prototypes`, one node
/// after the other.
pub fn shape_prototypes_to_commands(shape_prototypes: Vec<ShapePrototype>) -> (commands: Vec<
    ShapeCommand,
>)
    ensures
        command_views(commands@) == all_commands(prototype_views(shape_prototypes@)),
        each_takes_from_earlier(prototype_views(shape_prototypes@)) ==> no_forward_references(
            command_views(commands@),
        ),
{
    let ghost views = prototype_views(shape_prototypes@);
    proof {
        if each_takes_from_earlier(views) {
            lemma_all_commands_refer_back(views);
        }
    }
    let mut commands: Vec<ShapeCommand> = Vec::new();
    let mut i: usize = 0;
    assert(views.take(0) =~= Seq::empty());
    assert(command_views(commands@) =~= all_commands(views.take(0)));
    while i < shape_prototypes.len()
        invariant
            i <= shape_prototypes.len(),
            views == prototype_views(shape_prototypes@),
            command_views(commands@) == all_commands(views.take(i as int)),
        decreases shape_prototypes.len() - i,
    {
        push_prototype_commands(&shape_prototypes[i], &mut commands);
        proof {
            assert(views.take(i + 1).drop_last() =~= views.take(i as int));
            assert(views.take(i + 1).last() == shape_prototypes@[i as int]@);
        }
        i += 1;
    }
    assert(views.take(shape_prototypes.len() as int) =~= views);
    commands
}

/// Every shape that the node refers to without declaring it is among `known`:
/// the item shape of a list that had items, and the shapes of the values of
/// the fields of an object.
pub open spec fn takes_from(prototype: PrototypeView, known: Set<Seq<char>>) -> bool
    decreases prototype,
{
    match prototype.descriptor {
        DescriptorView::Primitive { .. } => true,
        DescriptorView::Unknown => true,
        DescriptorView::Nullable { shape } => takes_from(*shape, known),
        DescriptorView::OneOf { branches, parameter_ids } => forall|i: int|
            0 <= i < paired(branches, parameter_ids) ==> takes_from(#[trigger] branches[i], known),
        DescriptorView::List { item_shape_id, item_is_unknown } => item_is_unknown
            || known.contains(item_shape_id),
        DescriptorView::Object { fields } => forall|i: int|
            0 <= i < fields.len() ==> known.contains((#[trigger] fields[i]).value_shape_id),
    }
}

/// A node that finds its shapes in a set finds them in a larger one.
pub proof fn lemma_takes_from_larger(
    prototype: PrototypeView,
    known: Set<Seq<char>>,
    larger: Set<Seq<char>>,
)
    requires
        takes_from(prototype, known),
        known.subset_of(larger),
    ensures
        takes_from(prototype, larger),
    decreases prototype,
{
    match prototype.descriptor {
        DescriptorView::Nullable { shape } => {
            lemma_takes_from_larger(*shape, known, larger);
        },
        DescriptorView::OneOf { branches, parameter_ids } => {
            assert forall|i: int| 0 <= i < paired(branches, parameter_ids) implies takes_from(
                #[trigger] branches[i],
                larger,
            ) by {
                lemma_takes_from_larger(branches[i], known, larger);
            }
        },
        _ => {},
    }
}

/// The commands for a field refer back from any set that holds the object
/// shape and the shape of the field's values.
proof fn lemma_field_commands_refer_back(
    owner: Seq<char>,
    field: FieldPrototypeView,
    known: Set<Seq<char>>,
)
    requires
        known.contains(owner),
        known.contains(field.value_shape_id),
    ensures
        refers_back(field_commands(owner, field), known),
{
    let none = Seq::<CommandView>::empty();
    assert(declared_shapes(none) =~= Set::empty());
    assert(refers_back(none, known));
    match field.optional_shape_id {
        Some(optional) => {
            let c0 = declare_shape(optional, ShapeKind::OptionalKind);
            let c1 = bind_wrapped(optional, ShapeKind::OptionalKind, field.value_shape_id);
            let c2 = CommandView::AddField {
                key: field.key,
                field_id: field.field_id,
                shape_id: owner,
                field_shape_id: optional,
            };
            lemma_refers_back_push(none, c0, known);
            lemma_declared_shapes_push(none, c0);
            lemma_refers_back_push(none.push(c0), c1, known);
            lemma_declared_shapes_push(none.push(c0), c1);
            lemma_refers_back_push(none.push(c0).push(c1), c2, known);
            assert(field_commands(owner, field) =~= none.push(c0).push(c1).push(c2));
        },
        None => {
            let c0 = CommandView::AddField {
                key: field.key,
                field_id: field.field_id,
                shape_id: owner,
                field_shape_id: field.value_shape_id,
            };
            lemma_refers_back_push(none, c0, known);
            assert(field_commands(owner, field) =~= none.push(c0));
        },
    }
}

/// The commands for the fields of an object refer back from any set that holds
/// the object shape and the shapes of the values of its fields.
proof fn lemma_fields_commands_refer_back(
    owner: Seq<char>,
    fields: Seq<FieldPrototypeView>,
    known: Set<Seq<char>>,
)
    requires
        known.contains(owner),
        forall|i: int| 0 <= i < fields.len() ==> known.contains((#[trigger] fields[i]).value_shape_id),
    ensures
        refers_back(fields_commands(owner, fields), known),
    decreases fields.len(),
{
    if fields.len() > 0 {
        let front = fields.drop_last();
        assert forall|i: int| 0 <= i < front.len() implies known.contains(
            (#[trigger] front[i]).value_shape_id,
        ) by {
            assert(front[i] == fields[i]);
        }
        lemma_fields_commands_refer_back(owner, front, known);
        let larger = known.union(declared_shapes(fields_commands(owner, front)));
        assert(known.contains(fields[fields.len() - 1].value_shape_id));
        lemma_field_commands_refer_back(owner, fields.last(), larger);
        lemma_refers_back_concat(
            fields_commands(owner, front),
            field_commands(owner, fields.last()),
            known,
        );
    }
}

/// The commands that build a node declare the node's own shape, and refer
/// back from any set that holds the shapes which the node takes from outside.
pub proof fn lemma_prototype_commands_refer_back(prototype: PrototypeView, known: Set<Seq<char>>)
    requires
        takes_from(prototype, known),
    ensures
        refers_back(prototype_commands(prototype), known),
        declared_shapes(prototype_commands(prototype)).contains(prototype.id),
    decreases prototype, 0nat,
{
    let none = Seq::<CommandView>::empty();
    assert(declared_shapes(none) =~= Set::empty());
    assert(refers_back(none, known));
    let id = prototype.id;
    match prototype.descriptor {
        DescriptorView::Primitive { base_shape_kind } => {
            let c0 = declare_shape(id, base_shape_kind);
            lemma_refers_back_push(none, c0, known);
            lemma_declared_shapes_push(none, c0);
            assert(prototype_commands(prototype) =~= none.push(c0));
        },
        DescriptorView::Unknown => {
            let c0 = declare_shape(id, ShapeKind::UnknownKind);
            lemma_refers_back_push(none, c0, known);
            lemma_declared_shapes_push(none, c0);
            assert(prototype_commands(prototype) =~= none.push(c0));
        },
        DescriptorView::Nullable { shape } => {
            let inner = prototype_commands(*shape);
            lemma_prototype_commands_refer_back(*shape, known);
            let c0 = declare_shape(id, ShapeKind::NullableKind);
            let c1 = bind_wrapped(id, ShapeKind::NullableKind, shape.id);
            lemma_refers_back_push(inner, c0, known);
            lemma_declared_shapes_push(inner, c0);
            lemma_refers_back_push(inner.push(c0), c1, known);
            lemma_declared_shapes_push(inner.push(c0), c1);
            assert(prototype_commands(prototype) =~= inner.push(c0).push(c1));
        },
        DescriptorView::OneOf { branches, parameter_ids } => {
            let c0 = declare_shape(id, ShapeKind::OneOfKind);
            lemma_refers_back_push(none, c0, known);
            lemma_declared_shapes_push(none, c0);
            let head = none.push(c0);
            let n = paired(branches, parameter_ids);
            let larger = known.union(declared_shapes(head));
            assert forall|i: int| 0 <= i < n implies takes_from(#[trigger] branches[i], larger) by {
                lemma_takes_from_larger(branches[i], known, larger);
            }
            lemma_branches_commands_refer_back(id, branches, parameter_ids, n, larger);
            let tail = branches_commands(id, branches, parameter_ids, n);
            lemma_refers_back_concat(head, tail, known);
            lemma_declared_shapes_concat(head, tail);
            assert(prototype_commands(prototype) =~= head + tail);
        },
        DescriptorView::List { item_shape_id, item_is_unknown } => {
            let c0 = declare_shape(id, ShapeKind::ListKind);
            lemma_refers_back_push(none, c0, known);
            lemma_declared_shapes_push(none, c0);
            if item_is_unknown {
                let c1 = declare_shape(item_shape_id, ShapeKind::UnknownKind);
                let c2 = bind_wrapped(id, ShapeKind::ListKind, item_shape_id);
                lemma_refers_back_push(none.push(c0), c1, known);
                lemma_declared_shapes_push(none.push(c0), c1);
                lemma_refers_back_push(none.push(c0).push(c1), c2, known);
                lemma_declared_shapes_push(none.push(c0).push(c1), c2);
                assert(prototype_commands(prototype) =~= none.push(c0).push(c1).push(c2));
            } else {
                let c1 = bind_wrapped(id, ShapeKind::ListKind, item_shape_id);
                lemma_refers_back_push(none.push(c0), c1, known);
                lemma_declared_shapes_push(none.push(c0), c1);
                assert(prototype_commands(prototype) =~= none.push(c0).push(c1));
            }
        },
        DescriptorView::Object { fields } => {
            let c0 = declare_shape(id, ShapeKind::ObjectKind);
            lemma_refers_back_push(none, c0, known);
            lemma_declared_shapes_push(none, c0);
            let head = none.push(c0);
            let larger = known.union(declared_shapes(head));
            lemma_fields_commands_refer_back(id, fields, larger);
            let tail = fields_commands(id, fields);
            lemma_refers_back_concat(head, tail, known);
            lemma_declared_shapes_concat(head, tail);
            assert(prototype_commands(prototype) =~= head + tail);
        },
    }
}

/// The commands for the first `n` branches of a polymorphic shape refer back
/// from any set that holds that shape and what the branches take from outside.
proof fn lemma_branches_commands_refer_back(
    owner: Seq<char>,
    branches: Seq<PrototypeView>,
    parameter_ids: Seq<Seq<char>>,
    n: nat,
    known: Set<Seq<char>>,
)
    requires
        n <= paired(branches, parameter_ids),
        known.contains(owner),
        forall|i: int| 0 <= i < n ==> takes_from(#[trigger] branches[i], known),
    ensures
        refers_back(branches_commands(owner, branches, parameter_ids, n), known),
    decreases branches, n,
{
    let none = Seq::<CommandView>::empty();
    assert(declared_shapes(none) =~= Set::empty());
    if n > 0 {
        let front = branches_commands(owner, branches, parameter_ids, (n - 1) as nat);
        lemma_branches_commands_refer_back(owner, branches, parameter_ids, (n - 1) as nat, known);
        let branch = branches[n - 1];
        let own = prototype_commands(branch);
        let larger = known.union(declared_shapes(front));
        lemma_takes_from_larger(branch, known, larger);
        lemma_prototype_commands_refer_back(branch, larger);
        lemma_refers_back_concat(front, own, known);
        lemma_declared_shapes_concat(front, own);
        let c0 = CommandView::AddShapeParameter {
            shape_parameter_id: parameter_ids[n - 1],
            shape_id: owner,
            name: Seq::empty(),
        };
        let c1 = CommandView::SetParameterShape {
            shape_id: owner,
            shape_parameter_id: parameter_ids[n - 1],
            provider_shape_id: branch.id,
        };
        lemma_refers_back_push(front + own, c0, known);
        lemma_declared_shapes_push(front + own, c0);
        lemma_refers_back_push((front + own).push(c0), c1, known);
        assert(branches_commands(owner, branches, parameter_ids, n) =~= (front + own).push(c0).push(
            c1,
        ));
    } else {
        assert(refers_back(none, known));
    }
}

/// The identifiers of the nodes of a sequence.
pub open spec fn prototype_ids(prototypes: Seq<PrototypeView>) -> Set<Seq<char>> {
    Set::new(
        |id: Seq<char>| exists|i: int| 0 <= i < prototypes.len() && (#[trigger] prototypes[i]).id == id,
    )
}

/// Each node of the sequence takes from outside only the shapes of nodes
/// before it.
pub open spec fn each_takes_from_earlier(prototypes: Seq<PrototypeView>) -> bool {
    forall|i: int|
        0 <= i < prototypes.len() ==> takes_from(
            #[trigger] prototypes[i],
            prototype_ids(prototypes.take(i)),
        )
}

/// Where each node takes from outside only the shapes of nodes before it, no
/// command for the sequence refers to a shape that is not declared before it;
/// and the shape of every node is declared.
pub proof fn lemma_all_commands_refer_back(prototypes: Seq<PrototypeView>)
    requires
        each_takes_from_earlier(prototypes),
    ensures
        no_forward_references(all_commands(prototypes)),
        prototype_ids(prototypes).subset_of(declared_shapes(all_commands(prototypes))),
    decreases prototypes.len(),
{
    let none = Seq::<CommandView>::empty();
    assert(declared_shapes(none) =~= Set::empty());
    if prototypes.len() == 0 {
        assert(refers_back(none, Set::empty()));
    } else {
        let front = prototypes.drop_last();
        let last = prototypes.last();
        assert forall|i: int| 0 <= i < front.len() implies takes_from(
            #[trigger] front[i],
            prototype_ids(front.take(i)),
        ) by {
            assert(front[i] == prototypes[i]);
            assert(front.take(i) =~= prototypes.take(i));
        }
        lemma_all_commands_refer_back(front);
        let before = all_commands(front);
        assert(prototypes.take(prototypes.len() - 1) =~= front);
        assert(takes_from(prototypes[prototypes.len() - 1], prototype_ids(front)));
        let known = Set::<Seq<char>>::empty().union(declared_shapes(before));
        lemma_takes_from_larger(last, prototype_ids(front), known);
        lemma_prototype_commands_refer_back(last, known);
        lemma_refers_back_concat(before, prototype_commands(last), Set::empty());
        lemma_declared_shapes_concat(before, prototype_commands(last));
        assert forall|id: Seq<char>| prototype_ids(prototypes).contains(id) implies declared_shapes(
            all_commands(prototypes),
        ).contains(id) by {
            let i = choose|i: int| 0 <= i < prototypes.len() && (#[trigger] prototypes[i]).id == id;
            if i < front.len() {
                assert(front[i].id == id);
                assert(prototype_ids(front).contains(id));
            }
        }
    }
}

} // verus!
