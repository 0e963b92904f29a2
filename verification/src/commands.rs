//! The commands that build a shape, and what it means for a sequence of them
//! to refer only to what was declared before.

use crate::state::ShapeKind;
use vstd::prelude::*;

verus! {

/// A command, as contracts see it.
pub enum CommandView {
    AddShape { shape_id: Seq<char>, shape_kind: ShapeKind, name: Seq<char> },
    AddField { key: Seq<char>, field_id: Seq<char>, shape_id: Seq<char>, field_shape_id: Seq<char> },
    AddShapeParameter { shape_parameter_id: Seq<char>, shape_id: Seq<char>, name: Seq<char> },
    SetParameterShape {
        shape_id: Seq<char>,
        shape_parameter_id: Seq<char>,
        provider_shape_id: Seq<char>,
    },
}

/// One step in building a shape.
#[derive(Debug, PartialEq, Eq)]
pub enum ShapeCommand {
    /// Declares the shape `shape_id` of the given kind.
    AddShape { shape_id: String, shape_kind: ShapeKind, name: String },
    /// Declares the field `field_id` under `key` in the object shape
    /// `shape_id`, with values of the shape `field_shape_id`.
    AddField { key: String, field_id: String, shape_id: String, field_shape_id: String },
    /// Declares the parameter `shape_parameter_id` of the shape `shape_id`.
    AddShapeParameter { shape_parameter_id: String, shape_id: String, name: String },
    /// Binds the parameter `shape_parameter_id` of the shape `shape_id` to the
    /// shape `provider_shape_id`.
    SetParameterShape { shape_id: String, shape_parameter_id: String, provider_shape_id: String },
}

impl View for ShapeCommand {
    type V = CommandView;

    open spec fn view(&self) -> CommandView {
        match self {
            ShapeCommand::AddShape { shape_id, shape_kind, name } => CommandView::AddShape {
                shape_id: shape_id@,
                shape_kind: *shape_kind,
                name: name@,
            },
            ShapeCommand::AddField { key, field_id, shape_id, field_shape_id } => CommandView::AddField {
                key: key@,
                field_id: field_id@,
                shape_id: shape_id@,
                field_shape_id: field_shape_id@,
            },
            ShapeCommand::AddShapeParameter {
                shape_parameter_id,
                shape_id,
                name,
            } => CommandView::AddShapeParameter {
                shape_parameter_id: shape_parameter_id@,
                shape_id: shape_id@,
                name: name@,
            },
            ShapeCommand::SetParameterShape {
                shape_id,
                shape_parameter_id,
                provider_shape_id,
            } => CommandView::SetParameterShape {
                shape_id: shape_id@,
                shape_parameter_id: shape_parameter_id@,
                provider_shape_id: provider_shape_id@,
            },
        }
    }
}

impl Clone for ShapeCommand {
    fn clone(&self) -> (r: Self)
        ensures
            r@ == self@,
    {
        match self {
            ShapeCommand::AddShape { shape_id, shape_kind, name } => ShapeCommand::AddShape {
                shape_id: shape_id.clone(),
                shape_kind: *shape_kind,
                name: name.clone(),
            },
            ShapeCommand::AddField { key, field_id, shape_id, field_shape_id } => ShapeCommand::AddField {
                key: key.clone(),
                field_id: field_id.clone(),
                shape_id: shape_id.clone(),
                field_shape_id: field_shape_id.clone(),
            },
            ShapeCommand::AddShapeParameter {
                shape_parameter_id,
                shape_id,
                name,
            } => ShapeCommand::AddShapeParameter {
                shape_parameter_id: shape_parameter_id.clone(),
                shape_id: shape_id.clone(),
                name: name.clone(),
            },
            ShapeCommand::SetParameterShape {
                shape_id,
                shape_parameter_id,
                provider_shape_id,
            } => ShapeCommand::SetParameterShape {
                shape_id: shape_id.clone(),
                shape_parameter_id: shape_parameter_id.clone(),
                provider_shape_id: provider_shape_id.clone(),
            },
        }
    }
}

/// The commands of a vector, as contracts see them.
pub open spec fn command_views(commands: Seq<ShapeCommand>) -> Seq<CommandView> {
    commands.map_values(|c: ShapeCommand| c@)
}

impl ShapeCommand {
    pub fn add_shape(shape_id: String, shape_kind: ShapeKind, name: String) -> (r: ShapeCommand)
        ensures
            r@ == (CommandView::AddShape { shape_id: shape_id@, shape_kind, name: name@ }),
    {
        ShapeCommand::AddShape { shape_id, shape_kind, name }
    }

    pub fn add_field(key: String, field_id: String, shape_id: String, field_shape_id: String) -> (r:
        ShapeCommand)
        ensures
            r@ == (CommandView::AddField {
                key: key@,
                field_id: field_id@,
                shape_id: shape_id@,
                field_shape_id: field_shape_id@,
            }),
    {
        ShapeCommand::AddField { key, field_id, shape_id, field_shape_id }
    }

    pub fn add_shape_parameter(shape_parameter_id: String, shape_id: String, name: String) -> (r:
        ShapeCommand)
        ensures
            r@ == (CommandView::AddShapeParameter {
                shape_parameter_id: shape_parameter_id@,
                shape_id: shape_id@,
                name: name@,
            }),
    {
        ShapeCommand::AddShapeParameter { shape_parameter_id, shape_id, name }
    }

    pub fn set_parameter_shape(
        shape_id: String,
        shape_parameter_id: String,
        provider_shape_id: String,
    ) -> (r: ShapeCommand)
        ensures
            r@ == (CommandView::SetParameterShape {
                shape_id: shape_id@,
                shape_parameter_id: shape_parameter_id@,
                provider_shape_id: provider_shape_id@,
            }),
    {
        ShapeCommand::SetParameterShape { shape_id, shape_parameter_id, provider_shape_id }
    }
}

impl CommandView {
    /// The shape that the command declares, if it declares one.
    pub open spec fn declares(self) -> Option<Seq<char>> {
        match self {
            CommandView::AddShape { shape_id, .. } => Some(shape_id),
            _ => None,
        }
    }

    /// Every shape that the command refers to is among `available`. The
    /// declaration of a shape refers to none.
    pub open spec fn refers_within(self, available: Set<Seq<char>>) -> bool {
        match self {
            CommandView::AddShape { .. } => true,
            CommandView::AddField { shape_id, field_shape_id, .. } => {
                &&& available.contains(shape_id)
                &&& available.contains(field_shape_id)
            },
            CommandView::AddShapeParameter { shape_id, .. } => available.contains(shape_id),
            CommandView::SetParameterShape { shape_id, provider_shape_id, .. } => {
                &&& available.contains(shape_id)
                &&& available.contains(provider_shape_id)
            },
        }
    }
}

/// The shapes that the commands declare.
pub open spec fn declared_shapes(commands: Seq<CommandView>) -> Set<Seq<char>> {
    Set::new(
        |id: Seq<char>|
            exists|i: int| 0 <= i < commands.len() && (#[trigger] commands[i]).declares() == Some(id),
    )
}

/// Every command refers only to shapes of `known` and to shapes that a command
/// before it declares.
pub open spec fn refers_back(commands: Seq<CommandView>, known: Set<Seq<char>>) -> bool {
    forall|i: int|
        0 <= i < commands.len() ==> (#[trigger] commands[i]).refers_within(
            known.union(declared_shapes(commands.take(i))),
        )
}

/// No command refers to a shape that is declared later or not at all: a store
/// that takes the commands in order, and knows no shape at the start, finds
/// every shape that a command refers to.
pub open spec fn no_forward_references(commands: Seq<CommandView>) -> bool {
    refers_back(commands, Set::empty())
}

/// What a sequence of commands declares is what its two parts declare.
pub proof fn lemma_declared_shapes_concat(a: Seq<CommandView>, b: Seq<CommandView>)
    ensures
        declared_shapes(a + b) == declared_shapes(a).union(declared_shapes(b)),
{
    let c = a + b;
    assert forall|id: Seq<char>|
        declared_shapes(c).contains(id) <==> declared_shapes(a).contains(id) || declared_shapes(
            b,
        ).contains(id) by {
        if declared_shapes(c).contains(id) {
            let i = choose|i: int| 0 <= i < c.len() && (#[trigger] c[i]).declares() == Some(id);
            if i < a.len() {
                assert(a[i].declares() == Some(id));
            } else {
                assert(b[i - a.len()].declares() == Some(id));
            }
        }
        if declared_shapes(a).contains(id) {
            let i = choose|i: int| 0 <= i < a.len() && (#[trigger] a[i]).declares() == Some(id);
            assert(c[i].declares() == Some(id));
        }
        if declared_shapes(b).contains(id) {
            let i = choose|i: int| 0 <= i < b.len() && (#[trigger] b[i]).declares() == Some(id);
            assert(c[i + a.len()].declares() == Some(id));
        }
    }
    assert(declared_shapes(c) =~= declared_shapes(a).union(declared_shapes(b)));
}

/// Where `a` refers back from `known`, and `b` from `known` and what `a`
/// declares, `a` followed by `b` refers back from `known`.
pub proof fn lemma_refers_back_concat(a: Seq<CommandView>, b: Seq<CommandView>, known: Set<Seq<char>>)
    requires
        refers_back(a, known),
        refers_back(b, known.union(declared_shapes(a))),
    ensures
        refers_back(a + b, known),
{
    let c = a + b;
    assert forall|i: int| 0 <= i < c.len() implies (#[trigger] c[i]).refers_within(
        known.union(declared_shapes(c.take(i))),
    ) by {
        if i < a.len() {
            assert(c.take(i) =~= a.take(i));
            assert(c[i] == a[i]);
        } else {
            let j = i - a.len();
            assert(c.take(i) =~= a + b.take(j));
            assert(c[i] == b[j]);
            lemma_declared_shapes_concat(a, b.take(j));
            assert(known.union(declared_shapes(c.take(i))) =~= known.union(declared_shapes(a)).union(
                declared_shapes(b.take(j)),
            ));
        }
    }
}

/// One more command that finds its shapes among `known` and what the commands
/// before it declare keeps the sequence referring back.
pub proof fn lemma_refers_back_push(
    commands: Seq<CommandView>,
    command: CommandView,
    known: Set<Seq<char>>,
)
    requires
        refers_back(commands, known),
        command.refers_within(known.union(declared_shapes(commands))),
    ensures
        refers_back(commands.push(command), known),
{
    let one = seq![command];
    assert(one.take(0) =~= Seq::empty());
    assert(declared_shapes(Seq::<CommandView>::empty()) =~= Set::empty());
    assert(known.union(declared_shapes(commands)).union(Set::empty()) =~= known.union(
        declared_shapes(commands),
    ));
    assert(refers_back(one, known.union(declared_shapes(commands))));
    lemma_refers_back_concat(commands, one, known);
    assert(commands + one =~= commands.push(command));
}

/// What a sequence with one more command declares.
pub proof fn lemma_declared_shapes_push(commands: Seq<CommandView>, command: CommandView)
    ensures
        declared_shapes(commands.push(command)) == match command.declares() {
            Some(id) => declared_shapes(commands).insert(id),
            None => declared_shapes(commands),
        },
{
    let one = seq![command];
    lemma_declared_shapes_concat(commands, one);
    assert(commands + one =~= commands.push(command));
    assert forall|id: Seq<char>| declared_shapes(one).contains(id) <==> command.declares() == Some(
        id,
    ) by {
        if declared_shapes(one).contains(id) {
            let i = choose|i: int| 0 <= i < one.len() && (#[trigger] one[i]).declares() == Some(id);
        }
        if command.declares() == Some(id) {
            assert(one[0].declares() == Some(id));
        }
    }
    match command.declares() {
        Some(id) => {
            assert(declared_shapes(commands).union(declared_shapes(one)) =~= declared_shapes(
                commands,
            ).insert(id));
        },
        None => {
            assert(declared_shapes(commands).union(declared_shapes(one)) =~= declared_shapes(
                commands,
            ));
        },
    }
}

} // verus!
