//! Locations inside a JSON document, and the order that puts each location
//! before every location below it.

use crate::order::{
    agree_before, is_strict_total_order, lemma_lex_decided_at, lemma_lex_extension,
    lemma_lex_irreflexive, lemma_lex_total, lemma_lex_transitive, lemma_str_less_irreflexive,
    lemma_str_less_total, lemma_str_less_transitive, lex_less, str_less, str_precedes,
};
use vstd::prelude::*;

verus! {

/// One step of a path, as contracts see it.
pub enum PathStep {
    ObjectKey { key: Seq<char> },
    ArrayItem { index: u32 },
}

/// One step of a path into a JSON document: into the value under a key of an
/// object, or into an item of an array.
#[derive(Debug, Hash)]
pub enum JsonTrailPathComponent {
    JsonObjectKey { key: String },
    JsonArrayItem { index: u32 },
}

impl View for JsonTrailPathComponent {
    type V = PathStep;

    open spec fn view(&self) -> PathStep {
        match self {
            JsonTrailPathComponent::JsonObjectKey { key } => PathStep::ObjectKey { key: key@ },
            JsonTrailPathComponent::JsonArrayItem { index } => PathStep::ArrayItem { index: *index },
        }
    }
}

/// Steps are ordered with the keys first, by the order of strings, and the
/// items after them, by their index.
pub open spec fn step_less(x: PathStep, y: PathStep) -> bool {
    match (x, y) {
        (PathStep::ObjectKey { key: a }, PathStep::ObjectKey { key: b }) => str_less(a, b),
        (PathStep::ObjectKey { .. }, PathStep::ArrayItem { .. }) => true,
        (PathStep::ArrayItem { .. }, PathStep::ObjectKey { .. }) => false,
        (PathStep::ArrayItem { index: i }, PathStep::ArrayItem { index: j }) => i < j,
    }
}

pub open spec fn step_order() -> spec_fn(PathStep, PathStep) -> bool {
    |x: PathStep, y: PathStep| step_less(x, y)
}

/// Location `a` comes before location `b`: the lexicographic order of their
/// steps.
pub open spec fn trail_less(a: Seq<PathStep>, b: Seq<PathStep>) -> bool {
    lex_less(a, b, step_order())
}

pub proof fn lemma_step_order_is_strict_total()
    ensures
        is_strict_total_order(step_order()),
{
    let less = step_order();
    assert forall|x: PathStep| !#[trigger] less(x, x) by {
        if let PathStep::ObjectKey { key } = x {
            lemma_str_less_irreflexive(key);
        }
    }
    assert forall|x: PathStep, y: PathStep, z: PathStep| #[trigger]
        less(x, y) && #[trigger] less(y, z) implies less(x, z) by {
        if let PathStep::ObjectKey { key: a } = x {
            if let PathStep::ObjectKey { key: b } = y {
                if let PathStep::ObjectKey { key: c } = z {
                    lemma_str_less_transitive(a, b, c);
                }
            }
        }
    }
    assert forall|x: PathStep, y: PathStep| x != y implies #[trigger] less(x, y) || less(y, x) by {
        if let PathStep::ObjectKey { key: a } = x {
            if let PathStep::ObjectKey { key: b } = y {
                lemma_str_less_total(a, b);
            }
        }
    }
}

pub proof fn lemma_trail_less_irreflexive(a: Seq<PathStep>)
    ensures
        !trail_less(a, a),
{
    lemma_step_order_is_strict_total();
    lemma_lex_irreflexive(a, step_order());
}

pub proof fn lemma_trail_less_transitive(a: Seq<PathStep>, b: Seq<PathStep>, c: Seq<PathStep>)
    requires
        trail_less(a, b),
        trail_less(b, c),
    ensures
        trail_less(a, c),
{
    lemma_step_order_is_strict_total();
    lemma_lex_transitive(a, b, c, step_order());
}

pub proof fn lemma_trail_less_total(a: Seq<PathStep>, b: Seq<PathStep>)
    requires
        a != b,
    ensures
        trail_less(a, b) || trail_less(b, a),
{
    lemma_step_order_is_strict_total();
    lemma_lex_total(a, b, step_order());
}

/// Every location comes before the locations one step below it.
pub proof fn lemma_parent_before_child(parent: Seq<PathStep>, step: PathStep)
    ensures
        trail_less(parent, parent.push(step)),
{
    lemma_lex_extension(parent, step, step_order());
}

impl Clone for JsonTrailPathComponent {
    fn clone(&self) -> (r: Self)
        ensures
            r@ == self@,
    {
        match self {
            JsonTrailPathComponent::JsonObjectKey { key } => JsonTrailPathComponent::JsonObjectKey {
                key: key.clone(),
            },
            JsonTrailPathComponent::JsonArrayItem { index } => JsonTrailPathComponent::JsonArrayItem {
                index: *index,
            },
        }
    }
}

impl JsonTrailPathComponent {
    /// Tells whether two steps are the same.
    pub fn same_as(&self, other: &JsonTrailPathComponent) -> (r: bool)
        ensures
            r == (self@ == other@),
    {
        match self {
            JsonTrailPathComponent::JsonObjectKey { key: a } => match other {
                JsonTrailPathComponent::JsonObjectKey { key: b } => *a == *b,
                JsonTrailPathComponent::JsonArrayItem { .. } => false,
            },
            JsonTrailPathComponent::JsonArrayItem { index: i } => match other {
                JsonTrailPathComponent::JsonObjectKey { .. } => false,
                JsonTrailPathComponent::JsonArrayItem { index: j } => *i == *j,
            },
        }
    }

    /// Tells whether this step comes before the other.
    pub fn precedes(&self, other: &JsonTrailPathComponent) -> (r: bool)
        ensures
            r == step_less(self@, other@),
    {
        match self {
            JsonTrailPathComponent::JsonObjectKey { key: a } => match other {
                JsonTrailPathComponent::JsonObjectKey { key: b } => str_precedes(
                    a.as_str(),
                    b.as_str(),
                ),
                JsonTrailPathComponent::JsonArrayItem { .. } => true,
            },
            JsonTrailPathComponent::JsonArrayItem { index: i } => match other {
                JsonTrailPathComponent::JsonObjectKey { .. } => false,
                JsonTrailPathComponent::JsonArrayItem { index: j } => *i < *j,
            },
        }
    }
}

/// A location inside a JSON document: the steps that lead to it from the root.
#[derive(Debug, Hash)]
pub struct JsonTrail {
    path: Vec<JsonTrailPathComponent>,
}

impl View for JsonTrail {
    type V = Seq<PathStep>;

    closed spec fn view(&self) -> Seq<PathStep> {
        self.path@.map_values(|c: JsonTrailPathComponent| c@)
    }
}

impl Clone for JsonTrail {
    fn clone(&self) -> (r: Self)
        ensures
            r@ == self@,
    {
        let mut path: Vec<JsonTrailPathComponent> = Vec::new();
        let mut i: usize = 0;
        while i < self.path.len()
            invariant
                i <= self.path.len(),
                path@.len() == i,
                forall|j: int| 0 <= j < i ==> path@[j]@ == self.path@[j]@,
            decreases self.path.len() - i,
        {
            path.push(self.path[i].clone());
            i += 1;
        }
        let r = JsonTrail { path };
        assert(r@ =~= self@);
        r
    }
}

impl JsonTrail {
    /// The root of a document.
    pub fn empty() -> (r: JsonTrail)
        ensures
            r@ == Seq::<PathStep>::empty(),
    {
        let r = JsonTrail { path: Vec::new() };
        assert(r@ =~= Seq::<PathStep>::empty());
        r
    }

    /// The location of the value under `key` in the object at this location.
    pub fn with_object_key(&self, key: String) -> (r: JsonTrail)
        ensures
            r@ == self@.push(PathStep::ObjectKey { key: key@ }),
    {
        let mut r = self.clone();
        r.path.push(JsonTrailPathComponent::JsonObjectKey { key });
        assert(r@ =~= self@.push(PathStep::ObjectKey { key: key@ }));
        r
    }

    /// The location of the item at `index` in the array at this location.
    pub fn with_array_item(&self, index: u32) -> (r: JsonTrail)
        ensures
            r@ == self@.push(PathStep::ArrayItem { index }),
    {
        let mut r = self.clone();
        r.path.push(JsonTrailPathComponent::JsonArrayItem { index });
        assert(r@ =~= self@.push(PathStep::ArrayItem { index }));
        r
    }

    /// The number of steps from the root.
    pub fn len(&self) -> (r: usize)
        ensures
            r == self@.len(),
    {
        self.path.len()
    }

    /// The steps from the root, in order.
    pub fn components(&self) -> (r: &Vec<JsonTrailPathComponent>)
        ensures
            r@.len() == self@.len(),
            forall|i: int| 0 <= i < r@.len() ==> r@[i]@ == self@[i],
    {
        &self.path
    }

    /// Tells whether two locations are the same.
    pub fn same_as(&self, other: &JsonTrail) -> (r: bool)
        ensures
            r == (self@ == other@),
    {
        if self.path.len() != other.path.len() {
            return false;
        }
        let mut i: usize = 0;
        while i < self.path.len()
            invariant
                self.path.len() == other.path.len(),
                agree_before(self@, other@, i as int),
            decreases self.path.len() - i,
        {
            if !self.path[i].same_as(&other.path[i]) {
                assert(self@[i as int] != other@[i as int]);
                return false;
            }
            i += 1;
        }
        assert(self@ =~= other@);
        true
    }

    /// Tells whether this location comes before the other in the order of
    /// locations.
    pub fn precedes(&self, other: &JsonTrail) -> (r: bool)
        ensures
            r == trail_less(self@, other@),
    {
        proof {
            lemma_step_order_is_strict_total();
        }
        let mut i: usize = 0;
        while i < self.path.len() && i < other.path.len()
            invariant
                is_strict_total_order(step_order()),
                agree_before(self@, other@, i as int),
            decreases self.path.len() - i,
        {
            if !self.path[i].same_as(&other.path[i]) {
                proof {
                    lemma_lex_decided_at(self@, other@, step_order(), i as int);
                }
                return self.path[i].precedes(&other.path[i]);
            }
            i += 1;
        }
        proof {
            lemma_lex_decided_at(self@, other@, step_order(), i as int);
        }
        i < other.path.len()
    }
}

impl PartialEq for JsonTrail {
    fn eq(&self, other: &JsonTrail) -> (r: bool) {
        self.same_as(other)
    }
}

impl Eq for JsonTrail {}

impl vstd::std_specs::cmp::PartialEqSpecImpl for JsonTrail {
    open spec fn obeys_eq_spec() -> bool {
        true
    }

    open spec fn eq_spec(&self, other: &JsonTrail) -> bool {
        self@ == other@
    }
}

} // verus!
