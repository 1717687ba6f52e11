//! The nodes of the lowered program and the constraints that each one puts
//! on the types of nodes.

use crate::trace::NodeId;
use crate::typecheck::constraints::{
    constraint_models, lemma_constraint_models, lemma_ty_models, ty_models, Bound, Constraint,
    Instantiation, SpecBound, SpecConstraint, SpecTy, Substitutions, Ty,
};
use vstd::prelude::*;

verus! {

/// Collects the constraints that nodes generate, in order.
pub struct ToConstraintsContext {
    constraints: Vec<Constraint>,
}

impl ToConstraintsContext {
    /// The constraints collected so far.
    pub closed spec fn models(self) -> Seq<SpecConstraint> {
        constraint_models(self.constraints@)
    }

    /// No constraints.
    pub fn new() -> (ctx: Self)
        ensures
            ctx.models() == Seq::<SpecConstraint>::empty(),
    {
        ToConstraintsContext { constraints: Vec::new() }
    }

    /// Adds `constraint` after the others.
    pub fn push(&mut self, constraint: Constraint)
        ensures
            final(self).models() == old(self).models().push(constraint.model()),
    {
        let ghost before = self.constraints@;
        self.constraints.push(constraint);
        proof {
            assert(self.constraints@.drop_last() =~= before);
        }
    }

    /// The constraints collected, in order.
    pub fn into_constraints(self) -> (r: Vec<Constraint>)
        ensures
            constraint_models(r@) == self.models(),
    {
        self.constraints
    }
}

impl Default for ToConstraintsContext {
    fn default() -> (ctx: Self)
        ensures
            ctx.models() == Seq::<SpecConstraint>::empty(),
    {
        ToConstraintsContext::new()
    }
}

/// A node that puts constraints on the types of nodes.
pub trait ToConstraints {
    /// Adds the constraints of this node, which is `node`, to `ctx`.
    fn to_constraints(&self, node: NodeId, ctx: &mut ToConstraintsContext);
}

/// The types of a sequence of nodes: each node's own type.
pub open spec fn of_nodes(nodes: Seq<NodeId>) -> Seq<SpecTy> {
    nodes.map_values(|n: NodeId| SpecTy::Of(n))
}

/// The types of `nodes`, each the type of the node.
fn tys_of(nodes: &Vec<NodeId>) -> (r: Vec<Ty>)
    ensures
        ty_models(r@) == of_nodes(nodes@),
{
    let mut out: Vec<Ty> = Vec::new();
    let mut i: usize = 0;
    while i < nodes.len()
        invariant
            i <= nodes@.len(),
            out@.len() == i,
            forall|j: int| 0 <= j < i ==> (#[trigger] out@[j]).model() == SpecTy::Of(nodes@[j]),
        decreases nodes@.len() - i,
    {
        out.push(Ty::Of(nodes[i]));
        i = i + 1;
    }
    proof {
        lemma_ty_models(out@);
        assert(ty_models(out@) =~= of_nodes(nodes@));
    }
    out
}

/// An annotation that a node's type must satisfy.
#[derive(Debug)]
pub enum Annotation {
    /// The node has this type.
    Ty(Ty),
    /// The node satisfies these annotations, instantiated under these
    /// substitutions.
    Instantiate { annotations: Vec<Annotation>, substitutions: Substitutions },
    /// A trait has an instance for the type of `node`, or of the annotated
    /// node when there is none.
    Bound { node: Option<NodeId>, tr: NodeId, substitutions: Substitutions },
}

impl Annotation {
    /// The constraint that the annotation puts on `node`.
    pub open spec fn constraint_for(self, node: NodeId) -> SpecConstraint
        decreases self,
    {
        match self {
            Annotation::Ty(ty) => SpecConstraint::Ty(node, ty.model()),
            Annotation::Instantiate { annotations, substitutions } => SpecConstraint::Instantiation {
                substitutions: substitutions.model(),
                constraints: annotation_constraints(annotations@, node),
            },
            Annotation::Bound { node: bound_node, tr, substitutions } => SpecConstraint::Bound(
                SpecBound {
                    node: match bound_node {
                        Some(n) => n,
                        None => node,
                    },
                    tr,
                    substitutions: substitutions.model(),
                },
            ),
        }
    }

    /// Adds the constraint of the annotation on `node` to `ctx`.
    #[verifier::loop_isolation(false)]
    pub fn to_constraints(&self, node: NodeId, ctx: &mut ToConstraintsContext)
        ensures
            final(ctx).models() == old(ctx).models().push(self.constraint_for(node)),
        decreases self,
    {
        match self {
            Annotation::Ty(ty) => {
                ctx.push(Constraint::Ty(node, ty.deep_clone()));
            },
            Annotation::Instantiate { annotations, substitutions } => {
                let mut inner = ToConstraintsContext::new();
                let mut i: usize = 0;
                while i < annotations.len()
                    invariant
                        i <= annotations@.len(),
                        inner.models() == annotation_constraints(annotations@.take(i as int), node),
                    decreases annotations@.len() - i,
                {
                    proof {
                        assert(annotations@.take(i + 1).drop_last() =~= annotations@.take(i as int));
                    }
                    annotations[i].to_constraints(node, &mut inner);
                    i = i + 1;
                }
                proof {
                    assert(annotations@.take(annotations@.len() as int) =~= annotations@);
                }
                let constraints = inner.into_constraints();
                ctx.push(
                    Constraint::Instantiation(
                        Instantiation { constraints, substitutions: substitutions.deep_clone() },
                    ),
                );
            },
            Annotation::Bound { node: bound_node, tr, substitutions } => {
                let bound_node = match bound_node {
                    Some(n) => *n,
                    None => node,
                };
                ctx.push(
                    Constraint::Bound(
                        Bound { node: bound_node, tr: *tr, substitutions: substitutions.deep_clone() },
                    ),
                );
            },
        }
    }
}

/// The constraints of a sequence of annotations on `node`, in order.
pub open spec fn annotation_constraints(annotations: Seq<Annotation>, node: NodeId) -> Seq<SpecConstraint>
    decreases annotations,
{
    if annotations.len() == 0 {
        Seq::empty()
    } else {
        annotation_constraints(annotations.drop_last(), node).push(annotations.last().constraint_for(node))
    }
}

/// A node with annotations on the type of another node, `value`.
#[derive(Debug)]
pub struct AnnotateNode {
    pub value: NodeId,
    pub annotations: Vec<Annotation>,
}

impl ToConstraints for AnnotateNode {
    /// Each annotation constrains `value`.
    #[verifier::loop_isolation(false)]
    fn to_constraints(&self, _node: NodeId, ctx: &mut ToConstraintsContext)
        ensures
            final(ctx).models() == old(ctx).models() + annotation_constraints(self.annotations@, self.value),
    {
        let mut i: usize = 0;
        while i < self.annotations.len()
            invariant
                i <= self.annotations@.len(),
                ctx.models() == old(ctx).models() + annotation_constraints(self.annotations@.take(i as int), self.value),
            decreases self.annotations@.len() - i,
        {
            proof {
                assert(self.annotations@.take(i + 1).drop_last() =~= self.annotations@.take(i as int));
            }
            self.annotations[i].to_constraints(self.value, ctx);
            proof {
                let before = annotation_constraints(self.annotations@.take(i as int), self.value);
                let after = annotation_constraints(self.annotations@.take(i + 1), self.value);
                assert(after == before.push(self.annotations@[i as int].constraint_for(self.value)));
                assert(ctx.models() =~= old(ctx).models() + after);
            }
            i = i + 1;
        }
        proof {
            assert(self.annotations@.take(self.annotations@.len() as int) =~= self.annotations@);
        }
    }
}

/// A block, whose value is that of its last statement.
#[derive(Debug)]
pub struct BlockNode {
    pub statements: Vec<NodeId>,
}

impl ToConstraints for BlockNode {
    /// The block has the type of its last statement, or the unit type when
    /// it is empty.
    fn to_constraints(&self, node: NodeId, ctx: &mut ToConstraintsContext)
        ensures
            final(ctx).models() == old(ctx).models().push(
                if self.statements@.len() > 0 {
                    SpecConstraint::Ty(node, SpecTy::Of(self.statements@.last()))
                } else {
                    SpecConstraint::Ty(node, SpecTy::Tuple { elements: Seq::empty() })
                },
            ),
    {
        if self.statements.len() > 0 {
            let last = self.statements[self.statements.len() - 1];
            ctx.push(Constraint::Ty(node, Ty::Of(last)));
        } else {
            ctx.push(Constraint::Ty(node, Ty::unit()));
        }
    }
}

/// A call of `function` with `inputs`.
#[derive(Debug)]
pub struct CallNode {
    pub function: NodeId,
    pub inputs: Vec<NodeId>,
}

impl ToConstraints for CallNode {
    /// The function takes the types of the inputs and gives the type of the
    /// call.
    fn to_constraints(&self, node: NodeId, ctx: &mut ToConstraintsContext)
        ensures
            final(ctx).models() == old(ctx).models().push(
                SpecConstraint::Ty(
                    self.function,
                    SpecTy::Function { inputs: of_nodes(self.inputs@), output: Box::new(SpecTy::Of(node)) },
                ),
            ),
    {
        let inputs = tys_of(&self.inputs);
        let output = Ty::Of(node);
        assert(output.model() == SpecTy::Of(node));
        let ty = Ty::Function { inputs, output: Box::new(output) };
        assert(ty.model() == SpecTy::Function { inputs: of_nodes(self.inputs@), output: Box::new(SpecTy::Of(node)) });
        ctx.push(Constraint::Ty(self.function, ty));
    }
}

/// A value with constraints of its own.
#[derive(Debug)]
pub struct ConstraintNode {
    pub value: NodeId,
    pub constraints: Vec<Constraint>,
}

impl ToConstraints for ConstraintNode {
    /// The value's constraints, then: the node has the type of the value.
    #[verifier::loop_isolation(false)]
    fn to_constraints(&self, node: NodeId, ctx: &mut ToConstraintsContext)
        ensures
            final(ctx).models() == old(ctx).models() + constraint_models(self.constraints@).push(
                SpecConstraint::Ty(node, SpecTy::Of(self.value)),
            ),
    {
        push_all(&self.constraints, ctx);
        ctx.push(Constraint::Ty(node, Ty::Of(self.value)));
        proof {
            assert(ctx.models() =~= old(ctx).models() + constraint_models(self.constraints@).push(
                SpecConstraint::Ty(node, SpecTy::Of(self.value)),
            ));
        }
    }
}

/// Adds a copy of each of `constraints` to `ctx`, in order.
#[verifier::loop_isolation(false)]
fn push_all(constraints: &Vec<Constraint>, ctx: &mut ToConstraintsContext)
    ensures
        final(ctx).models() == old(ctx).models() + constraint_models(constraints@),
{
    let mut i: usize = 0;
    while i < constraints.len()
        invariant
            i <= constraints@.len(),
            ctx.models() == old(ctx).models() + constraint_models(constraints@.take(i as int)),
        decreases constraints@.len() - i,
    {
        proof {
            assert(constraints@.take(i + 1).drop_last() =~= constraints@.take(i as int));
        }
        ctx.push(constraints[i].deep_clone());
        proof {
            assert(ctx.models() =~= old(ctx).models() + constraint_models(constraints@.take(i + 1)));
        }
        i = i + 1;
    }
    proof {
        assert(constraints@.take(constraints@.len() as int) =~= constraints@);
    }
}

/// A reference to a definition, with the constraints that it brings.
#[derive(Debug)]
pub struct DefinitionNode {
    pub definition: NodeId,
    pub constraints: Vec<Constraint>,
}

impl ToConstraints for DefinitionNode {
    /// The node has the type of the definition; then the definition's
    /// constraints.
    fn to_constraints(&self, node: NodeId, ctx: &mut ToConstraintsContext)
        ensures
            final(ctx).models() == old(ctx).models().push(SpecConstraint::Ty(node, SpecTy::Of(self.definition)))
                + constraint_models(self.constraints@),
    {
        ctx.push(Constraint::Ty(node, Ty::Of(self.definition)));
        push_all(&self.constraints, ctx);
    }
}

/// A node that puts no constraint on any type.
#[derive(Debug)]
pub struct EmptyNode;

impl ToConstraints for EmptyNode {
    fn to_constraints(&self, _node: NodeId, ctx: &mut ToConstraintsContext)
        ensures
            final(ctx).models() == old(ctx).models(),
    {
    }
}

/// A function with `inputs` and `output`.
#[derive(Debug)]
pub struct FunctionNode {
    pub inputs: Vec<NodeId>,
    pub output: NodeId,
}

impl ToConstraints for FunctionNode {
    /// The node is a function from the types of the inputs to the type of
    /// the output.
    fn to_constraints(&self, node: NodeId, ctx: &mut ToConstraintsContext)
        ensures
            final(ctx).models() == old(ctx).models().push(
                SpecConstraint::Ty(
                    node,
                    SpecTy::Function { inputs: of_nodes(self.inputs@), output: Box::new(SpecTy::Of(self.output)) },
                ),
            ),
    {
        let inputs = tys_of(&self.inputs);
        let output = Ty::Of(self.output);
        assert(output.model() == SpecTy::Of(self.output));
        let ty = Ty::Function { inputs, output: Box::new(output) };
        assert(ty.model() == SpecTy::Function { inputs: of_nodes(self.inputs@), output: Box::new(SpecTy::Of(self.output)) });
        ctx.push(Constraint::Ty(node, ty));
    }
}

/// A placeholder, whose type is left to be inferred.
#[derive(Debug)]
pub struct PlaceholderNode;

impl ToConstraints for PlaceholderNode {
    fn to_constraints(&self, _node: NodeId, ctx: &mut ToConstraintsContext)
        ensures
            final(ctx).models() == old(ctx).models(),
    {
    }
}

/// A tuple of `elements`.
#[derive(Debug)]
pub struct TupleNode {
    pub elements: Vec<NodeId>,
}

impl ToConstraints for TupleNode {
    /// The node is the tuple of the types of the elements.
    fn to_constraints(&self, node: NodeId, ctx: &mut ToConstraintsContext)
        ensures
            final(ctx).models() == old(ctx).models().push(
                SpecConstraint::Ty(node, SpecTy::Tuple { elements: of_nodes(self.elements@) }),
            ),
    {
        let elements = tys_of(&self.elements);
        ctx.push(Constraint::Ty(node, Ty::Tuple { elements }));
    }
}

/// The element at `index` of a tuple of `count` elements, `target`.
#[derive(Debug)]
pub struct TupleElementNode {
    pub index: usize,
    pub count: usize,
    pub target: NodeId,
}

/// A tuple type of `count` unknown elements but the one at `index`, which is
/// the type of `node`.
pub open spec fn tuple_with_element(count: nat, index: int, node: NodeId) -> SpecTy {
    SpecTy::Tuple {
        elements: Seq::new(count, |i: int| if i == index { SpecTy::Of(node) } else { SpecTy::Unknown }),
    }
}

impl TupleElementNode {
    /// Adds the constraint of the node, which is `node`: the target is a
    /// tuple of `count` elements whose element at `index` has the type of
    /// the node. The index must be within the tuple.
    pub fn to_constraints(&self, node: NodeId, ctx: &mut ToConstraintsContext)
        requires
            self.index < self.count,
        ensures
            final(ctx).models() == old(ctx).models().push(
                SpecConstraint::Ty(self.target, tuple_with_element(self.count as nat, self.index as int, node)),
            ),
    {
        let mut elements: Vec<Ty> = Vec::new();
        let mut i: usize = 0;
        while i < self.count
            invariant
                i <= self.count,
                self.index < self.count,
                elements@.len() == i,
                forall|j: int|
                    0 <= j < i ==> (#[trigger] elements@[j]).model() == (if j == self.index {
                        SpecTy::Of(node)
                    } else {
                        SpecTy::Unknown
                    }),
            decreases self.count - i,
        {
            if i == self.index {
                elements.push(Ty::Of(node));
            } else {
                elements.push(Ty::Unknown);
            }
            i = i + 1;
        }
        proof {
            lemma_ty_models(elements@);
            assert(ty_models(elements@) =~= tuple_with_element(self.count as nat, self.index as int, node)->elements);
        }
        ctx.push(Constraint::Ty(self.target, Ty::Tuple { elements }));
    }
}

/// The unit value.
#[derive(Debug)]
pub struct UnitNode {}

impl ToConstraints for UnitNode {
    /// The node has the unit type.
    fn to_constraints(&self, node: NodeId, ctx: &mut ToConstraintsContext)
        ensures
            final(ctx).models() == old(ctx).models().push(
                SpecConstraint::Ty(node, SpecTy::Tuple { elements: Seq::empty() }),
            ),
    {
        ctx.push(Constraint::Ty(node, Ty::unit()));
    }
}

} // verus!
