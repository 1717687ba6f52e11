//! Node identities that remember the instantiation they belong to.

use crate::trace::NodeId;
use vstd::prelude::*;

verus! {

/// A node, and the node that instantiated the generic definition it belongs
/// to, if any. Generic definitions contain nodes that every use of the
/// definition refers to; the instantiation keeps the constraints of one use
/// apart from those of another.
#[derive(Clone, Copy, PartialEq, Eq, PartialOrd, Ord, Hash, Structural)]
#[non_exhaustive]
pub struct TypedNodeId {
    id: NodeId,
    pub instantiation: Option<NodeId>,
}

impl TypedNodeId {
    /// The node itself.
    pub closed spec fn node(self) -> NodeId {
        self.id
    }

    /// The instantiation the node is under, if any.
    pub closed spec fn instantiation_of(self) -> Option<NodeId> {
        self.instantiation
    }

    /// `node` as it appears when `instantiation` instantiates its
    /// definition: with no instantiation when the node is the instantiation
    /// itself.
    pub open spec fn instantiate_spec(id: NodeId, instantiation: NodeId) -> (NodeId, Option<NodeId>) {
        (id, if id != instantiation { Some(instantiation) } else { None })
    }

    /// `id` with no instantiation.
    pub fn from_node(id: NodeId) -> (t: TypedNodeId)
        ensures
            t.node() == id,
            t.instantiation_of() == None::<NodeId>,
    {
        TypedNodeId { id, instantiation: None }
    }

    /// `id` as it appears when `instantiation` instantiates its definition.
    pub fn instantiate(id: NodeId, instantiation: NodeId) -> (t: TypedNodeId)
        ensures
            (t.node(), t.instantiation_of()) == TypedNodeId::instantiate_spec(id, instantiation),
    {
        TypedNodeId { id, instantiation: if id.0 != instantiation.0 { Some(instantiation) } else { None } }
    }

    /// The instantiation of this node once placed under `instantiation`:
    /// `instantiation`, unless the node is the instantiation itself.
    pub open spec fn instantiation_under(self, instantiation: NodeId) -> Option<NodeId> {
        if self.node() != instantiation {
            Some(instantiation)
        } else {
            self.instantiation_of()
        }
    }

    /// This node under `instantiation`. The node must not be under another
    /// instantiation already.
    pub fn instantiated_under(self, instantiation: NodeId) -> (t: TypedNodeId)
        requires
            self.instantiation_of() matches Some(i) ==> i == instantiation,
        ensures
            t.node() == self.node(),
            t.instantiation_of() == self.instantiation_under(instantiation),
    {
        let mut t = self;
        if t.id.0 != instantiation.0 {
            t.instantiation = Some(instantiation);
        }
        t
    }

    /// This node with no instantiation.
    pub fn uninstantiated(self) -> (t: TypedNodeId)
        ensures
            t.node() == self.node(),
            t.instantiation_of() == None::<NodeId>,
    {
        let mut t = self;
        t.instantiation = None;
        t
    }

    /// The node, without its instantiation.
    pub fn untyped(self) -> (id: NodeId)
        ensures
            id == self.node(),
    {
        self.id
    }

    /// What `{:?}` shows: `NodeId(n)`, followed by ` instantiated under
    /// NodeId(m)` when the node is under an instantiation.
    pub open spec fn debug_text(self) -> Seq<char> {
        match self.instantiation_of() {
            Some(instantiation) => self.node().debug_text() + " instantiated under "@
                + instantiation.debug_text(),
            None => self.node().debug_text(),
        }
    }

    /// Renders the node as `{:?}` shows it.
    pub fn to_debug_string(&self) -> (s: String)
        ensures
            s@ == self.debug_text(),
    {
        let mut s = self.id.to_debug_string();
        match self.instantiation {
            Some(instantiation) => {
                let suffix = " instantiated under ";
                s.append(suffix);
                let rest = instantiation.to_debug_string();
                s.append(rest.as_str());
            },
            None => {},
        }
        s
    }
}

/// A node under the instantiation that is the node itself is the node with
/// no instantiation; dropping the instantiation of a node under any
/// instantiation gives back the node alone.
pub proof fn lemma_instantiate_round_trip(id: NodeId, instantiation: NodeId)
    ensures
        TypedNodeId::instantiate_spec(id, id) == (id, None::<NodeId>),
        TypedNodeId::instantiate_spec(id, instantiation).0 == id,
        id != instantiation ==> TypedNodeId::instantiate_spec(id, instantiation).1 == Some(instantiation),
{
}

/// Placing a node under an instantiation a second time changes nothing:
/// the node placed once is again a valid argument, and keeps its
/// instantiation.
pub proof fn lemma_instantiated_under_idempotent(t: TypedNodeId, once: TypedNodeId, instantiation: NodeId)
    requires
        t.instantiation_of() matches Some(i) ==> i == instantiation,
        once.node() == t.node(),
        once.instantiation_of() == t.instantiation_under(instantiation),
    ensures
        once.instantiation_of() matches Some(i) ==> i == instantiation,
        once.instantiation_under(instantiation) == once.instantiation_of(),
{
}

impl From<NodeId> for TypedNodeId {
    fn from(id: NodeId) -> (t: TypedNodeId) {
        TypedNodeId { id, instantiation: None }
    }
}

impl vstd::std_specs::convert::FromSpecImpl<NodeId> for TypedNodeId {
    open spec fn obeys_from_spec() -> bool {
        true
    }

    open spec fn from_spec(id: NodeId) -> TypedNodeId {
        TypedNodeId::of_node(id)
    }
}

impl TypedNodeId {
    /// `id` with no instantiation.
    pub closed spec fn of_node(id: NodeId) -> TypedNodeId {
        TypedNodeId { id, instantiation: None }
    }

    /// The node of `of_node(id)` is `id`, under no instantiation.
    pub proof fn lemma_of_node(id: NodeId)
        ensures
            TypedNodeId::of_node(id).node() == id,
            TypedNodeId::of_node(id).instantiation_of() == None::<NodeId>,
    {
    }
}

} // verus!
