//! The type checker: it solves constraints by unifying the types of nodes
//! into groups, and resolves trait bounds against their instances.

use crate::trace::NodeId;
use crate::typecheck::constraints::{
    constraint_models, constraints_wf, covered, instantiation_model, lemma_constraint_models, lemma_lookup,
    lemma_param_models, lemma_param_models_eq, lemma_params_covered, lemma_params_have_of,
    lemma_replace_of_free, lemma_replace_param_free, lemma_ty_models, lemma_ty_models_eq, lemma_tys_covered,
    lemma_tys_have_of, lookup, param_models, params_have_of, replace_in_params, replace_in_tys,
    replace_params, sorted_keys, substitutions_of_free, substitutions_param_free, ty_models, tys_have_of,
    Bound, Constraint, Instantiation, SpecBound, SpecConstraint, SpecTy, Substitutions, Ty,
};
use crate::typecheck::groups::TyGroups;
use crate::typecheck::ordered::{lemma_increasing_len, map_keys, set_members, strictly_increasing};
use crate::typecheck::unify::{
    lemma_push_root, lemma_root, lemma_same_partition_trans, lemma_u32_map_not_full, merged, root,
    same_partition, uf_wf, union_root, UnionFind,
};
use std::collections::{BTreeMap, BTreeSet};
use vstd::prelude::*;

verus! {

/// The deepest nesting of types that the checker follows. Without an occurs
/// check, unification can make a group's type contain the group itself;
/// resolving such a type never ends, and the checker stops at this depth.
pub const MAX_DEPTH: u64 = 512;

/// The number of resolution and unification steps that one call into the
/// checker may take before it gives up on the constraint at hand.
pub const WORK_LIMIT: u64 = 0x400_0000;

/// The deepest nesting of bounds that the checker resolves: resolving a
/// bound checks each instance of its trait, whose own bounds are resolved
/// in turn, one level further down.
pub const MAX_BOUND_DEPTH: u64 = 64;

/// The two maps between nodes and the keys of their groups.
pub struct GroupKeys {
    /// The key of each node, by the node's number.
    keys: BTreeMap<u32, u32>,
    /// The node of each key, by the key.
    nodes: Vec<NodeId>,
}

impl GroupKeys {
    pub closed spec fn key_map(self) -> Map<u32, u32> {
        self.keys@
    }

    pub closed spec fn key_nodes(self) -> Seq<NodeId> {
        self.nodes@
    }

    /// No nodes and no keys.
    pub fn new() -> (k: GroupKeys)
        ensures
            k.key_map() == Map::<u32, u32>::empty(),
            k.key_nodes() == Seq::<NodeId>::empty(),
    {
        GroupKeys { keys: BTreeMap::new(), nodes: Vec::new() }
    }

    /// A copy of both maps.
    pub fn copy(&self) -> (k: GroupKeys)
        ensures
            k.key_map() == self.key_map(),
            k.key_nodes() == self.key_nodes(),
    {
        GroupKeys { keys: self.keys.clone(), nodes: self.nodes.clone() }
    }

    /// The key of `node`, if it has one.
    pub fn try_key_for_node(&self, node: NodeId) -> (k: Option<u32>)
        ensures
            k == (if self.key_map().contains_key(node.0) {
                Some(self.key_map()[node.0])
            } else {
                None
            }),
    {
        match self.keys.get(&node.0) {
            Some(k) => Some(*k),
            None => None,
        }
    }

    /// The key of `node`; a node without one gets a fresh key of `unify`.
    pub fn key_for_node(&mut self, node: NodeId, unify: &mut UnionFind) -> (key: u32)
        requires
            uf_wf(old(unify).entries()),
            old(self).key_map().dom().finite(),
            old(self).key_map().dom().len() == old(unify).entries().len(),
            old(self).key_nodes().len() == old(unify).entries().len(),
        ensures
            final(self).key_map().contains_key(node.0),
            final(self).key_map()[node.0] == key,
            old(self).key_map().contains_key(node.0) ==> {
                &&& key == old(self).key_map()[node.0]
                &&& final(self).key_map() == old(self).key_map()
                &&& final(self).key_nodes() == old(self).key_nodes()
                &&& final(unify).entries() == old(unify).entries()
            },
            !old(self).key_map().contains_key(node.0) ==> {
                &&& key == old(unify).entries().len()
                &&& final(self).key_map() == old(self).key_map().insert(node.0, key)
                &&& final(self).key_nodes() == old(self).key_nodes().push(node)
                &&& final(unify).entries() == old(unify).entries().push((key, 0u32))
            },
    {
        match self.keys.get(&node.0) {
            Some(k) => *k,
            None => {
                proof {
                    lemma_u32_map_not_full(self.keys@, node.0);
                }
                let key = unify.new_key();
                self.keys.insert(node.0, key);
                self.nodes.push(node);
                key
            },
        }
    }

    /// Makes `node` and `group` refer to each other.
    pub fn update_representative(&mut self, node: NodeId, group: u32)
        requires
            group < old(self).key_nodes().len(),
        ensures
            final(self).key_map() == old(self).key_map().insert(node.0, group),
            final(self).key_nodes() == old(self).key_nodes().update(group as int, node),
    {
        self.keys.insert(node.0, group);
        self.nodes.set(group as usize, node);
    }

    /// The node of `key`.
    pub fn node_for_key(&self, key: u32) -> (node: NodeId)
        requires
            key < self.key_nodes().len(),
        ensures
            node == self.key_nodes()[key as int],
    {
        self.nodes[key as usize]
    }

    /// The node of `key`, if the key exists.
    pub fn try_node_for_key(&self, key: u32) -> (node: Option<NodeId>)
        ensures
            node == (if key < self.key_nodes().len() {
                Some(self.key_nodes()[key as int])
            } else {
                None
            }),
    {
        if (key as usize) < self.nodes.len() {
            Some(self.nodes[key as usize])
        } else {
            None
        }
    }
}

/// Whether a stage of the checker changed anything.
#[derive(Debug, Clone, Copy, PartialEq, Eq, Structural)]
pub enum Progress {
    NoProgress,
    Progressed,
}

impl Progress {
    /// Records that something changed.
    pub fn set(&mut self)
        ensures
            *final(self) == Progress::Progressed,
    {
        *self = Progress::Progressed;
    }

    /// Returns the progress so far and starts over with no progress.
    pub fn take(&mut self) -> (p: Progress)
        ensures
            p == *old(self),
            *final(self) == Progress::NoProgress,
    {
        let p = *self;
        *self = Progress::NoProgress;
        p
    }

    /// This progress, or when there is none, the progress of `f`.
    pub fn or_else<F: FnOnce() -> Progress>(self, f: F) -> (p: Progress)
        requires
            self == Progress::NoProgress ==> f.requires(()),
        ensures
            self == Progress::Progressed ==> p == Progress::Progressed,
            self == Progress::NoProgress ==> f.ensures((), p),
    {
        match self {
            Progress::Progressed => Progress::Progressed,
            Progress::NoProgress => f(),
        }
    }
}

impl Default for Progress {
    fn default() -> (p: Self)
        ensures
            p == Progress::NoProgress,
    {
        Progress::NoProgress
    }
}

} // verus!

verus! {

/// The state of the checker that a trial of a trait's instance copies.
pub struct Solver {
    /// The nodes whose types are reported, by number.
    nodes: BTreeSet<u32>,
    keys: GroupKeys,
    /// Which groups were unified.
    unify: UnionFind,
    /// The type of each group that has one, by the key of its root.
    groups: BTreeMap<u32, Ty>,
    /// The types that failed to unify with a node's group, by the node's number.
    others: BTreeMap<u32, Vec<Ty>>,
    /// Constraints waiting to be solved, in order.
    queue: Vec<Constraint>,
    progress: Progress,
    error: bool,
    /// Steps left before the checker gives up on the constraint at hand.
    budget: u64,
    /// Whether the constraint at hand ran out of steps or depth.
    exhausted: bool,
    /// Whether a limit on nesting (`MAX_DEPTH` for types, `MAX_BOUND_DEPTH`
    /// for bounds) was reached since the budget was last filled.
    depth_limit_hit: Ghost<bool>,
}

impl Solver {
    pub closed spec fn entries(self) -> Seq<(u32, u32)> {
        self.unify.entries()
    }

    /// The number of group keys.
    pub closed spec fn key_count(self) -> nat {
        self.unify.entries().len()
    }

    /// The key of each node that has one, by the node's number.
    pub closed spec fn key_map(self) -> Map<u32, u32> {
        self.keys.key_map()
    }

    /// The representative key of a node's group.
    pub closed spec fn class_of(self, node: u32) -> int {
        root(self.unify.entries(), self.keys.key_map()[node] as int)
    }

    /// The nodes whose types are reported.
    pub closed spec fn node_set(self) -> Set<u32> {
        self.nodes@
    }

    pub closed spec fn queue_models(self) -> Seq<SpecConstraint> {
        constraint_models(self.queue@)
    }

    pub closed spec fn budget_left(self) -> nat {
        self.budget as nat
    }

    /// No group has a type yet.
    pub closed spec fn untyped(self) -> bool {
        self.groups@ == Map::<u32, Ty>::empty()
    }

    /// The nodes with a type that failed to unify with their group's.
    pub closed spec fn failed_nodes(self) -> Set<u32> {
        self.others@.dom()
    }

    /// The types that failed to unify with the group of each node, by the
    /// node's number, in the order they failed.
    pub closed spec fn failed_tys(self) -> Map<u32, Seq<SpecTy>> {
        Map::new(|n: u32| self.others@.contains_key(n), |n: u32| ty_models(self.others@[n]@))
    }

    /// The group of `node` is the one group with a type, and that type is
    /// `t`.
    pub closed spec fn typed_as(self, node: u32, t: SpecTy) -> bool {
        &&& self.key_map().contains_key(node)
        &&& exists|k: u32|
            {
                &&& #[trigger] self.groups@.contains_key(k)
                &&& self.groups@.dom() == Set::<u32>::empty().insert(k)
                &&& root(self.entries(), k as int) == self.class_of(node)
                &&& self.groups@[k]@ == t
            }
    }

    /// The internal consistency that every operation keeps.
    pub closed spec fn inv(self) -> bool {
        let e = self.unify.entries();
        let n = e.len();
        let km = self.keys.key_map();
        let kn = self.keys.key_nodes();
        &&& uf_wf(e)
        &&& kn.len() == n
        &&& km.dom().finite()
        &&& km.dom().len() == n
        &&& forall|x: u32| km.contains_key(x) ==> (#[trigger] km[x]) < n
        &&& forall|i: int| 0 <= i < n ==> km.contains_key((#[trigger] kn[i]).0)
        &&& forall|i: int| 0 <= i < n ==> root(e, km[(#[trigger] kn[i]).0] as int) == root(e, i)
        &&& forall|k: u32| self.groups@.contains_key(k) ==> k < n
        &&& constraints_wf(self.queue@)
        &&& forall|i: int| 0 <= i < self.queue@.len() ==> (#[trigger] self.queue@[i]).model().is_flat()
        &&& self.exhausted ==> self.budget == 0 || self.depth_limit_hit@
    }

    /// `new` extends `self`: no node loses its key, and nodes whose groups
    /// were unified stay unified.
    pub closed spec fn coarsens(self, new: Solver) -> bool {
        &&& self.key_count() <= new.key_count()
        &&& forall|x: u32| self.key_map().contains_key(x) ==> #[trigger] new.key_map().contains_key(x)
        &&& forall|x: u32, y: u32|
            self.key_map().contains_key(x) && self.key_map().contains_key(y) && self.class_of(x)
                == self.class_of(y) ==> #[trigger] new.class_of(x) == #[trigger] new.class_of(y)
    }

    pub proof fn lemma_coarsens_refl(self)
        ensures
            self.coarsens(self),
    {
    }

    pub proof fn lemma_coarsens_trans(a: Solver, b: Solver, c: Solver)
        requires
            a.coarsens(b),
            b.coarsens(c),
        ensures
            a.coarsens(c),
    {
        assert forall|x: u32, y: u32|
            a.key_map().contains_key(x) && a.key_map().contains_key(y) && a.class_of(x) == a.class_of(y)
            implies #[trigger] c.class_of(x) == #[trigger] c.class_of(y) by {
            assert(b.key_map().contains_key(x) && b.key_map().contains_key(y));
            assert(b.class_of(x) == b.class_of(y));
        }
    }

    /// An empty state.
    pub fn new() -> (s: Solver)
        ensures
            s.inv(),
            s.key_count() == 0,
            s.key_map() == Map::<u32, u32>::empty(),
            s.node_set() == Set::<u32>::empty(),
            s.queue_models() == Seq::<SpecConstraint>::empty(),
            s.untyped(),
            s.failed_nodes() == Set::<u32>::empty(),
    {
        let s = Solver {
            nodes: BTreeSet::new(),
            keys: GroupKeys::new(),
            unify: UnionFind::new(),
            groups: BTreeMap::new(),
            others: BTreeMap::new(),
            queue: Vec::new(),
            progress: Progress::NoProgress,
            error: false,
            budget: 0,
            exhausted: false,
            depth_limit_hit: Ghost(false),
        };
        proof {
            assert(constraint_models(s.queue@) =~= Seq::<SpecConstraint>::empty());
            assert(s.failed_nodes() =~= Set::<u32>::empty());
        }
        s
    }

    /// The key of `node`, creating one for a node without.
    fn key_for_node(&mut self, node: NodeId) -> (key: u32)
        requires
            old(self).inv(),
        ensures
            final(self).inv(),
            old(self).coarsens(*final(self)),
            key < final(self).key_count(),
            final(self).key_map().contains_key(node.0),
            final(self).key_map()[node.0] == key,
            forall|x: u32| old(self).key_map().contains_key(x) ==> #[trigger] final(self).key_map()[x] == old(self).key_map()[x],
            final(self).node_set() == old(self).node_set(),
            final(self).queue == old(self).queue,
            final(self).budget == old(self).budget,
            final(self).groups == old(self).groups,
            final(self).others == old(self).others,
            final(self).error == old(self).error,
            final(self).exhausted == old(self).exhausted,
            final(self).progress == old(self).progress,
            forall|i: int| 0 <= i < old(self).key_count() ==> #[trigger] root(final(self).entries(), i) == root(old(self).entries(), i),
            forall|i: int| 0 <= i < old(self).key_count() ==> #[trigger] final(self).keys.key_nodes()[i] == old(self).keys.key_nodes()[i],
            !old(self).key_map().contains_key(node.0) ==> key == old(self).key_count() && root(final(self).entries(), key as int) == key,
            forall|x: u32| #[trigger] final(self).key_map().contains_key(x) ==> old(self).key_map().contains_key(x) || x == node.0,
    {
        let ghost old_self = *self;
        let key = self.keys.key_for_node(node, &mut self.unify);
        proof {
            let e = old_self.unify.entries();
            if !old_self.key_map().contains_key(node.0) {
                lemma_push_root(e);
                let f = self.unify.entries();
                let km = self.keys.key_map();
                let kn = self.keys.key_nodes();
                assert(km.dom() =~= old_self.key_map().dom().insert(node.0));
                assert forall|i: int| 0 <= i < f.len() implies root(f, km[(#[trigger] kn[i]).0] as int) == root(f, i) by {
                    if i < e.len() {
                        let x = kn[i].0;
                        assert(kn[i] == old_self.keys.key_nodes()[i]);
                        assert(old_self.key_map().contains_key(x));
                        assert(x != node.0);
                        assert(km[x] == old_self.key_map()[x]);
                        lemma_root(e, old_self.key_map()[x] as int);
                    }
                }
                assert forall|i: int| 0 <= i < f.len() implies km.contains_key((#[trigger] kn[i]).0) by {
                    if i < e.len() {
                        assert(kn[i] == old_self.keys.key_nodes()[i]);
                    }
                }
                assert forall|x: u32, y: u32|
                    old_self.key_map().contains_key(x) && old_self.key_map().contains_key(y)
                        && old_self.class_of(x) == old_self.class_of(y)
                    implies #[trigger] self.class_of(x) == #[trigger] self.class_of(y) by {
                    assert(km[x] == old_self.key_map()[x]);
                    assert(km[y] == old_self.key_map()[y]);
                }
            }
        }
        key
    }

    /// The key of `node`, if it has one.
    fn try_key_for_node(&self, node: NodeId) -> (k: Option<u32>)
        ensures
            k == (if self.key_map().contains_key(node.0) {
                Some(self.key_map()[node.0])
            } else {
                None
            }),
    {
        self.keys.try_key_for_node(node)
    }

    /// The node that stands for the group of `key`.
    fn node_for_key(&self, key: u32) -> (node: NodeId)
        requires
            self.inv(),
            key < self.key_count(),
        ensures
            node == self.keys.key_nodes()[key as int],
            self.key_map().contains_key(node.0),
            self.class_of(node.0) == root(self.entries(), key as int),
    {
        self.keys.node_for_key(key)
    }
}

} // verus!

verus! {

impl Solver {
    /// Moves the type of the group of `key` to the group of `representative_key`
    /// and makes the node of `key` the representative's node.
    fn move_to_representative(&mut self, key: u32, representative_key: u32)
        requires
            old(self).inv(),
            key < old(self).key_count(),
            representative_key < old(self).key_count(),
            root(old(self).entries(), key as int) == representative_key,
        ensures
            final(self).inv(),
            old(self).coarsens(*final(self)),
            final(self).entries() == old(self).entries(),
            final(self).key_map().dom() == old(self).key_map().dom(),
            forall|x: u32| old(self).key_map().contains_key(x) ==> #[trigger] final(self).class_of(x) == old(self).class_of(x),
            final(self).node_set() == old(self).node_set(),
            final(self).queue == old(self).queue,
            final(self).budget == old(self).budget,
            final(self).others == old(self).others,
            final(self).error == old(self).error,
            final(self).exhausted == old(self).exhausted,
            final(self).progress == old(self).progress,
            old(self).untyped() ==> final(self).untyped(),
            key == representative_key ==> *final(self) == *old(self),
            key != representative_key ==> final(self).groups@ == (if old(self).groups@.contains_key(key) {
                old(self).groups@.remove(key).insert(representative_key, old(self).groups@[key])
            } else {
                old(self).groups@
            }),
            key != representative_key ==> final(self).key_map() == old(self).key_map().insert(
                old(self).keys.key_nodes()[key as int].0,
                representative_key,
            ),
            key != representative_key ==> final(self).keys.key_nodes() == old(self).keys.key_nodes().update(
                representative_key as int,
                old(self).keys.key_nodes()[key as int],
            ),
    {
        if representative_key == key {
            return;
        }
        let removed = self.groups.remove(&key);
        match removed {
            Some(ty) => {
                self.groups.insert(representative_key, ty);
            },
            None => {
                proof {
                    if old(self).untyped() {
                        assert(self.groups@ =~= Map::<u32, Ty>::empty());
                    }
                }
            },
        }
        let node = self.node_for_key(key);
        let ghost before = *self;
        self.keys.update_representative(node, representative_key);
        proof {
            let e = self.entries();
            lemma_root(e, key as int);
            lemma_root(e, representative_key as int);
            let km = self.keys.key_map();
            let kn = self.keys.key_nodes();
            let okm = before.keys.key_map();
            let okn = before.keys.key_nodes();
            assert(okm.contains_key(node.0));
            assert(km.dom() =~= okm.dom());
            assert forall|i: int| 0 <= i < e.len() implies km.contains_key((#[trigger] kn[i]).0) by {
                if i != representative_key {
                    assert(kn[i] == okn[i]);
                }
            }
            assert forall|i: int| 0 <= i < e.len() implies root(e, km[(#[trigger] kn[i]).0] as int) == root(e, i) by {
                lemma_root(e, i);
                if i == representative_key {
                    assert(kn[i] == node);
                } else {
                    assert(kn[i] == okn[i]);
                    if okn[i].0 == node.0 {
                        assert(root(e, okm[okn[i].0] as int) == root(e, i));
                        assert(root(e, okm[node.0] as int) == root(e, key as int));
                    }
                }
            }
            assert forall|x: u32| before.key_map().contains_key(x) implies #[trigger] self.class_of(x) == before.class_of(x) by {
                if x == node.0 {
                    assert(root(e, okm[node.0] as int) == root(e, key as int));
                }
            }
        }
    }

    /// A union keeps the consistency of the state and merges the two groups.
    proof fn lemma_union_step(s2: Solver, s3: Solver, a: u32, b: u32)
        requires
            s2.inv(),
            a < s2.key_count(),
            b < s2.key_count(),
            s3.keys == s2.keys,
            s3.groups == s2.groups,
            s3.queue == s2.queue,
            uf_wf(s3.entries()),
            s3.entries().len() == s2.entries().len(),
            s3.exhausted ==> s3.budget == 0 || s3.depth_limit_hit@,
            root(s2.entries(), a as int) == root(s2.entries(), b as int) ==> same_partition(s2.entries(), s3.entries()),
            root(s2.entries(), a as int) != root(s2.entries(), b as int) ==> merged(
                s2.entries(),
                s3.entries(),
                root(s2.entries(), a as int),
                root(s2.entries(), b as int),
            ),
        ensures
            s3.inv(),
            s2.coarsens(s3),
            root(s3.entries(), a as int) == root(s3.entries(), b as int),
    {
        let e = s2.entries();
        let f = s3.entries();
        let km = s2.key_map();
        let kn = s2.keys.key_nodes();
        lemma_root(e, a as int);
        lemma_root(e, b as int);
        let ra = root(e, a as int);
        let rb = root(e, b as int);
        assert forall|i: int| 0 <= i < f.len() implies root(f, km[(#[trigger] kn[i]).0] as int) == root(f, i) by {
            assert(km.contains_key(kn[i].0));
            assert(root(e, km[kn[i].0] as int) == root(e, i));
            let j = km[kn[i].0] as int;
            assert(0 <= j < e.len());
        }
        assert forall|x: u32, y: u32|
            km.contains_key(x) && km.contains_key(y) && s2.class_of(x) == s2.class_of(y)
            implies #[trigger] s3.class_of(x) == #[trigger] s3.class_of(y) by {
            assert(km[x] < e.len());
            assert(km[y] < e.len());
        }
    }

    /// A lookup of a root keeps the state's consistency and every group.
    proof fn lemma_find_step(s3: Solver, s4: Solver)
        requires
            s3.inv(),
            s4.keys == s3.keys,
            s4.groups == s3.groups,
            s4.queue == s3.queue,
            uf_wf(s4.entries()),
            same_partition(s3.entries(), s4.entries()),
            s4.exhausted ==> s4.budget == 0 || s4.depth_limit_hit@,
        ensures
            s4.inv(),
            s3.coarsens(s4),
            forall|x: u32| s3.key_map().contains_key(x) ==> #[trigger] s4.class_of(x) == s3.class_of(x),
            forall|i: int| 0 <= i < s3.key_count() ==> #[trigger] root(s4.entries(), i) == root(s3.entries(), i),
    {
        let e = s3.entries();
        let f = s4.entries();
        let km = s3.key_map();
        let kn = s3.keys.key_nodes();
        assert forall|i: int| 0 <= i < f.len() implies root(f, km[(#[trigger] kn[i]).0] as int) == root(f, i) by {
            assert(km.contains_key(kn[i].0));
            assert(km[kn[i].0] < e.len());
        }
        assert forall|x: u32| km.contains_key(x) implies #[trigger] s4.class_of(x) == s3.class_of(x) by {
            assert(km[x] < e.len());
        }
    }

    /// Unifies the groups of two nodes and returns the node that stands for
    /// the merged group.
    #[verifier::spinoff_prover]
    #[verifier::rlimit(60)]
    fn unify_nodes(&mut self, left_node: NodeId, right_node: NodeId) -> (representative: NodeId)
        requires
            old(self).inv(),
        ensures
            final(self).inv(),
            old(self).coarsens(*final(self)),
            final(self).key_map().contains_key(left_node.0),
            final(self).key_map().contains_key(right_node.0),
            final(self).class_of(left_node.0) == final(self).class_of(right_node.0),
            final(self).key_map().contains_key(representative.0),
            final(self).class_of(representative.0) == final(self).class_of(left_node.0),
            final(self).node_set() == old(self).node_set(),
            final(self).queue == old(self).queue,
            final(self).budget == old(self).budget,
            final(self).others == old(self).others,
            final(self).error == old(self).error,
            final(self).exhausted == old(self).exhausted,
            final(self).progress == Progress::Progressed,
            old(self).untyped() ==> final(self).untyped(),
            ({
                let kl = old(self).key_map()[left_node.0];
                let kr = old(self).key_map()[right_node.0];
                old(self).key_map().contains_key(left_node.0) && old(self).key_map().contains_key(right_node.0)
                    && root(old(self).entries(), kl as int) == kl && root(old(self).entries(), kr as int) == kr
                    && !(old(self).groups@.contains_key(kl) && old(self).groups@.contains_key(kr))
                    ==> final(self).group_type(left_node.0) == (if old(self).groups@.contains_key(kl) {
                    Some(old(self).groups@[kl])
                } else if old(self).groups@.contains_key(kr) {
                    Some(old(self).groups@[kr])
                } else {
                    None
                })
            }),
    {
        let ghost s0 = *self;
        let left_key = self.key_for_node(left_node);
        let ghost s1 = *self;
        let right_key = self.key_for_node(right_node);
        let ghost s2 = *self;
        proof {
            Solver::lemma_coarsens_trans(s0, s1, s2);
        }
        self.unify.union(left_key, right_key);
        let ghost s3 = *self;
        proof {
            Solver::lemma_union_step(s2, s3, left_key, right_key);
            Solver::lemma_coarsens_trans(s0, s2, s3);
        }
        let representative_key = self.unify.find(left_key);
        let ghost s4 = *self;
        proof {
            Solver::lemma_find_step(s3, s4);
            Solver::lemma_coarsens_trans(s0, s3, s4);
            lemma_root(s3.entries(), left_key as int);
            assert(root(s4.entries(), right_key as int) == representative_key);
        }
        let representative = self.node_for_key(representative_key);
        self.move_to_representative(left_key, representative_key);
        let ghost s5 = *self;
        proof {
            Solver::lemma_coarsens_trans(s0, s4, s5);
        }
        self.move_to_representative(right_key, representative_key);
        let ghost s6 = *self;
        proof {
            Solver::lemma_coarsens_trans(s0, s5, s6);
            assert(s2.key_map()[left_node.0] == left_key);
            assert(s2.key_map()[right_node.0] == right_key);
            assert(s4.class_of(left_node.0) == representative_key);
            assert(s4.class_of(right_node.0) == representative_key);
            assert(s6.class_of(left_node.0) == representative_key);
            assert(s6.class_of(right_node.0) == representative_key);
        }
        self.progress.set();
        proof {
            let kl = s0.key_map()[left_node.0];
            let kr = s0.key_map()[right_node.0];
            if s0.key_map().contains_key(left_node.0) && s0.key_map().contains_key(right_node.0)
                && root(s0.entries(), kl as int) == kl && root(s0.entries(), kr as int) == kr
                && !(s0.groups@.contains_key(kl) && s0.groups@.contains_key(kr)) {
                assert(left_key == kl && right_key == kr);
                assert(root(s2.entries(), kl as int) == kl);
                assert(root(s2.entries(), kr as int) == kr);
                if kl != kr {
                    assert(representative_key == kl || representative_key == kr);
                } else {
                    assert(representative_key == kl);
                }
                assert(s4.groups == s0.groups);
                assert(self.groups == s6.groups);
                assert(self.class_of(left_node.0) == representative_key);
            }
            assert(self.class_of(left_node.0) == s6.class_of(left_node.0));
            assert(self.class_of(right_node.0) == s6.class_of(right_node.0));
            assert(self.class_of(representative.0) == s6.class_of(representative.0));
            assert forall|x: u32, y: u32|
                s0.key_map().contains_key(x) && s0.key_map().contains_key(y) && s0.class_of(x) == s0.class_of(y)
                implies #[trigger] self.class_of(x) == #[trigger] self.class_of(y) by {
                assert(s6.class_of(x) == s6.class_of(y));
            }
        }
        representative
    }
}

} // verus!

verus! {

impl Solver {
    /// `new` follows from `self` by steps of resolution and unification:
    /// the state stays consistent, groups only merge, and the reported
    /// nodes, the queue, the failed types and the error flag stay as they are.
    pub closed spec fn steps_to(self, new: Solver) -> bool {
        &&& new.inv()
        &&& self.coarsens(new)
        &&& new.budget <= self.budget
        &&& new.node_set() == self.node_set()
        &&& new.queue@ == self.queue@
        &&& new.others == self.others
        &&& new.error == self.error
        &&& self.exhausted ==> new.exhausted
    }

    pub proof fn lemma_steps_trans(a: Solver, b: Solver, c: Solver)
        requires
            a.steps_to(b),
            b.steps_to(c),
        ensures
            a.steps_to(c),
    {
        Solver::lemma_coarsens_trans(a, b, c);
    }

    /// Spends one step of the budget, or records that none is left.
    fn spend(&mut self, depth: u64) -> (ok: bool)
        requires
            old(self).inv(),
        ensures
            old(self).steps_to(*final(self)),
            ok ==> final(self).budget < old(self).budget,
            ok ==> depth < MAX_DEPTH,
            !ok ==> final(self).exhausted,
            ok == (old(self).budget > 0 && depth < MAX_DEPTH),
            ok ==> final(self).budget == old(self).budget - 1 && final(self).exhausted == old(self).exhausted,
            final(self).groups == old(self).groups,
            final(self).progress == old(self).progress,
            final(self).unify == old(self).unify,
            final(self).keys == old(self).keys,
            final(self).queue == old(self).queue,
            final(self).nodes == old(self).nodes,
    {
        if self.budget == 0 || depth >= MAX_DEPTH {
            self.exhausted = true;
            if depth >= MAX_DEPTH {
                self.depth_limit_hit = Ghost(true);
            }
            false
        } else {
            self.budget = self.budget - 1;
            true
        }
    }

    /// The key at the root of `node`'s group, giving `node` a key when it has
    /// none.
    #[verifier::spinoff_prover]
    fn find_representative(&mut self, node: NodeId) -> (representative_key: u32)
        requires
            old(self).inv(),
        ensures
            old(self).steps_to(*final(self)),
            final(self).budget == old(self).budget,
            final(self).groups == old(self).groups,
            final(self).progress == old(self).progress,
            final(self).exhausted == old(self).exhausted,
            representative_key < final(self).key_count(),
            final(self).key_map().contains_key(node.0),
            final(self).class_of(node.0) == representative_key,
            root(final(self).entries(), representative_key as int) == representative_key,
            forall|x: u32| old(self).key_map().contains_key(x) ==> #[trigger] final(self).class_of(x) == old(self).class_of(x),
            !old(self).key_map().contains_key(node.0) ==> representative_key == old(self).key_count(),
            forall|x: u32| #[trigger] final(self).key_map().contains_key(x) ==> old(self).key_map().contains_key(x) || x == node.0,
    {
        let ghost s0 = *self;
        let key = self.key_for_node(node);
        let ghost sb = *self;
        proof {
            lemma_root(sb.entries(), key as int);
        }
        let representative_key = self.unify.find(key);
        let ghost s1 = *self;
        proof {
            Solver::lemma_find_step(sb, s1);
            Solver::lemma_coarsens_trans(s0, sb, s1);
            Solver::lemma_find_step_frame(s0, s1);
            lemma_root(s1.entries(), key as int);
            assert forall|x: u32| s0.key_map().contains_key(x) implies #[trigger] s1.class_of(x) == s0.class_of(x) by {
                assert(sb.class_of(x) == s0.class_of(x));
            }
        }
        representative_key
    }

    /// The type of `node`'s group with every reference inside it applied,
    /// when the group has a type, and otherwise the node that stands for the
    /// group. While the group's own type is being applied it is taken out of
    /// the group, so a type that refers to its own group ends there.
    #[verifier::spinoff_prover]
    #[verifier::rlimit(40)]
    fn resolve_node(&mut self, node: NodeId, depth: u64) -> (r: Ty)
        requires
            old(self).inv(),
        ensures
            old(self).steps_to(*final(self)),
            old(self).untyped() ==> final(self).untyped(),
            old(self).untyped() ==> (r matches Ty::Of(m) && final(self).key_map().contains_key(node.0)
                && final(self).key_map().contains_key(m.0) && final(self).class_of(m.0) == final(self).class_of(
                node.0,
            )),
            old(self).keeps_closed(*final(self)),
            old(self).gives_group_type(Ty::Of(node), r),
            old(self).group_type(node.0) is None ==> {
                &&& final(self).applied_node(Ty::Of(node), r)
                &&& final(self).groups@ == old(self).groups@
                &&& final(self).group_type(node.0) is None
                &&& final(self).budget == old(self).budget
                &&& final(self).exhausted == old(self).exhausted
                &&& forall|x: u32| #[trigger] final(self).key_map().contains_key(x) ==> old(self).key_map().contains_key(x) || x == node.0
            },
        decreases old(self).budget, 1nat,
    {
        let ghost s0 = *self;
        let representative_key = self.find_representative(node);
        let representative = self.node_for_key(representative_key);
        let ghost s1 = *self;
        proof {
            assert(s0.keeps_closed(s1));
            if s0.key_map().contains_key(node.0) {
                assert(s1.class_of(node.0) == s0.class_of(node.0));
            }
        }
        match self.groups.remove(&representative_key) {
            Some(representative_ty) => {
                proof {
                    if s0.group_type(node.0) is None {
                        assert(s1.groups@.contains_key(representative_key));
                        if s0.key_map().contains_key(node.0) {
                            assert(s1.class_of(node.0) == s0.class_of(node.0));
                        } else {
                            assert(representative_key == s0.key_count());
                        }
                        assert(false);
                    }
                    Solver::lemma_group_types_frame(s1, *self);
                    Solver::lemma_steps_trans(s0, s1, *self);
                }
                let ghost s2 = *self;
                let applied = self.apply_ty(representative_ty, depth);
                let ghost s3 = *self;
                let copy = applied.deep_clone();
                self.groups.insert(representative_key, copy);
                proof {
                    Solver::lemma_steps_trans(s0, s2, s3);
                    assert(representative_key < s3.key_count());
                    Solver::lemma_group_types_frame(s3, *self);
                    Solver::lemma_steps_trans(s0, s3, *self);
                    Solver::lemma_resolve_keeps(s0, s1, s2, s3, *self, node, representative_key, representative_ty, applied);
                }
                applied
            },
            None => {
                proof {
                    Solver::lemma_group_types_frame(s1, *self);
                    Solver::lemma_steps_trans(s0, s1, *self);
                    if s0.untyped() {
                        assert(self.groups@ =~= Map::<u32, Ty>::empty());
                    }
                    assert(self.groups@ == s1.groups@);
                }
                Ty::Of(representative)
            },
        }
    }

    /// The type of the group of `node`, when the node has a key and the key
    /// at the root of its group holds a type.
    pub closed spec fn group_type(self, node: u32) -> Option<Ty> {
        if self.key_map().contains_key(node) && self.groups@.contains_key(self.class_of(node) as u32) {
            Some(self.groups@[self.class_of(node) as u32])
        } else {
            None
        }
    }

    /// `r` is `ty` with the type of a node resolved once, as `try_apply_ty`
    /// does with fuel left: a node's type becomes the type of the node's
    /// group (when that type refers to no other node), and stays when the
    /// group has no type.
    pub open spec fn resolves(self, ty: Ty, r: Ty) -> bool {
        ty is Of ==> match self.group_type(ty->Of_0.0) {
            Some(g) => !g@.has_of() ==> r@ == g@,
            None => r@ == ty@,
        }
    }

    /// Applying `ty` gave `r`, as `apply_ty` does when no group has a type:
    /// a node's type becomes a node of the same group, and both have keys.
    pub open spec fn applied_node(self, ty: Ty, r: Ty) -> bool {
        ty is Of ==> {
            &&& r is Of
            &&& self.key_map().contains_key(ty->Of_0.0)
            &&& self.key_map().contains_key(r->Of_0.0)
            &&& self.class_of(r->Of_0.0) == self.class_of(ty->Of_0.0)
        }
    }

    /// Applying `ty` gave `r`, as `apply_ty` does with the budget holding
    /// out: a node whose group has a type that refers to no node becomes
    /// that type.
    pub open spec fn gives_group_type(self, ty: Ty, r: Ty) -> bool {
        ty is Of ==> match self.group_type(ty->Of_0.0) {
            Some(g) => !g@.has_of() ==> r@ == g@,
            None => true,
        }
    }

    /// Under `self`, a node with a key whose group has no type has none in
    /// `new` either, when `self` keeps its closed types in `new`.
    proof fn lemma_untyped_kept(a: Solver, b: Solver, n: u32)
        requires
            a.keeps_closed(b),
            a.key_map().contains_key(n),
            a.group_type(n) is None,
        ensures
            b.group_type(n) is None,
    {
        assert(b.key_map().contains_key(n) && b.class_of(n) == a.class_of(n));
        if b.groups@.contains_key(b.class_of(n) as u32) {
            assert(a.groups@.contains_key(a.class_of(n) as u32));
        }
    }

    /// From `self` to `new`, every node with a key keeps it and its group's
    /// root, and every group type that refers to no node stays as it was.
    pub closed spec fn keeps_closed(self, new: Solver) -> bool {
        &&& forall|x: u32| #[trigger] self.key_map().contains_key(x) ==> new.key_map().contains_key(x) && new.class_of(x) == self.class_of(x)
        &&& forall|k: u32|
            #[trigger] self.groups@.contains_key(k) && !self.groups@[k]@.has_of() ==> new.groups@.contains_key(k)
                && new.groups@[k]@ == self.groups@[k]@
        &&& forall|k: u32| #[trigger] new.groups@.contains_key(k) ==> self.groups@.contains_key(k)
    }

    proof fn lemma_keeps_closed_refl(a: Solver)
        ensures
            a.keeps_closed(a),
    {
    }

    proof fn lemma_keeps_closed_trans(a: Solver, b: Solver, c: Solver)
        requires
            a.keeps_closed(b),
            b.keeps_closed(c),
        ensures
            a.keeps_closed(c),
    {
        assert forall|k: u32| #[trigger] a.groups@.contains_key(k) && !a.groups@[k]@.has_of() implies c.groups@.contains_key(k)
            && c.groups@[k]@ == a.groups@[k]@ by {
            assert(b.groups@.contains_key(k) && b.groups@[k]@ == a.groups@[k]@);
        }
    }

    /// What `gives_group_type` says of a later state holds of an earlier one
    /// that it keeps.
    proof fn lemma_gives_group_type_keep(a: Solver, b: Solver, ty: Ty, r: Ty)
        requires
            a.keeps_closed(b),
            b.gives_group_type(ty, r),
        ensures
            a.gives_group_type(ty, r),
    {
        if ty is Of {
            let n = ty->Of_0.0;
            if a.key_map().contains_key(n) && a.groups@.contains_key(a.class_of(n) as u32) {
                let k = a.class_of(n) as u32;
                if !a.groups@[k]@.has_of() {
                    assert(b.key_map().contains_key(n) && b.class_of(n) == a.class_of(n));
                    assert(b.groups@.contains_key(k) && b.groups@[k]@ == a.groups@[k]@);
                    assert(b.group_type(n) == Some(b.groups@[k]));
                }
            }
        }
    }

    /// Taking the type `g` out of the group of `node`, applying it in the
    /// states from `s2` to `s3`, and putting the result back keeps every node's
    /// group and every other group type that refers to no node, and gives
    /// `g` for `node` when `g` refers to no node.
    proof fn lemma_resolve_keeps(s0: Solver, s1: Solver, s2: Solver, s3: Solver, s4: Solver, node: NodeId, k: u32, g: Ty, applied: Ty)
        requires
            s0.keeps_closed(s1),
            s1.groups@ == s0.groups@,
            s1.key_map().contains_key(node.0),
            s1.class_of(node.0) == k,
            s1.groups@.contains_key(k),
            s1.groups@[k] == g,
            s2.groups@ == s1.groups@.remove(k),
            s2.unify == s1.unify,
            s2.keys == s1.keys,
            s2.keeps_closed(s3),
            !g@.has_of() ==> applied@ == g@,
            s4.groups@.contains_key(k),
            s4.groups@[k]@ == applied@,
            forall|j: u32| j != k ==> (#[trigger] s4.groups@.contains_key(j) <==> s3.groups@.contains_key(j)),
            forall|j: u32| j != k && s3.groups@.contains_key(j) ==> #[trigger] s4.groups@[j] == s3.groups@[j],
            s4.unify == s3.unify,
            s4.keys == s3.keys,
        ensures
            s0.keeps_closed(s4),
            s0.gives_group_type(Ty::Of(node), applied),
    {
        assert forall|x: u32| #[trigger] s0.key_map().contains_key(x) implies s4.key_map().contains_key(x)
            && s4.class_of(x) == s0.class_of(x) by {
            assert(s1.key_map().contains_key(x) && s1.class_of(x) == s0.class_of(x));
            assert(s2.key_map().contains_key(x) && s2.class_of(x) == s1.class_of(x));
            assert(s3.key_map().contains_key(x) && s3.class_of(x) == s2.class_of(x));
        }
        assert forall|j: u32| #[trigger] s0.groups@.contains_key(j) && !s0.groups@[j]@.has_of()
            implies s4.groups@.contains_key(j) && s4.groups@[j]@ == s0.groups@[j]@ by {
            if j != k {
                assert(s2.groups@.contains_key(j) && s2.groups@[j] == s0.groups@[j]);
                assert(s3.groups@.contains_key(j) && s3.groups@[j]@ == s2.groups@[j]@);
            }
        }
        if s0.key_map().contains_key(node.0) {
            assert(s0.class_of(node.0) == k);
        }
    }

    /// What `applied_node` says stays true as groups merge.
    proof fn lemma_applied_node_coarsen(a: Solver, b: Solver, ty: Ty, r: Ty)
        requires
            a.applied_node(ty, r),
            a.coarsens(b),
        ensures
            b.applied_node(ty, r),
    {
    }

    /// Changing only the types of groups, or spending budget, is a step.
    proof fn lemma_group_types_frame(a: Solver, b: Solver)
        requires
            a.inv(),
            b.unify == a.unify,
            b.keys == a.keys,
            b.queue == a.queue,
            b.nodes == a.nodes,
            b.others == a.others,
            b.error == a.error,
            b.budget <= a.budget,
            a.exhausted ==> b.exhausted,
            b.exhausted ==> b.budget == 0 || b.depth_limit_hit@,
            forall|k: u32| #[trigger] b.groups@.contains_key(k) ==> k < a.key_count(),
        ensures
            a.steps_to(b),
    {
        assert forall|x: u32, y: u32|
            a.key_map().contains_key(x) && a.key_map().contains_key(y) && a.class_of(x) == a.class_of(y)
            implies #[trigger] b.class_of(x) == #[trigger] b.class_of(y) by {
        }
    }

    /// Replaces every reference to a node's type inside `ty` by the type of
    /// the node's group (see `resolve_node`), then does the same inside what
    /// took its place.
    fn apply_ty(&mut self, ty: Ty, depth: u64) -> (r: Ty)
        requires
            old(self).inv(),
        ensures
            old(self).steps_to(*final(self)),
            old(self).untyped() ==> final(self).untyped(),
            old(self).untyped() && !final(self).exhausted ==> (ty matches Ty::Of(n) ==> (r matches Ty::Of(m)
                && final(self).key_map().contains_key(n.0) && final(self).key_map().contains_key(m.0)
                && final(self).class_of(m.0) == final(self).class_of(n.0))),
            !ty@.has_of() ==> r@ == ty@,
            !(ty is Of) ==> same_top(ty@, r@),
            old(self).keeps_closed(*final(self)),
            !final(self).exhausted ==> old(self).gives_group_type(ty, r),
            !ty@.has_of() ==> final(self).groups@ == old(self).groups@ && final(self).unify == old(self).unify
                && final(self).keys == old(self).keys,
            ty is Of && old(self).group_type(ty->Of_0.0) is None && !final(self).exhausted ==> {
                &&& final(self).applied_node(ty, r)
                &&& final(self).groups@ == old(self).groups@
                &&& final(self).group_type(ty->Of_0.0) is None
            },
            !final(self).exhausted ==> applied_deep(*old(self), *final(self), ty@, r@),
            ty is Of && old(self).group_type(ty->Of_0.0) is None && old(self).budget > 0 && depth < MAX_DEPTH ==> {
                &&& final(self).budget == old(self).budget - 1
                &&& final(self).exhausted == old(self).exhausted
                &&& final(self).groups@ == old(self).groups@
                &&& forall|x: u32| #[trigger] final(self).key_map().contains_key(x) ==> old(self).key_map().contains_key(x) || x == ty->Of_0.0
            },
        decreases old(self).budget, 0nat,
    {
        let ghost s0 = *self;
        let ghost ty_in = ty;
        if !self.spend(depth) {
            return ty;
        }
        let ghost sa = *self;
        let ty = match ty {
            Ty::Of(node) => self.resolve_node(node, depth + 1),
            other => other,
        };
        let ghost s4 = *self;
        let ghost mid = ty;
        proof {
            Solver::lemma_steps_trans(s0, sa, s4);
            assert(s0.keeps_closed(sa));
            if ty_in is Of {
                Solver::lemma_gives_group_type_keep(s0, sa, ty_in, mid);
            } else {
                Solver::lemma_keeps_closed_refl(sa);
            }
            Solver::lemma_keeps_closed_trans(s0, sa, s4);
        }
        proof {
            if !ty_in@.has_of() {
                assert(ty == ty_in);
            }
        }
        let r = match ty {
            Ty::Of(node) => Ty::Of(node),
            other => self.apply_inside(other, depth),
        };
        proof {
            Solver::lemma_steps_trans(s0, s4, *self);
            if !(ty_in is Of) {
                assert(mid == ty_in);
            }
            if mid is Of {
                Solver::lemma_keeps_closed_refl(s4);
            }
            Solver::lemma_keeps_closed_trans(s0, s4, *self);
            assert(!mid@.has_of() ==> r@ == mid@);
            if !self.exhausted {
                if ty_in is Of {
                    lemma_applied_deep_of(s0, *self, ty_in, r);
                } else {
                    Solver::lemma_keeps_closed_refl(*self);
                    lemma_applied_deep_move(s0, s4, *self, *self, ty_in@, r@);
                }
            }
        }
        r
    }

    /// Applies `apply_ty` inside a type that is not a node's type: to the
    /// parameters of a named type, the inputs and output of a function, and
    /// the elements of a tuple; other types stay as they are.
    fn apply_inside(&mut self, ty: Ty, depth: u64) -> (r: Ty)
        requires
            old(self).inv(),
            !(ty is Of),
            depth < MAX_DEPTH,
        ensures
            old(self).steps_to(*final(self)),
            old(self).untyped() ==> final(self).untyped(),
            !ty@.has_of() ==> r@ == ty@,
            same_top(ty@, r@),
            old(self).keeps_closed(*final(self)),
            !ty@.has_of() ==> final(self).groups@ == old(self).groups@ && final(self).unify == old(self).unify
                && final(self).keys == old(self).keys,
            !final(self).exhausted ==> applied_deep(*old(self), *final(self), ty@, r@),
        decreases old(self).budget, 1nat,
    {
        let ghost s4 = *self;
        let ghost ty_in = ty;
        let r = match ty {
            Ty::Named { name, parameters } => {
                let ghost ps = parameters@;
                let applied = self.apply_params(parameters, depth + 1);
                proof {
                    lemma_param_models(ps);
                    lemma_param_models(applied@);
                }
                Ty::Named { name, parameters: applied }
            },
            Ty::Function { inputs, output } => {
                let ghost ins = inputs@;
                let applied_inputs = self.apply_tys(inputs, depth + 1);
                proof {
                    lemma_ty_models(ins);
                    lemma_ty_models(applied_inputs@);
                }
                let ghost s5 = *self;
                let ghost out_m: SpecTy = (*output)@;
                if !self.spend(depth) {
                    proof {
                        Solver::lemma_steps_trans(s4, s5, *self);
                        assert(s5.keeps_closed(*self));
                        Solver::lemma_keeps_closed_trans(s4, s5, *self);
                    }
                    Ty::Function { inputs: applied_inputs, output }
                } else {
                    let ghost s6 = *self;
                    let applied_output = self.apply_ty(*output, depth + 1);
                    proof {
                        Solver::lemma_steps_trans(s4, s5, s6);
                        Solver::lemma_steps_trans(s4, s6, *self);
                        assert(s5.keeps_closed(s6));
                        Solver::lemma_keeps_closed_trans(s4, s5, s6);
                        Solver::lemma_keeps_closed_trans(s4, s6, *self);
                        if !self.exhausted {
                            Solver::lemma_keeps_closed_trans(s5, s6, *self);
                            Solver::lemma_keeps_closed_refl(s4);
                            Solver::lemma_keeps_closed_refl(*self);
                            lemma_tys_applied_move(s4, s4, s5, *self, ty_models(ins), ty_models(applied_inputs@));
                            lemma_applied_deep_move(s4, s6, *self, *self, out_m, applied_output@);
                        }
                    }
                    Ty::Function { inputs: applied_inputs, output: Box::new(applied_output) }
                }
            },
            Ty::Tuple { elements } => {
                let ghost es = elements@;
                let applied = self.apply_tys(elements, depth + 1);
                proof {
                    lemma_ty_models(es);
                    lemma_ty_models(applied@);
                }
                Ty::Tuple { elements: applied }
            },
            other => other,
        };
        proof {
            if !(ty_in is Named || ty_in is Function || ty_in is Tuple) {
                Solver::lemma_coarsens_refl(s4);
                Solver::lemma_keeps_closed_refl(s4);
            }
        }
        r
    }

    /// Applies `apply_ty` to each type of a vector, in order.
    #[verifier::loop_isolation(false)]
    #[verifier::spinoff_prover]
    #[verifier::rlimit(40)]
    fn apply_tys(&mut self, tys: Vec<Ty>, depth: u64) -> (r: Vec<Ty>)
        requires
            old(self).inv(),
        ensures
            old(self).steps_to(*final(self)),
            r@.len() == tys@.len(),
            old(self).untyped() ==> final(self).untyped(),
            !tys_have_of(ty_models(tys@)) ==> ty_models(r@) == ty_models(tys@),
            !tys_have_of(ty_models(tys@)) ==> final(self).groups@ == old(self).groups@ && final(self).unify
                == old(self).unify && final(self).keys == old(self).keys,
            old(self).untyped() && !final(self).exhausted ==> forall|i: int|
                0 <= i < tys@.len() ==> final(self).applied_node(tys@[i], #[trigger] r@[i]),
            old(self).keeps_closed(*final(self)),
            !final(self).exhausted ==> forall|i: int|
                0 <= i < tys@.len() ==> old(self).gives_group_type(tys@[i], #[trigger] r@[i]),
            !final(self).exhausted ==> tys_applied(*old(self), *final(self), ty_models(tys@), ty_models(r@)),
        decreases old(self).budget, 0nat,
    {
        let ghost s0 = *self;
        let ghost closed = !tys_have_of(ty_models(tys@));
        proof {
            lemma_ty_models(tys@);
            lemma_tys_have_of(ty_models(tys@));
        }
        let mut out: Vec<Ty> = Vec::new();
        let mut i: usize = 0;
        while i < tys.len()
            invariant
                i <= tys@.len(),
                out@.len() == i,
                s0.steps_to(*self),
                s0.untyped() ==> self.untyped(),
                closed ==> forall|j: int| 0 <= j < i ==> (#[trigger] out@[j])@ == tys@[j]@,
                closed ==> self.groups@ == s0.groups@ && self.unify == s0.unify && self.keys == s0.keys,
                s0.untyped() && !self.exhausted ==> forall|j: int|
                    0 <= j < i ==> self.applied_node(tys@[j], #[trigger] out@[j]),
                s0.keeps_closed(*self),
                !self.exhausted ==> forall|j: int| 0 <= j < i ==> s0.gives_group_type(tys@[j], #[trigger] out@[j]),
                !self.exhausted ==> tys_applied(s0, *self, ty_models(tys@).take(i as int), ty_models(out@)),
            decreases tys@.len() - i,
        {
            proof {
                if closed {
                    assert(ty_models(tys@)[i as int] == tys@[i as int]@);
                }
            }
            let t = tys[i].deep_clone();
            proof {
                if tys@[i as int] is Of {
                    assert(t@ == tys@[i as int]@);
                    lemma_of_model(t);
                }
            }
            let ghost s1 = *self;
            let applied = if self.budget > 0 {
                self.budget = self.budget - 1;
                let ghost s2 = *self;
                let a = self.apply_ty(t, depth);
                proof {
                    Solver::lemma_steps_trans(s1, s2, *self);
                    assert(s1.keeps_closed(s2));
                    Solver::lemma_keeps_closed_trans(s1, s2, *self);
                    if !self.exhausted {
                        Solver::lemma_gives_group_type_keep(s1, s2, t, a);
                        Solver::lemma_keeps_closed_trans(s0, s1, s2);
                        Solver::lemma_keeps_closed_refl(*self);
                        lemma_applied_deep_move(s0, s2, *self, *self, t@, a@);
                    }
                }
                a
            } else {
                self.exhausted = true;
                proof {
                    assert(s1.keeps_closed(*self));
                }
                t
            };
            proof {
                Solver::lemma_steps_trans(s0, s1, *self);
                Solver::lemma_keeps_closed_trans(s0, s1, *self);
                assert(s1.keeps_closed(*self));
                assert(!self.exhausted ==> applied_deep(s0, *self, tys@[i as int]@, applied@));
                if !self.exhausted {
                    Solver::lemma_keeps_closed_refl(s0);
                    lemma_tys_applied_move(s0, s0, s1, *self, ty_models(tys@).take(i as int), ty_models(out@));
                    assert(s1.gives_group_type(tys@[i as int], applied));
                    Solver::lemma_gives_group_type_keep(s0, s1, tys@[i as int], applied);
                }
                if s0.untyped() && !self.exhausted {
                    assert(self.applied_node(tys@[i as int], applied));
                    assert forall|j: int| 0 <= j < i implies self.applied_node(tys@[j], #[trigger] out@[j]) by {
                        Solver::lemma_applied_node_coarsen(s1, *self, tys@[j], out@[j]);
                    }
                }
            }
            let ghost before = out@;
            out.push(applied);
            proof {
                if !self.exhausted {
                    assert(out@.drop_last() =~= before);
                    assert(ty_models(out@) == ty_models(before).push(applied@));
                    let a = ty_models(tys@).take(i + 1);
                    assert(a.drop_last() =~= ty_models(tys@).take(i as int));
                    assert(ty_models(out@).drop_last() =~= ty_models(before));
                    assert(a.last() == tys@[i as int]@);
                }
                if s0.untyped() && !self.exhausted {
                    assert forall|j: int| 0 <= j < i + 1 implies self.applied_node(tys@[j], #[trigger] out@[j]) by {
                        if j < i {
                            assert(out@[j] == before[j]);
                        }
                    }
                }
            }
            i = i + 1;
        }
        proof {
            if closed {
                lemma_ty_models_eq(out@, tys@);
            }
            assert(ty_models(tys@).take(tys@.len() as int) =~= ty_models(tys@));
        }
        out
    }

    /// Applies `apply_ty` to the type of each entry, in order.
    #[verifier::loop_isolation(false)]
    #[verifier::spinoff_prover]
    #[verifier::rlimit(40)]
    fn apply_params(&mut self, params: Vec<(NodeId, Ty)>, depth: u64) -> (r: Vec<(NodeId, Ty)>)
        requires
            old(self).inv(),
        ensures
            old(self).steps_to(*final(self)),
            r@.len() == params@.len(),
            forall|i: int| 0 <= i < r@.len() ==> (#[trigger] r@[i]).0 == params@[i].0,
            old(self).untyped() ==> final(self).untyped(),
            !params_have_of(param_models(params@)) ==> param_models(r@) == param_models(params@),
            !params_have_of(param_models(params@)) ==> final(self).groups@ == old(self).groups@ && final(self).unify
                == old(self).unify && final(self).keys == old(self).keys,
            old(self).untyped() && !final(self).exhausted ==> forall|i: int|
                0 <= i < params@.len() ==> final(self).applied_node(params@[i].1, (#[trigger] r@[i]).1),
            old(self).keeps_closed(*final(self)),
            !final(self).exhausted ==> forall|i: int|
                0 <= i < params@.len() ==> old(self).gives_group_type(params@[i].1, (#[trigger] r@[i]).1),
            !final(self).exhausted ==> params_applied(*old(self), *final(self), param_models(params@), param_models(r@)),
        decreases old(self).budget, 0nat,
    {
        let ghost s0 = *self;
        let ghost closed = !params_have_of(param_models(params@));
        proof {
            lemma_param_models(params@);
            lemma_params_have_of(param_models(params@));
        }
        let mut out: Vec<(NodeId, Ty)> = Vec::new();
        let mut i: usize = 0;
        while i < params.len()
            invariant
                i <= params@.len(),
                out@.len() == i,
                forall|j: int| 0 <= j < i ==> (#[trigger] out@[j]).0 == params@[j].0,
                s0.steps_to(*self),
                s0.untyped() ==> self.untyped(),
                closed ==> forall|j: int| 0 <= j < i ==> (#[trigger] out@[j]).1@ == params@[j].1@,
                closed ==> self.groups@ == s0.groups@ && self.unify == s0.unify && self.keys == s0.keys,
                s0.untyped() && !self.exhausted ==> forall|j: int|
                    0 <= j < i ==> self.applied_node(params@[j].1, (#[trigger] out@[j]).1),
                s0.keeps_closed(*self),
                !self.exhausted ==> forall|j: int| 0 <= j < i ==> s0.gives_group_type(params@[j].1, (#[trigger] out@[j]).1),
                !self.exhausted ==> params_applied(s0, *self, param_models(params@).take(i as int), param_models(out@)),
            decreases params@.len() - i,
        {
            proof {
                if closed {
                    assert(param_models(params@)[i as int] == (params@[i as int].0, params@[i as int].1@));
                }
            }
            let t = params[i].1.deep_clone();
            proof {
                if params@[i as int].1 is Of {
                    assert(t@ == params@[i as int].1@);
                    lemma_of_model(t);
                }
            }
            let ghost s1 = *self;
            let applied = if self.budget > 0 {
                self.budget = self.budget - 1;
                let ghost s2 = *self;
                let a = self.apply_ty(t, depth);
                proof {
                    Solver::lemma_steps_trans(s1, s2, *self);
                    assert(s1.keeps_closed(s2));
                    Solver::lemma_keeps_closed_trans(s1, s2, *self);
                    if !self.exhausted {
                        Solver::lemma_gives_group_type_keep(s1, s2, t, a);
                        Solver::lemma_keeps_closed_trans(s0, s1, s2);
                        Solver::lemma_keeps_closed_refl(*self);
                        lemma_applied_deep_move(s0, s2, *self, *self, t@, a@);
                    }
                }
                a
            } else {
                self.exhausted = true;
                proof {
                    assert(s1.keeps_closed(*self));
                }
                t
            };
            proof {
                Solver::lemma_steps_trans(s0, s1, *self);
                Solver::lemma_keeps_closed_trans(s0, s1, *self);
                assert(s1.keeps_closed(*self));
                assert(!self.exhausted ==> applied_deep(s0, *self, params@[i as int].1@, applied@));
                if !self.exhausted {
                    Solver::lemma_keeps_closed_refl(s0);
                    lemma_params_applied_move(s0, s0, s1, *self, param_models(params@).take(i as int), param_models(out@));
                    assert(s1.gives_group_type(params@[i as int].1, applied));
                    Solver::lemma_gives_group_type_keep(s0, s1, params@[i as int].1, applied);
                }
                if s0.untyped() && !self.exhausted {
                    assert(self.applied_node(params@[i as int].1, applied));
                    assert forall|j: int| 0 <= j < i implies self.applied_node(params@[j].1, (#[trigger] out@[j]).1) by {
                        Solver::lemma_applied_node_coarsen(s1, *self, params@[j].1, out@[j].1);
                    }
                }
            }
            let ghost before = out@;
            out.push((params[i].0, applied));
            proof {
                if !self.exhausted {
                    assert(out@.drop_last() =~= before);
                    assert(param_models(out@) == param_models(before).push((params@[i as int].0, applied@)));
                    let a = param_models(params@).take(i + 1);
                    assert(a.drop_last() =~= param_models(params@).take(i as int));
                    assert(param_models(out@).drop_last() =~= param_models(before));
                    assert(a.last() == (params@[i as int].0, params@[i as int].1@));
                }
                if s0.untyped() && !self.exhausted {
                    assert forall|j: int| 0 <= j < i + 1 implies self.applied_node(params@[j].1, (#[trigger] out@[j]).1) by {
                        if j < i {
                            assert(out@[j] == before[j]);
                        }
                    }
                }
            }
            i = i + 1;
        }
        proof {
            if closed {
                lemma_param_models_eq(out@, params@);
            }
            assert(param_models(params@).take(params@.len() as int) =~= param_models(params@));
        }
        out
    }

    /// A lookup of a root keeps the steps relation.
    proof fn lemma_find_step_frame(s0: Solver, s1: Solver)
        requires
            s0.inv(),
            s1.inv(),
            s0.coarsens(s1),
            s1.budget <= s0.budget,
            s1.node_set() == s0.node_set(),
            s1.queue@ == s0.queue@,
            s1.others == s0.others,
            s1.error == s0.error,
            s0.exhausted ==> s1.exhausted,
        ensures
            s0.steps_to(s1),
    {
    }
}

} // verus!

verus! {

impl Solver {
    /// Unifies two types. Both are applied first; then two parameters unify
    /// when they are the same parameter, two nodes' types by merging their
    /// groups, a node's type and another type by making the other type the
    /// type of the node's group (unified in turn with the type the group had
    /// before), and two named, function or tuple types of the same shape
    /// part by part. Anything else fails. Besides the outcome, returns the
    /// two types as unification left them.
    #[verifier::spinoff_prover]
    #[verifier::rlimit(60)]
    fn unify_tys(&mut self, left: Ty, right: Ty, depth: u64) -> (r: (Result<(), ()>, Ty, Ty))
        requires
            old(self).inv(),
        ensures
            old(self).steps_to(*final(self)),
            old(self).untyped() && !final(self).exhausted ==> (left matches Ty::Of(a) ==> (right matches Ty::Of(b)
                ==> {
                &&& r.0 is Ok
                &&& final(self).untyped()
                &&& final(self).key_map().contains_key(a.0)
                &&& final(self).key_map().contains_key(b.0)
                &&& final(self).class_of(a.0) == final(self).class_of(b.0)
            })),
            old(self).untyped() && !final(self).exhausted && left is Of && !right@.has_of() ==> r.0 is Ok
                && final(self).typed_as(left->Of_0.0, right@),
            shape_clash(left@, right@) ==> r.0 is Err,
            closed_refuses(left@, right@) ==> r.0 is Err,
            !final(self).exhausted && shape_clash(old(self).resolved_top(left), old(self).resolved_top(right))
                ==> r.0 is Err,
            left is Of && right is Of && old(self).group_type(left->Of_0.0) is None && old(self).group_type(
                right->Of_0.0,
            ) is None && old(self).budget >= 3 && depth + 1 < MAX_DEPTH && !old(self).exhausted ==> {
                &&& final(self).budget == old(self).budget - 3
                &&& final(self).exhausted == old(self).exhausted
            },
            left is Of && !right@.has_of() && old(self).group_type(left->Of_0.0) is None && !final(self).exhausted
                ==> r.0 is Ok && final(self).group_type(left->Of_0.0) is Some && final(self).group_type(
                left->Of_0.0,
            ).unwrap()@ == right@,
        decreases old(self).budget, 0nat,
    {
        let ghost s0 = *self;
        let ghost left_in = left;
        let ghost right_in = right;
        if !self.spend(depth) {
            return (Err(()), left, right);
        }
        let ghost s1 = *self;
        let left = self.apply_ty(left, depth + 1);
        let ghost s2 = *self;
        let right = self.apply_ty(right, depth + 1);
        let ghost s3 = *self;
        proof {
            Solver::lemma_steps_trans(s0, s1, s2);
            Solver::lemma_steps_trans(s0, s2, s3);
            Solver::lemma_top_lengths(left);
            Solver::lemma_top_lengths(right);
            if !s3.exhausted {
                assert(s0.keeps_closed(s1));
                Solver::lemma_keeps_closed_trans(s0, s1, s2);
                if left_in is Of {
                    Solver::lemma_gives_group_type_keep(s0, s1, left_in, left);
                }
                if right_in is Of {
                    Solver::lemma_gives_group_type_keep(s0, s2, right_in, right);
                }
                Solver::lemma_resolved_top_applied(s0, left_in, left);
                Solver::lemma_resolved_top_applied(s0, right_in, right);
                if shape_clash(s0.resolved_top(left_in), s0.resolved_top(right_in)) {
                    lemma_clash_same_top(s0.resolved_top(left_in), s0.resolved_top(right_in), left@, right@);
                }
            }
        }
        proof {
            if closed_refuses(left_in@, right_in@) {
                assert(left@ == left_in@);
                assert(right@ == right_in@);
            }
            if left_in is Of && right_in is Of && s0.group_type(left_in->Of_0.0) is None && s0.group_type(right_in->Of_0.0) is None
                && s0.budget >= 3 && depth + 1 < MAX_DEPTH && !s0.exhausted {
                let a = left_in->Of_0.0;
                let b = right_in->Of_0.0;
                assert(s1.group_type(a) is None);
                assert(s1.group_type(b) is None);
                if a == b {
                    assert(s2.group_type(b) is None);
                } else if s1.key_map().contains_key(b) {
                    assert(s2.key_map().contains_key(b) && s2.class_of(b) == s1.class_of(b));
                    assert(s2.group_type(b) is None);
                } else {
                    assert(!s2.key_map().contains_key(b));
                    assert(s2.group_type(b) is None);
                }
                assert(left is Of && right is Of);
            }
        }
        match (left, right) {
            (Ty::Parameter(left_parameter), Ty::Parameter(right_parameter)) => {
                let result = if left_parameter.0 == right_parameter.0 {
                    Ok(())
                } else {
                    Err(())
                };
                (result, Ty::Parameter(left_parameter), Ty::Parameter(right_parameter))
            },
            (Ty::Of(left_node), Ty::Of(right_node)) => {
                let representative = self.unify_nodes(left_node, right_node);
                proof {
                    Solver::lemma_find_step_frame(s3, *self);
                    Solver::lemma_steps_trans(s0, s3, *self);
                    if s0.untyped() && !self.exhausted {
                        if let Ty::Of(a) = left_in {
                            if let Ty::Of(b) = right_in {
                                // The applied nodes stand for the groups of the
                                // given ones, which stay so as groups merge.
                                assert(s2.class_of(left_node.0) == s2.class_of(a.0));
                                assert(s3.class_of(left_node.0) == s3.class_of(a.0));
                                assert(self.class_of(left_node.0) == self.class_of(a.0));
                                assert(self.class_of(right_node.0) == self.class_of(b.0));
                            }
                        }
                    }
                }
                (Ok(()), Ty::Of(representative), Ty::Of(representative))
            },
            (Ty::Named { name: left_name, parameters: left_parameters }, Ty::Named {
                name: right_name,
                parameters: right_parameters,
            }) => {
                if left_name.0 == right_name.0 && left_parameters.len() == right_parameters.len() {
                    let (result, lefts, rights) = self.unify_params(
                        left_parameters,
                        right_parameters,
                        depth + 1,
                    );
                    proof {
                        Solver::lemma_steps_trans(s0, s3, *self);
                    }
                    (
                        result,
                        Ty::Named { name: left_name, parameters: lefts },
                        Ty::Named { name: right_name, parameters: rights },
                    )
                } else {
                    (
                        Err(()),
                        Ty::Named { name: left_name, parameters: left_parameters },
                        Ty::Named { name: right_name, parameters: right_parameters },
                    )
                }
            },
            (Ty::Function { inputs: left_inputs, output: left_output }, Ty::Function {
                inputs: right_inputs,
                output: right_output,
            }) => {
                if left_inputs.len() == right_inputs.len() {
                    let (result, lefts, rights) = self.unify_seq(left_inputs, right_inputs, depth + 1);
                    let ghost s4 = *self;
                    proof {
                        Solver::lemma_steps_trans(s0, s3, s4);
                    }
                    match result {
                        Ok(()) => {
                            let (result, left_output, right_output) = self.unify_tys(
                                *left_output,
                                *right_output,
                                depth + 1,
                            );
                            proof {
                                Solver::lemma_steps_trans(s0, s4, *self);
                            }
                            (
                                result,
                                Ty::Function { inputs: lefts, output: Box::new(left_output) },
                                Ty::Function { inputs: rights, output: Box::new(right_output) },
                            )
                        },
                        Err(()) => (
                            Err(()),
                            Ty::Function { inputs: lefts, output: left_output },
                            Ty::Function { inputs: rights, output: right_output },
                        ),
                    }
                } else {
                    (
                        Err(()),
                        Ty::Function { inputs: left_inputs, output: left_output },
                        Ty::Function { inputs: right_inputs, output: right_output },
                    )
                }
            },
            (Ty::Tuple { elements: left_elements }, Ty::Tuple { elements: right_elements }) => {
                if left_elements.len() == right_elements.len() {
                    let (result, lefts, rights) = self.unify_seq(
                        left_elements,
                        right_elements,
                        depth + 1,
                    );
                    proof {
                        Solver::lemma_steps_trans(s0, s3, *self);
                    }
                    (result, Ty::Tuple { elements: lefts }, Ty::Tuple { elements: rights })
                } else {
                    (
                        Err(()),
                        Ty::Tuple { elements: left_elements },
                        Ty::Tuple { elements: right_elements },
                    )
                }
            },
            (other, Ty::Of(node)) => {
                let (result, node_side, other_side) = self.unify_with_node(node, other, depth + 1);
                proof {
                    Solver::lemma_steps_trans(s0, s3, *self);
                }
                (result, other_side, node_side)
            },
            (Ty::Of(node), other) => {
                let ghost other_in = other;
                let (result, node_side, other_side) = self.unify_with_node(node, other, depth + 1);
                proof {
                    Solver::lemma_steps_trans(s0, s3, *self);
                    if s0.untyped() && !self.exhausted && left_in is Of && !right_in@.has_of() {
                        let a = left_in->Of_0;
                        assert(s2.class_of(node.0) == s2.class_of(a.0));
                        assert(other_in@ == right_in@);
                        assert(self.class_of(node.0) == self.class_of(a.0));
                        let k = choose|k: u32|
                            {
                                &&& #[trigger] self.groups@.contains_key(k)
                                &&& self.groups@.dom() == Set::<u32>::empty().insert(k)
                                &&& root(self.entries(), k as int) == self.class_of(node.0)
                                &&& self.groups@[k]@ == other_in@
                            };
                        assert(self.typed_as(a.0, right_in@));
                    }
                }
                (result, node_side, other_side)
            },
            (left, right) => (Err(()), left, right),
        }
    }

    /// `ty` at the top as applying gives it: a node's type becomes the type
    /// of the node's group when that type refers to no node; anything else
    /// stays.
    pub open spec fn resolved_top(self, ty: Ty) -> SpecTy {
        if ty is Of {
            match self.group_type(ty->Of_0.0) {
                Some(g) => if !g@.has_of() {
                    g@
                } else {
                    ty@
                },
                None => ty@,
            }
        } else {
            ty@
        }
    }

    /// What applying `ty` gave keeps the top of `resolved_top`, or is a
    /// node's type.
    proof fn lemma_resolved_top_applied(s: Solver, ty: Ty, r: Ty)
        requires
            s.gives_group_type(ty, r),
            !(ty is Of) ==> same_top(ty@, r@),
        ensures
            s.resolved_top(ty) is Of || same_top(s.resolved_top(ty), r@),
    {
        if ty is Of {
            match s.group_type(ty->Of_0.0) {
                Some(g) => {
                    if !g@.has_of() {
                        lemma_same_top_refl(g@);
                    }
                },
                None => {},
            }
        }
    }

    /// The lengths that `same_top` compares are those of the vectors.
    proof fn lemma_top_lengths(ty: Ty)
        ensures
            ty matches Ty::Named { parameters, .. } ==> param_models(parameters@).len() == parameters@.len(),
            ty matches Ty::Function { inputs, .. } ==> ty_models(inputs@).len() == inputs@.len(),
            ty matches Ty::Tuple { elements } ==> ty_models(elements@).len() == elements@.len(),
    {
        match ty {
            Ty::Named { parameters, .. } => lemma_param_models(parameters@),
            Ty::Function { inputs, .. } => lemma_ty_models(inputs@),
            Ty::Tuple { elements } => lemma_ty_models(elements@),
            _ => {},
        }
    }

    /// Makes `other` the type of `node`'s group, and unifies the type that
    /// the group had before, if any, with the node's type. Returns the
    /// outcome, the node's side as unification left it, and the other side.
    fn unify_with_node(&mut self, node: NodeId, other: Ty, depth: u64) -> (r: (Result<(), ()>, Ty, Ty))
        requires
            old(self).inv(),
        ensures
            old(self).steps_to(*final(self)),
            old(self).untyped() ==> r.0 is Ok && final(self).typed_as(node.0, other@),
            old(self).group_type(node.0) is None ==> r.0 is Ok && final(self).group_type(node.0) is Some
                && final(self).group_type(node.0).unwrap()@ == other@,
        decreases old(self).budget, 1nat,
    {
        let ghost s0 = *self;
        let key = self.find_representative(node);
        let ghost s1 = *self;
        proof {
            if s0.group_type(node.0) is None {
                if s0.key_map().contains_key(node.0) {
                    assert(s1.class_of(node.0) == s0.class_of(node.0));
                } else {
                    assert(key == s0.key_count());
                }
                assert(!s1.groups@.contains_key(key));
            }
        }
        let copy = other.deep_clone();
        let previous = self.groups.insert(key, copy);
        proof {
            Solver::lemma_group_types_frame(s1, *self);
            Solver::lemma_steps_trans(s0, s1, *self);
        }
        match previous {
            Some(existing) => {
                proof {
                    if s0.untyped() {
                        assert(s1.groups@ == Map::<u32, Ty>::empty());
                    }
                }
                let ghost s2 = *self;
                let (result, node_side, _) = self.unify_tys(Ty::Of(node), existing, depth);
                proof {
                    Solver::lemma_steps_trans(s0, s2, *self);
                }
                match result {
                    Ok(()) => {
                        let ghost s3 = *self;
                        self.progress.set();
                        proof {
                            Solver::lemma_group_types_frame(s3, *self);
                            Solver::lemma_steps_trans(s0, s3, *self);
                        }
                        let node_side = other.deep_clone();
                        (Ok(()), node_side, other)
                    },
                    Err(()) => (Err(()), node_side, other),
                }
            },
            None => {
                let ghost s3 = *self;
                self.progress.set();
                proof {
                    Solver::lemma_group_types_frame(s3, *self);
                    Solver::lemma_steps_trans(s0, s3, *self);
                    if s0.untyped() {
                        assert(self.groups@.dom() =~= Set::<u32>::empty().insert(key));
                        assert(self.groups@.contains_key(key));
                    }
                }
                let node_side = other.deep_clone();
                (Ok(()), node_side, other)
            },
        }
    }

    /// Unifies two sequences of types of the same length, pair by pair, and
    /// stops at the first pair that fails; the pairs after it are left as
    /// they were.
    #[verifier::loop_isolation(false)]
    fn unify_seq(&mut self, lefts: Vec<Ty>, rights: Vec<Ty>, depth: u64) -> (r: (Result<(), ()>, Vec<Ty>, Vec<Ty>))
        requires
            old(self).inv(),
            lefts@.len() == rights@.len(),
        ensures
            old(self).steps_to(*final(self)),
            r.1@.len() == lefts@.len(),
            r.2@.len() == rights@.len(),
            tys_refuse(ty_models(lefts@), ty_models(rights@)) ==> r.0 is Err,
        decreases old(self).budget, 0nat,
    {
        let ghost s0 = *self;
        let mut out_left: Vec<Ty> = Vec::new();
        let mut out_right: Vec<Ty> = Vec::new();
        let mut result: Result<(), ()> = Ok(());
        let mut i: usize = 0;
        while i < lefts.len()
            invariant
                i <= lefts@.len(),
                out_left@.len() == i,
                out_right@.len() == i,
                s0.steps_to(*self),
                result is Ok ==> forall|j: int| 0 <= j < i ==> !closed_refuses(#[trigger] lefts@[j]@, rights@[j]@),
            decreases lefts@.len() - i,
        {
            let l = lefts[i].deep_clone();
            let r = rights[i].deep_clone();
            if result.is_ok() {
                let ghost s1 = *self;
                if self.budget > 0 {
                    self.budget = self.budget - 1;
                    let ghost s2 = *self;
                    let (res, l2, r2) = self.unify_tys(l, r, depth);
                    proof {
                        Solver::lemma_steps_trans(s1, s2, *self);
                        Solver::lemma_steps_trans(s0, s1, *self);
                    }
                    result = res;
                    out_left.push(l2);
                    out_right.push(r2);
                } else {
                    self.exhausted = true;
                    proof {
                        Solver::lemma_steps_trans(s0, s1, *self);
                    }
                    result = Err(());
                    out_left.push(l);
                    out_right.push(r);
                }
            } else {
                out_left.push(l);
                out_right.push(r);
            }
            i = i + 1;
        }
        proof {
            if tys_refuse(ty_models(lefts@), ty_models(rights@)) {
                lemma_ty_models(lefts@);
                lemma_ty_models(rights@);
                lemma_tys_refuse(ty_models(lefts@), ty_models(rights@));
                let j = choose|j: int| 0 <= j < ty_models(lefts@).len() && #[trigger] closed_refuses(ty_models(lefts@)[j], ty_models(rights@)[j]);
                assert(closed_refuses(lefts@[j]@, rights@[j]@));
            }
        }
        (result, out_left, out_right)
    }

    /// Unifies the types of two parameter lists of the same length, entry by
    /// entry in order, as `unify_seq` does.
    #[verifier::loop_isolation(false)]
    fn unify_params(
        &mut self,
        lefts: Vec<(NodeId, Ty)>,
        rights: Vec<(NodeId, Ty)>,
        depth: u64,
    ) -> (r: (Result<(), ()>, Vec<(NodeId, Ty)>, Vec<(NodeId, Ty)>))
        requires
            old(self).inv(),
            lefts@.len() == rights@.len(),
        ensures
            old(self).steps_to(*final(self)),
            r.1@.len() == lefts@.len(),
            r.2@.len() == rights@.len(),
            forall|i: int| 0 <= i < lefts@.len() ==> (#[trigger] r.1@[i]).0 == lefts@[i].0,
            forall|i: int| 0 <= i < rights@.len() ==> (#[trigger] r.2@[i]).0 == rights@[i].0,
            params_refuse(param_models(lefts@), param_models(rights@)) ==> r.0 is Err,
        decreases old(self).budget, 0nat,
    {
        let ghost s0 = *self;
        let mut out_left: Vec<(NodeId, Ty)> = Vec::new();
        let mut out_right: Vec<(NodeId, Ty)> = Vec::new();
        let mut result: Result<(), ()> = Ok(());
        let mut i: usize = 0;
        while i < lefts.len()
            invariant
                i <= lefts@.len(),
                out_left@.len() == i,
                out_right@.len() == i,
                forall|j: int| 0 <= j < i ==> (#[trigger] out_left@[j]).0 == lefts@[j].0,
                forall|j: int| 0 <= j < i ==> (#[trigger] out_right@[j]).0 == rights@[j].0,
                s0.steps_to(*self),
                result is Ok ==> forall|j: int| 0 <= j < i ==> !closed_refuses(#[trigger] lefts@[j].1@, rights@[j].1@),
            decreases lefts@.len() - i,
        {
            let l = lefts[i].1.deep_clone();
            let r = rights[i].1.deep_clone();
            if result.is_ok() {
                let ghost s1 = *self;
                if self.budget > 0 {
                    self.budget = self.budget - 1;
                    let ghost s2 = *self;
                    let (res, l2, r2) = self.unify_tys(l, r, depth);
                    proof {
                        Solver::lemma_steps_trans(s1, s2, *self);
                        Solver::lemma_steps_trans(s0, s1, *self);
                    }
                    result = res;
                    out_left.push((lefts[i].0, l2));
                    out_right.push((rights[i].0, r2));
                } else {
                    self.exhausted = true;
                    proof {
                        Solver::lemma_steps_trans(s0, s1, *self);
                    }
                    result = Err(());
                    out_left.push((lefts[i].0, l));
                    out_right.push((rights[i].0, r));
                }
            } else {
                out_left.push((lefts[i].0, l));
                out_right.push((rights[i].0, r));
            }
            i = i + 1;
        }
        proof {
            if params_refuse(param_models(lefts@), param_models(rights@)) {
                lemma_param_models(lefts@);
                lemma_param_models(rights@);
                lemma_params_refuse(param_models(lefts@), param_models(rights@));
                let j = choose|j: int| 0 <= j < param_models(lefts@).len() && #[trigger] closed_refuses(param_models(lefts@)[j].1, param_models(rights@)[j].1);
                assert(closed_refuses(lefts@[j].1@, rights@[j].1@));
            }
        }
        (result, out_left, out_right)
    }
}

} // verus!

verus! {

/// The two types have the same constructor at the top: the same parameter,
/// named types with the same name and number of parameters, or functions or
/// tuples with as many inputs or elements.
pub open spec fn same_top(a: SpecTy, b: SpecTy) -> bool {
    match (a, b) {
        (SpecTy::Unknown, SpecTy::Unknown) => true,
        (SpecTy::Parameter(x), SpecTy::Parameter(y)) => x == y,
        (SpecTy::Named { name: m, parameters: p }, SpecTy::Named { name: n, parameters: q }) => m == n && p.len()
            == q.len(),
        (SpecTy::Function { inputs: i, .. }, SpecTy::Function { inputs: j, .. }) => i.len() == j.len(),
        (SpecTy::Tuple { elements: i }, SpecTy::Tuple { elements: j }) => i.len() == j.len(),
        _ => false,
    }
}

/// `r` is what applying `ty` gives, with the group types read in `before`
/// and the groups in `after`: a node with a key whose group has no type
/// becomes a node of the same group; a node with a key whose group has a
/// type that refers to no node becomes that type; named, function and tuple
/// types keep their name and shape with every part applied in turn; other
/// types stay as they are.
pub open spec fn applied_deep(before: Solver, after: Solver, ty: SpecTy, r: SpecTy) -> bool
    decreases ty,
{
    match ty {
        SpecTy::Of(n) => before.key_map().contains_key(n.0) ==> match before.group_type(n.0) {
            Some(g) => !g@.has_of() ==> r == g@,
            None => r is Of && after.key_map().contains_key(n.0) && after.key_map().contains_key(r->Of_0.0)
                && after.class_of(r->Of_0.0) == after.class_of(n.0),
        },
        SpecTy::Named { name, parameters } => match r {
            SpecTy::Named { name: m, parameters: q } => m == name && params_applied(before, after, parameters, q),
            _ => false,
        },
        SpecTy::Function { inputs, output } => match r {
            SpecTy::Function { inputs: i, output: o } => tys_applied(before, after, inputs, i) && applied_deep(
                before,
                after,
                *output,
                *o,
            ),
            _ => false,
        },
        SpecTy::Tuple { elements } => match r {
            SpecTy::Tuple { elements: e } => tys_applied(before, after, elements, e),
            _ => false,
        },
        _ => r == ty,
    }
}

/// `b` is `a` applied type by type, as `applied_deep` says.
pub open spec fn tys_applied(before: Solver, after: Solver, a: Seq<SpecTy>, b: Seq<SpecTy>) -> bool
    decreases a,
{
    &&& a.len() == b.len()
    &&& a.len() > 0 ==> tys_applied(before, after, a.drop_last(), b.drop_last()) && applied_deep(
        before,
        after,
        a.last(),
        b[a.len() - 1],
    )
}

/// `b` is `a` with the type of each entry applied, as `applied_deep` says.
pub open spec fn params_applied(before: Solver, after: Solver, a: Seq<(NodeId, SpecTy)>, b: Seq<(NodeId, SpecTy)>) -> bool
    decreases a,
{
    &&& a.len() == b.len()
    &&& a.len() > 0 ==> params_applied(before, after, a.drop_last(), b.drop_last()) && a.last().0 == b[a.len()
        - 1].0 && applied_deep(before, after, a.last().1, b[a.len() - 1].1)
}

/// A node's type resolved as `gives_group_type` says, and kept in its group
/// as `applied_node` says when the group has no type, is applied as
/// `applied_deep` says.
proof fn lemma_applied_deep_of(before: Solver, after: Solver, ty: Ty, r: Ty)
    requires
        ty is Of,
        before.gives_group_type(ty, r),
        before.group_type(ty->Of_0.0) is None ==> after.applied_node(ty, r),
    ensures
        applied_deep(before, after, ty@, r@),
{
    assert(ty@ == SpecTy::Of(ty->Of_0));
    if before.group_type(ty->Of_0.0) is None {
        assert(r@ == SpecTy::Of(r->Of_0));
    }
}

/// What applying says stays true with group types read in an earlier state
/// that keeps its closed types, and groups in a later one.
pub proof fn lemma_applied_deep_move(b0: Solver, b1: Solver, a1: Solver, a2: Solver, ty: SpecTy, r: SpecTy)
    requires
        b0.keeps_closed(b1),
        a1.keeps_closed(a2),
        applied_deep(b1, a1, ty, r),
    ensures
        applied_deep(b0, a2, ty, r),
    decreases ty,
{
    match ty {
        SpecTy::Of(n) => {
            if b0.key_map().contains_key(n.0) {
                assert(b1.key_map().contains_key(n.0));
                match b0.group_type(n.0) {
                    Some(g) => {
                        let k = b0.class_of(n.0) as u32;
                        if !g@.has_of() {
                            assert(b1.class_of(n.0) == b0.class_of(n.0));
                            assert(b1.groups@.contains_key(k) && b1.groups@[k]@ == b0.groups@[k]@);
                        }
                    },
                    None => {
                        Solver::lemma_untyped_kept(b0, b1, n.0);
                        let m = r->Of_0.0;
                        assert(a2.class_of(m) == a1.class_of(m));
                        assert(a2.class_of(n.0) == a1.class_of(n.0));
                    },
                }
            }
        },
        SpecTy::Named { name, parameters } => {
            lemma_params_applied_move(b0, b1, a1, a2, parameters, r->Named_parameters);
        },
        SpecTy::Function { inputs, output } => {
            lemma_tys_applied_move(b0, b1, a1, a2, inputs, r->Function_inputs);
            lemma_applied_deep_move(b0, b1, a1, a2, *output, *r->Function_output);
        },
        SpecTy::Tuple { elements } => {
            lemma_tys_applied_move(b0, b1, a1, a2, elements, r->Tuple_elements);
        },
        _ => {},
    }
}

pub proof fn lemma_tys_applied_move(b0: Solver, b1: Solver, a1: Solver, a2: Solver, a: Seq<SpecTy>, b: Seq<SpecTy>)
    requires
        b0.keeps_closed(b1),
        a1.keeps_closed(a2),
        tys_applied(b1, a1, a, b),
    ensures
        tys_applied(b0, a2, a, b),
    decreases a,
{
    if a.len() > 0 {
        lemma_tys_applied_move(b0, b1, a1, a2, a.drop_last(), b.drop_last());
        lemma_applied_deep_move(b0, b1, a1, a2, a.last(), b[a.len() - 1]);
    }
}

pub proof fn lemma_params_applied_move(
    b0: Solver,
    b1: Solver,
    a1: Solver,
    a2: Solver,
    a: Seq<(NodeId, SpecTy)>,
    b: Seq<(NodeId, SpecTy)>,
)
    requires
        b0.keeps_closed(b1),
        a1.keeps_closed(a2),
        params_applied(b1, a1, a, b),
    ensures
        params_applied(b0, a2, a, b),
    decreases a,
{
    if a.len() > 0 {
        lemma_params_applied_move(b0, b1, a1, a2, a.drop_last(), b.drop_last());
        lemma_applied_deep_move(b0, b1, a1, a2, a.last().1, b[a.len() - 1].1);
    }
}

/// A type that is not a node's type has its own top.
pub proof fn lemma_same_top_refl(a: SpecTy)
    ensures
        !(a is Of) ==> same_top(a, a),
{
}

/// A clash stays a clash when both sides keep their top.
pub proof fn lemma_clash_same_top(a: SpecTy, b: SpecTy, c: SpecTy, d: SpecTy)
    requires
        shape_clash(a, b),
        same_top(a, c),
        same_top(b, d),
    ensures
        shape_clash(c, d),
{
}

/// Two types that unification refuses at once: neither is a node's type,
/// and they differ at the top: in constructor, in the parameter they are,
/// in name or number of parameters, or in number of inputs or elements.
/// The unknown type unifies with nothing but a node's type.
pub open spec fn shape_clash(a: SpecTy, b: SpecTy) -> bool {
    &&& !(a is Of)
    &&& !(b is Of)
    &&& match (a, b) {
        (SpecTy::Parameter(x), SpecTy::Parameter(y)) => x != y,
        (SpecTy::Named { name: m, parameters: p }, SpecTy::Named { name: n, parameters: q }) => m != n || p.len()
            != q.len(),
        (SpecTy::Function { inputs: i, .. }, SpecTy::Function { inputs: j, .. }) => i.len() != j.len(),
        (SpecTy::Tuple { elements: i }, SpecTy::Tuple { elements: j }) => i.len() != j.len(),
        _ => true,
    }
}

/// Two types that refer to no node and that unification refuses: they
/// clash at the top, or they have the same top and some pair of their
/// parameters, inputs, outputs or elements is refused in turn.
pub open spec fn closed_refuses(a: SpecTy, b: SpecTy) -> bool
    decreases a,
{
    &&& !a.has_of()
    &&& !b.has_of()
    &&& (shape_clash(a, b) || match (a, b) {
        (SpecTy::Named { parameters: p, .. }, SpecTy::Named { parameters: q, .. }) => same_top(a, b) && params_refuse(p, q),
        (SpecTy::Function { inputs: i, output: o }, SpecTy::Function { inputs: j, output: u }) => same_top(a, b) && (
        tys_refuse(i, j) || closed_refuses(*o, *u)),
        (SpecTy::Tuple { elements: i }, SpecTy::Tuple { elements: j }) => same_top(a, b) && tys_refuse(i, j),
        _ => false,
    })
}

/// Some pair of types at the same place in `a` and `b` is refused.
pub open spec fn tys_refuse(a: Seq<SpecTy>, b: Seq<SpecTy>) -> bool
    decreases a,
{
    if a.len() == 0 {
        false
    } else {
        tys_refuse(a.drop_last(), b.subrange(0, a.len() - 1)) || closed_refuses(a.last(), b[a.len() - 1])
    }
}

/// Some pair of parameter types at the same place in `a` and `b` is
/// refused.
pub open spec fn params_refuse(a: Seq<(NodeId, SpecTy)>, b: Seq<(NodeId, SpecTy)>) -> bool
    decreases a,
{
    if a.len() == 0 {
        false
    } else {
        params_refuse(a.drop_last(), b.subrange(0, a.len() - 1)) || closed_refuses(a.last().1, b[a.len() - 1].1)
    }
}

/// A refused pair of sequences has a refused pair at some place.
pub proof fn lemma_tys_refuse(a: Seq<SpecTy>, b: Seq<SpecTy>)
    requires
        tys_refuse(a, b),
        a.len() <= b.len(),
    ensures
        exists|j: int| 0 <= j < a.len() && #[trigger] closed_refuses(a[j], b[j]),
    decreases a.len(),
{
    if closed_refuses(a.last(), b[a.len() - 1]) {
        assert(closed_refuses(a[a.len() - 1], b[a.len() - 1]));
    } else {
        let a2 = a.drop_last();
        let b2 = b.subrange(0, a.len() - 1);
        lemma_tys_refuse(a2, b2);
        let j = choose|j: int| 0 <= j < a2.len() && #[trigger] closed_refuses(a2[j], b2[j]);
        assert(a2[j] == a[j] && b2[j] == b[j]);
    }
}

/// A refused pair of parameter lists has a refused pair at some place.
pub proof fn lemma_params_refuse(a: Seq<(NodeId, SpecTy)>, b: Seq<(NodeId, SpecTy)>)
    requires
        params_refuse(a, b),
        a.len() <= b.len(),
    ensures
        exists|j: int| 0 <= j < a.len() && #[trigger] closed_refuses(a[j].1, b[j].1),
    decreases a.len(),
{
    if closed_refuses(a.last().1, b[a.len() - 1].1) {
        assert(closed_refuses(a[a.len() - 1].1, b[a.len() - 1].1));
    } else {
        let a2 = a.drop_last();
        let b2 = b.subrange(0, a.len() - 1);
        lemma_params_refuse(a2, b2);
        let j = choose|j: int| 0 <= j < a2.len() && #[trigger] closed_refuses(a2[j].1, b2[j].1);
        assert(a2[j] == a[j] && b2[j] == b[j]);
    }
}

/// Which of the three kinds a constraint is: a type, an instantiation or a
/// bound.
pub open spec fn kind_of(c: SpecConstraint) -> nat {
    match c {
        SpecConstraint::Ty(..) => 0,
        SpecConstraint::Instantiation { .. } => 1,
        SpecConstraint::Bound(..) => 2,
    }
}

/// The constraints of `cs` that are not of kind `kind`, in their order.
/// Taking away every constraint of `kind` from constraints that are all of
/// that kind leaves none.
pub proof fn lemma_without_all(cs: Seq<SpecConstraint>, kind: nat)
    requires
        forall|i: int| 0 <= i < cs.len() ==> kind_of(#[trigger] cs[i]) == kind,
    ensures
        without_kind(cs, kind).len() == 0,
    decreases cs.len(),
{
    if cs.len() > 0 {
        assert forall|i: int| 0 <= i < cs.drop_last().len() implies kind_of(#[trigger] cs.drop_last()[i]) == kind by {
            assert(cs.drop_last()[i] == cs[i]);
        }
        lemma_without_all(cs.drop_last(), kind);
        assert(kind_of(cs[cs.len() - 1]) == kind);
    }
}

pub open spec fn without_kind(cs: Seq<SpecConstraint>, kind: nat) -> Seq<SpecConstraint>
    decreases cs.len(),
{
    if cs.len() == 0 {
        cs
    } else if kind_of(cs.last()) == kind {
        without_kind(cs.drop_last(), kind)
    } else {
        without_kind(cs.drop_last(), kind).push(cs.last())
    }
}

/// The constraints of `cs` of kind `kind`, in their order.
pub open spec fn of_kind(cs: Seq<SpecConstraint>, kind: nat) -> Seq<SpecConstraint>
    decreases cs.len(),
{
    if cs.len() == 0 {
        cs
    } else if kind_of(cs.last()) == kind {
        of_kind(cs.drop_last(), kind).push(cs.last())
    } else {
        of_kind(cs.drop_last(), kind)
    }
}

/// A constraint that a node has the type of another node.
pub open spec fn is_node_pair(c: SpecConstraint) -> bool {
    c matches SpecConstraint::Ty(_, SpecTy::Of(_))
}

/// Every constraint gives a node the type of another node.
pub open spec fn all_node_pairs(cs: Seq<SpecConstraint>) -> bool {
    forall|i: int| 0 <= i < cs.len() ==> is_node_pair(#[trigger] cs[i])
}

/// The constraint at `p` gives a node a type that refers to no other
/// node's type, and every other constraint gives a node the type of another
/// node.
pub open spec fn pairs_and_type(cs: Seq<SpecConstraint>, p: int) -> bool {
    &&& 0 <= p < cs.len()
    &&& cs[p] is Ty
    &&& !cs[p]->Ty_1.has_of()
    &&& forall|i: int| 0 <= i < cs.len() && i != p ==> is_node_pair(#[trigger] cs[i])
}

/// There is only one such position.
pub proof fn lemma_pairs_and_type_unique(cs: Seq<SpecConstraint>, p: int, q: int)
    requires
        pairs_and_type(cs, p),
        pairs_and_type(cs, q),
    ensures
        p == q,
{
    if p != q {
        assert(is_node_pair(cs[p]));
    }
}

/// A type whose value is a node's type is that node's type.
pub proof fn lemma_of_model(ty: Ty)
    requires
        ty.model() is Of,
    ensures
        ty is Of,
{
}

/// Each entry gives a node the type of another node.
pub open spec fn all_of_nodes(tys: Seq<(NodeId, Ty)>) -> bool {
    forall|i: int| 0 <= i < tys.len() ==> (#[trigger] tys[i]).1 is Of
}

impl Solver {
    /// Both nodes have keys, and their groups are one.
    pub closed spec fn same_group(self, a: u32, b: u32) -> bool {
        &&& self.key_map().contains_key(a)
        &&& self.key_map().contains_key(b)
        &&& self.class_of(a) == self.class_of(b)
    }

    /// When `entry` gives a node the type of another node, the two are in
    /// one group.
    pub open spec fn joins(self, entry: (NodeId, Ty)) -> bool {
        entry.1 matches Ty::Of(other) ==> self.same_group(entry.0.0, other.0)
    }

    /// When `c` gives a node the type of another node, the two are in one
    /// group.
    pub open spec fn joins_constraint(self, c: SpecConstraint) -> bool {
        c matches SpecConstraint::Ty(a, SpecTy::Of(b)) ==> self.same_group(a.0, b.0)
    }

    pub proof fn lemma_constraint_joins_coarsen(a: Solver, b: Solver, c: SpecConstraint)
        requires
            a.coarsens(b),
            a.joins_constraint(c),
        ensures
            b.joins_constraint(c),
    {
        if let SpecConstraint::Ty(x, SpecTy::Of(y)) = c {
            Solver::lemma_same_group_coarsen(a, b, x.0, y.0);
        }
    }

    /// Groups that are one stay one as groups merge.
    pub proof fn lemma_same_group_coarsen(a: Solver, b: Solver, x: u32, y: u32)
        requires
            a.coarsens(b),
            a.same_group(x, y),
        ensures
            b.same_group(x, y),
    {
    }

    pub proof fn lemma_joins_coarsen(a: Solver, b: Solver, entry: (NodeId, Ty))
        requires
            a.coarsens(b),
            a.joins(entry),
        ensures
            b.joins(entry),
    {
        if let Ty::Of(other) = entry.1 {
            Solver::lemma_same_group_coarsen(a, b, entry.0.0, other.0);
        }
    }
}

impl Solver {
    /// `new` follows from `self` by any work of the checker: the state stays
    /// consistent, groups only merge, no node loses its key, the reported
    /// nodes only grow, and budget is only spent.
    pub closed spec fn advances_to(self, new: Solver) -> bool {
        &&& new.inv()
        &&& self.coarsens(new)
        &&& new.budget <= self.budget
        &&& self.node_set().subset_of(new.node_set())
        &&& self.exhausted ==> new.exhausted
    }

    pub proof fn lemma_advances_trans(a: Solver, b: Solver, c: Solver)
        requires
            a.advances_to(b),
            b.advances_to(c),
        ensures
            a.advances_to(c),
    {
        Solver::lemma_coarsens_trans(a, b, c);
    }

    pub proof fn lemma_steps_advance(a: Solver, b: Solver)
        requires
            a.steps_to(b),
        ensures
            a.advances_to(b),
    {
    }

    /// Changing only the queue, the failed types, the error flag and the
    /// progress is an advance when no error is forgotten.
    /// Whether a group has a given type depends on the groups and keys alone.
    proof fn lemma_typed_as_frame(a: Solver, b: Solver, node: u32, t: SpecTy)
        requires
            a.typed_as(node, t),
            b.unify == a.unify,
            b.keys == a.keys,
            b.groups == a.groups,
        ensures
            b.typed_as(node, t),
    {
        let k = choose|k: u32|
            {
                &&& #[trigger] a.groups@.contains_key(k)
                &&& a.groups@.dom() == Set::<u32>::empty().insert(k)
                &&& root(a.entries(), k as int) == a.class_of(node)
                &&& a.groups@[k]@ == t
            };
        assert(b.groups@.contains_key(k));
    }

    /// After solving `cs`, node pairs and the type at `p`: that type is the
    /// type of its node's group, and the nodes of each pair share a group.
    pub open spec fn solved_pairs_and_type(self, cs: Seq<SpecConstraint>, p: int) -> bool {
        &&& self.typed_as(cs[p]->Ty_0.0, cs[p]->Ty_1)
        &&& forall|i: int| 0 <= i < cs.len() && i != p ==> self.joins_constraint(#[trigger] cs[i])
    }

    /// Solving depends on the groups and keys alone.
    proof fn lemma_solved_frame(a: Solver, b: Solver, cs: Seq<SpecConstraint>, p: int)
        requires
            a.solved_pairs_and_type(cs, p),
            b.unify == a.unify,
            b.keys == a.keys,
            b.groups == a.groups,
        ensures
            b.solved_pairs_and_type(cs, p),
    {
        Solver::lemma_typed_as_frame(a, b, cs[p]->Ty_0.0, cs[p]->Ty_1);
        assert forall|i: int| 0 <= i < cs.len() && i != p implies b.joins_constraint(#[trigger] cs[i]) by {
            assert(a.joins_constraint(cs[i]));
        }
    }

    proof fn lemma_queue_frame(a: Solver, b: Solver)
        requires
            a.inv(),
            b.unify == a.unify,
            b.keys == a.keys,
            b.groups == a.groups,
            b.nodes == a.nodes,
            b.budget <= a.budget,
            a.exhausted ==> b.exhausted,
            b.exhausted ==> b.budget == 0 || b.depth_limit_hit@,
            constraints_wf(b.queue@),
            forall|i: int| 0 <= i < b.queue@.len() ==> (#[trigger] b.queue@[i]).model().is_flat(),
        ensures
            a.advances_to(b),
    {
        assert forall|x: u32, y: u32|
            a.key_map().contains_key(x) && a.key_map().contains_key(y) && a.class_of(x) == a.class_of(y)
            implies #[trigger] b.class_of(x) == #[trigger] b.class_of(y) by {
        }
    }

    /// Records that `ty` failed to unify with the type of `node`'s group.
    fn push_other(&mut self, node: NodeId, ty: Ty)
        requires
            old(self).inv(),
        ensures
            old(self).advances_to(*final(self)),
            final(self).error,
            final(self).queue == old(self).queue,
            final(self).progress == old(self).progress,
            final(self).exhausted == old(self).exhausted,
            final(self).budget == old(self).budget,
            final(self).failed_tys() == old(self).failed_tys().insert(
                node.0,
                (if old(self).failed_tys().contains_key(node.0) {
                    old(self).failed_tys()[node.0]
                } else {
                    Seq::empty()
                }).push(ty@),
            ),
    {
        let ghost s0 = *self;
        self.error = true;
        let mut list = match self.others.remove(&node.0) {
            Some(list) => list,
            None => Vec::new(),
        };
        let ghost before = list@;
        let ghost ty_model = ty@;
        list.push(ty);
        proof {
            lemma_ty_models(before);
            lemma_ty_models(list@);
            assert(ty_models(list@) =~= ty_models(before).push(ty_model));
            if s0.others@.contains_key(node.0) {
                assert(before == s0.others@[node.0]@);
            } else {
                assert(ty_models(before) =~= Seq::<SpecTy>::empty());
            }
        }
        self.others.insert(node.0, list);
        proof {
            Solver::lemma_queue_frame(s0, *self);
            assert(self.failed_tys() =~= s0.failed_tys().insert(
                node.0,
                (if s0.failed_tys().contains_key(node.0) {
                    s0.failed_tys()[node.0]
                } else {
                    Seq::empty()
                }).push(ty_model),
            ));
        }
    }

    /// Unifies the type of each node with its type, in order, and records
    /// the types that failed.
    #[verifier::loop_isolation(false)]
    fn solve_tys(&mut self, tys: Vec<(NodeId, Ty)>)
        requires
            old(self).inv(),
        ensures
            old(self).advances_to(*final(self)),
            final(self).queue@ == old(self).queue@,
            old(self).untyped() && !final(self).exhausted && all_of_nodes(tys@) ==> {
                &&& final(self).untyped()
                &&& forall|i: int| 0 <= i < tys@.len() ==> final(self).joins(#[trigger] tys@[i])
            },
            tys@.len() == 0 ==> *final(self) == *old(self),
            tys@.len() == 1 && old(self).untyped() && !final(self).exhausted && !tys@[0].1@.has_of()
                ==> final(self).typed_as(tys@[0].0.0, tys@[0].1@),
            old(self).untyped() && all_of_nodes(tys@) && !old(self).exhausted && old(self).budget >= 3 * tys@.len()
                ==> !final(self).exhausted && final(self).budget == old(self).budget - 3 * tys@.len(),
    {
        let ghost s0 = *self;
        let ghost costing = s0.untyped() && all_of_nodes(tys@) && !s0.exhausted && s0.budget >= 3 * tys@.len();
        let mut i: usize = 0;
        while i < tys.len()
            invariant
                i <= tys@.len(),
                i == 0 ==> *self == s0,
                tys@.len() == 1 && i == 1 && s0.untyped() && !self.exhausted && !tys@[0].1@.has_of()
                    ==> self.typed_as(tys@[0].0.0, tys@[0].1@),
                s0.advances_to(*self),
                self.queue@ == s0.queue@,
                s0.untyped() && !self.exhausted && all_of_nodes(tys@) ==> {
                    &&& self.untyped()
                    &&& forall|j: int| 0 <= j < i ==> self.joins(#[trigger] tys@[j])
                },
                costing ==> !self.exhausted && self.budget == s0.budget - 3 * i && self.untyped(),
            decreases tys@.len() - i,
        {
            let node = tys[i].0;
            let ty = match &tys[i].1 {
                Ty::Of(other) => Ty::Of(*other),
                other => other.deep_clone(),
            };
            let ghost s1 = *self;
            // `Ty::Of(node)` stands for the type of the node's group, so this
            // unifies the node's type with the other types in its group.
            let (result, _, ty) = self.unify_tys(Ty::Of(node), ty, 0);
            proof {
                if tys@.len() == 1 && s0.untyped() && !self.exhausted && !tys@[0].1@.has_of() {
                    assert(i == 0);
                    assert(result is Ok);
                }
                Solver::lemma_steps_advance(s1, *self);
                Solver::lemma_advances_trans(s0, s1, *self);
                if s0.untyped() && !self.exhausted && all_of_nodes(tys@) {
                    assert forall|j: int| 0 <= j < i + 1 implies self.joins(#[trigger] tys@[j]) by {
                        if j < i {
                            Solver::lemma_joins_coarsen(s1, *self, tys@[j]);
                        }
                    }
                }
            }
            if result.is_err() {
                let ghost s2 = *self;
                self.push_other(node, ty);
                proof {
                    Solver::lemma_advances_trans(s0, s2, *self);
                }
            }
            i = i + 1;
        }
    }

    /// Takes every type constraint out of the queue and unifies each: first
    /// those that refer to another node's type directly, then the other
    /// incomplete types, then the complete ones, which forms groups before
    /// their types are set. Returns whether anything changed.
    #[verifier::loop_isolation(false)]
    #[verifier::spinoff_prover]
    #[verifier::rlimit(100)]
    fn run_tys(&mut self) -> (p: Progress)
        requires
            old(self).inv(),
        ensures
            old(self).advances_to(*final(self)),
            final(self).queue_models() == without_kind(old(self).queue_models(), 0),
            final(self).progress == Progress::NoProgress,
            old(self).untyped() && !final(self).exhausted && all_node_pairs(old(self).queue_models()) ==> {
                &&& final(self).untyped()
                &&& forall|i: int| 0 <= i < old(self).queue_models().len() ==> final(self).joins_constraint(
                    #[trigger] old(self).queue_models()[i],
                )
            },
            of_kind(old(self).queue_models(), 0).len() == 0 ==> {
                &&& final(self).groups == old(self).groups
                &&& final(self).unify == old(self).unify
                &&& final(self).keys == old(self).keys
            },
            forall|p: int|
                old(self).untyped() && !final(self).exhausted && #[trigger] pairs_and_type(old(self).queue_models(), p)
                    ==> {
                    &&& final(self).typed_as(old(self).queue_models()[p]->Ty_0.0, old(self).queue_models()[p]->Ty_1)
                    &&& forall|i: int|
                        0 <= i < old(self).queue_models().len() && i != p ==> final(self).joins_constraint(
                            #[trigger] old(self).queue_models()[i],
                        )
                    &&& final(self).queue_models().len() == 0
                },
            old(self).untyped() && all_node_pairs(old(self).queue_models()) && !old(self).exhausted && old(self).budget
                >= 3 * old(self).queue_models().len() ==> !final(self).exhausted && final(self).budget == old(self).budget
                - 3 * old(self).queue_models().len(),
            of_kind(old(self).queue_models(), 0).len() == 0 ==> p == old(self).progress && final(self).budget == old(self).budget && final(self).exhausted == old(self).exhausted,
    {
        let ghost s0 = *self;
        let ghost hyp = all_node_pairs(s0.queue_models());
        let ghost q0 = s0.queue_models();
        let ghost one = s0.untyped() && exists|p: int| #[trigger] pairs_and_type(q0, p);
        let ghost p0 = choose|p: int| #[trigger] pairs_and_type(q0, p);
        let mut queue: Vec<Constraint> = Vec::new();
        std::mem::swap(&mut queue, &mut self.queue);
        proof {
            lemma_constraint_models(queue@);
        }
        let mut rest: Vec<Constraint> = Vec::new();
        let mut direct: Vec<(NodeId, Ty)> = Vec::new();
        let mut incomplete: Vec<(NodeId, Ty)> = Vec::new();
        let mut complete: Vec<(NodeId, Ty)> = Vec::new();
        let mut i: usize = 0;
        while i < queue.len()
            invariant
                i <= queue@.len(),
                queue@ == s0.queue@,
                constraint_models(queue@) == s0.queue_models(),
                constraint_models(rest@) == without_kind(constraint_models(queue@.subrange(0, i as int)), 0),
                constraints_wf(rest@),
                forall|j: int| 0 <= j < rest@.len() ==> (#[trigger] rest@[j]).model().is_flat(),
                self.queue@.len() == 0,
                hyp ==> incomplete@.len() == 0 && complete@.len() == 0 && direct@.len() == i,
                hyp ==> forall|j: int| 0 <= j < direct@.len() ==> (#[trigger] direct@[j]).1 is Of
                    && SpecConstraint::Ty(direct@[j].0, direct@[j].1.model()) == s0.queue_models()[j],
                q0 == s0.queue_models(),
                one ==> pairs_and_type(q0, p0),
                one ==> rest@.len() == 0,
                one ==> direct@.len() == (if i <= p0 {
                    i as int
                } else {
                    i - 1
                }),
                one ==> forall|j: int|
                    0 <= j < direct@.len() ==> (#[trigger] direct@[j]).1 is Of && SpecConstraint::Ty(
                        direct@[j].0,
                        direct@[j].1@,
                    ) == q0[if j < p0 {
                        j
                    } else {
                        j + 1
                    }],
                one ==> incomplete@.len() + complete@.len() == (if i > p0 {
                    1int
                } else {
                    0int
                }),
                one ==> forall|j: int| 0 <= j < incomplete@.len() ==> SpecConstraint::Ty((#[trigger] incomplete@[j]).0, incomplete@[j].1@) == q0[p0],
                one ==> forall|j: int| 0 <= j < complete@.len() ==> SpecConstraint::Ty((#[trigger] complete@[j]).0, complete@[j].1@) == q0[p0],
                direct@.len() + incomplete@.len() + complete@.len() == of_kind(
                    constraint_models(queue@.subrange(0, i as int)),
                    0,
                ).len(),
            decreases queue@.len() - i,
        {
            let ghost prefix = queue@.subrange(0, i as int);
            let ghost next = queue@.subrange(0, i + 1);
            proof {
                assert(next.drop_last() =~= prefix);
                assert(next.last() == queue@[i as int]);
                lemma_constraint_models(next);
                lemma_constraint_models(prefix);
                assert(constraint_models(next).drop_last() =~= constraint_models(prefix));
                assert(constraint_models(next).last() == queue@[i as int].model());
                assert(constraint_models(next) =~= constraint_models(prefix).push(queue@[i as int].model()));
                lemma_kinds_push(constraint_models(prefix), queue@[i as int].model(), 0);
                assert(queue@[i as int].wf());
                assert(queue@[i as int].model().is_flat());
                assert(s0.queue_models()[i as int] == queue@[i as int].model());
            }
            match &queue[i] {
                Constraint::Ty(node, ty) => {
                    match ty {
                        Ty::Of(other) => {
                            proof {
                                if one {
                                    assert(q0[i as int] == SpecConstraint::Ty(*node, ty@));
                                    assert(ty@.has_of());
                                    assert(i != p0);
                                }
                            }
                            let ghost before = direct@;
                            direct.push((*node, Ty::Of(*other)));
                            proof {
                                if one {
                                    assert forall|j: int|
                                        0 <= j < direct@.len() implies (#[trigger] direct@[j]).1 is Of && SpecConstraint::Ty(
                                            direct@[j].0,
                                            direct@[j].1@,
                                        ) == q0[if j < p0 {
                                            j
                                        } else {
                                            j + 1
                                        }] by {
                                        if j < before.len() {
                                            assert(direct@[j] == before[j]);
                                        }
                                    }
                                }
                            }
                        },
                        _ => {
                            proof {
                                if hyp {
                                    assert(is_node_pair(s0.queue_models()[i as int]));
                                    lemma_of_model(*ty);
                                }
                                if one && i != p0 {
                                    assert(is_node_pair(q0[i as int]));
                                    lemma_of_model(*ty);
                                }
                            }
                            let ty = ty.deep_clone();
                            if ty.is_incomplete() {
                                incomplete.push((*node, ty));
                            } else {
                                complete.push((*node, ty));
                            }
                        },
                    }
                },
                other => {
                    proof {
                        if hyp {
                            assert(is_node_pair(s0.queue_models()[i as int]));
                        }
                        if one {
                            if i != p0 {
                                assert(is_node_pair(q0[i as int]));
                            }
                        }
                    }
                    let c = other.deep_clone();
                    let ghost before = rest@;
                    rest.push(c);
                    proof {
                        assert(rest@.drop_last() =~= before);
                        lemma_constraint_models(rest@);
                        lemma_constraint_models(before);
                        assert(constraint_models(rest@) =~= constraint_models(before).push(c.model()));
                    }
                },
            }
            i = i + 1;
        }
        proof {
            assert(queue@.subrange(0, queue@.len() as int) =~= queue@);
        }
        let ghost s1 = *self;
        self.queue = rest;
        proof {
            Solver::lemma_queue_frame(s0, *self);
        }
        let ghost s2 = *self;
        let ghost direct_entries = direct@;
        let ghost incomplete_entries = incomplete@;
        let ghost complete_entries = complete@;
        self.solve_tys(direct);
        let ghost s3 = *self;
        self.solve_tys(incomplete);
        let ghost s35 = *self;
        self.solve_tys(complete);
        proof {
            Solver::lemma_advances_trans(s0, s2, *self);
        }
        let ghost s4 = *self;
        let p = self.progress.take();
        proof {
            if s0.untyped() && hyp && !s0.exhausted && s0.budget >= 3 * q0.len() {
                assert(direct_entries.len() == q0.len());
                assert(incomplete_entries.len() == 0 && complete_entries.len() == 0);
                assert(all_of_nodes(direct_entries)) by {
                    assert forall|k: int| 0 <= k < direct_entries.len() implies (#[trigger] direct_entries[k]).1 is Of by {}
                }
                assert(s2.untyped() && s2.budget == s0.budget && !s2.exhausted);
            }
            if of_kind(q0, 0).len() == 0 {
                assert(direct_entries.len() == 0 && incomplete_entries.len() == 0 && complete_entries.len() == 0);
            }
        }
        proof {
            if one && !self.exhausted {
                let n = q0[p0]->Ty_0;
                let t = q0[p0]->Ty_1;
                assert(s2.untyped());
                assert(!s35.exhausted);
                assert(all_of_nodes(direct_entries));
                assert(s3.untyped());
                if incomplete_entries.len() == 1 {
                    assert(SpecConstraint::Ty(incomplete_entries[0].0, incomplete_entries[0].1@) == q0[p0]);
                    assert(s35.typed_as(n.0, t));
                    assert(complete_entries.len() == 0);
                    assert(s4 == s35);
                } else {
                    assert(s35 == s3);
                    assert(complete_entries.len() == 1);
                    assert(SpecConstraint::Ty(complete_entries[0].0, complete_entries[0].1@) == q0[p0]);
                    assert(s4.typed_as(n.0, t));
                }
                Solver::lemma_typed_as_frame(s4, *self, n.0, t);
                Solver::lemma_advances_trans(s3, s35, s4);
                Solver::lemma_queue_frame(s4, *self);
                Solver::lemma_advances_trans(s3, s4, *self);
                assert forall|i: int| 0 <= i < q0.len() && i != p0 implies self.joins_constraint(#[trigger] q0[i]) by {
                    let j = if i < p0 {
                        i
                    } else {
                        i - 1
                    };
                    assert(0 <= j < direct_entries.len());
                    assert(SpecConstraint::Ty(direct_entries[j].0, direct_entries[j].1@) == q0[i]);
                    assert(s3.joins(direct_entries[j]));
                    Solver::lemma_joins_coarsen(s3, *self, direct_entries[j]);
                }
                assert forall|p: int| #[trigger] pairs_and_type(q0, p) implies p == p0 by {
                    lemma_pairs_and_type_unique(q0, p, p0);
                }
            }
            Solver::lemma_queue_frame(s4, *self);
            Solver::lemma_advances_trans(s0, s4, *self);
            if s0.untyped() && !self.exhausted && hyp {
                assert(all_of_nodes(direct_entries));
                assert forall|k: int| 0 <= k < s0.queue_models().len() implies self.joins_constraint(
                    #[trigger] s0.queue_models()[k],
                ) by {
                    assert(s3.joins(direct_entries[k]));
                    Solver::lemma_joins_coarsen(s3, *self, direct_entries[k]);
                }
            }
        }
        p
    }
}

} // verus!

verus! {

/// An instance of a trait: its node, the nodes of its parameters, and its
/// constraints.
#[derive(Debug)]
pub struct Instance {
    pub id: NodeId,
    pub parameters: Vec<NodeId>,
    pub constraints: Vec<Constraint>,
}

/// A constant of the program and its constraints.
#[derive(Debug)]
pub struct Constant {
    pub id: NodeId,
    pub constraints: Vec<Constraint>,
}

/// A trait and the constants that are its instances.
#[derive(Debug)]
pub struct Trait {
    pub instances: Vec<Constant>,
}

/// One call that the checker made on its provider, with its arguments and,
/// for a copy, the node returned.
pub enum ProviderCall {
    CopyNode(NodeId, NodeId),
    GetTraitInstances(NodeId),
    FlagResolved(NodeId, SpecBound, NodeId),
    FlagUnresolved(NodeId, SpecBound),
}

/// Of the states `trials` that the trials of a bound's instances ended in,
/// only the one at `j` is free of error.
pub closed spec fn only_fit(trials: Seq<Solver>, j: int) -> bool {
    &&& 0 <= j < trials.len()
    &&& !trials[j].error
    &&& forall|k: int| 0 <= k < trials.len() && k != j ==> #[trigger] trials[k].error
}

/// `later` is `earlier` with more calls after it.
pub open spec fn calls_extend(earlier: Seq<ProviderCall>, later: Seq<ProviderCall>) -> bool {
    &&& earlier.len() <= later.len()
    &&& forall|i: int| 0 <= i < earlier.len() ==> #[trigger] later[i] == earlier[i]
}

pub proof fn lemma_calls_extend_trans(a: Seq<ProviderCall>, b: Seq<ProviderCall>, c: Seq<ProviderCall>)
    requires
        calls_extend(a, b),
        calls_extend(b, c),
    ensures
        calls_extend(a, c),
{
    assert forall|i: int| 0 <= i < a.len() implies #[trigger] c[i] == a[i] by {
        assert(c[i] == b[i]);
    }
}

/// What the checker asks of the program it checks: fresh nodes, the
/// instances of traits, and where to report how each bound was resolved.
pub trait TypeProvider {
    /// A fresh node that stands for a copy of `node`.
    fn copy_node(&mut self, node: NodeId) -> NodeId;

    /// The instances of the trait `tr`: each instance's node, with the node
    /// that each of the trait's parameters stands for in that instance.
    fn get_trait_instances(&mut self, tr: NodeId) -> Vec<(NodeId, Vec<(NodeId, NodeId)>)>;

    /// Reports that exactly one instance, `instance`, satisfies `bound`,
    /// checked at the temporary node `node`.
    fn flag_resolved(&mut self, node: NodeId, bound: Bound, instance: NodeId);

    /// Reports that no instance, or more than one, satisfies `bound`,
    /// checked at the temporary node `node`.
    fn flag_unresolved(&mut self, node: NodeId, bound: Bound);
}

/// A provider together with the record of the calls that the checker made
/// on it, in order.
pub struct Recorded<P: TypeProvider> {
    provider: P,
    calls: Ghost<Seq<ProviderCall>>,
}

impl<P: TypeProvider> Recorded<P> {
    /// The calls made so far, in order.
    pub closed spec fn calls(self) -> Seq<ProviderCall> {
        self.calls@
    }

    /// `provider`, with no calls made yet.
    pub fn new(provider: P) -> (r: Self)
        ensures
            r.calls() == Seq::<ProviderCall>::empty(),
    {
        Recorded { provider, calls: Ghost(Seq::empty()) }
    }

    /// Asks the provider for a copy of `node`.
    pub fn copy_node(&mut self, node: NodeId) -> (copy: NodeId)
        ensures
            final(self).calls() == old(self).calls().push(ProviderCall::CopyNode(node, copy)),
    {
        let copy = self.provider.copy_node(node);
        self.calls = Ghost(self.calls@.push(ProviderCall::CopyNode(node, copy)));
        copy
    }

    /// Asks the provider for the instances of `tr`.
    pub fn get_trait_instances(&mut self, tr: NodeId) -> (instances: Vec<(NodeId, Vec<(NodeId, NodeId)>)>)
        ensures
            final(self).calls() == old(self).calls().push(ProviderCall::GetTraitInstances(tr)),
    {
        let instances = self.provider.get_trait_instances(tr);
        self.calls = Ghost(self.calls@.push(ProviderCall::GetTraitInstances(tr)));
        instances
    }

    /// Reports to the provider that `instance` resolves `bound`.
    pub fn flag_resolved(&mut self, node: NodeId, bound: Bound, instance: NodeId)
        ensures
            final(self).calls() == old(self).calls().push(ProviderCall::FlagResolved(node, bound.model(), instance)),
    {
        let ghost b = bound.model();
        self.provider.flag_resolved(node, bound, instance);
        self.calls = Ghost(self.calls@.push(ProviderCall::FlagResolved(node, b, instance)));
    }

    /// Reports to the provider that `bound` is unresolved.
    pub fn flag_unresolved(&mut self, node: NodeId, bound: Bound)
        ensures
            final(self).calls() == old(self).calls().push(ProviderCall::FlagUnresolved(node, bound.model())),
    {
        let ghost b = bound.model();
        self.provider.flag_unresolved(node, bound);
        self.calls = Ghost(self.calls@.push(ProviderCall::FlagUnresolved(node, b)));
    }
}

impl Solver {
    /// Replaces every reference to a node's type inside `ty` by the type of
    /// the node's group, resolved in turn, when the group has one, and leaves
    /// the others as they are. Nothing of the state changes; lookups go
    /// through `unify`, a table with the state's groups. Each step spends one
    /// unit of `fuel`; a type that refers to its own group is resolved until
    /// the fuel runs out or the nesting reaches `MAX_DEPTH`.
    fn try_apply_ty(&self, ty: Ty, unify: &mut UnionFind, fuel: &mut u64, depth: u64) -> (r: Ty)
        requires
            self.inv(),
            uf_wf(old(unify).entries()),
            same_partition(self.entries(), old(unify).entries()),
        ensures
            uf_wf(final(unify).entries()),
            same_partition(self.entries(), final(unify).entries()),
            *final(fuel) <= *old(fuel),
            !ty@.has_of() ==> r@ == ty@,
            *old(fuel) > 0 && depth < MAX_DEPTH ==> self.resolves(ty, r),
        decreases *old(fuel), 0nat,
    {
        if *fuel == 0 || depth >= MAX_DEPTH {
            return ty;
        }
        *fuel = *fuel - 1;
        match ty {
            Ty::Of(node) => match self.try_key_for_node(node) {
                Some(key) => {
                    let ghost e0 = unify.entries();
                    let representative_key = unify.find(key);
                    proof {
                        lemma_same_partition_trans(self.entries(), e0, unify.entries());
                        assert(representative_key as int == self.class_of(node.0));
                    }
                    match self.groups.get(&representative_key) {
                        Some(group_ty) => {
                            let group_ty = group_ty.deep_clone();
                            self.try_apply_ty(group_ty, unify, fuel, depth + 1)
                        },
                        None => Ty::Of(node),
                    }
                },
                None => Ty::Of(node),
            },
            Ty::Named { name, parameters } => {
                let parameters = self.try_apply_params(parameters, unify, fuel, depth + 1);
                Ty::Named { name, parameters }
            },
            Ty::Function { inputs, output } => {
                let inputs = self.try_apply_tys(inputs, unify, fuel, depth + 1);
                if *fuel == 0 {
                    Ty::Function { inputs, output }
                } else {
                    *fuel = *fuel - 1;
                    let output = self.try_apply_ty(*output, unify, fuel, depth + 1);
                    Ty::Function { inputs, output: Box::new(output) }
                }
            },
            Ty::Tuple { elements } => {
                let elements = self.try_apply_tys(elements, unify, fuel, depth + 1);
                Ty::Tuple { elements }
            },
            other => other,
        }
    }

    /// `try_apply_ty` on each type, in order.
    #[verifier::loop_isolation(false)]
    fn try_apply_tys(&self, tys: Vec<Ty>, unify: &mut UnionFind, fuel: &mut u64, depth: u64) -> (r: Vec<Ty>)
        requires
            self.inv(),
            uf_wf(old(unify).entries()),
            same_partition(self.entries(), old(unify).entries()),
        ensures
            uf_wf(final(unify).entries()),
            same_partition(self.entries(), final(unify).entries()),
            *final(fuel) <= *old(fuel),
            r@.len() == tys@.len(),
            !tys_have_of(ty_models(tys@)) ==> ty_models(r@) == ty_models(tys@),
            *final(fuel) > 0 && depth < MAX_DEPTH ==> forall|i: int|
                0 <= i < tys@.len() ==> self.resolves(tys@[i], #[trigger] r@[i]),
        decreases *old(fuel), 0nat,
    {
        let ghost closed = !tys_have_of(ty_models(tys@));
        proof {
            lemma_ty_models(tys@);
            lemma_tys_have_of(ty_models(tys@));
        }
        let mut out: Vec<Ty> = Vec::new();
        let mut i: usize = 0;
        while i < tys.len()
            invariant
                i <= tys@.len(),
                out@.len() == i,
                uf_wf(unify.entries()),
                same_partition(self.entries(), unify.entries()),
                *fuel <= *old(fuel),
                closed ==> forall|j: int| 0 <= j < i ==> (#[trigger] out@[j])@ == tys@[j]@,
                *fuel > 0 && depth < MAX_DEPTH ==> forall|j: int|
                    0 <= j < i ==> self.resolves(tys@[j], #[trigger] out@[j]),
            decreases tys@.len() - i,
        {
            proof {
                if closed {
                    assert(ty_models(tys@)[i as int] == tys@[i as int]@);
                }
            }
            let t = tys[i].deep_clone();
            proof {
                if tys@[i as int] is Of {
                    assert(t@ == tys@[i as int]@);
                    lemma_of_model(t);
                }
            }
            let ghost before = out@;
            if *fuel == 0 {
                out.push(t);
            } else {
                *fuel = *fuel - 1;
                let applied = self.try_apply_ty(t, unify, fuel, depth);
                out.push(applied);
                proof {
                    if *fuel > 0 && depth < MAX_DEPTH {
                        assert(self.resolves(tys@[i as int], applied));
                    }
                }
            }
            proof {
                if *fuel > 0 && depth < MAX_DEPTH {
                    assert forall|j: int| 0 <= j < i + 1 implies self.resolves(tys@[j], #[trigger] out@[j]) by {
                        if j < i {
                            assert(out@[j] == before[j]);
                        }
                    }
                }
            }
            i = i + 1;
        }
        proof {
            if closed {
                lemma_ty_models_eq(out@, tys@);
            }
        }
        out
    }

    /// `try_apply_ty` on the type of each entry, in order.
    #[verifier::loop_isolation(false)]
    fn try_apply_params(&self, params: Vec<(NodeId, Ty)>, unify: &mut UnionFind, fuel: &mut u64, depth: u64) -> (r: Vec<(NodeId, Ty)>)
        requires
            self.inv(),
            uf_wf(old(unify).entries()),
            same_partition(self.entries(), old(unify).entries()),
        ensures
            uf_wf(final(unify).entries()),
            same_partition(self.entries(), final(unify).entries()),
            *final(fuel) <= *old(fuel),
            r@.len() == params@.len(),
            forall|i: int| 0 <= i < r@.len() ==> (#[trigger] r@[i]).0 == params@[i].0,
            !params_have_of(param_models(params@)) ==> param_models(r@) == param_models(params@),
            *final(fuel) > 0 && depth < MAX_DEPTH ==> forall|i: int|
                0 <= i < params@.len() ==> self.resolves(params@[i].1, (#[trigger] r@[i]).1),
        decreases *old(fuel), 0nat,
    {
        let ghost closed = !params_have_of(param_models(params@));
        proof {
            lemma_param_models(params@);
            lemma_params_have_of(param_models(params@));
        }
        let mut out: Vec<(NodeId, Ty)> = Vec::new();
        let mut i: usize = 0;
        while i < params.len()
            invariant
                i <= params@.len(),
                out@.len() == i,
                forall|j: int| 0 <= j < i ==> (#[trigger] out@[j]).0 == params@[j].0,
                uf_wf(unify.entries()),
                same_partition(self.entries(), unify.entries()),
                *fuel <= *old(fuel),
                closed ==> forall|j: int| 0 <= j < i ==> (#[trigger] out@[j]).1@ == params@[j].1@,
                *fuel > 0 && depth < MAX_DEPTH ==> forall|j: int|
                    0 <= j < i ==> self.resolves(params@[j].1, (#[trigger] out@[j]).1),
            decreases params@.len() - i,
        {
            proof {
                if closed {
                    assert(param_models(params@)[i as int] == (params@[i as int].0, params@[i as int].1@));
                }
            }
            let t = params[i].1.deep_clone();
            proof {
                if params@[i as int].1 is Of {
                    assert(t@ == params@[i as int].1@);
                    lemma_of_model(t);
                }
            }
            let ghost before = out@;
            if *fuel == 0 {
                out.push((params[i].0, t));
            } else {
                *fuel = *fuel - 1;
                let applied = self.try_apply_ty(t, unify, fuel, depth);
                out.push((params[i].0, applied));
                proof {
                    if *fuel > 0 && depth < MAX_DEPTH {
                        assert(self.resolves(params@[i as int].1, applied));
                    }
                }
            }
            proof {
                if *fuel > 0 && depth < MAX_DEPTH {
                    assert forall|j: int| 0 <= j < i + 1 implies self.resolves(params@[j].1, (#[trigger] out@[j]).1) by {
                        if j < i {
                            assert(out@[j] == before[j]);
                        }
                    }
                }
            }
            i = i + 1;
        }
        proof {
            if closed {
                lemma_param_models_eq(out@, params@);
            }
        }
        out
    }
}

} // verus!

verus! {

impl Solver {
    /// Adding reported nodes, or spending budget, is an advance.
    proof fn lemma_nodes_frame(a: Solver, b: Solver)
        requires
            a.inv(),
            b.unify == a.unify,
            b.keys == a.keys,
            b.groups == a.groups,
            b.queue == a.queue,
            b.budget <= a.budget,
            a.exhausted ==> b.exhausted,
            b.exhausted ==> b.budget == 0 || b.depth_limit_hit@,
            a.nodes@.subset_of(b.nodes@),
        ensures
            a.advances_to(b),
    {
        assert forall|x: u32, y: u32|
            a.key_map().contains_key(x) && a.key_map().contains_key(y) && a.class_of(x) == a.class_of(y)
            implies #[trigger] b.class_of(x) == #[trigger] b.class_of(y) by {
        }
    }

    /// Replaces each type parameter inside `ty` by its substitution, and a
    /// parameter without one by a fresh copy of it, which becomes its
    /// substitution and a reported node. The parts of what a substitution
    /// brings in have their own parameters replaced in turn. Called through
    /// `substitute_step`, which spends the budget.
    fn substitute_ty<P: TypeProvider>(
        &mut self,
        ty: Ty,
        substitutions: &mut Substitutions,
        provider: &mut Recorded<P>,
        depth: u64,
    ) -> (r: Ty)
        requires
            old(self).inv(),
            old(substitutions).wf(),
        ensures
            calls_extend(old(provider).calls(), final(provider).calls()),
            old(self).advances_to(*final(self)),
            final(substitutions).wf(),
            final(self).unify == old(self).unify,
            final(self).keys == old(self).keys,
            final(self).groups == old(self).groups,
            final(self).queue == old(self).queue,
            final(self).progress == old(self).progress,
            covered(ty@, old(substitutions).model()) && substitutions_param_free(old(substitutions).model()) ==> {
                &&& final(substitutions).model() == old(substitutions).model()
                &&& !final(self).exhausted ==> r@ == replace_params(ty@, old(substitutions).model())
            },
        decreases old(self).budget, 2nat,
    {
        let ghost calls0 = provider.calls();
        let ghost s1 = *self;
        let ghost sub0 = substitutions.model();
        let ghost h = covered(ty@, sub0) && substitutions_param_free(sub0);
        proof {
            Solver::lemma_coarsens_refl(s1);
        }
        match ty {
            Ty::Parameter(parameter) => {
                let replacement = match substitutions.get(parameter) {
                    Some(t) => Some(t.deep_clone()),
                    None => None,
                };
                proof {
                    if h {
                        lemma_lookup(sub0, parameter);
                        let i = choose|i: int| 0 <= i < sub0.len() && (#[trigger] sub0[i]).0 == parameter;
                        assert(lookup(sub0, parameter) == Some(sub0[i].1));
                        assert(!sub0[i].1.has_param());
                        lemma_replace_param_free(sub0[i].1, sub0);
                    }
                }
                match replacement {
                    Some(t) => self.substitute_children(t, substitutions, provider, depth),
                    None => {
                        let copy = provider.copy_node(parameter);
                        self.nodes.insert(copy.0);
                        substitutions.insert(parameter, Ty::Of(copy));
                        proof {
                            Solver::lemma_nodes_frame(s1, *self);
                        }
                        Ty::Of(copy)
                    },
                }
            },
            other => self.substitute_children(other, substitutions, provider, depth),
        }
    }

    /// `substitute_ty` on each part of `ty`, leaving `ty` itself as it is.
    #[verifier::loop_isolation(false)]
    fn substitute_children<P: TypeProvider>(
        &mut self,
        ty: Ty,
        substitutions: &mut Substitutions,
        provider: &mut Recorded<P>,
        depth: u64,
    ) -> (r: Ty)
        requires
            old(self).inv(),
            old(substitutions).wf(),
        ensures
            calls_extend(old(provider).calls(), final(provider).calls()),
            old(self).advances_to(*final(self)),
            final(substitutions).wf(),
            final(self).unify == old(self).unify,
            final(self).keys == old(self).keys,
            final(self).groups == old(self).groups,
            final(self).queue == old(self).queue,
            final(self).progress == old(self).progress,
            !(ty@ is Parameter) && covered(ty@, old(substitutions).model()) && substitutions_param_free(
                old(substitutions).model(),
            ) ==> {
                &&& final(substitutions).model() == old(substitutions).model()
                &&& !final(self).exhausted ==> r@ == replace_params(ty@, old(substitutions).model())
            },
        decreases old(self).budget, 1nat,
    {
        let ghost calls0 = provider.calls();
        let ghost s0 = *self;
        let ghost sub0 = substitutions.model();
        let ghost h = !(ty@ is Parameter) && covered(ty@, sub0) && substitutions_param_free(sub0);
        proof {
            Solver::lemma_coarsens_refl(s0);
        }
        match ty {
            Ty::Named { name, parameters } => {
                let ghost m = param_models(parameters@);
                proof {
                    lemma_param_models(parameters@);
                    lemma_params_covered(m, sub0);
                    assert(m.take(0) =~= Seq::<(NodeId, SpecTy)>::empty());
                }
                let mut out: Vec<(NodeId, Ty)> = Vec::new();
                let mut i: usize = 0;
                while i < parameters.len()
                    invariant
                        calls_extend(calls0, provider.calls()),
                        i <= parameters@.len(),
                        s0.advances_to(*self),
                        substitutions.wf(),
                        self.unify == s0.unify,
                        self.keys == s0.keys,
                        self.groups == s0.groups,
                        self.queue == s0.queue,
                        self.progress == s0.progress,
                        self.budget <= s0.budget,
                        m == param_models(parameters@),
                        m.len() == parameters@.len(),
                        forall|j: int| 0 <= j < parameters@.len() ==> #[trigger] m[j] == (parameters@[j].0, parameters@[j].1@),
                        h ==> forall|j: int| 0 <= j < m.len() ==> covered(#[trigger] m[j].1, sub0),
                        h ==> substitutions.model() == sub0,
                        h && !self.exhausted ==> param_models(out@) == replace_in_params(m.take(i as int), sub0),
                    decreases parameters@.len() - i,
                {
                    let t = parameters[i].1.deep_clone();
                    let ghost before = out@;
                    proof {
                        if h {
                            assert(m[i as int] == (parameters@[i as int].0, parameters@[i as int].1@));
                            assert(covered(m[i as int].1, sub0));
                            assert(covered(t@, substitutions.model()));
                        }
                    }
                    let t = self.substitute_step(t, substitutions, provider, depth);
                    out.push((parameters[i].0, t));
                    proof {
                        if h && !self.exhausted {
                            assert(covered(m[i as int].1, sub0));
                            assert(out@.drop_last() =~= before);
                            assert(m.take(i + 1).drop_last() =~= m.take(i as int));
                            assert(m.take(i + 1).last() == m[i as int]);
                        }
                    }
                    i = i + 1;
                }
                proof {
                    assert(m.take(m.len() as int) =~= m);
                }
                Ty::Named { name, parameters: out }
            },
            Ty::Function { inputs, output } => {
                let ghost m = ty_models(inputs@);
                proof {
                    lemma_ty_models(inputs@);
                    lemma_tys_covered(m, sub0);
                    assert(m.take(0) =~= Seq::<SpecTy>::empty());
                }
                let mut out: Vec<Ty> = Vec::new();
                let mut i: usize = 0;
                while i < inputs.len()
                    invariant
                        calls_extend(calls0, provider.calls()),
                        i <= inputs@.len(),
                        s0.advances_to(*self),
                        substitutions.wf(),
                        self.unify == s0.unify,
                        self.keys == s0.keys,
                        self.groups == s0.groups,
                        self.queue == s0.queue,
                        self.progress == s0.progress,
                        self.budget <= s0.budget,
                        m == ty_models(inputs@),
                        m.len() == inputs@.len(),
                        forall|j: int| 0 <= j < inputs@.len() ==> #[trigger] m[j] == inputs@[j]@,
                        h ==> forall|j: int| 0 <= j < m.len() ==> covered(#[trigger] m[j], sub0),
                        h ==> substitutions.model() == sub0,
                        h && !self.exhausted ==> ty_models(out@) == replace_in_tys(m.take(i as int), sub0),
                    decreases inputs@.len() - i,
                {
                    let t = inputs[i].deep_clone();
                    let ghost before = out@;
                    proof {
                        if h {
                            assert(m[i as int] == inputs@[i as int]@);
                            assert(covered(m[i as int], sub0));
                            assert(covered(t@, substitutions.model()));
                        }
                    }
                    let t = self.substitute_step(t, substitutions, provider, depth);
                    out.push(t);
                    proof {
                        if h && !self.exhausted {
                            assert(covered(m[i as int], sub0));
                            assert(out@.drop_last() =~= before);
                            assert(m.take(i + 1).drop_last() =~= m.take(i as int));
                            assert(m.take(i + 1).last() == m[i as int]);
                        }
                    }
                    i = i + 1;
                }
                proof {
                    assert(m.take(m.len() as int) =~= m);
                }
                let output = self.substitute_step(*output, substitutions, provider, depth);
                Ty::Function { inputs: out, output: Box::new(output) }
            },
            Ty::Tuple { elements } => {
                let ghost m = ty_models(elements@);
                proof {
                    lemma_ty_models(elements@);
                    lemma_tys_covered(m, sub0);
                    assert(m.take(0) =~= Seq::<SpecTy>::empty());
                }
                let mut out: Vec<Ty> = Vec::new();
                let mut i: usize = 0;
                while i < elements.len()
                    invariant
                        calls_extend(calls0, provider.calls()),
                        i <= elements@.len(),
                        s0.advances_to(*self),
                        substitutions.wf(),
                        self.unify == s0.unify,
                        self.keys == s0.keys,
                        self.groups == s0.groups,
                        self.queue == s0.queue,
                        self.progress == s0.progress,
                        self.budget <= s0.budget,
                        m == ty_models(elements@),
                        m.len() == elements@.len(),
                        forall|j: int| 0 <= j < elements@.len() ==> #[trigger] m[j] == elements@[j]@,
                        h ==> forall|j: int| 0 <= j < m.len() ==> covered(#[trigger] m[j], sub0),
                        h ==> substitutions.model() == sub0,
                        h && !self.exhausted ==> ty_models(out@) == replace_in_tys(m.take(i as int), sub0),
                    decreases elements@.len() - i,
                {
                    let t = elements[i].deep_clone();
                    let ghost before = out@;
                    proof {
                        if h {
                            assert(m[i as int] == elements@[i as int]@);
                            assert(covered(m[i as int], sub0));
                            assert(covered(t@, substitutions.model()));
                        }
                    }
                    let t = self.substitute_step(t, substitutions, provider, depth);
                    out.push(t);
                    proof {
                        if h && !self.exhausted {
                            assert(covered(m[i as int], sub0));
                            assert(out@.drop_last() =~= before);
                            assert(m.take(i + 1).drop_last() =~= m.take(i as int));
                            assert(m.take(i + 1).last() == m[i as int]);
                        }
                    }
                    i = i + 1;
                }
                proof {
                    assert(m.take(m.len() as int) =~= m);
                }
                Ty::Tuple { elements: out }
            },
            other => other,
        }
    }

    /// One step of budget, then `substitute_ty`; with no budget left, `ty`
    /// as it is.
    fn substitute_step<P: TypeProvider>(
        &mut self,
        ty: Ty,
        substitutions: &mut Substitutions,
        provider: &mut Recorded<P>,
        depth: u64,
    ) -> (r: Ty)
        requires
            old(self).inv(),
            old(substitutions).wf(),
        ensures
            calls_extend(old(provider).calls(), final(provider).calls()),
            old(self).advances_to(*final(self)),
            final(substitutions).wf(),
            final(self).unify == old(self).unify,
            final(self).keys == old(self).keys,
            final(self).groups == old(self).groups,
            final(self).queue == old(self).queue,
            final(self).progress == old(self).progress,
            covered(ty@, old(substitutions).model()) && substitutions_param_free(old(substitutions).model()) ==> {
                &&& final(substitutions).model() == old(substitutions).model()
                &&& !final(self).exhausted ==> r@ == replace_params(ty@, old(substitutions).model())
            },
        decreases old(self).budget, 0nat,
    {
        let ghost calls0 = provider.calls();
        let ghost s0 = *self;
        if !self.spend(depth) {
            proof {
                Solver::lemma_steps_advance(s0, *self);
            }
            return ty;
        }
        let ghost s1 = *self;
        let r = self.substitute_ty(ty, substitutions, provider, depth + 1);
        proof {
            Solver::lemma_steps_advance(s0, s1);
            Solver::lemma_advances_trans(s0, s1, *self);
        }
        r
    }
}

} // verus!

verus! {

/// Constraints of the same kinds, in the same order: types of the same
/// nodes, and bounds on the same nodes and traits.
pub open spec fn same_shapes(a: Seq<SpecConstraint>, b: Seq<SpecConstraint>) -> bool {
    &&& a.len() == b.len()
    &&& forall|i: int|
        0 <= i < a.len() ==> match (#[trigger] a[i], b[i]) {
            (SpecConstraint::Ty(n, _), SpecConstraint::Ty(m, _)) => n == m,
            (SpecConstraint::Bound(x), SpecConstraint::Bound(y)) => x.node == y.node && x.tr == y.tr,
            _ => false,
        }
}

/// Every constraint gives a node a type that refers to no other node's type
/// and whose parameters all have substitutions, and no substitution holds a
/// parameter.
pub open spec fn closed_instantiation(cs: Seq<SpecConstraint>, subs: Seq<(NodeId, SpecTy)>) -> bool {
    &&& substitutions_param_free(subs)
    &&& forall|i: int|
        0 <= i < cs.len() ==> (#[trigger] cs[i]) is Ty && !cs[i]->Ty_1.has_of() && covered(cs[i]->Ty_1, subs)
}

/// A queue that holds one instantiation, whose constraints are closed (see
/// `closed_instantiation`).
pub open spec fn single_closed_instantiation(q: Seq<SpecConstraint>) -> bool {
    &&& q.len() == 1
    &&& q[0] is Instantiation
    &&& closed_instantiation(q[0]->constraints, q[0]->substitutions)
}

/// A queue that holds one instantiation, whose constraints are closed
/// with their bounds (see `closed_with_bounds`).
pub open spec fn single_instantiation_with_bounds(q: Seq<SpecConstraint>) -> bool {
    &&& q.len() == 1
    &&& q[0] is Instantiation
    &&& closed_with_bounds(q[0]->constraints, q[0]->substitutions)
}

/// Closed type constraints are closed with their bounds.
pub proof fn lemma_closed_with_bounds(cs: Seq<SpecConstraint>, subs: Seq<(NodeId, SpecTy)>)
    requires
        closed_instantiation(cs, subs),
    ensures
        closed_with_bounds(cs, subs),
{
    assert forall|j: int| 0 <= j < cs.len() implies match #[trigger] cs[j] {
        SpecConstraint::Ty(_, t) => !t.has_of() && covered(t, subs),
        SpecConstraint::Bound(b) => forall|k: int|
            0 <= k < b.substitutions.len() ==> !(#[trigger] b.substitutions[k]).1.has_of() && covered(
                b.substitutions[k].1,
                subs,
            ),
        _ => false,
    } by {
        assert(cs[j] is Ty);
    }
}

/// A queue that holds one instantiation of one type constraint, whose
/// type's parameters all have substitutions and whose substitutions refer to
/// no node's type and hold no parameters.
pub open spec fn single_type_instantiation(q: Seq<SpecConstraint>) -> bool {
    &&& single_closed_instantiation(q)
    &&& q[0]->constraints.len() == 1
    &&& substitutions_of_free(q[0]->substitutions)
}

/// The node of the one constraint of such an instantiation.
pub open spec fn instantiated_node(q: Seq<SpecConstraint>) -> NodeId {
    q[0]->constraints[0]->Ty_0
}

/// The type that such an instantiation gives its node: the constraint's type
/// with its parameters replaced.
pub open spec fn instantiated_type(q: Seq<SpecConstraint>) -> SpecTy {
    replace_params(q[0]->constraints[0]->Ty_1, q[0]->substitutions)
}

/// What such an instantiation puts in the queue: one type constraint, with
/// a type that refers to no node's type.
pub proof fn lemma_single_type_instantiation(q: Seq<SpecConstraint>)
    requires
        single_type_instantiation(q),
    ensures
        instantiated(q[0]->constraints, q[0]->substitutions) == seq![
            SpecConstraint::Ty(instantiated_node(q), instantiated_type(q)),
        ],
        !instantiated_type(q).has_of(),
        pairs_and_type(seq![SpecConstraint::Ty(instantiated_node(q), instantiated_type(q))], 0),
        of_kind(q, 0).len() == 0,
        of_kind(q, 1).len() == 1,
{
    let cs = q[0]->constraints;
    assert(cs[0] is Ty);
    lemma_replace_of_free(cs[0]->Ty_1, q[0]->substitutions);
    assert(instantiated(cs, q[0]->substitutions) =~= seq![
        SpecConstraint::Ty(instantiated_node(q), instantiated_type(q)),
    ]);
    assert(q.drop_last() =~= Seq::<SpecConstraint>::empty());
    assert(q.last() == q[0]);
    assert(kind_of(q[0]) == 1);
    assert(of_kind(q.drop_last(), 0) == Seq::<SpecConstraint>::empty());
    assert(of_kind(q.drop_last(), 1) == Seq::<SpecConstraint>::empty());
    assert(of_kind(q, 1) == seq![q[0]]);
}

/// The constraints with the parameters of their types replaced by `subs`:
/// the type of a type constraint, and each type of a bound's substitutions.
pub open spec fn instantiated(cs: Seq<SpecConstraint>, subs: Seq<(NodeId, SpecTy)>) -> Seq<SpecConstraint> {
    cs.map_values(
        |c: SpecConstraint|
            match c {
                SpecConstraint::Ty(n, t) => SpecConstraint::Ty(n, replace_params(t, subs)),
                SpecConstraint::Bound(b) => SpecConstraint::Bound(
                    SpecBound { node: b.node, tr: b.tr, substitutions: replace_in_params(b.substitutions, subs) },
                ),
                other => other,
            },
    )
}

/// Every constraint is a type constraint whose type refers to no other
/// node's type and whose parameters all have substitutions, or a bound whose
/// substitutions are all such types; and no substitution holds a parameter.
pub open spec fn closed_with_bounds(cs: Seq<SpecConstraint>, subs: Seq<(NodeId, SpecTy)>) -> bool {
    &&& substitutions_param_free(subs)
    &&& forall|i: int|
        0 <= i < cs.len() ==> match #[trigger] cs[i] {
            SpecConstraint::Ty(_, t) => !t.has_of() && covered(t, subs),
            SpecConstraint::Bound(b) => forall|k: int|
                0 <= k < b.substitutions.len() ==> !(#[trigger] b.substitutions[k]).1.has_of() && covered(
                    b.substitutions[k].1,
                    subs,
                ),
            _ => false,
        }
}

/// Instantiating a constraint keeps its kind and its node, and replaces the
/// parameters of every type it holds by `subs`: a type constraint gives the
/// same node its type with the parameters replaced, and a bound keeps its
/// node and trait and gives each of its parameters, in the same order, its
/// type with the parameters replaced.
pub proof fn lemma_instantiated_replaces(cs: Seq<SpecConstraint>, subs: Seq<(NodeId, SpecTy)>, j: int)
    requires
        0 <= j < cs.len(),
    ensures
        instantiated(cs, subs).len() == cs.len(),
        cs[j] matches SpecConstraint::Ty(n, t) ==> instantiated(cs, subs)[j] == SpecConstraint::Ty(n, replace_params(t, subs)),
        cs[j] matches SpecConstraint::Bound(b) ==> {
            &&& instantiated(cs, subs)[j] is Bound
            &&& instantiated(cs, subs)[j]->Bound_0.node == b.node
            &&& instantiated(cs, subs)[j]->Bound_0.tr == b.tr
            &&& instantiated(cs, subs)[j]->Bound_0.substitutions.len() == b.substitutions.len()
            &&& forall|k: int|
                0 <= k < b.substitutions.len() ==> (#[trigger] instantiated(cs, subs)[j]->Bound_0.substitutions[k]).0
                    == b.substitutions[k].0 && instantiated(cs, subs)[j]->Bound_0.substitutions[k].1 == replace_params(
                    b.substitutions[k].1,
                    subs,
                )
        },
{
    if cs[j] is Bound {
        lemma_params_covered(cs[j]->Bound_0.substitutions, subs);
    }
}

impl Solver {
    /// Resolves what `ty` refers to through `unify`, then replaces its type
    /// parameters (see `substitute_ty`).
    fn instantiate_ty<P: TypeProvider>(
        &mut self,
        ty: Ty,
        substitutions: &mut Substitutions,
        unify: &mut UnionFind,
        provider: &mut Recorded<P>,
    ) -> (r: Ty)
        requires
            old(self).inv(),
            old(substitutions).wf(),
            uf_wf(old(unify).entries()),
            same_partition(old(self).entries(), old(unify).entries()),
        ensures
            calls_extend(old(provider).calls(), final(provider).calls()),
            old(self).advances_to(*final(self)),
            final(substitutions).wf(),
            uf_wf(final(unify).entries()),
            same_partition(final(self).entries(), final(unify).entries()),
            final(self).unify == old(self).unify,
            final(self).keys == old(self).keys,
            final(self).groups == old(self).groups,
            final(self).queue == old(self).queue,
            final(self).progress == old(self).progress,
            !ty@.has_of() && covered(ty@, old(substitutions).model()) && substitutions_param_free(
                old(substitutions).model(),
            ) ==> {
                &&& final(substitutions).model() == old(substitutions).model()
                &&& !final(self).exhausted ==> r@ == replace_params(ty@, old(substitutions).model())
            },
    {
        let ghost calls0 = provider.calls();
        let ghost s0 = *self;
        let mut fuel = self.budget;
        let ty = self.try_apply_ty(ty, unify, &mut fuel, 0);
        self.budget = fuel;
        proof {
            Solver::lemma_group_types_frame(s0, *self);
        }
        let ghost s1 = *self;
        let r = self.substitute_step(ty, substitutions, provider, 0);
        proof {
            Solver::lemma_steps_advance(s0, s1);
            Solver::lemma_advances_trans(s0, s1, *self);
        }
        r
    }

    /// The constraints of an instantiation with every type instantiated:
    /// each type parameter replaced by its substitution, or by a fresh node
    /// that then serves for every later occurrence of the parameter.
    #[verifier::loop_isolation(false)]
    fn apply_instantiation<P: TypeProvider>(&mut self, instantiation: Instantiation, provider: &mut Recorded<P>) -> (r: Vec<Constraint>)
        requires
            old(self).inv(),
            instantiation.substitutions.wf(),
            constraints_wf(instantiation.constraints@),
            forall|j: int| 0 <= j < instantiation.constraints@.len() ==> !((#[trigger] instantiation.constraints@[j]) is Instantiation),
        ensures
            calls_extend(old(provider).calls(), final(provider).calls()),
            old(self).advances_to(*final(self)),
            final(self).queue == old(self).queue,
            final(self).progress == old(self).progress,
            final(self).unify == old(self).unify,
            final(self).keys == old(self).keys,
            final(self).groups == old(self).groups,
            constraints_wf(r@),
            same_shapes(constraint_models(r@), constraint_models(instantiation.constraints@)),
            closed_instantiation(constraint_models(instantiation.constraints@), instantiation.substitutions.model())
                && !final(self).exhausted ==> constraint_models(r@) == instantiated(
                constraint_models(instantiation.constraints@),
                instantiation.substitutions.model(),
            ),
            closed_with_bounds(constraint_models(instantiation.constraints@), instantiation.substitutions.model())
                && !final(self).exhausted ==> constraint_models(r@) == instantiated(
                constraint_models(instantiation.constraints@),
                instantiation.substitutions.model(),
            ),
    {
        let ghost calls0 = provider.calls();
        let ghost s0 = *self;
        proof {
            Solver::lemma_coarsens_refl(s0);
            lemma_constraint_models(instantiation.constraints@);
        }
        let ghost cs0 = constraint_models(instantiation.constraints@);
        let ghost sub0 = instantiation.substitutions.model();
        let ghost h = closed_instantiation(cs0, sub0);
        let ghost hb = closed_with_bounds(cs0, sub0);
        proof {
            if h {
                lemma_closed_with_bounds(cs0, sub0);
            }
        }
        let mut unify = self.unify.clone_table();
        let Instantiation { mut substitutions, constraints } = instantiation;
        let mut out: Vec<Constraint> = Vec::new();
        let mut i: usize = 0;
        while i < constraints.len()
            invariant
                calls_extend(calls0, provider.calls()),
                i <= constraints@.len(),
                out@.len() == i,
                s0.advances_to(*self),
                self.queue == s0.queue,
                self.progress == s0.progress,
                self.unify == s0.unify,
                substitutions.wf(),
                uf_wf(unify.entries()),
                same_partition(self.entries(), unify.entries()),
                forall|j: int| 0 <= j < i ==> (#[trigger] out@[j]).wf(),
                forall|j: int|
                    0 <= j < i ==> match (#[trigger] out@[j], constraints@[j]) {
                        (Constraint::Ty(n, _), Constraint::Ty(m, _)) => n == m,
                        (Constraint::Bound(x), Constraint::Bound(y)) => x.node == y.node && x.tr == y.tr,
                        _ => false,
                    },
                self.keys == s0.keys,
                self.groups == s0.groups,
                cs0 == constraint_models(constraints@),
                cs0.len() == constraints@.len(),
                forall|j: int| 0 <= j < constraints@.len() ==> #[trigger] cs0[j] == constraints@[j].model(),
                h == closed_instantiation(cs0, sub0),
                hb == closed_with_bounds(cs0, sub0),
                h ==> hb,
                hb ==> substitutions.model() == sub0,
                hb && !self.exhausted ==> forall|j: int|
                    0 <= j < i ==> (#[trigger] out@[j]).model() == instantiated(cs0, sub0)[j],
            decreases constraints@.len() - i,
        {
            match &constraints[i] {
                Constraint::Ty(node, ty) => {
                    let ty = ty.deep_clone();
                    proof {
                        if hb {
                            assert(cs0[i as int] == constraints@[i as int].model());
                            assert(!ty@.has_of() && covered(ty@, sub0));
                        }
                    }
                    let ty = self.instantiate_ty(ty, &mut substitutions, &mut unify, provider);
                    let ghost before = out@;
                    out.push(Constraint::Ty(*node, ty));
                    proof {
                        if hb && !self.exhausted {
                            assert forall|j: int| 0 <= j < i + 1 implies (#[trigger] out@[j]).model() == instantiated(cs0, sub0)[j] by {
                                if j < i {
                                    assert(out@[j] == before[j]);
                                }
                            }
                        }
                    }
                },
                Constraint::Instantiation(_) => {
                    proof {
                        assert(false);
                    }
                },
                Constraint::Bound(bound) => {
                    proof {
                        assert(cs0[i as int] == constraints@[i as int].model());
                    }
                    let entries = &bound.substitutions.0;
                    proof {
                        lemma_param_models(entries@);
                    }
                    let mut replaced: Vec<(NodeId, Ty)> = Vec::new();
                    let mut k: usize = 0;
                    while k < entries.len()
                        invariant
                            calls_extend(calls0, provider.calls()),
                            k <= entries@.len(),
                            replaced@.len() == k,
                            forall|m: int| 0 <= m < k ==> (#[trigger] replaced@[m]).0 == entries@[m].0,
                            s0.advances_to(*self),
                            self.queue == s0.queue,
                            self.progress == s0.progress,
                            self.unify == s0.unify,
                            self.keys == s0.keys,
                            self.groups == s0.groups,
                            substitutions.wf(),
                            uf_wf(unify.entries()),
                            same_partition(self.entries(), unify.entries()),
                            hb ==> substitutions.model() == sub0,
                            out@.len() == i,
                            hb && !self.exhausted ==> forall|j: int|
                                0 <= j < i ==> (#[trigger] out@[j]).model() == instantiated(cs0, sub0)[j],
                            hb && !self.exhausted ==> forall|m: int|
                                0 <= m < k ==> (#[trigger] replaced@[m]).1@ == replace_params(entries@[m].1@, sub0),
                        decreases entries@.len() - k,
                    {
                        let ty = entries[k].1.deep_clone();
                        proof {
                            if hb {
                                let b = cs0[i as int]->Bound_0;
                                assert(b.substitutions[k as int] == (entries@[k as int].0, entries@[k as int].1@));
                                assert(!ty@.has_of() && covered(ty@, sub0));
                            }
                        }
                        let ghost s1 = *self;
                        let ty = self.instantiate_ty(ty, &mut substitutions, &mut unify, provider);
                        let ghost before = replaced@;
                        replaced.push((entries[k].0, ty));
                        proof {
                            if hb && !self.exhausted {
                                assert(!s1.exhausted);
                                assert forall|m: int| 0 <= m < k + 1 implies (#[trigger] replaced@[m]).1@ == replace_params(entries@[m].1@, sub0) by {
                                    if m < k {
                                        assert(replaced@[m] == before[m]);
                                    }
                                }
                            }
                        }
                        k = k + 1;
                    }
                    proof {
                        lemma_param_models(replaced@);
                        lemma_param_models(entries@);
                        lemma_params_covered(param_models(entries@), sub0);
                        if hb && !self.exhausted {
                            assert(param_models(replaced@) =~= replace_in_params(param_models(entries@), sub0));
                        }
                        assert(bound.wf());
                        assert forall|a: int, b: int| 0 <= a < b < param_models(replaced@).len()
                            implies (#[trigger] param_models(replaced@)[a]).0.0 < (#[trigger] param_models(replaced@)[b]).0.0 by {
                            assert(param_models(entries@)[a].0 == entries@[a].0);
                            assert(param_models(entries@)[b].0 == entries@[b].0);
                        }
                    }
                    let ghost before = out@;
                    out.push(Constraint::Bound(Bound {
                        node: bound.node,
                        tr: bound.tr,
                        substitutions: Substitutions(replaced),
                    }));
                    proof {
                        if hb && !self.exhausted {
                            assert forall|j: int| 0 <= j < i + 1 implies (#[trigger] out@[j]).model() == instantiated(cs0, sub0)[j] by {
                                if j < i {
                                    assert(out@[j] == before[j]);
                                } else {
                                    assert(cs0[i as int] == SpecConstraint::Bound(bound.model()));
                                    assert(bound.model().substitutions == param_models(entries@));
                                    assert(instantiated(cs0, sub0)[i as int] == SpecConstraint::Bound(
                                        SpecBound { node: bound.node, tr: bound.tr, substitutions: replace_in_params(param_models(entries@), sub0) },
                                    ));
                                    assert(out@[i as int].model() == SpecConstraint::Bound(
                                        SpecBound { node: bound.node, tr: bound.tr, substitutions: param_models(replaced@) },
                                    ));
                                }
                            }
                        }
                    }
                },
            }
            i = i + 1;
        }
        proof {
            lemma_constraint_models(out@);
            assert(constraints_wf(out@));
            if hb && !self.exhausted {
                assert(constraint_models(out@) =~= instantiated(cs0, sub0));
            }
        }
        out
    }
}

} // verus!

verus! {

/// Taking out the constraints of one kind leaves none of that kind, and
/// the two parts together are as long as the whole.
pub proof fn lemma_kinds(cs: Seq<SpecConstraint>, kind: nat)
    ensures
        forall|i: int| 0 <= i < without_kind(cs, kind).len() ==> kind_of(#[trigger] without_kind(cs, kind)[i]) != kind,
        forall|i: int| 0 <= i < of_kind(cs, kind).len() ==> kind_of(#[trigger] of_kind(cs, kind)[i]) == kind,
        of_kind(cs, kind).len() + without_kind(cs, kind).len() == cs.len(),
        (forall|i: int| 0 <= i < cs.len() ==> kind_of(#[trigger] cs[i]) != kind) ==> without_kind(cs, kind) == cs,
        of_kind(cs, kind).len() == 0 ==> forall|i: int| 0 <= i < cs.len() ==> kind_of(#[trigger] cs[i]) != kind,
    decreases cs.len(),
{
    if cs.len() > 0 {
        lemma_kinds(cs.drop_last(), kind);
        if of_kind(cs, kind).len() == 0 {
            assert forall|i: int| 0 <= i < cs.len() implies kind_of(#[trigger] cs[i]) != kind by {
                if i < cs.len() - 1 {
                    assert(cs.drop_last()[i] == cs[i]);
                }
            }
        }
        if forall|i: int| 0 <= i < cs.len() ==> kind_of(#[trigger] cs[i]) != kind {
            assert forall|i: int| 0 <= i < cs.drop_last().len() implies kind_of(#[trigger] cs.drop_last()[i]) != kind by {
                assert(cs.drop_last()[i] == cs[i]);
            }
            assert(kind_of(cs[cs.len() - 1]) != kind);
            assert(cs.drop_last().push(cs.last()) =~= cs);
        }
    }
}

/// One more constraint at the end of a sequence.
proof fn lemma_kinds_push(cs: Seq<SpecConstraint>, c: SpecConstraint, kind: nat)
    ensures
        without_kind(cs.push(c), kind) == (if kind_of(c) == kind {
            without_kind(cs, kind)
        } else {
            without_kind(cs, kind).push(c)
        }),
        of_kind(cs.push(c), kind) == (if kind_of(c) == kind {
            of_kind(cs, kind).push(c)
        } else {
            of_kind(cs, kind)
        }),
{
    assert(cs.push(c).drop_last() =~= cs);
}

impl Solver {
    /// Takes every instantiation out of the queue and puts back, in its
    /// place at the end, its constraints instantiated. Returns whether there
    /// was any instantiation.
    #[verifier::loop_isolation(false)]
    #[verifier::spinoff_prover]
    #[verifier::rlimit(60)]
    fn run_instantiations<P: TypeProvider>(&mut self, provider: &mut Recorded<P>) -> (p: Progress)
        requires
            old(self).inv(),
            old(self).progress == Progress::NoProgress,
        ensures
            calls_extend(old(provider).calls(), final(provider).calls()),
            old(self).advances_to(*final(self)),
            final(self).progress == Progress::NoProgress,
            without_kind(old(self).queue_models(), 1).len() <= final(self).queue_models().len(),
            final(self).queue_models().subrange(0, without_kind(old(self).queue_models(), 1).len() as int)
                == without_kind(old(self).queue_models(), 1),
            forall|i: int| 0 <= i < final(self).queue_models().len() ==> kind_of(#[trigger] final(self).queue_models()[i]) != 1,
            (p == Progress::Progressed) == (of_kind(old(self).queue_models(), 1).len() > 0),
            of_kind(old(self).queue_models(), 1).len() == 0 ==> final(self).queue_models() == old(self).queue_models(),
            of_kind(old(self).queue_models(), 1).len() == 0 ==> final(self).budget == old(self).budget && final(self).exhausted == old(self).exhausted,
            final(self).groups == old(self).groups,
            final(self).unify == old(self).unify,
            final(self).keys == old(self).keys,
            single_closed_instantiation(old(self).queue_models()) && !final(self).exhausted
                ==> final(self).queue_models() == instantiated(
                old(self).queue_models()[0]->constraints,
                old(self).queue_models()[0]->substitutions,
            ),
            single_instantiation_with_bounds(old(self).queue_models()) && !final(self).exhausted
                ==> final(self).queue_models() == instantiated(
                old(self).queue_models()[0]->constraints,
                old(self).queue_models()[0]->substitutions,
            ),
    {
        let ghost calls0 = provider.calls();
        let ghost s0 = *self;
        let ghost q0 = s0.queue_models();
        proof {
            if single_closed_instantiation(q0) {
                lemma_closed_with_bounds(q0[0]->constraints, q0[0]->substitutions);
            }
        }
        let ghost h1 = single_instantiation_with_bounds(q0);
        let mut queue: Vec<Constraint> = Vec::new();
        std::mem::swap(&mut queue, &mut self.queue);
        proof {
            lemma_constraint_models(queue@);
        }
        let mut rest: Vec<Constraint> = Vec::new();
        let mut instantiations: Vec<Constraint> = Vec::new();
        let mut i: usize = 0;
        while i < queue.len()
            invariant
                calls_extend(calls0, provider.calls()),
                i <= queue@.len(),
                queue@ == s0.queue@,
                constraint_models(rest@) == without_kind(constraint_models(queue@.subrange(0, i as int)), 1),
                instantiations@.len() == of_kind(constraint_models(queue@.subrange(0, i as int)), 1).len(),
                constraints_wf(rest@),
                forall|j: int| 0 <= j < rest@.len() ==> (#[trigger] rest@[j]).model().is_flat(),
                forall|j: int| 0 <= j < instantiations@.len() ==> (#[trigger] instantiations@[j]) is Instantiation,
                forall|j: int| 0 <= j < instantiations@.len() ==> (#[trigger] instantiations@[j]).wf(),
                forall|j: int| 0 <= j < instantiations@.len() ==> (#[trigger] instantiations@[j]).model().is_flat(),
                forall|j: int| 0 <= j < instantiations@.len() ==> (#[trigger] instantiations@[j]).model() == of_kind(
                    constraint_models(queue@.subrange(0, i as int)),
                    1,
                )[j],
                self.queue@.len() == 0,
            decreases queue@.len() - i,
        {
            let ghost prefix = queue@.subrange(0, i as int);
            let ghost next = queue@.subrange(0, i + 1);
            proof {
                assert(next.drop_last() =~= prefix);
                lemma_constraint_models(next);
                lemma_constraint_models(prefix);
                assert(constraint_models(next) =~= constraint_models(prefix).push(queue@[i as int].model()));
                lemma_kinds_push(constraint_models(prefix), queue@[i as int].model(), 1);
                assert(queue@[i as int].wf());
                assert(queue@[i as int].model().is_flat());
            }
            let c = queue[i].deep_clone();
            match &queue[i] {
                Constraint::Instantiation(_) => {
                    let ghost before = instantiations@;
                    instantiations.push(c);
                    proof {
                        assert forall|j: int| 0 <= j < instantiations@.len() implies (#[trigger] instantiations@[j]).model()
                            == of_kind(constraint_models(next), 1)[j] by {
                            if j < before.len() {
                                assert(instantiations@[j] == before[j]);
                            }
                        }
                    }
                },
                _ => {
                    let ghost before = rest@;
                    rest.push(c);
                    proof {
                        assert(rest@.drop_last() =~= before);
                        lemma_constraint_models(rest@);
                        lemma_constraint_models(before);
                        assert(constraint_models(rest@) =~= constraint_models(before).push(c.model()));
                    }
                },
            }
            i = i + 1;
        }
        proof {
            assert(queue@.subrange(0, queue@.len() as int) =~= queue@);
            lemma_kinds(s0.queue_models(), 1);
            if h1 {
                assert(q0.drop_last() =~= Seq::<SpecConstraint>::empty());
                assert(of_kind(q0, 1) == seq![q0[0]]);
                assert(without_kind(q0, 1) == Seq::<SpecConstraint>::empty());
            }
        }
        self.queue = rest;
        let ghost kept = constraint_models(rest@);
        proof {
            Solver::lemma_queue_frame(s0, *self);
        }
        let mut j: usize = 0;
        while j < instantiations.len()
            invariant
                calls_extend(calls0, provider.calls()),
                j <= instantiations@.len(),
                s0.advances_to(*self),
                kept.len() <= self.queue_models().len(),
                self.queue_models().subrange(0, kept.len() as int) == kept,
                forall|m: int| 0 <= m < self.queue_models().len() ==> kind_of(#[trigger] self.queue_models()[m]) != 1,
                j > 0 ==> self.progress == Progress::Progressed,
                j == 0 ==> self.progress == Progress::NoProgress,
                instantiations@.len() == 0 ==> self.queue_models() == kept,
                j == 0 ==> self.budget == s0.budget && self.exhausted == s0.exhausted,
                self.groups == s0.groups,
                self.unify == s0.unify,
                self.keys == s0.keys,
                h1 == single_instantiation_with_bounds(q0),
                single_closed_instantiation(q0) ==> h1,
                h1 ==> instantiations@.len() == 1 && instantiations@[0].model() == q0[0] && kept.len() == 0,
                h1 && j == 0 ==> self.queue_models().len() == 0,
                h1 && j == 1 && !self.exhausted ==> self.queue_models() == instantiated(q0[0]->constraints, q0[0]->substitutions),
            decreases instantiations@.len() - j,
        {
            let c = instantiations[j].deep_clone();
            match c {
                Constraint::Instantiation(instantiation) => {
                    proof {
                        lemma_constraint_models(instantiation.constraints@);
                        assert forall|m: int| 0 <= m < instantiation.constraints@.len()
                            implies !((#[trigger] instantiation.constraints@[m]) is Instantiation) by {
                            assert(constraint_models(instantiation.constraints@)[m] == instantiation.constraints@[m].model());
                        }
                    }
                    let ghost s1 = *self;
                    let ghost inst_model = instantiation_model(instantiation);
                    let constraints = self.apply_instantiation(instantiation, provider);
                    proof {
                        Solver::lemma_advances_trans(s0, s1, *self);
                        lemma_constraint_models(constraints@);
                        if h1 {
                            assert(j == 0);
                            assert(inst_model == q0[0]);
                        }
                    }
                    let mut k: usize = 0;
                    while k < constraints.len()
                        invariant
                            calls_extend(calls0, provider.calls()),
                            k <= constraints@.len(),
                            s0.advances_to(*self),
                            kept.len() <= self.queue_models().len(),
                            self.queue_models().subrange(0, kept.len() as int) == kept,
                            forall|m: int| 0 <= m < self.queue_models().len() ==> kind_of(#[trigger] self.queue_models()[m]) != 1,
                            j > 0 ==> self.progress == Progress::Progressed,
                            j == 0 ==> self.progress == Progress::NoProgress,
                            self.groups == s0.groups,
                            self.unify == s0.unify,
                            self.keys == s0.keys,
                            h1 ==> j == 0,
                            h1 && !self.exhausted ==> self.queue_models() == constraint_models(constraints@.take(k as int)),
                            h1 && !self.exhausted ==> constraint_models(constraints@) == instantiated(
                                q0[0]->constraints,
                                q0[0]->substitutions,
                            ),
                        decreases constraints@.len() - k,
                    {
                        let next = constraints[k].deep_clone();
                        let ghost s2 = *self;
                        proof {
                            lemma_constraint_models(self.queue@);
                            assert(constraint_models(constraints@)[k as int] == constraints@[k as int].model());
                        }
                        self.queue.push(next);
                        proof {
                            lemma_constraint_models(self.queue@);
                            assert(self.queue@.drop_last() =~= s2.queue@);
                            assert(self.queue_models() =~= s2.queue_models().push(next.model()));
                            if h1 && !self.exhausted {
                                lemma_constraint_models(constraints@.take(k + 1));
                                lemma_constraint_models(constraints@.take(k as int));
                                assert(constraints@.take(k + 1).drop_last() =~= constraints@.take(k as int));
                                assert(constraint_models(constraints@.take(k + 1)) =~= constraint_models(
                                    constraints@.take(k as int),
                                ).push(constraints@[k as int].model()));
                            }
                            assert(self.queue_models().subrange(0, kept.len() as int) =~= s2.queue_models().subrange(0, kept.len() as int));
                            Solver::lemma_queue_frame(s2, *self);
                            Solver::lemma_advances_trans(s0, s2, *self);
                        }
                        k = k + 1;
                    }
                    let ghost s3 = *self;
                    self.progress.set();
                    proof {
                        Solver::lemma_queue_frame(s3, *self);
                        Solver::lemma_advances_trans(s0, s3, *self);
                        if h1 && !self.exhausted {
                            assert(constraints@.take(constraints@.len() as int) =~= constraints@);
                        }
                    }
                },
                _ => {
                    proof {
                        assert(false);
                    }
                },
            }
            j = j + 1;
        }
        let ghost s4 = *self;
        let p = self.progress.take();
        proof {
            Solver::lemma_queue_frame(s4, *self);
            Solver::lemma_advances_trans(s0, s4, *self);
            if of_kind(s0.queue_models(), 1).len() == 0 {
                assert(self.queue_models() == kept);
            }
        }
        p
    }
}

} // verus!

verus! {

impl Solver {
    /// Two states with the same table and the same keys have the same
    /// groups.
    proof fn lemma_same_groups(a: Solver, b: Solver)
        requires
            b.entries() == a.entries(),
            b.key_map() == a.key_map(),
        ensures
            a.coarsens(b),
            b.coarsens(a),
    {
        assert forall|x: u32, y: u32|
            a.key_map().contains_key(x) && a.key_map().contains_key(y) && a.class_of(x) == a.class_of(y)
            implies #[trigger] b.class_of(x) == #[trigger] b.class_of(y) by {
        }
        assert forall|x: u32, y: u32|
            b.key_map().contains_key(x) && b.key_map().contains_key(y) && b.class_of(x) == b.class_of(y)
            implies #[trigger] a.class_of(x) == #[trigger] a.class_of(y) by {
        }
    }

    /// A copy of the whole state, for trying out an instance.
    #[verifier::loop_isolation(false)]
    fn duplicate(&self) -> (c: Solver)
        requires
            self.inv(),
        ensures
            c.inv(),
            self.coarsens(c),
            c.entries() == self.entries(),
            c.key_map() == self.key_map(),
            c.node_set() == self.node_set(),
            c.queue_models() == self.queue_models(),
            c.budget == self.budget,
            c.error == self.error,
            c.exhausted == self.exhausted,
            c.progress == self.progress,
    {
        let mut queue: Vec<Constraint> = Vec::new();
        let mut i: usize = 0;
        proof {
            lemma_constraint_models(self.queue@);
        }
        while i < self.queue.len()
            invariant
                i <= self.queue@.len(),
                queue@.len() == i,
                forall|j: int|
                    0 <= j < i ==> (#[trigger] queue@[j]).model() == self.queue@[j].model() && queue@[j].wf()
                        == self.queue@[j].wf(),
            decreases self.queue@.len() - i,
        {
            queue.push(self.queue[i].deep_clone());
            i = i + 1;
        }
        let c = Solver {
            nodes: self.nodes.clone(),
            keys: self.keys.copy(),
            unify: self.unify.clone_table(),
            groups: self.groups.clone(),
            others: self.others.clone(),
            queue,
            progress: self.progress,
            error: self.error,
            budget: self.budget,
            exhausted: self.exhausted,
            depth_limit_hit: Ghost(self.depth_limit_hit@),
        };
        proof {
            crate::typecheck::constraints::lemma_constraint_models_eq(c.queue@, self.queue@);
            lemma_constraint_models(c.queue@);
            Solver::lemma_same_groups(*self, c);
            assert forall|j: int| 0 <= j < c.queue@.len() implies (#[trigger] c.queue@[j]).model().is_flat() by {
                assert(c.queue@[j].model() == self.queue@[j].model());
            }
        }
        c
    }

    /// Appends `constraints` to the queue and solves until nothing changes.
    #[verifier::loop_isolation(false)]
    fn insert_constraints_at<P: TypeProvider>(&mut self, constraints: Vec<Constraint>, provider: &mut Recorded<P>, rounds: u64)
        requires
            old(self).inv(),
            constraints_wf(constraints@),
            forall|i: int| 0 <= i < constraints@.len() ==> (#[trigger] constraints@[i]).model().is_flat(),
        ensures
            calls_extend(old(provider).calls(), final(provider).calls()),
            old(self).advances_to(*final(self)),
            final(self).queue@.len() == 0 || final(self).exhausted,
            old(self).untyped() && old(self).queue_models().len() == 0 && !final(self).exhausted && all_node_pairs(
                constraint_models(constraints@),
            ) ==> forall|i: int|
                0 <= i < constraints@.len() ==> final(self).joins_constraint(#[trigger] constraint_models(constraints@)[i]),
            forall|p: int|
                old(self).untyped() && old(self).queue_models().len() == 0 && !final(self).exhausted
                    && #[trigger] pairs_and_type(constraint_models(constraints@), p)
                    ==> final(self).solved_pairs_and_type(constraint_models(constraints@), p),
            old(self).untyped() && old(self).queue_models().len() == 0 && !final(self).exhausted
                && single_type_instantiation(constraint_models(constraints@)) ==> final(self).typed_as(
                instantiated_node(constraint_models(constraints@)).0,
                instantiated_type(constraint_models(constraints@)),
            ),
            old(self).untyped() && old(self).queue_models().len() == 0 && all_node_pairs(constraint_models(constraints@))
                && !old(self).exhausted && old(self).budget >= 3 * constraints@.len() + 3 ==> !final(self).exhausted,
        decreases rounds, 2nat,
    {
        let ghost calls0 = provider.calls();
        let ghost s0 = *self;
        proof {
            Solver::lemma_coarsens_refl(s0);
            lemma_constraint_models(constraints@);
            assert(s0.queue_models() + constraint_models(constraints@.take(0)) =~= s0.queue_models());
        }
        let mut i: usize = 0;
        while i < constraints.len()
            invariant
                calls_extend(calls0, provider.calls()),
                i <= constraints@.len(),
                s0.advances_to(*self),
                self.groups == s0.groups,
                self.queue_models() == s0.queue_models() + constraint_models(constraints@.take(i as int)),
                self.budget == s0.budget,
                self.exhausted == s0.exhausted,
            decreases constraints@.len() - i,
        {
            let c = constraints[i].deep_clone();
            let ghost s1 = *self;
            self.queue.push(c);
            proof {
                assert(self.queue@.drop_last() =~= s1.queue@);
                assert(self.queue_models() == s1.queue_models().push(c.model()));
                assert(constraints@.take(i + 1).drop_last() =~= constraints@.take(i as int));
                assert(constraint_models(constraints@.take(i + 1)) == constraint_models(constraints@.take(i as int)).push(
                    constraints@[i as int].model(),
                ));
                assert(self.queue_models() =~= s0.queue_models() + constraint_models(constraints@.take(i + 1)));
                lemma_constraint_models(self.queue@);
                lemma_constraint_models(s1.queue@);
                assert forall|j: int| 0 <= j < self.queue@.len() implies (#[trigger] self.queue@[j]).wf() by {
                    if j < s1.queue@.len() {
                        assert(self.queue@[j] == s1.queue@[j]);
                    }
                }
                assert forall|j: int| 0 <= j < self.queue@.len() implies (#[trigger] self.queue@[j]).model().is_flat() by {
                    if j < s1.queue@.len() {
                        assert(self.queue@[j] == s1.queue@[j]);
                    } else {
                        assert(c.model() == constraints@[i as int].model());
                    }
                }
                Solver::lemma_queue_frame(s1, *self);
                Solver::lemma_advances_trans(s0, s1, *self);
            }
            i = i + 1;
        }
        let ghost s2 = *self;
        proof {
            assert(constraints@.take(constraints@.len() as int) =~= constraints@);
            if s0.queue_models().len() == 0 {
                assert(s2.queue_models() =~= constraint_models(constraints@));
            }
            if s0.untyped() {
                assert(s2.untyped());
            }
        }
        self.run(provider, rounds);
        proof {
            Solver::lemma_advances_trans(s0, s2, *self);
        }
    }

    /// Solves the queue: types first, then instantiations, then bounds,
    /// starting over whenever a stage changed something, until no stage
    /// does. The queue is then empty, unless the budget ran out.
    #[verifier::spinoff_prover]
    #[verifier::rlimit(40)]
    fn run<P: TypeProvider>(&mut self, provider: &mut Recorded<P>, rounds: u64)
        requires
            old(self).inv(),
        ensures
            calls_extend(old(provider).calls(), final(provider).calls()),
            old(self).advances_to(*final(self)),
            final(self).queue@.len() == 0 || final(self).exhausted,
            old(self).untyped() && !final(self).exhausted && all_node_pairs(old(self).queue_models()) ==> forall|i: int|
                0 <= i < old(self).queue_models().len() ==> final(self).joins_constraint(
                    #[trigger] old(self).queue_models()[i],
                ),
            forall|p: int|
                old(self).untyped() && !final(self).exhausted && #[trigger] pairs_and_type(old(self).queue_models(), p)
                    ==> final(self).solved_pairs_and_type(old(self).queue_models(), p),
            old(self).untyped() && !final(self).exhausted && single_type_instantiation(old(self).queue_models())
                ==> final(self).typed_as(
                instantiated_node(old(self).queue_models()).0,
                instantiated_type(old(self).queue_models()),
            ),
            old(self).untyped() && all_node_pairs(old(self).queue_models()) && !old(self).exhausted && old(self).budget
                >= 3 * old(self).queue_models().len() + 3 ==> !final(self).exhausted,
        decreases rounds, 1nat,
    {
        let ghost calls0 = provider.calls();
        let ghost s0 = *self;
        let ghost hyp = s0.untyped() && all_node_pairs(s0.queue_models());
        let ghost q0 = s0.queue_models();
        let ghost one = s0.untyped() && exists|p: int| #[trigger] pairs_and_type(q0, p);
        let ghost p0 = choose|p: int| #[trigger] pairs_and_type(q0, p);
        let ghost inst = s0.untyped() && single_type_instantiation(q0);
        let ghost q1 = seq![SpecConstraint::Ty(instantiated_node(q0), instantiated_type(q0))];
        let ghost n1 = instantiated_node(q0).0;
        let ghost t1 = instantiated_type(q0);
        let ghost cost = s0.untyped() && all_node_pairs(q0) && !s0.exhausted && s0.budget >= 3 * q0.len() + 3;
        proof {
            Solver::lemma_coarsens_refl(s0);
            if cost {
                assert forall|i: int| 0 <= i < q0.len() implies kind_of(#[trigger] q0[i]) == 0 by {
                    assert(is_node_pair(q0[i]));
                }
                lemma_without_all(q0, 0);
            }
            if inst {
                lemma_single_type_instantiation(q0);
                lemma_kinds(q0, 0);
            }
        }
        loop
            invariant_except_break
                cost ==> (self.untyped() && self.queue_models() == q0 && self.budget == s0.budget) || (
                self.queue_models().len() == 0 && self.progress == Progress::NoProgress && self.budget + 3 * q0.len() + 2
                    >= s0.budget),
            invariant
                calls_extend(calls0, provider.calls()),
                s0.advances_to(*self),
                hyp == (s0.untyped() && all_node_pairs(s0.queue_models())),
                hyp && !self.exhausted ==> (self.untyped() && self.queue_models() == s0.queue_models()) || (
                forall|i: int| 0 <= i < s0.queue_models().len() ==> self.joins_constraint(#[trigger] s0.queue_models()[i])),
                q0 == s0.queue_models(),
                one ==> pairs_and_type(q0, p0),
                one && !self.exhausted ==> (self.untyped() && self.queue_models() == q0) || (
                self.solved_pairs_and_type(q0, p0) && self.queue_models().len() == 0),
                inst == (s0.untyped() && single_type_instantiation(q0)),
                q1 == seq![SpecConstraint::Ty(instantiated_node(q0), instantiated_type(q0))],
                n1 == instantiated_node(q0).0,
                t1 == instantiated_type(q0),
                inst ==> {
                    &&& pairs_and_type(q1, 0)
                    &&& of_kind(q0, 0).len() == 0
                    &&& of_kind(q0, 1).len() == 1
                    &&& without_kind(q0, 0) == q0
                    &&& single_closed_instantiation(q0)
                    &&& instantiated(q0[0]->constraints, q0[0]->substitutions) == q1
                },
                inst && !self.exhausted ==> (self.untyped() && self.queue_models() == q0) || (self.untyped()
                    && self.queue_models() == q1) || (self.typed_as(n1, t1) && self.queue_models().len() == 0),
                cost == (s0.untyped() && all_node_pairs(q0) && !s0.exhausted && s0.budget >= 3 * q0.len() + 3),
                cost ==> without_kind(q0, 0).len() == 0,
                cost ==> !self.exhausted,
            ensures
                cost ==> !self.exhausted,
                s0.advances_to(*self),
                self.queue@.len() == 0 || self.exhausted,
                hyp && !self.exhausted ==> forall|i: int|
                    0 <= i < s0.queue_models().len() ==> self.joins_constraint(#[trigger] s0.queue_models()[i]),
                one && !self.exhausted ==> self.solved_pairs_and_type(q0, p0),
                inst && !self.exhausted ==> self.typed_as(n1, t1),
            decreases self.budget,
        {
            let ghost s1 = *self;
            if self.budget == 0 {
                self.exhausted = true;
                proof {
                    Solver::lemma_group_types_frame(s1, *self);
                    Solver::lemma_advances_trans(s0, s1, *self);
                }
                break;
            }
            self.budget = self.budget - 1;
            proof {
                if one && !self.exhausted && s1.solved_pairs_and_type(q0, p0) {
                    Solver::lemma_solved_frame(s1, *self, q0, p0);
                }
                if inst && !self.exhausted && s1.typed_as(n1, t1) {
                    Solver::lemma_typed_as_frame(s1, *self, n1, t1);
                }
                Solver::lemma_group_types_frame(s1, *self);
                Solver::lemma_advances_trans(s0, s1, *self);
                if hyp && !self.exhausted && !(s1.untyped() && s1.queue_models() == s0.queue_models()) {
                    assert forall|i: int| 0 <= i < s0.queue_models().len() implies self.joins_constraint(
                        #[trigger] s0.queue_models()[i],
                    ) by {
                        Solver::lemma_constraint_joins_coarsen(s1, *self, s0.queue_models()[i]);
                    }
                }
            }
            let ghost s2 = *self;
            let p = self.run_tys();
            let ghost s3 = *self;
            proof {
                if cost {
                    if s2.untyped() && s2.queue_models() == q0 && s2.budget + 1 == s0.budget {
                        assert(s3.queue_models().len() == 0);
                        assert(s3.budget + 3 * q0.len() + 1 == s0.budget);
                        assert(s3.progress == Progress::NoProgress);
                        assert(!s3.exhausted);
                    } else {
                        assert(s2.queue_models() =~= Seq::<SpecConstraint>::empty());
                        assert(of_kind(s2.queue_models(), 0).len() == 0);
                        assert(p == Progress::NoProgress);
                    }
                    assert(s3.queue_models() =~= Seq::<SpecConstraint>::empty());
                    assert(of_kind(s3.queue_models(), 1).len() == 0);
                    lemma_constraint_models(s3.queue@);
                }
                if inst && !s3.exhausted {
                    if s2.untyped() && s2.queue_models() == q0 {
                        assert(s3.untyped() && s3.queue_models() == q0);
                    } else if s2.untyped() && s2.queue_models() == q1 {
                        assert(pairs_and_type(s2.queue_models(), 0));
                        assert(s3.typed_as(n1, t1) && s3.queue_models().len() == 0);
                    } else {
                        assert(s2.queue_models() =~= Seq::<SpecConstraint>::empty());
                        assert(of_kind(s2.queue_models(), 0).len() == 0);
                        Solver::lemma_typed_as_frame(s2, s3, n1, t1);
                        assert(s3.queue_models() == without_kind(s2.queue_models(), 0));
                    }
                }
                if one && !s3.exhausted {
                    if !(s2.untyped() && s2.queue_models() == q0) {
                        Solver::lemma_solved_frame(s2, s3, q0, p0);
                        assert(s3.queue_models() == without_kind(s2.queue_models(), 0));
                        assert(s2.queue_models() =~= Seq::<SpecConstraint>::empty());
                    } else {
                        assert(pairs_and_type(s2.queue_models(), p0));
                    }
                    assert(s3.solved_pairs_and_type(q0, p0) && s3.queue_models().len() == 0);
                }
                Solver::lemma_advances_trans(s0, s2, s3);
                lemma_kinds(s2.queue_models(), 0);
                if hyp && !s3.exhausted {
                    assert forall|i: int| 0 <= i < s0.queue_models().len() implies s3.joins_constraint(
                        #[trigger] s0.queue_models()[i],
                    ) by {
                        if s2.untyped() && s2.queue_models() == s0.queue_models() {
                            assert(all_node_pairs(s2.queue_models()));
                            assert(s3.joins_constraint(s2.queue_models()[i]));
                        } else {
                            Solver::lemma_constraint_joins_coarsen(s2, s3, s0.queue_models()[i]);
                        }
                    }
                }
            }
            let p = match p {
                Progress::Progressed => Progress::Progressed,
                Progress::NoProgress => {
                    let q = self.run_instantiations(provider);
                    let ghost s4 = *self;
                    proof {
                        Solver::lemma_advances_trans(s0, s3, s4);
                        if one && !s4.exhausted {
                            assert(s3.queue_models() =~= Seq::<SpecConstraint>::empty());
                            assert(of_kind(s3.queue_models(), 1).len() == 0);
                            Solver::lemma_solved_frame(s3, s4, q0, p0);
                            lemma_constraint_models(s4.queue@);
                        }
                        if inst && !s4.exhausted {
                            if s3.untyped() && s3.queue_models() == q0 {
                                assert(s4.untyped() && s4.queue_models() == q1);
                            } else {
                                assert(s3.queue_models() =~= Seq::<SpecConstraint>::empty());
                                assert(of_kind(s3.queue_models(), 1).len() == 0);
                                Solver::lemma_typed_as_frame(s3, s4, n1, t1);
                                lemma_constraint_models(s4.queue@);
                            }
                        }
                    }
                    match q {
                        Progress::Progressed => Progress::Progressed,
                        Progress::NoProgress => {
                            proof {
                                assert forall|i: int| 0 <= i < s4.queue_models().len() implies kind_of(#[trigger] s4.queue_models()[i]) == 2 by {
                                    assert(s4.queue_models()[i] == s3.queue_models()[i]);
                                    assert(kind_of(s3.queue_models()[i]) != 0);
                                    assert(kind_of(s4.queue_models()[i]) != 1);
                                }
                            }
                            let r = self.run_bounds(provider, rounds);
                            proof {
                                Solver::lemma_advances_trans(s0, s4, *self);
                                if one && !self.exhausted {
                                    Solver::lemma_solved_frame(s4, *self, q0, p0);
                                    lemma_constraint_models(self.queue@);
                                }
                                if inst && !self.exhausted {
                                    assert(!(s3.untyped() && s3.queue_models() == q0));
                                    Solver::lemma_typed_as_frame(s4, *self, n1, t1);
                                    lemma_constraint_models(self.queue@);
                                }
                            }
                            r
                        },
                    }
                },
            };
            proof {
                if hyp && !self.exhausted {
                    assert forall|i: int| 0 <= i < s0.queue_models().len() implies self.joins_constraint(
                        #[trigger] s0.queue_models()[i],
                    ) by {
                        Solver::lemma_constraint_joins_coarsen(s3, *self, s0.queue_models()[i]);
                    }
                }
            }
            proof {
                if cost && p == Progress::Progressed {
                    assert(self.queue_models().len() == 0);
                    assert(self.progress == Progress::NoProgress);
                    assert(self.budget + 3 * q0.len() + 2 >= s0.budget);
                }
                if p == Progress::Progressed {
                    assert(cost ==> (self.untyped() && self.queue_models() == q0 && self.budget == s0.budget) || (
                    self.queue_models().len() == 0 && self.progress == Progress::NoProgress && self.budget + 3 * q0.len()
                        + 2 >= s0.budget));
                }
            }
            match p {
                Progress::Progressed => {},
                Progress::NoProgress => {
                    proof {
                        if cost {
                            assert(!self.exhausted);
                            assert(self.queue_models().len() == 0);
                        }
                    }
                    break;
                },
            }
        }
        proof {
            assert forall|p: int|
                s0.untyped() && !self.exhausted && #[trigger] pairs_and_type(q0, p) implies self.solved_pairs_and_type(
                q0,
                p,
            ) by {
                lemma_pairs_and_type_unique(q0, p, p0);
            }
        }
    }

    /// Takes every bound out of the queue, which holds nothing else, and
    /// resolves each in turn. Returns whether the last resolution that
    /// changed anything was left standing. An empty queue leaves the state
    /// as it is; bounds nested deeper than `MAX_BOUND_DEPTH` are given up.
    #[verifier::loop_isolation(false)]
    fn run_bounds<P: TypeProvider>(&mut self, provider: &mut Recorded<P>, rounds: u64) -> (p: Progress)
        requires
            old(self).inv(),
            forall|i: int| 0 <= i < old(self).queue_models().len() ==> kind_of(#[trigger] old(self).queue_models()[i]) == 2,
        ensures
            calls_extend(old(provider).calls(), final(provider).calls()),
            old(self).advances_to(*final(self)),
            final(self).queue@.len() == 0 || final(self).exhausted,
            p == Progress::NoProgress ==> final(self).queue@.len() == 0 || final(self).exhausted,
            old(self).queue@.len() == 0 ==> *final(self) == *old(self) && p == Progress::NoProgress,
        decreases rounds, 0nat,
    {
        let ghost calls0 = provider.calls();
        let ghost s0 = *self;
        if self.queue.len() == 0 {
            proof {
                Solver::lemma_coarsens_refl(s0);
            }
            return Progress::NoProgress;
        }
        if rounds == 0 {
            self.exhausted = true;
            self.depth_limit_hit = Ghost(true);
            proof {
                Solver::lemma_group_types_frame(s0, *self);
            }
            return Progress::NoProgress;
        }
        let mut queue: Vec<Constraint> = Vec::new();
        std::mem::swap(&mut queue, &mut self.queue);
        proof {
            lemma_constraint_models(queue@);
            lemma_constraint_models(self.queue@);
            Solver::lemma_queue_frame(s0, *self);
        }
        let mut bounds: Vec<Bound> = Vec::new();
        let mut i: usize = 0;
        while i < queue.len()
            invariant
                calls_extend(calls0, provider.calls()),
                i <= queue@.len(),
                queue@ == s0.queue@,
                bounds@.len() <= i,
                forall|j: int| 0 <= j < bounds@.len() ==> (#[trigger] bounds@[j]).wf(),
            decreases queue@.len() - i,
        {
            proof {
                assert(queue@[i as int].wf());
            }
            match &queue[i] {
                Constraint::Bound(bound) => {
                    bounds.push(bound.deep_clone());
                },
                _ => {},
            }
            i = i + 1;
        }
        let mut k: usize = 0;
        while k < bounds.len()
            invariant
                calls_extend(calls0, provider.calls()),
                k <= bounds@.len(),
                forall|j: int| 0 <= j < bounds@.len() ==> (#[trigger] bounds@[j]).wf(),
                s0.advances_to(*self),
                self.queue@.len() == 0 || self.exhausted,
                rounds > 0,
                bounds@.len() == 0 ==> self.groups == s0.groups && self.unify == s0.unify && self.keys == s0.keys,
            decreases bounds@.len() - k,
        {
            let bound = bounds[k].deep_clone();
            let ghost s1 = *self;
            self.resolve_bound(bound, provider, rounds - 1);
            proof {
                Solver::lemma_advances_trans(s0, s1, *self);
            }
            k = k + 1;
        }
        let ghost s2 = *self;
        let p = self.progress.take();
        proof {
            Solver::lemma_queue_frame(s2, *self);
            Solver::lemma_advances_trans(s0, s2, *self);
        }
        p
    }

    /// Resolves one bound. The bound is checked at a temporary copy of its
    /// node that takes the node's current type and the trait's type under the
    /// bound's substitutions. Each instance of the trait is then tried on a
    /// copy of the state; when exactly one of them fits without error, that
    /// copy becomes the state and the instance is reported, and otherwise the
    /// bound is reported as unresolved. Returns whether the bound was
    /// resolved.
    #[verifier::loop_isolation(false)]
    fn resolve_bound<P: TypeProvider>(&mut self, bound: Bound, provider: &mut Recorded<P>, rounds: u64) -> (resolved: bool)
        requires
            old(self).inv(),
            old(self).queue@.len() == 0 || old(self).exhausted,
            bound.wf(),
        ensures
            calls_extend(old(provider).calls(), final(provider).calls()),
            old(self).advances_to(*final(self)),
            final(self).queue@.len() == 0 || final(self).exhausted,
            resolved ==> final(self).progress == Progress::Progressed && !final(self).error,
            ({
                let c = final(provider).calls();
                let k = old(provider).calls().len() as int;
                &&& c.len() > k + 1
                &&& c[k] is CopyNode
                &&& c[k]->CopyNode_0 == bound.node
                &&& exists|g: int| k < g < c.len() - 1 && #[trigger] c[g] == ProviderCall::GetTraitInstances(bound.tr)
                &&& resolved ==> c.last() is FlagResolved && c.last()->FlagResolved_0 == c[k]->CopyNode_1
                    && c.last()->FlagResolved_1 == bound.model()
                &&& !resolved ==> c.last() == ProviderCall::FlagUnresolved(c[k]->CopyNode_1, bound.model())
            }),
        decreases rounds, 3nat,
    {
        let ghost calls0 = provider.calls();
        let ghost s0 = *self;
        proof {
            Solver::lemma_coarsens_refl(s0);
        }
        let temp_node = provider.copy_node(bound.node);
        // The current type of the node, without unifying it with anything.
        let mut unify = self.unify.clone_table();
        let mut fuel = self.budget;
        let bound_ty = self.try_apply_ty(Ty::Of(bound.node), &mut unify, &mut fuel, 0);
        self.budget = fuel;
        proof {
            Solver::lemma_group_types_frame(s0, *self);
        }
        if !bound_ty.same(&Ty::Of(bound.node)) {
            let mut constraints: Vec<Constraint> = Vec::new();
            constraints.push(Constraint::Ty(temp_node, bound_ty));
            proof {
                lemma_constraint_models(constraints@);
            }
            let ghost s1 = *self;
            self.insert_constraints_at(constraints, provider, rounds);
            proof {
                Solver::lemma_advances_trans(s0, s1, *self);
            }
        }
        // Instantiate the bound with the trait's type.
        let mut trait_constraints: Vec<Constraint> = Vec::new();
        trait_constraints.push(Constraint::Ty(temp_node, Ty::Of(bound.tr)));
        let mut constraints: Vec<Constraint> = Vec::new();
        constraints.push(Constraint::Instantiation(Instantiation {
            constraints: trait_constraints,
            substitutions: bound.substitutions.deep_clone(),
        }));
        proof {
            lemma_constraint_models(constraints@);
            lemma_constraint_models(trait_constraints@);
        }
        let ghost s2 = *self;
        self.insert_constraints_at(constraints, provider, rounds);
        proof {
            Solver::lemma_advances_trans(s0, s2, *self);
        }
        let ghost before_ask = provider.calls();
        let instances = provider.get_trait_instances(bound.tr);
        let ghost asked = provider.calls();
        let ghost bm = bound.model();
        let (resolved, _) = self.settle_bound(temp_node, bound, instances, provider, rounds);
        proof {
            let k = calls0.len() as int;
            let c = provider.calls();
            assert(calls_extend(calls0.push(ProviderCall::CopyNode(bm.node, temp_node)), before_ask));
            assert(c[k] == before_ask[k]);
            assert(c[before_ask.len() as int] == asked[before_ask.len() as int]);
            assert(c[before_ask.len() as int] == ProviderCall::GetTraitInstances(bm.tr));
        }
        resolved
    }

    /// Tries each of `instances` of the bound's trait at `temp_node`, each on
    /// a copy of the state; the states the trials end in are `trials`. When
    /// exactly one trial ends without error, its state becomes the state,
    /// progress is recorded and that instance is reported to `provider` as
    /// resolving the bound; otherwise the bound is reported as unresolved
    /// and the state stays as it was. Returns whether the bound was
    /// resolved.
    #[verifier::loop_isolation(false)]
    #[verifier::spinoff_prover]
    fn settle_bound<P: TypeProvider>(
        &mut self,
        temp_node: NodeId,
        bound: Bound,
        instances: Vec<(NodeId, Vec<(NodeId, NodeId)>)>,
        provider: &mut Recorded<P>,
        rounds: u64,
    ) -> (r: (bool, Ghost<Seq<Solver>>))
        requires
            old(self).inv(),
            old(self).queue@.len() == 0 || old(self).exhausted,
        ensures
            calls_extend(old(provider).calls(), final(provider).calls()),
            old(self).advances_to(*final(self)),
            final(self).queue@.len() == 0 || final(self).exhausted,
            r.1@.len() == instances@.len(),
            forall|j: int| 0 <= j < r.1@.len() ==> old(self).advances_to(#[trigger] r.1@[j]),
            r.0 <==> exists|j: int| only_fit(r.1@, j),
            r.0 ==> exists|j: int|
                {
                    &&& only_fit(r.1@, j)
                    &&& *final(self) == r.1@[j].with_progress()
                    &&& final(provider).calls().last() == ProviderCall::FlagResolved(temp_node, bound.model(), instances@[j].0)
                },
            !r.0 ==> *final(self) == *old(self),
            !r.0 ==> final(provider).calls().last() == ProviderCall::FlagUnresolved(temp_node, bound.model()),
            final(provider).calls().len() > 0,
            r.0 ==> final(self).progress == Progress::Progressed && !final(self).error,
        decreases rounds, 2nat,
    {
        let ghost calls0 = provider.calls();
        let ghost s0 = *self;
        proof {
            Solver::lemma_coarsens_refl(s0);
        }
        let ghost mut trials: Seq<Solver> = Seq::empty();
        let ghost mut last: int = 0;
        let ghost mut prev: int = 0;
        let mut chosen: Option<(NodeId, Solver)> = None;
        let mut count: usize = 0;
        let mut i: usize = 0;
        while i < instances.len()
            invariant
                calls_extend(calls0, provider.calls()),
                i <= instances@.len(),
                *self == s0,
                count <= i,
                trials.len() == i,
                forall|j: int| 0 <= j < i ==> s0.advances_to(#[trigger] trials[j]),
                forall|j: int| 0 <= j < i ==> (#[trigger] trials[j]).queue@.len() == 0 || trials[j].exhausted,
                count == 0 ==> chosen is None && forall|k: int| 0 <= k < i ==> (#[trigger] trials[k]).error,
                count > 0 ==> {
                    &&& 0 <= last < i
                    &&& !trials[last].error
                    &&& chosen == Some((instances@[last].0, trials[last]))
                    &&& forall|k: int| last < k < i ==> (#[trigger] trials[k]).error
                },
                count == 1 ==> forall|k: int| 0 <= k < i && k != last ==> (#[trigger] trials[k]).error,
                count >= 2 ==> 0 <= prev < last && !trials[prev].error,
            decreases instances@.len() - i,
        {
            let instance = instances[i].0;
            // Try the instance on a copy of the state, so that a failure
            // leaves the state as it was.
            let mut copy = self.duplicate();
            let ghost c0 = copy;
            copy.error = false;
            let mut instance_constraints: Vec<Constraint> = Vec::new();
            instance_constraints.push(Constraint::Ty(temp_node, Ty::Of(instance)));
            let substitutions = Substitutions::from_pairs(instances[i].1.clone());
            let mut queue: Vec<Constraint> = Vec::new();
            queue.push(Constraint::Instantiation(Instantiation {
                constraints: instance_constraints,
                substitutions,
            }));
            copy.queue = queue;
            proof {
                lemma_constraint_models(copy.queue@);
                lemma_constraint_models(instance_constraints@);
                Solver::lemma_queue_frame(c0, copy);
                Solver::lemma_advances_trans(s0, *self, c0);
                Solver::lemma_advances_trans(s0, c0, copy);
            }
            let ghost c1 = copy;
            copy.run(provider, rounds);
            proof {
                Solver::lemma_advances_trans(s0, c1, copy);
                trials = trials.push(copy);
            }
            if !copy.error {
                proof {
                    if count >= 1 {
                        prev = last;
                    }
                    last = i as int;
                }
                count = count + 1;
                chosen = Some((instance, copy));
            }
            i = i + 1;
        }
        proof {
            if count != 1 {
                assert forall|j: int| !only_fit(trials, j) by {
                    if only_fit(trials, j) {
                        if count == 0 {
                            assert(trials[j].error);
                        } else {
                            if j != last {
                                assert(trials[last].error);
                            } else {
                                assert(trials[prev].error);
                            }
                        }
                    }
                }
            } else {
                assert(only_fit(trials, last));
            }
        }
        match chosen {
            Some((instance, copy)) => {
                if count == 1 {
                    *self = copy;
                    let ghost s3 = *self;
                    self.progress.set();
                    proof {
                        Solver::lemma_queue_frame(s3, *self);
                        Solver::lemma_advances_trans(s0, s3, *self);
                        assert(*self == trials[last].with_progress());
                    }
                    provider.flag_resolved(temp_node, bound, instance);
                    (true, Ghost(trials))
                } else {
                    provider.flag_unresolved(temp_node, bound);
                    (false, Ghost(trials))
                }
            },
            None => {
                provider.flag_unresolved(temp_node, bound);
                (false, Ghost(trials))
            },
        }
    }
}

} // verus!

verus! {

impl Solver {
    /// `first` is what `to_ty_groups` may report first for the group whose
    /// root is `c`: the type kept at some key of the group, resolved, which
    /// is that type itself when it refers to no node.
    pub closed spec fn first_type_fits(self, c: int, first: SpecTy) -> bool {
        exists|g: u32|
            #[trigger] self.groups@.contains_key(g) && root(self.entries(), g as int) == c && (!self.groups@[g]@.has_of()
                ==> first == self.groups@[g]@)
    }

    /// Whether some group type is kept at a key whose root is `c`.
    pub closed spec fn typed_class(self, c: int) -> bool {
        exists|g: u32| #[trigger] self.groups@.contains_key(g) && root(self.entries(), g as int) == c
    }

    /// The groups of nodes and their types. Each group type, resolved,
    /// makes a group with the nodes whose groups were unified into it; each
    /// type that failed to unify joins the group of its node, or makes a new
    /// one; and every reported node that is in no group yet gets a group of
    /// its own with an unknown type.
    #[verifier::loop_isolation(false)]
    #[verifier::spinoff_prover]
    #[verifier::rlimit(50)]
    fn to_ty_groups(&self) -> (r: TyGroups)
        requires
            self.inv(),
        ensures
            r.wf(),
            forall|n: u32| #[trigger] self.node_set().contains(n) ==> r.index_map().contains_key(n),
            forall|x: u32|
                #[trigger] self.key_map().contains_key(x) && self.typed_class(self.class_of(x)) ==> r.index_map().contains_key(x),
            forall|x: u32, y: u32|
                self.key_map().contains_key(x) && self.key_map().contains_key(y) && self.class_of(x) == self.class_of(y)
                    && self.typed_class(self.class_of(x)) ==> #[trigger] r.index_map()[x] == #[trigger] r.index_map()[y],
            forall|x: u32, t: SpecTy|
                #[trigger] self.typed_as(x, t) && !t.has_of() ==> {
                    &&& r.index_map().contains_key(x)
                    &&& r.group_tys()[r.index_map()[x] as int].len() >= 1
                    &&& r.group_tys()[r.index_map()[x] as int][0] == t
                },
            forall|n: u32|
                #[trigger] self.node_set().contains(n) && !self.failed_nodes().contains(n) && !(self.key_map().contains_key(n)
                    && self.typed_class(self.class_of(n))) && r.group_tys().len() <= u32::MAX + 1
                    ==> r.group_tys()[r.index_map()[n] as int] == seq![SpecTy::Unknown],
            forall|n: u32|
                #[trigger] self.failed_tys().contains_key(n) && r.group_tys().len() <= u32::MAX + 1 ==> r.holds_in_order(
                    n,
                    self.failed_tys()[n],
                ),
            forall|x: u32|
                #[trigger] self.key_map().contains_key(x) && self.typed_class(self.class_of(x)) && r.group_tys().len()
                    <= u32::MAX + 1 ==> {
                    &&& r.group_tys()[r.index_map()[x] as int].len() >= 1
                    &&& self.first_type_fits(self.class_of(x), r.group_tys()[r.index_map()[x] as int][0])
                },
            self.untyped() && self.failed_nodes() == Set::<u32>::empty() ==> {
                &&& r.group_tys().len() == self.node_set().len()
                &&& r.index_map().dom() == self.node_set()
                &&& forall|x: u32, y: u32|
                    #[trigger] r.index_map().contains_key(x) && #[trigger] r.index_map().contains_key(y) && x < y
                        ==> r.index_map()[x] < r.index_map()[y]
                &&& forall|g: int| 0 <= g < r.group_tys().len() ==> #[trigger] r.group_tys()[g] == seq![SpecTy::Unknown]
            },
    {
        let ghost e = self.entries();
        let ghost plain = self.untyped() && self.failed_nodes() == Set::<u32>::empty();
        let ghost only = exists|k: u32| #[trigger] self.groups@.contains_key(k) && self.groups@.dom() == Set::<u32>::empty().insert(k)
            && !self.groups@[k]@.has_of();
        let ghost k0 = choose|k: u32| #[trigger] self.groups@.contains_key(k) && self.groups@.dom() == Set::<u32>::empty().insert(k)
            && !self.groups@[k]@.has_of();
        let ghost t0 = self.groups@[k0]@;
        let ghost c0 = root(e, k0 as int);
        let mut ty_groups = TyGroups::new();
        let mut unify = self.unify.clone_table();
        let mut fuel: u64 = WORK_LIMIT;
        // The index of the group made for each root that has a group type.
        let mut representatives: BTreeMap<u32, u32> = BTreeMap::new();
        let group_keys = map_keys(&self.groups);
        proof {
            if plain && group_keys@.len() > 0 {
                assert(group_keys@.to_set().contains(group_keys@[0]));
            }
            if only {
                assert(group_keys@.to_set().contains(k0));
                assert(group_keys@.len() == 1) by {
                    group_keys@.unique_seq_to_set();
                }
                assert(group_keys@[0] == k0) by {
                    assert(group_keys@.to_set().contains(group_keys@[0]));
                }
            }
        }
        let mut i: usize = 0;
        while i < group_keys.len()
            invariant
                i <= group_keys@.len(),
                ty_groups.wf(),
                ty_groups.index_map() == Map::<u32, u32>::empty(),
                only ==> group_keys@.len() == 1 && group_keys@[0] == k0 && c0 == root(e, k0 as int),
                only ==> t0 == self.groups@[k0]@ && !t0.has_of(),
                only && i == 0 ==> ty_groups.group_tys().len() == 0,
                plain ==> group_keys@.len() == 0 && ty_groups.group_tys().len() == 0,
                ty_groups.group_tys().len() <= u32::MAX + 1 ==> forall|c: u32|
                    #[trigger] representatives@.contains_key(c) ==> ty_groups.group_tys()[representatives@[c] as int].len() >= 1
                        && self.first_type_fits(c as int, ty_groups.group_tys()[representatives@[c] as int][0]),
                only && i >= 1 ==> {
                    &&& representatives@.contains_key(c0 as u32)
                    &&& representatives@[c0 as u32] < ty_groups.group_tys().len()
                    &&& ty_groups.group_tys()[representatives@[c0 as u32] as int].len() >= 1
                    &&& ty_groups.group_tys()[representatives@[c0 as u32] as int][0] == t0
                },
                uf_wf(unify.entries()),
                same_partition(e, unify.entries()),
                forall|c: u32| #[trigger] representatives@.contains_key(c) ==> representatives@[c] < ty_groups.group_tys().len(),
                forall|j: int| 0 <= j < i ==> #[trigger] representatives@.contains_key(root(e, group_keys@[j] as int) as u32),
                forall|c: u32| #[trigger] representatives@.contains_key(c) ==> self.typed_class(c as int),
                e == self.entries(),
            decreases group_keys@.len() - i,
        {
            let g = group_keys[i];
            proof {
                assert(group_keys@.to_set().contains(g));
            }
            let ty = self.groups.get(&g).unwrap().deep_clone();
            let ty = self.try_apply_ty(ty, &mut unify, &mut fuel, 0);
            let ghost before_groups = ty_groups;
            let index = ty_groups.insert_group(ty);
            let ghost before = unify.entries();
            let representative = unify.find(g);
            proof {
                lemma_same_partition_trans(e, before, unify.entries());
                lemma_root(e, g as int);
                assert(self.groups@.contains_key(g));
                assert(self.typed_class(representative as int));
            }
            let ghost reps_before = representatives@;
            representatives.insert(representative, index);
            proof {
                if ty_groups.group_tys().len() <= u32::MAX + 1 {
                    assert(index == before_groups.group_tys().len());
                    assert(ty_groups.group_tys()[index as int] == seq![ty@]);
                    assert(self.first_type_fits(representative as int, ty@)) by {
                        assert(root(e, g as int) == representative);
                    }
                    assert forall|c: u32| #[trigger] representatives@.contains_key(c) implies ty_groups.group_tys()[representatives@[c] as int].len()
                        >= 1 && self.first_type_fits(c as int, ty_groups.group_tys()[representatives@[c] as int][0]) by {
                        if c != representative {
                            assert(reps_before.contains_key(c));
                            assert(ty_groups.group_tys()[representatives@[c] as int] == before_groups.group_tys()[reps_before[c] as int]);
                        }
                    }
                }
                if only {
                    assert(i == 0);
                    assert(g == k0);
                    assert(representative == c0);
                    assert(ty_groups.group_tys()[index as int] == seq![ty@]);
                }
            }
            i = i + 1;
        }
        let ghost idx0 = representatives@[c0 as u32];
        let ghost t1 = ty_groups;
        // Every node whose group has a type joins the group made for it.
        let nodes_with_keys = map_keys(&self.keys.keys);
        let mut i: usize = 0;
        while i < nodes_with_keys.len()
            invariant
                i <= nodes_with_keys@.len(),
                ty_groups.wf(),
                only ==> {
                    &&& representatives@.contains_key(c0 as u32)
                    &&& representatives@[c0 as u32] == idx0
                    &&& idx0 < ty_groups.group_tys().len()
                    &&& ty_groups.group_tys()[idx0 as int].len() >= 1
                    &&& ty_groups.group_tys()[idx0 as int][0] == t0
                },
                uf_wf(unify.entries()),
                same_partition(e, unify.entries()),
                forall|c: u32| #[trigger] representatives@.contains_key(c) ==> representatives@[c] < ty_groups.group_tys().len(),
                forall|j: int| 0 <= j < group_keys@.len() ==> #[trigger] representatives@.contains_key(root(e, group_keys@[j] as int) as u32),
                forall|j: int|
                    0 <= j < i && representatives@.contains_key(self.class_of(#[trigger] nodes_with_keys@[j]) as u32) ==> {
                        &&& ty_groups.index_map().contains_key(nodes_with_keys@[j])
                        &&& ty_groups.index_map()[nodes_with_keys@[j]] == representatives@[self.class_of(nodes_with_keys@[j]) as u32]
                    },
                forall|c: u32| #[trigger] representatives@.contains_key(c) ==> self.typed_class(c as int),
                forall|x: u32|
                    #[trigger] ty_groups.index_map().contains_key(x) ==> self.key_map().contains_key(x) && self.typed_class(
                        self.class_of(x),
                    ),
                plain ==> ty_groups.group_tys().len() == 0,
                ty_groups.group_tys() == t1.group_tys(),
                e == self.entries(),
            decreases nodes_with_keys@.len() - i,
        {
            let x = nodes_with_keys[i];
            proof {
                assert(nodes_with_keys@.to_set().contains(x));
            }
            let key = *self.keys.keys.get(&x).unwrap();
            let ghost before = unify.entries();
            let representative = unify.find(key);
            proof {
                lemma_same_partition_trans(e, before, unify.entries());
                lemma_root(e, key as int);
                assert(representative == self.class_of(x));
                assert(self.key_map().contains_key(x));
            }
            match representatives.get(&representative) {
                Some(index) => {
                    proof {
                        if plain {
                            assert(self.typed_class(representative as int));
                            let g = choose|g: u32| #[trigger] self.groups@.contains_key(g) && root(self.entries(), g as int)
                                == representative as int;
                            assert(false);
                        }
                    }
                    ty_groups.assign_node_to_index(NodeId(x), *index);
                },
                None => {},
            }
            proof {
                assert forall|j: int|
                    0 <= j < i + 1 && representatives@.contains_key(self.class_of(#[trigger] nodes_with_keys@[j]) as u32) implies {
                        &&& ty_groups.index_map().contains_key(nodes_with_keys@[j])
                        &&& ty_groups.index_map()[nodes_with_keys@[j]] == representatives@[self.class_of(nodes_with_keys@[j]) as u32]
                    } by {
                    if j < i {
                        assert(nodes_with_keys@[j] != x);
                    }
                }
            }
            i = i + 1;
        }
        let ghost assigned = ty_groups.index_map();
        let ghost t2 = ty_groups;
        proof {
            TyGroups::lemma_grows_refl(t2);
        }
        // Each type that failed to unify joins the group of its node.
        let other_nodes = map_keys(&self.others);
        proof {
            if plain && other_nodes@.len() > 0 {
                assert(other_nodes@.to_set().contains(other_nodes@[0]));
            }
            if plain {
                assert forall|x: u32| !#[trigger] ty_groups.index_map().contains_key(x) by {
                    if ty_groups.index_map().contains_key(x) {
                        assert(self.typed_class(self.class_of(x)));
                        let g = choose|g: u32| #[trigger] self.groups@.contains_key(g) && root(self.entries(), g as int)
                            == self.class_of(x);
                    }
                }
                assert(ty_groups.index_map() =~= Map::<u32, u32>::empty());
            }
        }
        let mut i: usize = 0;
        while i < other_nodes.len()
            invariant
                i <= other_nodes@.len(),
                ty_groups.wf(),
                only ==> {
                    &&& idx0 < ty_groups.group_tys().len()
                    &&& ty_groups.group_tys()[idx0 as int].len() >= 1
                    &&& ty_groups.group_tys()[idx0 as int][0] == t0
                },
                forall|x: u32| #[trigger] assigned.contains_key(x) ==> ty_groups.index_map().contains_key(x)
                    && ty_groups.index_map()[x] == assigned[x],
                forall|x: u32|
                    #[trigger] ty_groups.index_map().contains_key(x) ==> assigned.contains_key(x) || self.others@.contains_key(x),
                ty_groups.group_tys().len() <= u32::MAX + 1 ==> forall|j: int|
                    0 <= j < i ==> ty_groups.holds_in_order(#[trigger] other_nodes@[j], self.failed_tys()[other_nodes@[j]]),
                other_nodes@.no_duplicates(),
                other_nodes@.to_set() == self.others@.dom(),
                plain ==> other_nodes@.len() == 0 && ty_groups.group_tys().len() == 0 && ty_groups.index_map()
                    == Map::<u32, u32>::empty(),
                t2.grows_to(ty_groups),
            decreases other_nodes@.len() - i,
        {
            let n = other_nodes[i];
            proof {
                assert(other_nodes@.to_set().contains(n));
            }
            let list = self.others.get(&n).unwrap();
            let ghost t_outer = ty_groups;
            let ghost pre = ty_groups.index_map().contains_key(n);
            let ghost start: int = if pre {
                ty_groups.group_tys()[ty_groups.index_map()[n] as int].len() as int
            } else {
                0
            };
            proof {
                TyGroups::lemma_grows_refl(ty_groups);
                lemma_ty_models(list@);
                assert(ty_groups.group_tys().len() <= u32::MAX + 1 && pre ==> ty_groups.group_tys()[ty_groups.index_map()[n] as int].subrange(start, start) =~= ty_models(list@).take(0));
            }
            let mut k: usize = 0;
            while k < list.len()
                invariant
                    k <= list@.len(),
                    ty_groups.wf(),
                    only ==> {
                        &&& idx0 < ty_groups.group_tys().len()
                        &&& ty_groups.group_tys()[idx0 as int].len() >= 1
                        &&& ty_groups.group_tys()[idx0 as int][0] == t0
                    },
                    forall|x: u32| #[trigger] assigned.contains_key(x) ==> ty_groups.index_map().contains_key(x)
                        && ty_groups.index_map()[x] == assigned[x],
                    forall|x: u32|
                        #[trigger] ty_groups.index_map().contains_key(x) ==> assigned.contains_key(x) || self.others@.contains_key(x),
                    self.others@.contains_key(n),
                    list@ == self.others@[n]@,
                    t_outer.wf(),
                    t_outer.grows_to(ty_groups),
                    (k > 0 || pre) ==> ty_groups.index_map().contains_key(n),
                    k == 0 && !pre ==> !ty_groups.index_map().contains_key(n),
                    pre ==> t_outer.index_map().contains_key(n),
                    pre ==> start == t_outer.group_tys()[t_outer.index_map()[n] as int].len(),
                    !pre ==> start == 0,
                    ty_groups.group_tys().len() <= u32::MAX + 1 && (k > 0 || pre) ==> {
                        &&& ty_groups.group_tys()[ty_groups.index_map()[n] as int].len() == start + k
                        &&& ty_groups.group_tys()[ty_groups.index_map()[n] as int].subrange(start, start + k) == ty_models(
                            list@,
                        ).take(k as int)
                    },
                    ty_models(list@).len() == list@.len(),
                    forall|j: int| 0 <= j < list@.len() ==> #[trigger] ty_models(list@)[j] == list@[j]@,
                    t2.grows_to(ty_groups),
                decreases list@.len() - k,
            {
                let ty = list[k].deep_clone();
                let ghost before = ty_groups;
                match ty_groups.index_of(NodeId(n)) {
                    Some(index) => {
                        ty_groups.push_ty_at(index, ty);
                        proof {
                            if ty_groups.group_tys().len() <= u32::MAX + 1 {
                                let g = before.group_tys()[index as int];
                                assert(g.len() == start + k) by {
                                    if pre {
                                        assert(t_outer.index_map()[n] == before.index_map()[n]);
                                    }
                                }
                                assert(ty_groups.group_tys()[index as int].subrange(start, start + k + 1) =~= ty_models(
                                    list@,
                                ).take(k + 1)) by {
                                    assert(g.subrange(start, start + k) == ty_models(list@).take(k as int));
                                    let sub = ty_groups.group_tys()[index as int].subrange(start, start + k + 1);
                                    let tk = ty_models(list@).take(k + 1);
                                    assert forall|j: int| 0 <= j < k + 1 implies #[trigger] sub[j] == tk[j] by {
                                        if j < k {
                                            assert(g.subrange(start, start + k)[j] == g[start + j]);
                                        }
                                    }
                                }
                            }
                        }
                    },
                    None => {
                        let index = ty_groups.insert_group(ty);
                        let ghost mid = ty_groups;
                        ty_groups.assign_node_to_index(NodeId(n), index);
                        proof {
                            TyGroups::lemma_grows_trans(before, mid, ty_groups);
                            if ty_groups.group_tys().len() <= u32::MAX + 1 {
                                assert(index == before.group_tys().len());
                                assert(ty_groups.group_tys()[index as int] == seq![ty@]);
                                assert(ty_groups.group_tys()[index as int].subrange(start, start + k + 1) =~= ty_models(
                                    list@,
                                ).take(k + 1));
                            }
                        }
                    },
                }
                proof {
                    TyGroups::lemma_grows_trans(t_outer, before, ty_groups);
                    TyGroups::lemma_grows_trans(t2, t_outer, ty_groups);
                }
                k = k + 1;
            }
            proof {
                assert forall|j: int| 0 <= j < i + 1 && ty_groups.group_tys().len() <= u32::MAX + 1 implies ty_groups.holds_in_order(
                    #[trigger] other_nodes@[j],
                    self.failed_tys()[other_nodes@[j]],
                ) by {
                    if j < i {
                        assert(t_outer.holds_in_order(other_nodes@[j], self.failed_tys()[other_nodes@[j]]));
                        TyGroups::lemma_grows_holds(t_outer, ty_groups, other_nodes@[j], self.failed_tys()[other_nodes@[j]]);
                    } else {
                        let run = self.failed_tys()[n];
                        assert(run == ty_models(list@));
                        if run.len() > 0 {
                            let gl = ty_groups.group_tys()[ty_groups.index_map()[n] as int];
                            assert(ty_models(list@).take(k as int) =~= run);
                            assert(gl.subrange(start, start + run.len()) == run);
                        }
                    }
                }
            }
            i = i + 1;
        }
        let ghost t3 = ty_groups;
        // Any remaining node has an unknown type.
        let members = set_members(&self.nodes);
        proof {
            lemma_increasing_len(members@);
        }
        let mut i: usize = 0;
        while i < members.len()
            invariant
                i <= members@.len(),
                ty_groups.wf(),
                only ==> {
                    &&& idx0 < ty_groups.group_tys().len()
                    &&& ty_groups.group_tys()[idx0 as int].len() >= 1
                    &&& ty_groups.group_tys()[idx0 as int][0] == t0
                },
                forall|x: u32| #[trigger] assigned.contains_key(x) ==> ty_groups.index_map().contains_key(x)
                    && ty_groups.index_map()[x] == assigned[x],
                forall|j: int| 0 <= j < i ==> ty_groups.index_map().contains_key(#[trigger] members@[j]),
                forall|x: u32|
                    #[trigger] ty_groups.index_map().contains_key(x) ==> assigned.contains_key(x) || self.others@.contains_key(x)
                        || exists|j: int| 0 <= j < i && members@[j] == x,
                ty_groups.group_tys().len() <= u32::MAX + 1 ==> forall|j: int|
                    0 <= j < i && !assigned.contains_key(#[trigger] members@[j]) && !self.others@.contains_key(members@[j])
                        ==> ty_groups.group_tys()[ty_groups.index_map()[members@[j]] as int] == seq![SpecTy::Unknown],
                members@.no_duplicates(),
                t3.wf(),
                t3.grows_to(ty_groups),
                members@.len() <= 0x1_0000_0000,
                strictly_increasing(members@),
                plain ==> ty_groups.group_tys().len() == i,
                plain ==> forall|j: int|
                    0 <= j < i ==> ty_groups.index_map().contains_key(#[trigger] members@[j]) && ty_groups.index_map()[members@[j]]
                        == j,
                plain ==> forall|g: int| 0 <= g < i ==> #[trigger] ty_groups.group_tys()[g] == seq![SpecTy::Unknown],
                plain ==> assigned == Map::<u32, u32>::empty() && self.others@.dom() == Set::<u32>::empty(),
            decreases members@.len() - i,
        {
            let n = members[i];
            let ghost before = ty_groups;
            if ty_groups.index_of(NodeId(n)).is_none() {
                let index = ty_groups.insert_group(Ty::Unknown);
                let ghost mid = ty_groups;
                ty_groups.assign_node_to_index(NodeId(n), index);
                proof {
                    TyGroups::lemma_grows_trans(before, mid, ty_groups);
                    TyGroups::lemma_grows_trans(t3, before, ty_groups);
                    if plain {
                        assert(index == i);
                        assert forall|j: int| 0 <= j < i + 1 implies ty_groups.index_map().contains_key(#[trigger] members@[j])
                            && ty_groups.index_map()[members@[j]] == j by {
                            if j < i {
                                assert(members@[j] != n);
                            }
                        }
                        assert forall|g: int| 0 <= g < i + 1 implies #[trigger] ty_groups.group_tys()[g] == seq![SpecTy::Unknown] by {
                            if g < i {
                                assert(ty_groups.group_tys()[g] == before.group_tys()[g]);
                            }
                        }
                    }
                }
                proof {
                    if ty_groups.group_tys().len() <= u32::MAX + 1 {
                        assert(ty_groups.group_tys()[index as int] == seq![SpecTy::Unknown]);
                    }
                }
            } else {
                proof {
                    if !assigned.contains_key(n) && !self.others@.contains_key(n) {
                        let j = choose|j: int| 0 <= j < i && members@[j] == n;
                        assert(members@[j] == members@[i as int]);
                    }
                    if plain {
                        assert(!assigned.contains_key(n));
                        assert(!self.others@.contains_key(n));
                        assert(false);
                    }
                }
            }
            proof {
                assert forall|j: int|
                    0 <= j < i + 1 && !assigned.contains_key(#[trigger] members@[j]) && !self.others@.contains_key(members@[j])
                        && ty_groups.group_tys().len() <= u32::MAX + 1
                    implies ty_groups.group_tys()[ty_groups.index_map()[members@[j]] as int] == seq![SpecTy::Unknown] by {
                    if j < i {
                        assert(members@[j] != n);
                        assert(before.index_map().contains_key(members@[j]));
                        assert(before.index_map()[members@[j]] < before.group_tys().len());
                    }
                }
                assert forall|x: u32|
                    #[trigger] ty_groups.index_map().contains_key(x) implies assigned.contains_key(x) || self.others@.contains_key(x)
                        || exists|j: int| 0 <= j < i + 1 && members@[j] == x by {
                    if x == n {
                        assert(members@[i as int] == x);
                    } else if before.index_map().contains_key(x) {
                        if !(assigned.contains_key(x) || self.others@.contains_key(x)) {
                            let j = choose|j: int| 0 <= j < i && members@[j] == x;
                            assert(0 <= j < i + 1 && members@[j] == x);
                        }
                    }
                }
            }
            i = i + 1;
        }
        proof {
            if plain {
                assert(members@.to_set().len() == members@.len()) by {
                    members@.unique_seq_to_set();
                }
                assert forall|x: u32| #[trigger] ty_groups.index_map().contains_key(x) <==> self.node_set().contains(x) by {
                    if ty_groups.index_map().contains_key(x) {
                        let j = choose|j: int| 0 <= j < members@.len() && members@[j] == x;
                        assert(members@.to_set().contains(x));
                    } else if self.node_set().contains(x) {
                        assert(members@.to_set().contains(x));
                        assert(members@.contains(x));
                        let j = choose|j: int| 0 <= j < members@.len() && members@[j] == x;
                        assert(ty_groups.index_map().contains_key(members@[j]));
                    }
                }
                assert(ty_groups.index_map().dom() =~= self.node_set());
                assert forall|x: u32, y: u32|
                    #[trigger] ty_groups.index_map().contains_key(x) && #[trigger] ty_groups.index_map().contains_key(y) && x < y
                    implies ty_groups.index_map()[x] < ty_groups.index_map()[y] by {
                    let a = choose|j: int| 0 <= j < members@.len() && members@[j] == x;
                    let b = choose|j: int| 0 <= j < members@.len() && members@[j] == y;
                    assert(ty_groups.index_map().contains_key(members@[a]));
                    assert(ty_groups.index_map().contains_key(members@[b]));
                    if b <= a {
                        if b < a {
                            assert(members@[b] < members@[a]);
                        }
                    }
                }
            }
            assert forall|n: u32|
                #[trigger] self.failed_tys().contains_key(n) && ty_groups.group_tys().len() <= u32::MAX + 1
                implies ty_groups.holds_in_order(n, self.failed_tys()[n]) by {
                assert(other_nodes@.to_set().contains(n));
                assert(other_nodes@.contains(n));
                let j = choose|j: int| 0 <= j < other_nodes@.len() && other_nodes@[j] == n;
                assert(t3.holds_in_order(other_nodes@[j], self.failed_tys()[other_nodes@[j]]));
                TyGroups::lemma_grows_holds(t3, ty_groups, n, self.failed_tys()[n]);
            }
            assert forall|n: u32| #[trigger] self.node_set().contains(n) implies ty_groups.index_map().contains_key(n) by {
                assert(members@.to_set().contains(n));
                assert(members@.contains(n));
                let j = choose|j: int| 0 <= j < members@.len() && members@[j] == n;
                assert(ty_groups.index_map().contains_key(members@[j]));
            }
            assert forall|x: u32| #[trigger] self.key_map().contains_key(x) && self.typed_class(self.class_of(x)) implies {
                &&& assigned.contains_key(x)
                &&& assigned[x] == representatives@[self.class_of(x) as u32]
            } by {
                let g = choose|g: u32| #[trigger] self.groups@.contains_key(g) && root(e, g as int) == self.class_of(x);
                assert(group_keys@.to_set().contains(g));
                assert(group_keys@.contains(g));
                let j = choose|j: int| 0 <= j < group_keys@.len() && group_keys@[j] == g;
                assert(representatives@.contains_key(root(e, group_keys@[j] as int) as u32));
                assert(nodes_with_keys@.to_set().contains(x));
                assert(nodes_with_keys@.contains(x));
                let k = choose|k: int| 0 <= k < nodes_with_keys@.len() && nodes_with_keys@[k] == x;
                assert(representatives@.contains_key(self.class_of(nodes_with_keys@[k]) as u32));
            }
            TyGroups::lemma_grows_trans(t2, t3, ty_groups);
            assert forall|x: u32|
                #[trigger] self.key_map().contains_key(x) && self.typed_class(self.class_of(x)) && ty_groups.group_tys().len()
                    <= u32::MAX + 1 implies {
                &&& ty_groups.group_tys()[ty_groups.index_map()[x] as int].len() >= 1
                &&& self.first_type_fits(self.class_of(x), ty_groups.group_tys()[ty_groups.index_map()[x] as int][0])
            } by {
                lemma_root(e, self.key_map()[x] as int);
                let c = self.class_of(x) as u32;
                assert(c as int == self.class_of(x));
                assert(assigned.contains_key(x) && assigned[x] == representatives@[c]);
                assert(representatives@.contains_key(c));
                let idx = representatives@[c] as int;
                assert(ty_groups.index_map()[x] == assigned[x]);
                assert(t1.group_tys()[idx].len() >= 1);
                assert(t2.group_tys()[idx] == t1.group_tys()[idx]);
                assert(t2.group_tys()[idx].is_prefix_of(ty_groups.group_tys()[idx]));
                assert(ty_groups.group_tys()[idx][0] == t2.group_tys()[idx][0]) by {
                    assert(t2.group_tys()[idx] == ty_groups.group_tys()[idx].subrange(0, t2.group_tys()[idx].len() as int));
                }
            }
            assert forall|n: u32|
                #[trigger] self.node_set().contains(n) && !self.failed_nodes().contains(n) && !(self.key_map().contains_key(n)
                    && self.typed_class(self.class_of(n))) && ty_groups.group_tys().len() <= u32::MAX + 1
                implies ty_groups.group_tys()[ty_groups.index_map()[n] as int] == seq![SpecTy::Unknown] by {
                assert(members@.to_set().contains(n));
                let j = choose|j: int| 0 <= j < members@.len() && members@[j] == n;
                assert(!assigned.contains_key(n));
            }
            assert forall|x: u32, t: SpecTy| #[trigger] self.typed_as(x, t) && !t.has_of() implies {
                &&& ty_groups.index_map().contains_key(x)
                &&& ty_groups.group_tys()[ty_groups.index_map()[x] as int].len() >= 1
                &&& ty_groups.group_tys()[ty_groups.index_map()[x] as int][0] == t
            } by {
                let k = choose|k: u32|
                    {
                        &&& #[trigger] self.groups@.contains_key(k)
                        &&& self.groups@.dom() == Set::<u32>::empty().insert(k)
                        &&& root(self.entries(), k as int) == self.class_of(x)
                        &&& self.groups@[k]@ == t
                    };
                assert(only);
                assert(self.groups@.dom().contains(k0));
                assert(k0 == k);
                assert(self.typed_class(self.class_of(x)));
                assert(assigned.contains_key(x));
            }
        }
        ty_groups
    }
}

} // verus!

verus! {

impl Solver {
    /// `new` follows from `self` by some work of the checker, whatever
    /// budget it had: the state stays consistent, groups only merge, no node
    /// loses its key, and the reported nodes only grow.
    pub closed spec fn grows_into(self, new: Solver) -> bool {
        &&& new.inv()
        &&& self.coarsens(new)
        &&& self.node_set().subset_of(new.node_set())
    }

    /// Growth composes: what two successive calls into the checker give
    /// grows out of the state before the first.
    pub proof fn lemma_grows_trans(a: Solver, b: Solver, c: Solver)
        requires
            a.grows_into(b),
            b.grows_into(c),
        ensures
            a.grows_into(c),
    {
        Solver::lemma_coarsens_trans(a, b, c);
    }

    /// Nodes that share a group keep sharing it through every later call
    /// into the checker.
    pub proof fn lemma_grouped_stay_grouped(a: Solver, b: Solver, x: u32, y: u32)
        requires
            a.grows_into(b),
            a.same_group(x, y),
        ensures
            b.same_group(x, y),
    {
        Solver::lemma_same_group_coarsen(a, b, x, y);
    }

    /// Nodes that share a group share its type.
    pub proof fn lemma_group_shares_type(s: Solver, x: u32, y: u32, t: SpecTy)
        requires
            s.typed_as(x, t),
            s.same_group(x, y) || s.same_group(y, x),
        ensures
            s.typed_as(y, t),
    {
    }

    /// This state, with progress recorded.
    pub closed spec fn with_progress(self) -> Solver {
        Solver { progress: Progress::Progressed, ..self }
    }

    /// Whether the last call into the checker ran out of budget or depth
    /// before it had solved every constraint.
    pub closed spec fn ran_out(self) -> bool {
        self.exhausted
    }

    /// Whether a limit on nesting, `MAX_DEPTH` for types or
    /// `MAX_BOUND_DEPTH` for bounds, was reached since the last call into
    /// the checker began.
    pub closed spec fn depth_limit_reached(self) -> bool {
        self.depth_limit_hit@
    }

    /// The checker runs out only when its budget is spent or a limit on
    /// nesting was reached.
    pub proof fn lemma_ran_out(self)
        requires
            self.inv(),
        ensures
            self.ran_out() ==> self.budget_left() == 0 || self.depth_limit_reached(),
    {
    }
}

/// Checks the types of a program: each call adds nodes or constraints, and
/// the groups of nodes that share a type can be read at any time.
pub struct Typechecker<P: TypeProvider> {
    provider: Recorded<P>,
    solver: Solver,
}

impl<P: TypeProvider> Typechecker<P> {
    /// The state of the checker.
    pub closed spec fn state(self) -> Solver {
        self.solver
    }

    /// The calls that the checker made on its provider, in order.
    pub closed spec fn provider_calls(self) -> Seq<ProviderCall> {
        self.provider.calls()
    }

    /// The state is consistent.
    pub open spec fn wf(self) -> bool {
        self.state().inv()
    }

    /// A checker with no nodes and no constraints that asks `provider`
    /// about the program.
    pub fn with_provider(provider: P) -> (t: Self)
        ensures
            t.wf(),
            t.state().node_set() == Set::<u32>::empty(),
            t.state().key_map() == Map::<u32, u32>::empty(),
            t.state().queue_models() == Seq::<SpecConstraint>::empty(),
            t.state().untyped(),
            t.state().failed_nodes() == Set::<u32>::empty(),
            t.provider_calls() == Seq::<ProviderCall>::empty(),
    {
        Typechecker { provider: Recorded::new(provider), solver: Solver::new() }
    }

    /// Adds `nodes` to the nodes whose types are reported.
    pub fn insert_nodes(&mut self, nodes: Vec<NodeId>)
        requires
            old(self).wf(),
        ensures
            final(self).wf(),
            old(self).state().grows_into(final(self).state()),
            final(self).state().coarsens(old(self).state()),
            final(self).state().key_map() == old(self).state().key_map(),
            final(self).state().node_set() == old(self).state().node_set().union(
                nodes@.map_values(|n: NodeId| n.0).to_set(),
            ),
            final(self).state().untyped() == old(self).state().untyped(),
            final(self).state().queue_models() == old(self).state().queue_models(),
            final(self).state().failed_nodes() == old(self).state().failed_nodes(),
    {
        let ghost s0 = self.solver;
        let mut i: usize = 0;
        while i < nodes.len()
            invariant
                i <= nodes@.len(),
                self.solver.inv(),
                self.solver.unify == s0.unify,
                self.solver.keys == s0.keys,
                self.solver.groups == s0.groups,
                self.solver.queue == s0.queue,
                self.solver.budget == s0.budget,
                self.solver.others == s0.others,
                self.solver.nodes@ == s0.nodes@.union(nodes@.take(i as int).map_values(|n: NodeId| n.0).to_set()),
            decreases nodes@.len() - i,
        {
            let ghost before = self.solver.nodes@;
            self.solver.nodes.insert(nodes[i].0);
            proof {
                let taken = nodes@.take(i as int).map_values(|n: NodeId| n.0);
                let next = nodes@.take(i + 1).map_values(|n: NodeId| n.0);
                assert(next =~= taken.push(nodes@[i as int].0));
                taken.lemma_push_to_set_commute(nodes@[i as int].0);
                assert(next.to_set() =~= taken.to_set().insert(nodes@[i as int].0));
                assert(self.solver.nodes@ =~= s0.nodes@.union(next.to_set()));
            }
            i = i + 1;
        }
        proof {
            assert(nodes@.take(nodes@.len() as int) =~= nodes@);
            Solver::lemma_same_groups(s0, self.solver);
        }
    }

    /// Adds `constraints` and solves them with everything known so far,
    /// within a fresh budget of steps.
    ///
    /// Groups only merge and reported nodes stay reported. The checker runs
    /// out only when the budget is spent or a limit on nesting is reached. On a checker whose
    /// groups have no type yet and that ran within its budget: constraints
    /// that relate nodes put each pair in one group; when they come with one
    /// constraint that gives a node a type referring to no other node, the
    /// relations are solved first and that type becomes the type of the
    /// node's group; and an instantiation of one such constraint, whose
    /// parameters all have substitutions, gives the node the type with its
    /// parameters replaced.
    pub fn insert_constraints(&mut self, constraints: Vec<Constraint>)
        requires
            old(self).wf(),
            constraints_wf(constraints@),
            forall|i: int| 0 <= i < constraints@.len() ==> (#[trigger] constraints@[i]).model().is_flat(),
        ensures
            final(self).wf(),
            old(self).state().grows_into(final(self).state()),
            calls_extend(old(self).provider_calls(), final(self).provider_calls()),
            final(self).state().queue_models().len() == 0 || final(self).state().ran_out(),
            old(self).state().untyped() && old(self).state().queue_models().len() == 0 && all_node_pairs(
                constraint_models(constraints@),
            ) && 3 * constraints@.len() + 3 <= WORK_LIMIT ==> {
                &&& !final(self).state().ran_out()
                &&& forall|i: int|
                    0 <= i < constraints@.len() ==> final(self).state().joins_constraint(
                        #[trigger] constraint_models(constraints@)[i],
                    )
            },
            final(self).state().ran_out() ==> final(self).state().budget_left() == 0
                || final(self).state().depth_limit_reached(),
            old(self).state().untyped() && old(self).state().queue_models().len() == 0 && !final(self).state().ran_out()
                && all_node_pairs(constraint_models(constraints@)) ==> forall|i: int|
                0 <= i < constraints@.len() ==> final(self).state().joins_constraint(
                    #[trigger] constraint_models(constraints@)[i],
                ),
            forall|p: int|
                old(self).state().untyped() && old(self).state().queue_models().len() == 0
                    && !final(self).state().ran_out() && #[trigger] pairs_and_type(constraint_models(constraints@), p)
                    ==> final(self).state().solved_pairs_and_type(constraint_models(constraints@), p),
            old(self).state().untyped() && old(self).state().queue_models().len() == 0
                && !final(self).state().ran_out() && single_type_instantiation(constraint_models(constraints@))
                ==> final(self).state().typed_as(
                instantiated_node(constraint_models(constraints@)).0,
                instantiated_type(constraint_models(constraints@)),
            ),
    {
        let ghost s0 = self.solver;
        self.solver.budget = WORK_LIMIT;
        self.solver.exhausted = false;
        self.solver.depth_limit_hit = Ghost(false);
        let ghost s1 = self.solver;
        proof {
            Solver::lemma_same_groups(s0, s1);
        }
        self.solver.insert_constraints_at(constraints, &mut self.provider, MAX_BOUND_DEPTH);
        proof {
            lemma_constraint_models(self.solver.queue@);
        }
    }

    /// The nodes grouped by their types (see `Solver::to_ty_groups`).
    pub fn to_ty_groups(&self) -> (r: TyGroups)
        requires
            self.wf(),
        ensures
            r.wf(),
            forall|n: u32| #[trigger] self.state().node_set().contains(n) ==> r.index_map().contains_key(n),
            forall|x: u32|
                #[trigger] self.state().key_map().contains_key(x) && self.state().typed_class(self.state().class_of(x))
                    ==> r.index_map().contains_key(x),
            forall|x: u32, y: u32|
                self.state().key_map().contains_key(x) && self.state().key_map().contains_key(y)
                    && self.state().class_of(x) == self.state().class_of(y) && self.state().typed_class(
                    self.state().class_of(x),
                ) ==> #[trigger] r.index_map()[x] == #[trigger] r.index_map()[y],
            forall|x: u32, t: SpecTy|
                #[trigger] self.state().typed_as(x, t) && !t.has_of() ==> {
                    &&& r.index_map().contains_key(x)
                    &&& r.group_tys()[r.index_map()[x] as int].len() >= 1
                    &&& r.group_tys()[r.index_map()[x] as int][0] == t
                },
            forall|n: u32|
                #[trigger] self.state().node_set().contains(n) && !self.state().failed_nodes().contains(n) && !(
                self.state().key_map().contains_key(n) && self.state().typed_class(self.state().class_of(n)))
                    && r.group_tys().len() <= u32::MAX + 1 ==> r.group_tys()[r.index_map()[n] as int]
                    == seq![SpecTy::Unknown],
            forall|n: u32|
                #[trigger] self.state().failed_tys().contains_key(n) && r.group_tys().len() <= u32::MAX + 1
                    ==> r.holds_in_order(n, self.state().failed_tys()[n]),
            forall|x: u32|
                #[trigger] self.state().key_map().contains_key(x) && self.state().typed_class(self.state().class_of(x))
                    && r.group_tys().len() <= u32::MAX + 1 ==> {
                    &&& r.group_tys()[r.index_map()[x] as int].len() >= 1
                    &&& self.state().first_type_fits(
                        self.state().class_of(x),
                        r.group_tys()[r.index_map()[x] as int][0],
                    )
                },
            self.state().untyped() && self.state().failed_nodes() == Set::<u32>::empty() ==> {
                &&& r.group_tys().len() == self.state().node_set().len()
                &&& r.index_map().dom() == self.state().node_set()
                &&& forall|x: u32, y: u32|
                    #[trigger] r.index_map().contains_key(x) && #[trigger] r.index_map().contains_key(y) && x < y
                        ==> r.index_map()[x] < r.index_map()[y]
                &&& forall|g: int| 0 <= g < r.group_tys().len() ==> #[trigger] r.group_tys()[g] == seq![SpecTy::Unknown]
            },
    {
        self.solver.to_ty_groups()
    }
}

} // verus!
