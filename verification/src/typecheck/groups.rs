//! The result of type checking: nodes grouped by the types they share.

use crate::trace::NodeId;
use crate::typecheck::constraints::{clone_tys, lemma_ty_models, ty_models, SpecTy, Ty};
use crate::typecheck::ordered::{map_keys, strictly_increasing};
use std::collections::BTreeMap;
use vstd::prelude::*;

verus! {

/// `run` stands in `list` as consecutive entries.
pub open spec fn holds_run(list: Seq<SpecTy>, run: Seq<SpecTy>) -> bool {
    exists|off: int| 0 <= off && off + run.len() <= list.len() && #[trigger] list.subrange(off, off + run.len()) == run
}

/// Groups of nodes, each with the types that its nodes were found to have:
/// one type when they agree, more when some failed to unify.
pub struct TyGroups {
    /// The group of each node, by the node's number.
    indices: BTreeMap<u32, u32>,
    /// The types of each group, by the group's index.
    tys: Vec<Vec<Ty>>,
}

impl TyGroups {
    /// The index of each node's group, by the node's number.
    pub closed spec fn index_map(self) -> Map<u32, u32> {
        self.indices@
    }

    /// The types of each group, in order of the group's index.
    pub closed spec fn group_tys(self) -> Seq<Seq<SpecTy>> {
        Seq::new(self.tys@.len(), |i: int| ty_models(self.tys@[i]@))
    }

    /// Every node belongs to a group that exists.
    pub open spec fn wf(self) -> bool {
        forall|n: u32| #[trigger] self.index_map().contains_key(n) ==> self.index_map()[n] < self.group_tys().len()
    }

    /// From `self` to `other`, every group keeps its types and may gain more
    /// at the end, groups may be added after the last, and every node keeps
    /// its group.
    pub open spec fn grows_to(self, other: TyGroups) -> bool {
        &&& self.group_tys().len() <= other.group_tys().len()
        &&& forall|g: int| 0 <= g < self.group_tys().len() ==> #[trigger] self.group_tys()[g].is_prefix_of(other.group_tys()[g])
        &&& forall|x: u32| #[trigger] self.index_map().contains_key(x) ==> other.index_map().contains_key(x)
            && other.index_map()[x] == self.index_map()[x]
    }

    /// The group of `node` holds the types of `run` one after another, or
    /// `run` is empty.
    pub open spec fn holds_in_order(self, node: u32, run: Seq<SpecTy>) -> bool {
        run.len() > 0 ==> {
            &&& self.index_map().contains_key(node)
            &&& holds_run(self.group_tys()[self.index_map()[node] as int], run)
        }
    }

    pub proof fn lemma_grows_refl(a: TyGroups)
        ensures
            a.grows_to(a),
    {
        assert forall|g: int| 0 <= g < a.group_tys().len() implies #[trigger] a.group_tys()[g].is_prefix_of(a.group_tys()[g]) by {
            assert(a.group_tys()[g] =~= a.group_tys()[g].subrange(0, a.group_tys()[g].len() as int));
        }
    }

    pub proof fn lemma_grows_trans(a: TyGroups, b: TyGroups, c: TyGroups)
        requires
            a.grows_to(b),
            b.grows_to(c),
        ensures
            a.grows_to(c),
    {
        assert forall|g: int| 0 <= g < a.group_tys().len() implies #[trigger] a.group_tys()[g].is_prefix_of(c.group_tys()[g]) by {
            let x = a.group_tys()[g];
            let y = b.group_tys()[g];
            let z = c.group_tys()[g];
            assert(x.is_prefix_of(y));
            assert(y.is_prefix_of(z));
            assert(x =~= z.subrange(0, x.len() as int)) by {
                assert forall|i: int| 0 <= i < x.len() implies x[i] == z[i] by {
                    assert(x[i] == y.subrange(0, x.len() as int)[i]);
                    assert(y[i] == z.subrange(0, y.len() as int)[i]);
                }
            }
        }
    }

    /// What a group holds in order stays as it grows.
    pub proof fn lemma_grows_holds(a: TyGroups, b: TyGroups, node: u32, run: Seq<SpecTy>)
        requires
            a.wf(),
            a.grows_to(b),
            a.holds_in_order(node, run),
        ensures
            b.holds_in_order(node, run),
    {
        if run.len() > 0 {
            let g = a.index_map()[node] as int;
            let x = a.group_tys()[g];
            let z = b.group_tys()[g];
            assert(x.is_prefix_of(z));
            let off = choose|off: int| 0 <= off && off + run.len() <= x.len() && #[trigger] x.subrange(off, off + run.len()) == run;
            assert(z.subrange(off, off + run.len()) =~= run) by {
                assert forall|i: int| 0 <= i < run.len() implies z.subrange(off, off + run.len())[i] == run[i] by {
                    assert(x.subrange(off, off + run.len())[i] == x[off + i]);
                    assert(z.subrange(0, x.len() as int)[off + i] == z[off + i]);
                }
            }
        }
    }

    /// No groups.
    pub fn new() -> (g: TyGroups)
        ensures
            g.wf(),
            g.index_map() == Map::<u32, u32>::empty(),
            g.group_tys() == Seq::<Seq<SpecTy>>::empty(),
    {
        let g = TyGroups { indices: BTreeMap::new(), tys: Vec::new() };
        proof {
            assert(g.group_tys() =~= Seq::<Seq<SpecTy>>::empty());
        }
        g
    }

    /// Adds a group whose only type is `ty` and returns its index, the number
    /// of groups before, as a `u32`.
    pub fn insert_group(&mut self, ty: Ty) -> (index: u32)
        requires
            old(self).wf(),
        ensures
            final(self).wf(),
            index as int <= old(self).group_tys().len(),
            old(self).group_tys().len() <= u32::MAX ==> index == old(self).group_tys().len(),
            final(self).group_tys() == old(self).group_tys().push(seq![ty@]),
            final(self).index_map() == old(self).index_map(),
            old(self).grows_to(*final(self)),
    {
        #[verifier::truncate]
        let index = self.tys.len() as u32;
        let mut group: Vec<Ty> = Vec::new();
        group.push(ty);
        let ghost old_groups = self.group_tys();
        let ghost old_tys = self.tys@;
        self.tys.push(group);
        proof {
            lemma_ty_models(group@);
            assert(ty_models(group@) =~= seq![ty@]);
            assert forall|i: int| 0 <= i < old_tys.len() implies self.tys@[i] == old_tys[i] by {}
            assert(self.group_tys() =~= old_groups.push(seq![ty@]));
            assert forall|n: u32| #[trigger] self.index_map().contains_key(n) implies self.index_map()[n] < self.group_tys().len() by {
                assert(old(self).index_map().contains_key(n));
            }
            assert forall|g: int| 0 <= g < old_groups.len() implies #[trigger] old_groups[g].is_prefix_of(self.group_tys()[g]) by {
                assert(old_groups[g] =~= self.group_tys()[g].subrange(0, old_groups[g].len() as int));
            }
        }
        index
    }

    /// Puts `node` in the group at `index`.
    pub fn assign_node_to_index(&mut self, node: NodeId, index: u32)
        requires
            old(self).wf(),
            index < old(self).group_tys().len(),
        ensures
            final(self).wf(),
            final(self).index_map() == old(self).index_map().insert(node.0, index),
            final(self).group_tys() == old(self).group_tys(),
            !old(self).index_map().contains_key(node.0) ==> old(self).grows_to(*final(self)),
    {
        self.indices.insert(node.0, index);
        proof {
            assert forall|n: u32| #[trigger] self.index_map().contains_key(n) implies self.index_map()[n] < self.group_tys().len() by {
                if n != node.0 {
                    assert(old(self).index_map().contains_key(n));
                }
            }
        }
    }

    /// The index of `node`'s group, if it is in one.
    pub fn index_of(&self, node: NodeId) -> (r: Option<u32>)
        ensures
            r == (if self.index_map().contains_key(node.0) {
                Some(self.index_map()[node.0])
            } else {
                None
            }),
    {
        match self.indices.get(&node.0) {
            Some(index) => Some(*index),
            None => None,
        }
    }

    /// The types of the group at `index`.
    pub fn tys_at(&self, index: u32) -> (r: &[Ty])
        requires
            index < self.group_tys().len(),
        ensures
            ty_models(r@) == self.group_tys()[index as int],
    {
        self.tys[index as usize].as_slice()
    }

    /// The number of groups.
    pub(crate) fn group_count(&self) -> (n: usize)
        ensures
            n == self.group_tys().len(),
    {
        self.tys.len()
    }

    /// The types of the group at position `i`.
    pub(crate) fn tys_of_group(&self, i: usize) -> (r: &Vec<Ty>)
        requires
            i < self.group_tys().len(),
        ensures
            ty_models(r@) == self.group_tys()[i as int],
    {
        &self.tys[i]
    }

    /// Adds `ty` to the types of the group at `index`.
    pub fn push_ty_at(&mut self, index: u32, ty: Ty)
        requires
            index < old(self).group_tys().len(),
            old(self).wf(),
        ensures
            final(self).wf(),
            final(self).index_map() == old(self).index_map(),
            final(self).group_tys() == old(self).group_tys().update(
                index as int,
                old(self).group_tys()[index as int].push(ty@),
            ),
            old(self).grows_to(*final(self)),
    {
        let ghost old_groups = self.group_tys();
        let mut group = clone_tys(&self.tys[index as usize]);
        let ghost before = group@;
        group.push(ty);
        self.tys.set(index as usize, group);
        proof {
            assert(group@.drop_last() =~= before);
            assert(ty_models(group@) == ty_models(before).push(ty@));
            assert(ty_models(group@) =~= old_groups[index as int].push(ty@));
            assert(self.group_tys() =~= old_groups.update(index as int, old_groups[index as int].push(ty@)));
            assert forall|n: u32| #[trigger] self.index_map().contains_key(n) implies self.index_map()[n] < self.group_tys().len() by {
                assert(old(self).index_map().contains_key(n));
            }
            assert forall|g: int| 0 <= g < old_groups.len() implies #[trigger] old_groups[g].is_prefix_of(self.group_tys()[g]) by {
                assert(old_groups[g] =~= self.group_tys()[g].subrange(0, old_groups[g].len() as int));
            }
        }
    }

    /// The nodes of the group at `index`, in increasing order.
    #[verifier::loop_isolation(false)]
    pub fn nodes_in_group(&self, index: u32) -> (r: Vec<NodeId>)
        ensures
            forall|n: u32| #[trigger] node_numbers(r@).contains(n) <==> (self.index_map().contains_key(n)
                && self.index_map()[n] == index),
            strictly_increasing(node_numbers(r@)),
    {
        let keys = map_keys(&self.indices);
        let mut out: Vec<NodeId> = Vec::new();
        let mut i: usize = 0;
        while i < keys.len()
            invariant
                i <= keys@.len(),
                node_numbers(out@) == with_index(keys@.take(i as int), self.index_map(), index),
            decreases keys@.len() - i,
        {
            let node = keys[i];
            proof {
                assert(keys@.to_set().contains(node));
                assert(keys@.take(i + 1).drop_last() =~= keys@.take(i as int));
            }
            let ghost before = out@;
            if *self.indices.get(&node).unwrap() == index {
                out.push(NodeId(node));
                proof {
                    assert(out@.drop_last() =~= before);
                    assert(node_numbers(out@) =~= node_numbers(before).push(node));
                }
            }
            i = i + 1;
        }
        proof {
            assert(keys@.take(keys@.len() as int) =~= keys@);
            lemma_with_index(keys@, self.index_map(), index);
            let w = with_index(keys@, self.index_map(), index);
            assert forall|n: u32| #[trigger] node_numbers(out@).contains(n) <==> (self.index_map().contains_key(n)
                && self.index_map()[n] == index) by {
                if self.index_map().contains_key(n) && self.index_map()[n] == index {
                    assert(keys@.to_set().contains(n));
                    assert(keys@.contains(n));
                    let k = choose|k: int| 0 <= k < keys@.len() && keys@[k] == n;
                    assert(w.contains(keys@[k]));
                }
                if w.contains(n) {
                    let j = choose|j: int| 0 <= j < w.len() && w[j] == n;
                    assert(keys@.contains(w[j]));
                    assert(keys@.to_set().contains(n));
                }
            }
        }
        out
    }

    /// Every node that belongs to a group, in increasing order.
    pub fn nodes(&self) -> (r: Vec<NodeId>)
        ensures
            forall|n: u32| #[trigger] node_numbers(r@).contains(n) <==> self.index_map().contains_key(n),
            strictly_increasing(node_numbers(r@)),
    {
        let keys = map_keys(&self.indices);
        let mut out: Vec<NodeId> = Vec::new();
        let mut i: usize = 0;
        while i < keys.len()
            invariant
                i <= keys@.len(),
                out@.len() == i,
                forall|j: int| 0 <= j < i ==> (#[trigger] out@[j]).0 == keys@[j],
            decreases keys@.len() - i,
        {
            out.push(NodeId(keys[i]));
            i = i + 1;
        }
        proof {
            assert(node_numbers(out@) =~= keys@);
            assert forall|n: u32| #[trigger] node_numbers(out@).contains(n) <==> self.index_map().contains_key(n) by {
                if self.index_map().contains_key(n) {
                    assert(keys@.to_set().contains(n));
                }
                if keys@.contains(n) {
                    assert(keys@.to_set().contains(n));
                }
            }
        }
        out
    }

    /// Each group's index with its types, in order of the index.
    pub fn groups(&self) -> (r: Vec<(u32, Vec<Ty>)>)
        requires
            self.group_tys().len() <= u32::MAX + 1,
        ensures
            r@.len() == self.group_tys().len(),
            forall|i: int| 0 <= i < r@.len() ==> (#[trigger] r@[i]).0 == i && ty_models(r@[i].1@) == self.group_tys()[i],
    {
        let mut out: Vec<(u32, Vec<Ty>)> = Vec::new();
        let mut i: usize = 0;
        while i < self.tys.len()
            invariant
                i <= self.tys@.len(),
                self.tys@.len() <= u32::MAX + 1,
                out@.len() == i,
                forall|j: int| 0 <= j < i ==> (#[trigger] out@[j]).0 == j && ty_models(out@[j].1@) == self.group_tys()[j],
            decreases self.tys@.len() - i,
        {
            let tys = clone_tys(&self.tys[i]);
            out.push((i as u32, tys));
            i = i + 1;
        }
        out
    }
}

/// The numbers of a sequence of nodes.
pub open spec fn node_numbers(nodes: Seq<NodeId>) -> Seq<u32> {
    nodes.map_values(|n: NodeId| n.0)
}

/// The keys of `keys` that `m` sends to `index`, in their order.
pub open spec fn with_index(keys: Seq<u32>, m: Map<u32, u32>, index: u32) -> Seq<u32>
    decreases keys.len(),
{
    if keys.len() == 0 {
        Seq::empty()
    } else if m[keys.last()] == index {
        with_index(keys.drop_last(), m, index).push(keys.last())
    } else {
        with_index(keys.drop_last(), m, index)
    }
}

/// The keys that `with_index` keeps are those of `keys` that `m` sends to
/// `index`, and they keep the order of `keys`.
pub proof fn lemma_with_index(keys: Seq<u32>, m: Map<u32, u32>, index: u32)
    ensures
        forall|j: int| 0 <= j < with_index(keys, m, index).len() ==> keys.contains(
            #[trigger] with_index(keys, m, index)[j],
        ) && m[with_index(keys, m, index)[j]] == index,
        forall|k: int| 0 <= k < keys.len() && m[#[trigger] keys[k]] == index ==> with_index(keys, m, index).contains(keys[k]),
        strictly_increasing(keys) ==> strictly_increasing(with_index(keys, m, index)),
    decreases keys.len(),
{
    if keys.len() > 0 {
        let d = keys.drop_last();
        lemma_with_index(d, m, index);
        let w = with_index(keys, m, index);
        let wd = with_index(d, m, index);
        let last = keys.last();
        assert(w == (if m[last] == index {
            wd.push(last)
        } else {
            wd
        }));
        assert forall|j: int| 0 <= j < w.len() implies keys.contains(#[trigger] w[j]) && m[w[j]] == index by {
            if j < wd.len() {
                assert(w[j] == wd[j]);
                assert(d.contains(wd[j]));
                let i = choose|i: int| 0 <= i < d.len() && d[i] == wd[j];
                assert(keys[i] == w[j]);
            } else {
                assert(keys[keys.len() - 1] == w[j]);
            }
        }
        assert forall|k: int| 0 <= k < keys.len() && m[#[trigger] keys[k]] == index implies w.contains(keys[k]) by {
            if k == keys.len() - 1 {
                assert(w[w.len() - 1] == keys[k]);
            } else {
                assert(d[k] == keys[k]);
                assert(wd.contains(d[k]));
                let i = choose|i: int| 0 <= i < wd.len() && wd[i] == d[k];
                assert(w[i] == wd[i]);
            }
        }
        if strictly_increasing(keys) {
            assert(strictly_increasing(d));
            assert forall|a: int, b: int| 0 <= a < b < w.len() implies w[a] < w[b] by {
                if b < wd.len() {
                    assert(w[a] == wd[a] && w[b] == wd[b]);
                } else {
                    assert(w[a] == wd[a]);
                    assert(d.contains(wd[a]));
                    let k = choose|k: int| 0 <= k < d.len() && d[k] == wd[a];
                    assert(keys[k] == wd[a]);
                }
            }
        }
    }
}

impl Default for TyGroups {
    fn default() -> (g: Self)
        ensures
            g.wf(),
            g.index_map() == Map::<u32, u32>::empty(),
            g.group_tys() == Seq::<Seq<SpecTy>>::empty(),
    {
        TyGroups::new()
    }
}

} // verus!
