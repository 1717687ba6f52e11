//! The facts that type checking adds to each expression node: the types of
//! its group, whether it had to be given the unknown type, and whether all
//! its types are incomplete.

use crate::trace::NodeId;
use crate::typecheck::constraints::{lemma_ty_models, ty_models, SpecTy, Ty};
use crate::typecheck::groups::TyGroups;
use std::collections::BTreeSet;
use vstd::prelude::*;

verus! {

/// A fact about the type of an expression node.
#[derive(Debug, PartialEq)]
pub enum TypeFact {
    /// The node was in no group, and was given one with the unknown type.
    UnknownType,
    /// One of the types of the node's group.
    Type(Ty),
    /// Every type of the node's group refers to some node's type.
    IncompleteType,
}

/// The mathematical value of a [`TypeFact`].
pub enum SpecTypeFact {
    UnknownType,
    Type(SpecTy),
    IncompleteType,
}

impl TypeFact {
    pub open spec fn model(self) -> SpecTypeFact {
        match self {
            TypeFact::UnknownType => SpecTypeFact::UnknownType,
            TypeFact::Type(ty) => SpecTypeFact::Type(ty@),
            TypeFact::IncompleteType => SpecTypeFact::IncompleteType,
        }
    }
}

/// The models of a sequence of facts.
pub open spec fn fact_models(facts: Seq<TypeFact>) -> Seq<SpecTypeFact> {
    facts.map_values(|f: TypeFact| f.model())
}

/// Every type of `tys` refers to some node's type.
pub open spec fn all_incomplete(tys: Seq<SpecTy>) -> bool {
    forall|k: int| 0 <= k < tys.len() ==> #[trigger] tys[k].has_of()
}

/// The facts of a node whose group has the types `tys`: first
/// `UnknownType` when the node was just given its group, then each type in
/// order, then `IncompleteType` when every type is incomplete.
pub open spec fn facts_for(fresh: bool, tys: Seq<SpecTy>) -> Seq<SpecTypeFact> {
    (if fresh {
        seq![SpecTypeFact::UnknownType]
    } else {
        Seq::empty()
    }) + tys.map_values(|t: SpecTy| SpecTypeFact::Type(t)) + (if all_incomplete(tys) {
        seq![SpecTypeFact::IncompleteType]
    } else {
        Seq::empty()
    })
}

/// `nodes[i]` is an expression node, not listed before, that had no group in
/// `groups`: it is given a group of its own.
pub open spec fn fresh_at(groups: Map<u32, u32>, nodes: Seq<NodeId>, definitions: Set<u32>, i: int) -> bool {
    &&& !definitions.contains(nodes[i].0)
    &&& !groups.contains_key(nodes[i].0)
    &&& forall|j: int| 0 <= j < i ==> nodes[j].0 != nodes[i].0
}

/// The facts of the types of `nodes`, one list per node: none for a
/// definition, and for each other node the facts of its group's types.
/// A node in no group is first given a group of its own whose type is
/// unknown; the other groups stay as they were.
#[verifier::loop_isolation(false)]
pub fn type_facts(ty_groups: &mut TyGroups, nodes: &Vec<NodeId>, definitions: &BTreeSet<u32>) -> (facts: Vec<
    Vec<TypeFact>,
>)
    requires
        old(ty_groups).wf(),
    ensures
        final(ty_groups).wf(),
        old(ty_groups).grows_to(*final(ty_groups)),
        forall|g: int| 0 <= g < old(ty_groups).group_tys().len() ==> #[trigger] final(ty_groups).group_tys()[g] == old(ty_groups).group_tys()[g],
        facts@.len() == nodes@.len(),
        forall|i: int| 0 <= i < nodes@.len() && definitions@.contains(nodes@[i].0) ==> (#[trigger] facts@[i])@.len() == 0,
        forall|i: int|
            0 <= i < nodes@.len() && !definitions@.contains(#[trigger] nodes@[i].0) ==> final(ty_groups).index_map().contains_key(nodes@[i].0),
        forall|n: u32|
            #[trigger] final(ty_groups).index_map().contains_key(n) ==> old(ty_groups).index_map().contains_key(n)
                || exists|i: int| 0 <= i < nodes@.len() && nodes@[i].0 == n && !definitions@.contains(n),
        final(ty_groups).group_tys().len() <= u32::MAX + 1 ==> forall|i: int|
            0 <= i < nodes@.len() && !definitions@.contains(nodes@[i].0) ==> fact_models((#[trigger] facts@[i])@)
                == facts_for(
                fresh_at(old(ty_groups).index_map(), nodes@, definitions@, i),
                final(ty_groups).group_tys()[final(ty_groups).index_map()[nodes@[i].0] as int],
            ),
        final(ty_groups).group_tys().len() <= u32::MAX + 1 ==> forall|i: int|
            0 <= i < nodes@.len() && #[trigger] fresh_at(old(ty_groups).index_map(), nodes@, definitions@, i)
                ==> final(ty_groups).group_tys()[final(ty_groups).index_map()[nodes@[i].0] as int] == seq![
                SpecTy::Unknown,
            ],
{
    let ghost g0 = *ty_groups;
    let mut facts: Vec<Vec<TypeFact>> = Vec::new();
    let mut i: usize = 0;
    proof {
        TyGroups::lemma_grows_refl(g0);
    }
    while i < nodes.len()
        invariant
            i <= nodes@.len(),
            facts@.len() == i,
            ty_groups.wf(),
            g0.grows_to(*ty_groups),
            forall|g: int| 0 <= g < g0.group_tys().len() ==> #[trigger] ty_groups.group_tys()[g] == g0.group_tys()[g],
            forall|j: int| 0 <= j < i && definitions@.contains(nodes@[j].0) ==> (#[trigger] facts@[j])@.len() == 0,
            forall|j: int|
                0 <= j < i && !definitions@.contains(#[trigger] nodes@[j].0) ==> ty_groups.index_map().contains_key(
                    nodes@[j].0,
                ),
            forall|n: u32|
                #[trigger] ty_groups.index_map().contains_key(n) ==> g0.index_map().contains_key(n) || exists|j: int|
                    0 <= j < i && nodes@[j].0 == n && !definitions@.contains(n),
            ty_groups.group_tys().len() <= u32::MAX + 1 ==> forall|j: int|
                0 <= j < i && !definitions@.contains(nodes@[j].0) ==> fact_models((#[trigger] facts@[j])@) == facts_for(
                    fresh_at(g0.index_map(), nodes@, definitions@, j),
                    ty_groups.group_tys()[ty_groups.index_map()[nodes@[j].0] as int],
                ),
            ty_groups.group_tys().len() <= u32::MAX + 1 ==> forall|j: int|
                0 <= j < i && #[trigger] fresh_at(g0.index_map(), nodes@, definitions@, j)
                    ==> ty_groups.group_tys()[ty_groups.index_map()[nodes@[j].0] as int] == seq![SpecTy::Unknown],
        decreases nodes@.len() - i,
    {
        let node = nodes[i];
        let ghost before = *ty_groups;
        let mut node_facts: Vec<TypeFact> = Vec::new();
        if !definitions.contains(&node.0) {
            let mut fresh = false;
            if ty_groups.index_of(node).is_none() {
                fresh = true;
                node_facts.push(TypeFact::UnknownType);
                let group_index = ty_groups.insert_group(Ty::Unknown);
                let ghost mid = *ty_groups;
                ty_groups.assign_node_to_index(node, group_index);
                proof {
                    TyGroups::lemma_grows_trans(before, mid, *ty_groups);
                }
            } else {
                proof {
                    TyGroups::lemma_grows_refl(before);
                }
            }
            let ghost after = *ty_groups;
            let index = ty_groups.index_of(node).unwrap();
            let tys = ty_groups.tys_at(index);
            let ghost tm = ty_models(tys@);
            proof {
                lemma_ty_models(tys@);
            }
            let ghost start = node_facts@;
            let mut all = true;
            let mut k: usize = 0;
            while k < tys.len()
                invariant
                    k <= tys@.len(),
                    tm == ty_models(tys@),
                    tm.len() == tys@.len(),
                    forall|m: int| 0 <= m < tys@.len() ==> #[trigger] tm[m] == tys@[m]@,
                    fact_models(node_facts@) == fact_models(start) + tm.take(k as int).map_values(
                        |t: SpecTy| SpecTypeFact::Type(t),
                    ),
                    all == all_incomplete(tm.take(k as int)),
                    *ty_groups == after,
                decreases tys@.len() - k,
            {
                let ghost prev = node_facts@;
                let incomplete = tys[k].is_incomplete();
                all = all && incomplete;
                node_facts.push(TypeFact::Type(tys[k].deep_clone()));
                proof {
                    assert(tm.take(k + 1) =~= tm.take(k as int).push(tm[k as int]));
                    assert(fact_models(node_facts@) =~= fact_models(prev).push(SpecTypeFact::Type(tm[k as int])));
                    assert(tm.take(k + 1).map_values(|t: SpecTy| SpecTypeFact::Type(t)) =~= tm.take(k as int).map_values(
                        |t: SpecTy| SpecTypeFact::Type(t),
                    ).push(SpecTypeFact::Type(tm[k as int])));
                    assert(all == all_incomplete(tm.take(k + 1))) by {
                        if all_incomplete(tm.take(k + 1)) {
                            assert(tm.take(k + 1)[k as int] == tm[k as int]);
                            assert forall|m: int| 0 <= m < k implies #[trigger] tm.take(k as int)[m].has_of() by {
                                assert(tm.take(k + 1)[m] == tm[m]);
                            }
                        }
                        if all {
                            assert forall|m: int| 0 <= m < k + 1 implies #[trigger] tm.take(k + 1)[m].has_of() by {
                                if m < k {
                                    assert(tm.take(k as int)[m] == tm[m]);
                                }
                            }
                        }
                    }
                }
                k = k + 1;
            }
            let ghost before_last = node_facts@;
            if all {
                node_facts.push(TypeFact::IncompleteType);
            }
            proof {
                assert(tm.take(tys@.len() as int) =~= tm);
                let f = fresh_at(g0.index_map(), nodes@, definitions@, i as int);
                assert(fresh == f) by {
                    if fresh {
                        assert(!before.index_map().contains_key(node.0));
                        assert forall|j: int| 0 <= j < i implies nodes@[j].0 != nodes@[i as int].0 by {
                            if !definitions@.contains(nodes@[j].0) {
                                assert(before.index_map().contains_key(nodes@[j].0));
                            }
                        }
                    } else {
                        assert(before.index_map().contains_key(node.0));
                        if !g0.index_map().contains_key(node.0) {
                            let j = choose|j: int| 0 <= j < i && nodes@[j].0 == node.0 && !definitions@.contains(node.0);
                            assert(nodes@[j].0 == nodes@[i as int].0);
                        }
                    }
                }
                assert(fact_models(start) =~= (if fresh {
                    seq![SpecTypeFact::UnknownType]
                } else {
                    Seq::empty()
                }));
                assert(fact_models(node_facts@) =~= facts_for(f, tm)) by {
                    if all {
                        assert(fact_models(node_facts@) =~= fact_models(before_last).push(SpecTypeFact::IncompleteType));
                    }
                }
                assert(tm == after.group_tys()[after.index_map()[node.0] as int]);
            }
        } else {
            proof {
                TyGroups::lemma_grows_refl(before);
            }
        }
        let ghost after_all = *ty_groups;
        facts.push(node_facts);
        proof {
            TyGroups::lemma_grows_trans(g0, before, *ty_groups);
            if ty_groups.group_tys().len() <= u32::MAX + 1 {
                assert forall|j: int|
                    0 <= j < i + 1 && !definitions@.contains(nodes@[j].0) implies fact_models((#[trigger] facts@[j])@)
                        == facts_for(
                        fresh_at(g0.index_map(), nodes@, definitions@, j),
                        ty_groups.group_tys()[ty_groups.index_map()[nodes@[j].0] as int],
                    ) by {
                    if j < i {
                        assert(before.index_map().contains_key(nodes@[j].0));
                        let idx = before.index_map()[nodes@[j].0] as int;
                        assert(ty_groups.index_map()[nodes@[j].0] as int == idx);
                        assert(ty_groups.group_tys()[idx] == before.group_tys()[idx]);
                    }
                }
                assert forall|j: int|
                    0 <= j < i + 1 && #[trigger] fresh_at(g0.index_map(), nodes@, definitions@, j)
                    implies ty_groups.group_tys()[ty_groups.index_map()[nodes@[j].0] as int] == seq![SpecTy::Unknown] by {
                    if j < i {
                        assert(before.index_map().contains_key(nodes@[j].0));
                        let idx = before.index_map()[nodes@[j].0] as int;
                        assert(ty_groups.group_tys()[idx] == before.group_tys()[idx]);
                    }
                }
            }
            assert forall|n: u32| #[trigger] ty_groups.index_map().contains_key(n) implies g0.index_map().contains_key(n)
                || exists|j: int| 0 <= j < i + 1 && nodes@[j].0 == n && !definitions@.contains(n) by {
                if n != node.0 && !g0.index_map().contains_key(n) {
                    assert(before.index_map().contains_key(n));
                    let j = choose|j: int| 0 <= j < i && nodes@[j].0 == n && !definitions@.contains(n);
                    assert(0 <= j < i + 1);
                }
                if n == node.0 && !g0.index_map().contains_key(n) && !before.index_map().contains_key(n) {
                    assert(nodes@[i as int].0 == n);
                }
            }
        }
        i = i + 1;
    }
    facts
}

} // verus!
