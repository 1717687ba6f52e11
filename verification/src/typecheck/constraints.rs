//! Types and the constraints that relate nodes to them.

use crate::trace::NodeId;
use crate::typecheck::ordered::{map_keys, strictly_increasing};
use std::collections::{BTreeMap, BTreeSet};
use vstd::prelude::*;

verus! {

/// The type of a node, possibly referring to the types of other nodes.
///
/// The parameters of a named type are listed in increasing order of the
/// parameter's node, one entry per parameter, as an ordered map would list
/// them.
#[derive(Debug, PartialEq, Eq, Hash)]
pub enum Ty {
    Unknown,
    Of(NodeId),
    Parameter(NodeId),
    Named { name: NodeId, parameters: Vec<(NodeId, Ty)> },
    Function { inputs: Vec<Ty>, output: Box<Ty> },
    Tuple { elements: Vec<Ty> },
}

/// The mathematical value of a [`Ty`]: the same tree, with sequences in
/// place of vectors.
pub enum SpecTy {
    Unknown,
    Of(NodeId),
    Parameter(NodeId),
    Named { name: NodeId, parameters: Seq<(NodeId, SpecTy)> },
    Function { inputs: Seq<SpecTy>, output: Box<SpecTy> },
    Tuple { elements: Seq<SpecTy> },
}

impl Ty {
    pub open spec fn model(self) -> SpecTy
        decreases self,
    {
        match self {
            Ty::Unknown => SpecTy::Unknown,
            Ty::Of(node) => SpecTy::Of(node),
            Ty::Parameter(node) => SpecTy::Parameter(node),
            Ty::Named { name, parameters } => SpecTy::Named {
                name,
                parameters: param_models(parameters@),
            },
            Ty::Function { inputs, output } => SpecTy::Function {
                inputs: ty_models(inputs@),
                output: Box::new((*output).model()),
            },
            Ty::Tuple { elements } => SpecTy::Tuple { elements: ty_models(elements@) },
        }
    }
}

/// The values of a sequence of types.
pub open spec fn ty_models(tys: Seq<Ty>) -> Seq<SpecTy>
    decreases tys,
{
    if tys.len() == 0 {
        Seq::empty()
    } else {
        ty_models(tys.drop_last()).push(tys.last().model())
    }
}

/// The values of a sequence of (parameter, type) entries.
pub open spec fn param_models(params: Seq<(NodeId, Ty)>) -> Seq<(NodeId, SpecTy)>
    decreases params,
{
    if params.len() == 0 {
        Seq::empty()
    } else {
        param_models(params.drop_last()).push((params.last().0, params.last().1.model()))
    }
}

/// `ty_models` keeps the length and maps each element.
pub proof fn lemma_ty_models(tys: Seq<Ty>)
    ensures
        ty_models(tys).len() == tys.len(),
        forall|i: int| 0 <= i < tys.len() ==> #[trigger] ty_models(tys)[i] == tys[i].model(),
    decreases tys.len(),
{
    if tys.len() > 0 {
        lemma_ty_models(tys.drop_last());
    }
}

/// `param_models` keeps the length and maps each entry.
pub proof fn lemma_param_models(params: Seq<(NodeId, Ty)>)
    ensures
        param_models(params).len() == params.len(),
        forall|i: int|
            0 <= i < params.len() ==> #[trigger] param_models(params)[i] == (
                params[i].0,
                params[i].1.model(),
            ),
    decreases params.len(),
{
    if params.len() > 0 {
        lemma_param_models(params.drop_last());
    }
}

/// Two sequences of types have the same values when they agree elementwise.
pub proof fn lemma_ty_models_eq(a: Seq<Ty>, b: Seq<Ty>)
    requires
        a.len() == b.len(),
        forall|i: int| 0 <= i < a.len() ==> #[trigger] a[i].model() == b[i].model(),
    ensures
        ty_models(a) == ty_models(b),
{
    lemma_ty_models(a);
    lemma_ty_models(b);
    assert(ty_models(a) =~= ty_models(b));
}

/// Two sequences of entries have the same values when they agree entrywise.
pub proof fn lemma_param_models_eq(a: Seq<(NodeId, Ty)>, b: Seq<(NodeId, Ty)>)
    requires
        a.len() == b.len(),
        forall|i: int|
            0 <= i < a.len() ==> #[trigger] a[i].0 == b[i].0 && a[i].1.model() == b[i].1.model(),
    ensures
        param_models(a) == param_models(b),
{
    lemma_param_models(a);
    lemma_param_models(b);
    assert(param_models(a) =~= param_models(b));
}

impl SpecTy {
    /// Whether the type refers to the type of another node somewhere inside.
    pub open spec fn has_of(self) -> bool
        decreases self,
    {
        match self {
            SpecTy::Of(_) => true,
            SpecTy::Unknown | SpecTy::Parameter(_) => false,
            SpecTy::Named { parameters, .. } => params_have_of(parameters),
            SpecTy::Function { inputs, output } => tys_have_of(inputs) || output.has_of(),
            SpecTy::Tuple { elements } => tys_have_of(elements),
        }
    }
}

/// Whether some type of the sequence refers to another node's type.
pub open spec fn tys_have_of(tys: Seq<SpecTy>) -> bool
    decreases tys,
{
    if tys.len() == 0 {
        false
    } else {
        tys_have_of(tys.drop_last()) || tys.last().has_of()
    }
}

/// Whether the type of some entry refers to another node's type.
pub open spec fn params_have_of(params: Seq<(NodeId, SpecTy)>) -> bool
    decreases params,
{
    if params.len() == 0 {
        false
    } else {
        params_have_of(params.drop_last()) || params.last().1.has_of()
    }
}

pub proof fn lemma_tys_have_of(tys: Seq<SpecTy>)
    ensures
        tys_have_of(tys) <==> exists|i: int| 0 <= i < tys.len() && (#[trigger] tys[i]).has_of(),
    decreases tys.len(),
{
    if tys.len() > 0 {
        lemma_tys_have_of(tys.drop_last());
        if tys_have_of(tys.drop_last()) {
            let i = choose|i: int| 0 <= i < tys.drop_last().len() && (#[trigger] tys.drop_last()[i]).has_of();
            assert(tys[i] == tys.drop_last()[i]);
        }
        if exists|i: int| 0 <= i < tys.len() && (#[trigger] tys[i]).has_of() {
            let i = choose|i: int| 0 <= i < tys.len() && (#[trigger] tys[i]).has_of();
            if i < tys.len() - 1 {
                assert(tys.drop_last()[i] == tys[i]);
            }
        }
    }
}

pub proof fn lemma_params_have_of(params: Seq<(NodeId, SpecTy)>)
    ensures
        params_have_of(params) <==> exists|i: int|
            0 <= i < params.len() && (#[trigger] params[i]).1.has_of(),
    decreases params.len(),
{
    if params.len() > 0 {
        lemma_params_have_of(params.drop_last());
        if params_have_of(params.drop_last()) {
            let i = choose|i: int|
                0 <= i < params.drop_last().len() && (#[trigger] params.drop_last()[i]).1.has_of();
            assert(params[i] == params.drop_last()[i]);
        }
        if exists|i: int| 0 <= i < params.len() && (#[trigger] params[i]).1.has_of() {
            let i = choose|i: int| 0 <= i < params.len() && (#[trigger] params[i]).1.has_of();
            if i < params.len() - 1 {
                assert(params.drop_last()[i] == params[i]);
            }
        }
    }
}

impl SpecTy {
    /// Whether a type parameter occurs somewhere inside the type.
    pub open spec fn has_param(self) -> bool
        decreases self,
    {
        match self {
            SpecTy::Parameter(_) => true,
            SpecTy::Unknown | SpecTy::Of(_) => false,
            SpecTy::Named { parameters, .. } => params_have_param(parameters),
            SpecTy::Function { inputs, output } => tys_have_param(inputs) || output.has_param(),
            SpecTy::Tuple { elements } => tys_have_param(elements),
        }
    }
}

/// Whether a type parameter occurs in some type of the sequence.
pub open spec fn tys_have_param(tys: Seq<SpecTy>) -> bool
    decreases tys,
{
    if tys.len() == 0 {
        false
    } else {
        tys_have_param(tys.drop_last()) || tys.last().has_param()
    }
}

/// Whether a type parameter occurs in the type of some entry.
pub open spec fn params_have_param(params: Seq<(NodeId, SpecTy)>) -> bool
    decreases params,
{
    if params.len() == 0 {
        false
    } else {
        params_have_param(params.drop_last()) || params.last().1.has_param()
    }
}

/// Every type parameter that occurs in `ty` has a substitution in `subs`.
pub open spec fn covered(ty: SpecTy, subs: Seq<(NodeId, SpecTy)>) -> bool
    decreases ty,
{
    match ty {
        SpecTy::Parameter(p) => lookup(subs, p) is Some,
        SpecTy::Unknown | SpecTy::Of(_) => true,
        SpecTy::Named { parameters, .. } => params_covered(parameters, subs),
        SpecTy::Function { inputs, output } => tys_covered(inputs, subs) && covered(*output, subs),
        SpecTy::Tuple { elements } => tys_covered(elements, subs),
    }
}

/// `covered` for each type of the sequence.
pub open spec fn tys_covered(tys: Seq<SpecTy>, subs: Seq<(NodeId, SpecTy)>) -> bool
    decreases tys,
{
    if tys.len() == 0 {
        true
    } else {
        tys_covered(tys.drop_last(), subs) && covered(tys.last(), subs)
    }
}

/// `covered` for the type of each entry.
pub open spec fn params_covered(params: Seq<(NodeId, SpecTy)>, subs: Seq<(NodeId, SpecTy)>) -> bool
    decreases params,
{
    if params.len() == 0 {
        true
    } else {
        params_covered(params.drop_last(), subs) && covered(params.last().1, subs)
    }
}

/// `ty` with each type parameter replaced by the type that `subs` gives
/// it; a parameter without one stays.
pub open spec fn replace_params(ty: SpecTy, subs: Seq<(NodeId, SpecTy)>) -> SpecTy
    decreases ty,
{
    match ty {
        SpecTy::Parameter(p) => match lookup(subs, p) {
            Some(t) => t,
            None => ty,
        },
        SpecTy::Unknown | SpecTy::Of(_) => ty,
        SpecTy::Named { name, parameters } => SpecTy::Named {
            name,
            parameters: replace_in_params(parameters, subs),
        },
        SpecTy::Function { inputs, output } => SpecTy::Function {
            inputs: replace_in_tys(inputs, subs),
            output: Box::new(replace_params(*output, subs)),
        },
        SpecTy::Tuple { elements } => SpecTy::Tuple { elements: replace_in_tys(elements, subs) },
    }
}

/// `replace_params` on each type of the sequence.
pub open spec fn replace_in_tys(tys: Seq<SpecTy>, subs: Seq<(NodeId, SpecTy)>) -> Seq<SpecTy>
    decreases tys,
{
    if tys.len() == 0 {
        Seq::empty()
    } else {
        replace_in_tys(tys.drop_last(), subs).push(replace_params(tys.last(), subs))
    }
}

/// `replace_params` on the type of each entry.
pub open spec fn replace_in_params(params: Seq<(NodeId, SpecTy)>, subs: Seq<(NodeId, SpecTy)>) -> Seq<(NodeId, SpecTy)>
    decreases params,
{
    if params.len() == 0 {
        Seq::empty()
    } else {
        replace_in_params(params.drop_last(), subs).push((params.last().0, replace_params(params.last().1, subs)))
    }
}

/// No substitution holds a type parameter.
pub open spec fn substitutions_param_free(subs: Seq<(NodeId, SpecTy)>) -> bool {
    forall|i: int| 0 <= i < subs.len() ==> !(#[trigger] subs[i]).1.has_param()
}

/// `tys_covered` and `replace_in_tys` go element by element.
pub proof fn lemma_tys_covered(tys: Seq<SpecTy>, subs: Seq<(NodeId, SpecTy)>)
    ensures
        tys_covered(tys, subs) <==> forall|i: int| 0 <= i < tys.len() ==> covered(#[trigger] tys[i], subs),
        replace_in_tys(tys, subs).len() == tys.len(),
        forall|i: int| 0 <= i < tys.len() ==> #[trigger] replace_in_tys(tys, subs)[i] == replace_params(tys[i], subs),
    decreases tys.len(),
{
    if tys.len() > 0 {
        let d = tys.drop_last();
        lemma_tys_covered(d, subs);
        assert forall|i: int| 0 <= i < tys.len() - 1 implies #[trigger] tys[i] == d[i] by {}
        if tys_covered(tys, subs) {
            assert forall|i: int| 0 <= i < tys.len() implies covered(#[trigger] tys[i], subs) by {
                if i < tys.len() - 1 {
                    assert(tys[i] == d[i]);
                }
            }
        }
        if forall|i: int| 0 <= i < tys.len() ==> covered(#[trigger] tys[i], subs) {
            assert forall|i: int| 0 <= i < d.len() implies covered(#[trigger] d[i], subs) by {
                assert(d[i] == tys[i]);
            }
            assert(covered(tys[tys.len() - 1], subs));
        }
    }
}

/// `params_covered` and `replace_in_params` go entry by entry.
pub proof fn lemma_params_covered(params: Seq<(NodeId, SpecTy)>, subs: Seq<(NodeId, SpecTy)>)
    ensures
        params_covered(params, subs) <==> forall|i: int| 0 <= i < params.len() ==> covered(#[trigger] params[i].1, subs),
        replace_in_params(params, subs).len() == params.len(),
        forall|i: int|
            0 <= i < params.len() ==> #[trigger] replace_in_params(params, subs)[i] == (
                params[i].0,
                replace_params(params[i].1, subs),
            ),
    decreases params.len(),
{
    if params.len() > 0 {
        let d = params.drop_last();
        lemma_params_covered(d, subs);
        assert forall|i: int| 0 <= i < params.len() - 1 implies #[trigger] params[i] == d[i] by {}
        if params_covered(params, subs) {
            assert forall|i: int| 0 <= i < params.len() implies covered(#[trigger] params[i].1, subs) by {
                if i < params.len() - 1 {
                    assert(params[i] == d[i]);
                }
            }
        }
        if forall|i: int| 0 <= i < params.len() ==> covered(#[trigger] params[i].1, subs) {
            assert forall|i: int| 0 <= i < d.len() implies covered(#[trigger] d[i].1, subs) by {
                assert(d[i] == params[i]);
            }
            assert(covered(params[params.len() - 1].1, subs));
        }
    }
}

/// A type without parameters is covered by any substitutions, and replacing
/// its parameters leaves it as it is.
pub proof fn lemma_replace_param_free(ty: SpecTy, subs: Seq<(NodeId, SpecTy)>)
    requires
        !ty.has_param(),
    ensures
        covered(ty, subs),
        replace_params(ty, subs) == ty,
    decreases ty,
{
    match ty {
        SpecTy::Named { name, parameters } => {
            lemma_replace_params_param_free(parameters, subs);
        },
        SpecTy::Function { inputs, output } => {
            lemma_replace_tys_param_free(inputs, subs);
            lemma_replace_param_free(*output, subs);
        },
        SpecTy::Tuple { elements } => {
            lemma_replace_tys_param_free(elements, subs);
        },
        _ => {},
    }
}

/// `lemma_replace_param_free` for each type of a sequence.
pub proof fn lemma_replace_tys_param_free(tys: Seq<SpecTy>, subs: Seq<(NodeId, SpecTy)>)
    requires
        !tys_have_param(tys),
    ensures
        tys_covered(tys, subs),
        replace_in_tys(tys, subs) == tys,
    decreases tys,
{
    if tys.len() > 0 {
        lemma_replace_tys_param_free(tys.drop_last(), subs);
        lemma_replace_param_free(tys.last(), subs);
        assert(tys.drop_last().push(tys.last()) =~= tys);
    }
}

/// `lemma_replace_param_free` for the type of each entry.
pub proof fn lemma_replace_params_param_free(params: Seq<(NodeId, SpecTy)>, subs: Seq<(NodeId, SpecTy)>)
    requires
        !params_have_param(params),
    ensures
        params_covered(params, subs),
        replace_in_params(params, subs) == params,
    decreases params,
{
    if params.len() > 0 {
        lemma_replace_params_param_free(params.drop_last(), subs);
        lemma_replace_param_free(params.last().1, subs);
        assert(params.drop_last().push(params.last()) =~= params);
    }
}

/// No substitution refers to another node's type.
pub open spec fn substitutions_of_free(subs: Seq<(NodeId, SpecTy)>) -> bool {
    forall|i: int| 0 <= i < subs.len() ==> !(#[trigger] subs[i]).1.has_of()
}

/// What `lookup` finds is the type of an entry with that key.
pub proof fn lemma_lookup_entry(s: Seq<(NodeId, SpecTy)>, key: NodeId)
    ensures
        lookup(s, key) is Some ==> exists|i: int| 0 <= i < s.len() && (#[trigger] s[i]) == (key, lookup(s, key)->Some_0),
    decreases s.len(),
{
    if s.len() > 0 && s.last().0 != key {
        lemma_lookup_entry(s.drop_last(), key);
        if lookup(s, key) is Some {
            let i = choose|i: int|
                0 <= i < s.drop_last().len() && (#[trigger] s.drop_last()[i]) == (key, lookup(s, key)->Some_0);
            assert(s[i] == s.drop_last()[i]);
        }
    } else if s.len() > 0 {
        assert(s[s.len() - 1] == (key, lookup(s, key)->Some_0));
    }
}

/// Replacing the parameters of a type that refers to no node's type, by
/// substitutions that refer to none either, gives a type that refers to
/// none.
pub proof fn lemma_replace_of_free(ty: SpecTy, subs: Seq<(NodeId, SpecTy)>)
    requires
        !ty.has_of(),
        substitutions_of_free(subs),
    ensures
        !replace_params(ty, subs).has_of(),
    decreases ty,
{
    match ty {
        SpecTy::Parameter(p) => {
            lemma_lookup_entry(subs, p);
            if lookup(subs, p) is Some {
                let i = choose|i: int| 0 <= i < subs.len() && (#[trigger] subs[i]) == (p, lookup(subs, p)->Some_0);
                assert(!subs[i].1.has_of());
            }
        },
        SpecTy::Named { name, parameters } => {
            lemma_replace_params_of_free(parameters, subs);
        },
        SpecTy::Function { inputs, output } => {
            lemma_replace_tys_of_free(inputs, subs);
            lemma_replace_of_free(*output, subs);
        },
        SpecTy::Tuple { elements } => {
            lemma_replace_tys_of_free(elements, subs);
        },
        _ => {},
    }
}

/// `lemma_replace_of_free` for each type of a sequence.
pub proof fn lemma_replace_tys_of_free(tys: Seq<SpecTy>, subs: Seq<(NodeId, SpecTy)>)
    requires
        !tys_have_of(tys),
        substitutions_of_free(subs),
    ensures
        !tys_have_of(replace_in_tys(tys, subs)),
    decreases tys,
{
    if tys.len() > 0 {
        lemma_replace_tys_of_free(tys.drop_last(), subs);
        lemma_replace_of_free(tys.last(), subs);
        let r = replace_in_tys(tys, subs);
        assert(r.drop_last() == replace_in_tys(tys.drop_last(), subs));
    }
}

/// `lemma_replace_of_free` for the type of each entry.
pub proof fn lemma_replace_params_of_free(params: Seq<(NodeId, SpecTy)>, subs: Seq<(NodeId, SpecTy)>)
    requires
        !params_have_of(params),
        substitutions_of_free(subs),
    ensures
        !params_have_of(replace_in_params(params, subs)),
    decreases params,
{
    if params.len() > 0 {
        lemma_replace_params_of_free(params.drop_last(), subs);
        lemma_replace_of_free(params.last().1, subs);
        let r = replace_in_params(params, subs);
        assert(r.drop_last() == replace_in_params(params.drop_last(), subs));
    }
}

impl Ty {
    /// The unit type, an empty tuple.
    pub fn unit() -> (ty: Ty)
        ensures
            ty@ == (SpecTy::Tuple { elements: Seq::empty() }),
    {
        let ty = Ty::Tuple { elements: Vec::new() };
        proof {
            assert(ty_models(Seq::<Ty>::empty()) =~= Seq::<SpecTy>::empty());
        }
        ty
    }

    /// A copy of the type, with the same value.
    #[verifier::loop_isolation(false)]
    pub fn deep_clone(&self) -> (r: Ty)
        ensures
            r@ == self@,
        decreases self,
    {
        match self {
            Ty::Unknown => Ty::Unknown,
            Ty::Of(node) => Ty::Of(*node),
            Ty::Parameter(node) => Ty::Parameter(*node),
            Ty::Named { name, parameters } => {
                let mut copy: Vec<(NodeId, Ty)> = Vec::new();
                let mut i: usize = 0;
                while i < parameters.len()
                    invariant
                        i <= parameters@.len(),
                        copy@.len() == i,
                        forall|j: int|
                            0 <= j < i ==> #[trigger] copy@[j].0 == parameters@[j].0
                                && copy@[j].1.model() == parameters@[j].1.model(),
                    decreases parameters@.len() - i,
                {
                    let entry = &parameters[i];
                    proof {
                        assert(decreases_to!(self => parameters));
                        assert(decreases_to!(parameters => parameters@));
                        assert(decreases_to!(parameters@ => parameters@[i as int]));
                        assert(decreases_to!(parameters@[i as int] => parameters@[i as int].1));
                    }
                    let t = entry.1.deep_clone();
                    copy.push((entry.0, t));
                    i = i + 1;
                }
                proof {
                    lemma_param_models_eq(copy@, parameters@);
                }
                Ty::Named { name: *name, parameters: copy }
            },
            Ty::Function { inputs, output } => {
                let copy = clone_tys(inputs);
                let out = (**output).deep_clone();
                Ty::Function { inputs: copy, output: Box::new(out) }
            },
            Ty::Tuple { elements } => {
                let copy = clone_tys(elements);
                Ty::Tuple { elements: copy }
            },
        }
    }

    /// Whether the type refers to the type of another node somewhere inside.
    #[verifier::loop_isolation(false)]
    pub fn is_incomplete(&self) -> (b: bool)
        ensures
            b == self@.has_of(),
        decreases self,
    {
        proof {
            reveal_with_fuel(Ty::model, 2);
        }
        match self {
            Ty::Unknown => {
                assert(self@ == SpecTy::Unknown);
                false
            },
            Ty::Of(_) => true,
            Ty::Parameter(_) => false,
            Ty::Named { name, parameters } => {
                proof {
                    lemma_param_models(parameters@);
                    lemma_params_have_of(param_models(parameters@));
                    assert(self@ == SpecTy::Named { name: *name, parameters: param_models(parameters@) });
                }
                let mut i: usize = 0;
                while i < parameters.len()
                    invariant
                        i <= parameters@.len(),
                        param_models(parameters@).len() == parameters@.len(),
                        forall|j: int|
                            0 <= j < parameters@.len() ==> #[trigger] param_models(parameters@)[j]
                                == (parameters@[j].0, parameters@[j].1.model()),
                        forall|j: int| 0 <= j < i ==> !(#[trigger] parameters@[j]).1.model().has_of(),
                    decreases parameters@.len() - i,
                {
                    if parameters[i].1.is_incomplete() {
                        proof {
                            let m = param_models(parameters@);
                            assert(m[i as int].1.has_of());
                        }
                        return true;
                    }
                    i = i + 1;
                }
                proof {
                    let m = param_models(parameters@);
                    assert forall|j: int| 0 <= j < m.len() implies !(#[trigger] m[j]).1.has_of() by {
                        assert(m[j] == (parameters@[j].0, parameters@[j].1.model()));
                    }
                }
                false
            },
            Ty::Function { inputs, output } => {
                assert(self@ == SpecTy::Function { inputs: ty_models(inputs@), output: Box::new(output.model()) });
                let found = any_incomplete(inputs);
                if found {
                    true
                } else {
                    output.is_incomplete()
                }
            },
            Ty::Tuple { elements } => {
                assert(self@ == SpecTy::Tuple { elements: ty_models(elements@) });
                any_incomplete(elements)
            },
        }
    }

    /// Whether two types have the same value.
    #[verifier::loop_isolation(false)]
    pub fn same(&self, other: &Ty) -> (b: bool)
        ensures
            b == (self@ == other@),
        decreases self,
    {
        match (self, other) {
            (Ty::Unknown, Ty::Unknown) => true,
            (Ty::Of(a), Ty::Of(b)) => a.0 == b.0,
            (Ty::Parameter(a), Ty::Parameter(b)) => a.0 == b.0,
            (
                Ty::Named { name: a, parameters: pa },
                Ty::Named { name: b, parameters: pb },
            ) => {
                if a.0 != b.0 || pa.len() != pb.len() {
                    proof {
                        lemma_param_models(pa@);
                        lemma_param_models(pb@);
                    }
                    return false;
                }
                proof {
                    lemma_param_models(pa@);
                    lemma_param_models(pb@);
                }
                let mut i: usize = 0;
                while i < pa.len()
                    invariant
                        i <= pa@.len(),
                        pa@.len() == pb@.len(),
                        forall|j: int|
                            0 <= j < i ==> (#[trigger] pa@[j]).0 == pb@[j].0 && pa@[j].1.model()
                                == pb@[j].1.model(),
                    decreases pa@.len() - i,
                {
                    if pa[i].0.0 != pb[i].0.0 || !pa[i].1.same(&pb[i].1) {
                        proof {
                            assert(param_models(pa@)[i as int] != param_models(pb@)[i as int]);
                        }
                        return false;
                    }
                    proof {
                        assert(pa@[i as int].0 == pb@[i as int].0);
                        assert(pa@[i as int].1.model() == pb@[i as int].1.model());
                    }
                    i = i + 1;
                }
                proof {
                    lemma_param_models_eq(pa@, pb@);
                }
                true
            },
            (
                Ty::Function { inputs: ia, output: oa },
                Ty::Function { inputs: ib, output: ob },
            ) => {
                if !same_tys(ia, ib) {
                    return false;
                }
                oa.same(ob)
            },
            (Ty::Tuple { elements: ea }, Ty::Tuple { elements: eb }) => same_tys(ea, eb),
            _ => false,
        }
    }
}

/// Copies a vector of types, keeping their values.
#[verifier::loop_isolation(false)]
pub fn clone_tys(tys: &Vec<Ty>) -> (r: Vec<Ty>)
    ensures
        r@.len() == tys@.len(),
        forall|i: int| 0 <= i < tys@.len() ==> #[trigger] r@[i].model() == tys@[i].model(),
        ty_models(r@) == ty_models(tys@),
    decreases tys,
{
    let mut copy: Vec<Ty> = Vec::new();
    let mut i: usize = 0;
    while i < tys.len()
        invariant
            i <= tys@.len(),
            copy@.len() == i,
            forall|j: int| 0 <= j < i ==> #[trigger] copy@[j].model() == tys@[j].model(),
        decreases tys@.len() - i,
    {
        let t = tys[i].deep_clone();
        copy.push(t);
        i = i + 1;
    }
    proof {
        lemma_ty_models_eq(copy@, tys@);
    }
    copy
}

/// Whether some type of the vector refers to another node's type.
#[verifier::loop_isolation(false)]
fn any_incomplete(tys: &Vec<Ty>) -> (b: bool)
    ensures
        b == tys_have_of(ty_models(tys@)),
    decreases tys,
{
    proof {
        lemma_ty_models(tys@);
        lemma_tys_have_of(ty_models(tys@));
    }
    let mut i: usize = 0;
    while i < tys.len()
        invariant
            i <= tys@.len(),
            ty_models(tys@).len() == tys@.len(),
            forall|j: int| 0 <= j < tys@.len() ==> #[trigger] ty_models(tys@)[j] == tys@[j].model(),
            forall|j: int| 0 <= j < i ==> !(#[trigger] tys@[j]).model().has_of(),
        decreases tys@.len() - i,
    {
        if tys[i].is_incomplete() {
            proof {
                assert(ty_models(tys@)[i as int].has_of());
            }
            return true;
        }
        i = i + 1;
    }
    proof {
        let m = ty_models(tys@);
        assert forall|j: int| 0 <= j < m.len() implies !(#[trigger] m[j]).has_of() by {
            assert(m[j] == tys@[j].model());
        }
    }
    false
}

/// Whether two vectors of types have the same values.
#[verifier::loop_isolation(false)]
fn same_tys(a: &Vec<Ty>, b: &Vec<Ty>) -> (r: bool)
    ensures
        r == (ty_models(a@) == ty_models(b@)),
    decreases a,
{
    proof {
        lemma_ty_models(a@);
        lemma_ty_models(b@);
    }
    if a.len() != b.len() {
        return false;
    }
    let mut i: usize = 0;
    while i < a.len()
        invariant
            i <= a@.len(),
            a@.len() == b@.len(),
            forall|j: int| 0 <= j < i ==> #[trigger] a@[j].model() == b@[j].model(),
        decreases a@.len() - i,
    {
        if !a[i].same(&b[i]) {
            proof {
                assert(ty_models(a@)[i as int] != ty_models(b@)[i as int]);
            }
            return false;
        }
        i = i + 1;
    }
    proof {
        lemma_ty_models_eq(a@, b@);
    }
    true
}

impl Clone for Ty {
    fn clone(&self) -> (r: Ty)
        ensures
            r@ == self@,
    {
        self.deep_clone()
    }
}

impl View for Ty {
    type V = SpecTy;

    open spec fn view(&self) -> SpecTy {
        self.model()
    }
}

} // verus!

verus! {

/// A map from type parameters to the types that stand in for them, kept in
/// increasing order of the parameter.
#[derive(Debug, PartialEq, Eq, Hash)]
pub struct Substitutions(pub Vec<(NodeId, Ty)>);

/// Entries listed in strictly increasing order of their key, each key once.
pub open spec fn sorted_keys(s: Seq<(NodeId, SpecTy)>) -> bool {
    forall|i: int, j: int| 0 <= i < j < s.len() ==> (#[trigger] s[i]).0.0 < (#[trigger] s[j]).0.0
}

/// The type that the entries give `key`, if any.
pub open spec fn lookup(s: Seq<(NodeId, SpecTy)>, key: NodeId) -> Option<SpecTy>
    decreases s.len(),
{
    if s.len() == 0 {
        None
    } else if s.last().0 == key {
        Some(s.last().1)
    } else {
        lookup(s.drop_last(), key)
    }
}

pub proof fn lemma_lookup(s: Seq<(NodeId, SpecTy)>, key: NodeId)
    requires
        sorted_keys(s),
    ensures
        lookup(s, key) is Some <==> exists|i: int| 0 <= i < s.len() && (#[trigger] s[i]).0 == key,
        forall|i: int| 0 <= i < s.len() && (#[trigger] s[i]).0 == key ==> lookup(s, key) == Some(s[i].1),
    decreases s.len(),
{
    if s.len() > 0 {
        let d = s.drop_last();
        assert(sorted_keys(d)) by {
            assert forall|i: int, j: int| 0 <= i < j < d.len() implies (#[trigger] d[i]).0.0 < (#[trigger] d[j]).0.0 by {
                assert(d[i] == s[i] && d[j] == s[j]);
            }
        }
        lemma_lookup(d, key);
        assert forall|i: int| 0 <= i < s.len() && (#[trigger] s[i]).0 == key implies lookup(s, key) == Some(s[i].1) by {
            if i < s.len() - 1 {
                assert(s[i] == d[i]);
                assert(s[i].0.0 < s[s.len() - 1].0.0);
            }
        }
        if lookup(s, key) is Some && s.last().0 != key {
            let i = choose|i: int| 0 <= i < d.len() && (#[trigger] d[i]).0 == key;
            assert(s[i] == d[i]);
        }
        if exists|i: int| 0 <= i < s.len() && (#[trigger] s[i]).0 == key {
            let i = choose|i: int| 0 <= i < s.len() && (#[trigger] s[i]).0 == key;
            if i < s.len() - 1 {
                assert(d[i] == s[i]);
            }
        }
    }
}

/// The type that the last pair with key `key` sends it to, as a node's type.
pub open spec fn pairs_lookup(pairs: Seq<(NodeId, NodeId)>, key: NodeId) -> Option<SpecTy>
    decreases pairs.len(),
{
    if pairs.len() == 0 {
        None
    } else if pairs.last().0 == key {
        Some(SpecTy::Of(pairs.last().1))
    } else {
        pairs_lookup(pairs.drop_last(), key)
    }
}

impl Substitutions {
    pub open spec fn model(self) -> Seq<(NodeId, SpecTy)> {
        param_models(self.0@)
    }

    /// The entries are in strictly increasing order of their parameter.
    pub open spec fn wf(self) -> bool {
        sorted_keys(self.model())
    }

    /// No substitutions: every parameter is replaced by a fresh node.
    pub fn replace_all() -> (s: Substitutions)
        ensures
            s.wf(),
            s.model() == Seq::<(NodeId, SpecTy)>::empty(),
    {
        let s = Substitutions(Vec::new());
        proof {
            assert(param_models(Seq::<(NodeId, Ty)>::empty()) =~= Seq::<(NodeId, SpecTy)>::empty());
        }
        s
    }

    /// The type substituted for `key`, if any.
    #[verifier::loop_isolation(false)]
    pub fn get(&self, key: NodeId) -> (r: Option<&Ty>)
        requires
            self.wf(),
        ensures
            match r {
                Some(t) => lookup(self.model(), key) == Some(t@),
                None => lookup(self.model(), key) is None,
            },
    {
        proof {
            lemma_param_models(self.0@);
            lemma_lookup(self.model(), key);
        }
        let mut i: usize = 0;
        while i < self.0.len()
            invariant
                i <= self.0@.len(),
                param_models(self.0@).len() == self.0@.len(),
                forall|j: int| 0 <= j < self.0@.len() ==> #[trigger] param_models(self.0@)[j] == (
                    self.0@[j].0,
                    self.0@[j].1.model(),
                ),
                forall|j: int| 0 <= j < i ==> (#[trigger] self.0@[j]).0 != key,
            decreases self.0@.len() - i,
        {
            if self.0[i].0.0 == key.0 {
                proof {
                    assert(self.model()[i as int].0 == key);
                    assert(lookup(self.model(), key) == Some(self.model()[i as int].1));
                }
                return Some(&self.0[i].1);
            }
            i = i + 1;
        }
        proof {
            assert forall|j: int| 0 <= j < self.model().len() implies (#[trigger] self.model()[j]).0 != key by {
                assert(self.model()[j].0 == self.0@[j].0);
            }
        }
        None
    }

    /// Sets the type substituted for `key`, keeping the order.
    pub fn insert(&mut self, key: NodeId, ty: Ty)
        requires
            old(self).wf(),
        ensures
            final(self).wf(),
            lookup(final(self).model(), key) == Some(ty@),
            forall|k: NodeId| k != key ==> lookup(final(self).model(), k) == lookup(old(self).model(), k),
    {
        let ghost old_model = self.model();
        proof {
            lemma_param_models(self.0@);
        }
        // Find the first entry whose key is not below `key`.
        let mut i: usize = 0;
        while i < self.0.len() && self.0[i].0.0 < key.0
            invariant
                i <= self.0@.len(),
                self.model() == old_model,
                forall|j: int| 0 <= j < i ==> (#[trigger] self.0@[j]).0.0 < key.0,
            decreases self.0@.len() - i,
        {
            i = i + 1;
        }
        let mut entries: Vec<(NodeId, Ty)> = Vec::new();
        let mut j: usize = 0;
        while j < i
            invariant
                j <= i <= self.0@.len(),
                entries@.len() == j,
                forall|m: int| 0 <= m < j ==> (#[trigger] entries@[m]).0 == self.0@[m].0
                    && entries@[m].1.model() == self.0@[m].1.model(),
            decreases i - j,
        {
            let t = self.0[j].1.deep_clone();
            entries.push((self.0[j].0, t));
            j = j + 1;
        }
        let replaces = i < self.0.len() && self.0[i].0.0 == key.0;
        let ghost new_ty = ty@;
        entries.push((key, ty));
        let mut k: usize = if replaces { i + 1 } else { i };
        let ghost start = k;
        while k < self.0.len()
            invariant
                i <= start <= k <= self.0@.len(),
                entries@.len() == i + 1 + (k - start),
                forall|m: int| 0 <= m < i ==> (#[trigger] entries@[m]).0 == self.0@[m].0
                    && entries@[m].1.model() == self.0@[m].1.model(),
                entries@[i as int].0 == key && entries@[i as int].1.model() == new_ty,
                forall|m: int| i < m < entries@.len() ==> (#[trigger] entries@[m]).0 == self.0@[m - i - 1 + start].0
                    && entries@[m].1.model() == self.0@[m - i - 1 + start].1.model(),
            decreases self.0@.len() - k,
        {
            let t = self.0[k].1.deep_clone();
            entries.push((self.0[k].0, t));
            k = k + 1;
        }
        proof {
            lemma_param_models(entries@);
            let nm = param_models(entries@);
            assert(sorted_keys(nm)) by {
                assert forall|a: int, b: int| 0 <= a < b < nm.len() implies (#[trigger] nm[a]).0.0 < (#[trigger] nm[b]).0.0 by {
                    assert(nm[a].0 == entries@[a].0 && nm[b].0 == entries@[b].0);
                    if b == i {
                        assert(entries@[a].0.0 < key.0);
                    } else if a == i {
                        let ob = b - i - 1 + start;
                        assert(old_model[ob].0 == self.0@[ob].0);
                        if replaces {
                            assert(old_model[i as int].0 == key);
                            assert(old_model[i as int].0.0 < old_model[ob].0.0);
                        } else {
                            if ob > i {
                                assert(old_model[i as int].0.0 < old_model[ob].0.0);
                            }
                            assert(!(self.0@[ob].0.0 < key.0));
                            assert(self.0@[ob].0 != key);
                        }
                    } else if b < i {
                        assert(old_model[a].0 == self.0@[a].0 && old_model[b].0 == self.0@[b].0);
                    } else if a < i {
                        let ob = b - i - 1 + start;
                        assert(old_model[a].0 == self.0@[a].0 && old_model[ob].0 == self.0@[ob].0);
                    } else {
                        let oa = a - i - 1 + start;
                        let ob = b - i - 1 + start;
                        assert(old_model[oa].0 == self.0@[oa].0 && old_model[ob].0 == self.0@[ob].0);
                    }
                }
            }
            lemma_lookup(nm, key);
            assert(nm[i as int].0 == key);
            lemma_lookup(old_model, key);
            assert forall|kk: NodeId| kk != key implies lookup(nm, kk) == lookup(old_model, kk) by {
                lemma_lookup(nm, kk);
                lemma_lookup(old_model, kk);
                if exists|m: int| 0 <= m < old_model.len() && (#[trigger] old_model[m]).0 == kk {
                    let m = choose|m: int| 0 <= m < old_model.len() && (#[trigger] old_model[m]).0 == kk;
                    if m < i {
                        assert(nm[m] == (entries@[m].0, entries@[m].1.model()));
                        assert(nm[m].0 == kk);
                    } else {
                        if replaces && m == i {
                            assert(old_model[m].0 == key);
                        } else {
                            let nmi = m - start + i + 1;
                            assert(m >= start);
                            assert(nm[nmi].0 == kk);
                        }
                    }
                }
                if exists|m: int| 0 <= m < nm.len() && (#[trigger] nm[m]).0 == kk {
                    let m = choose|m: int| 0 <= m < nm.len() && (#[trigger] nm[m]).0 == kk;
                    if m < i {
                        assert(old_model[m].0 == kk);
                    } else if m > i {
                        assert(old_model[m - i - 1 + start].0 == kk);
                    }
                }
            }
        }
        self.0 = entries;
    }

    /// The substitutions that send each parameter to the node that the pairs
    /// give it, as that node's type.
    pub fn from_pairs(pairs: Vec<(NodeId, NodeId)>) -> (s: Substitutions)
        ensures
            s.wf(),
            forall|k: NodeId| #[trigger] lookup(s.model(), k) == pairs_lookup(pairs@, k),
    {
        let mut s = Substitutions::replace_all();
        let mut i: usize = 0;
        while i < pairs.len()
            invariant
                i <= pairs@.len(),
                s.wf(),
                forall|k: NodeId| #[trigger] lookup(s.model(), k) == pairs_lookup(pairs@.subrange(0, i as int), k),
            decreases pairs@.len() - i,
        {
            let (parameter, node) = pairs[i];
            s.insert(parameter, Ty::Of(node));
            proof {
                let sub = pairs@.subrange(0, i + 1);
                assert(sub.drop_last() =~= pairs@.subrange(0, i as int));
                assert forall|k: NodeId| #[trigger] lookup(s.model(), k) == pairs_lookup(sub, k) by {
                    reveal_with_fuel(Ty::model, 1);
                }
            }
            i = i + 1;
        }
        proof {
            assert(pairs@.subrange(0, pairs@.len() as int) =~= pairs@);
        }
        s
    }

    /// A copy with the same entries.
    pub fn deep_clone(&self) -> (r: Substitutions)
        ensures
            r.model() == self.model(),
    {
        let mut copy: Vec<(NodeId, Ty)> = Vec::new();
        let mut i: usize = 0;
        while i < self.0.len()
            invariant
                i <= self.0@.len(),
                copy@.len() == i,
                forall|j: int|
                    0 <= j < i ==> (#[trigger] copy@[j]).0 == self.0@[j].0 && copy@[j].1.model()
                        == self.0@[j].1.model(),
            decreases self.0@.len() - i,
        {
            let t = self.0[i].1.deep_clone();
            copy.push((self.0[i].0, t));
            i = i + 1;
        }
        proof {
            lemma_param_models_eq(copy@, self.0@);
        }
        Substitutions(copy)
    }
}

} // verus!

verus! {

/// Instantiates the constraints of a generic definition: each parameter is
/// replaced by its substitution, or by a fresh node.
#[derive(Debug)]
pub struct Instantiation {
    pub substitutions: Substitutions,
    pub constraints: Vec<Constraint>,
}

/// A requirement that a trait have an instance for the type of `node`.
#[derive(Debug)]
pub struct Bound {
    pub node: NodeId,
    pub tr: NodeId,
    pub substitutions: Substitutions,
}

/// A constraint on the types of the program's nodes.
#[derive(Debug)]
pub enum Constraint {
    Ty(NodeId, Ty),
    Instantiation(Instantiation),
    Bound(Bound),
}

/// The value of a [`Bound`].
pub struct SpecBound {
    pub node: NodeId,
    pub tr: NodeId,
    pub substitutions: Seq<(NodeId, SpecTy)>,
}

/// The value of a [`Constraint`].
pub enum SpecConstraint {
    Ty(NodeId, SpecTy),
    Instantiation { substitutions: Seq<(NodeId, SpecTy)>, constraints: Seq<SpecConstraint> },
    Bound(SpecBound),
}

impl Bound {
    pub open spec fn model(self) -> SpecBound {
        SpecBound { node: self.node, tr: self.tr, substitutions: self.substitutions.model() }
    }

    /// The substitutions are kept in order of their parameter.
    pub open spec fn wf(self) -> bool {
        self.substitutions.wf()
    }

    /// A copy of the bound.
    pub fn deep_clone(&self) -> (r: Bound)
        ensures
            r.model() == self.model(),
    {
        Bound { node: self.node, tr: self.tr, substitutions: self.substitutions.deep_clone() }
    }
}

impl Constraint {
    pub open spec fn model(self) -> SpecConstraint
        decreases self,
    {
        match self {
            Constraint::Ty(node, ty) => SpecConstraint::Ty(node, ty.model()),
            Constraint::Instantiation(instantiation) => SpecConstraint::Instantiation {
                substitutions: instantiation.substitutions.model(),
                constraints: constraint_models(instantiation.constraints@),
            },
            Constraint::Bound(bound) => SpecConstraint::Bound(bound.model()),
        }
    }

    /// Every substitution inside the constraint is in order of its parameter.
    pub open spec fn wf(self) -> bool
        decreases self,
    {
        match self {
            Constraint::Ty(_, _) => true,
            Constraint::Instantiation(instantiation) => instantiation.substitutions.wf()
                && constraints_wf(instantiation.constraints@),
            Constraint::Bound(bound) => bound.wf(),
        }
    }

    /// A copy of the constraint.
    #[verifier::loop_isolation(false)]
    pub fn deep_clone(&self) -> (r: Constraint)
        ensures
            r.model() == self.model(),
            r.wf() == self.wf(),
        decreases self,
    {
        match self {
            Constraint::Ty(node, ty) => Constraint::Ty(*node, ty.deep_clone()),
            Constraint::Instantiation(instantiation) => {
                let substitutions = instantiation.substitutions.deep_clone();
                let mut copy: Vec<Constraint> = Vec::new();
                let mut i: usize = 0;
                while i < instantiation.constraints.len()
                    invariant
                        i <= instantiation.constraints@.len(),
                        copy@.len() == i,
                        forall|j: int|
                            0 <= j < i ==> (#[trigger] copy@[j]).model()
                                == instantiation.constraints@[j].model() && copy@[j].wf()
                                == instantiation.constraints@[j].wf(),
                    decreases instantiation.constraints@.len() - i,
                {
                    let c = instantiation.constraints[i].deep_clone();
                    copy.push(c);
                    i = i + 1;
                }
                proof {
                    lemma_constraint_models_eq(copy@, instantiation.constraints@);
                }
                Constraint::Instantiation(Instantiation { substitutions, constraints: copy })
            },
            Constraint::Bound(bound) => Constraint::Bound(bound.deep_clone()),
        }
    }
}

/// The values of a sequence of constraints.
pub open spec fn constraint_models(cs: Seq<Constraint>) -> Seq<SpecConstraint>
    decreases cs,
{
    if cs.len() == 0 {
        Seq::empty()
    } else {
        constraint_models(cs.drop_last()).push(cs.last().model())
    }
}

/// Every constraint of the sequence is well formed.
pub open spec fn constraints_wf(cs: Seq<Constraint>) -> bool
    decreases cs,
{
    if cs.len() == 0 {
        true
    } else {
        constraints_wf(cs.drop_last()) && cs.last().wf()
    }
}

pub proof fn lemma_constraint_models(cs: Seq<Constraint>)
    ensures
        constraint_models(cs).len() == cs.len(),
        forall|i: int| 0 <= i < cs.len() ==> #[trigger] constraint_models(cs)[i] == cs[i].model(),
        constraints_wf(cs) <==> forall|i: int| 0 <= i < cs.len() ==> (#[trigger] cs[i]).wf(),
    decreases cs.len(),
{
    if cs.len() > 0 {
        lemma_constraint_models(cs.drop_last());
        assert forall|i: int| 0 <= i < cs.len() - 1 implies #[trigger] cs[i] == cs.drop_last()[i] by {}
    }
}

pub proof fn lemma_constraint_models_eq(a: Seq<Constraint>, b: Seq<Constraint>)
    requires
        a.len() == b.len(),
        forall|i: int| 0 <= i < a.len() ==> (#[trigger] a[i]).model() == b[i].model() && a[i].wf() == b[i].wf(),
    ensures
        constraint_models(a) == constraint_models(b),
        constraints_wf(a) == constraints_wf(b),
{
    lemma_constraint_models(a);
    lemma_constraint_models(b);
    assert(constraint_models(a) =~= constraint_models(b));
    if constraints_wf(a) {
        assert forall|i: int| 0 <= i < b.len() implies (#[trigger] b[i]).wf() by {
            assert(a[i].wf());
        }
    }
    if constraints_wf(b) {
        assert forall|i: int| 0 <= i < a.len() implies (#[trigger] a[i]).wf() by {
            assert(b[i].wf());
        }
    }
}

impl SpecConstraint {
    /// An instantiation whose constraints hold no instantiation of their own.
    pub open spec fn is_flat(self) -> bool {
        match self {
            SpecConstraint::Instantiation { constraints, .. } => forall|i: int|
                0 <= i < constraints.len() ==> !((#[trigger] constraints[i]) is Instantiation),
            _ => true,
        }
    }
}

} // verus!

verus! {

/// The instantiation that a value stands for.
pub open spec fn instantiation_model(instantiation: Instantiation) -> SpecConstraint {
    SpecConstraint::Instantiation {
        substitutions: instantiation.substitutions.model(),
        constraints: constraint_models(instantiation.constraints@),
    }
}

/// The type constraints of `node` among `cs`, in order.
pub open spec fn tys_for(cs: Seq<SpecConstraint>, node: NodeId) -> Seq<SpecTy>
    decreases cs.len(),
{
    if cs.len() == 0 {
        Seq::empty()
    } else {
        match cs.last() {
            SpecConstraint::Ty(n, ty) => if n == node {
                tys_for(cs.drop_last(), node).push(ty)
            } else {
                tys_for(cs.drop_last(), node)
            },
            _ => tys_for(cs.drop_last(), node),
        }
    }
}

/// The instantiations among `cs`, in order.
pub open spec fn instantiations_in(cs: Seq<SpecConstraint>) -> Seq<SpecConstraint>
    decreases cs.len(),
{
    if cs.len() == 0 {
        Seq::empty()
    } else if cs.last() is Instantiation {
        instantiations_in(cs.drop_last()).push(cs.last())
    } else {
        instantiations_in(cs.drop_last())
    }
}

/// The bounds among `cs`, in order.
pub open spec fn bounds_in(cs: Seq<SpecConstraint>) -> Seq<SpecBound>
    decreases cs.len(),
{
    if cs.len() == 0 {
        Seq::empty()
    } else {
        match cs.last() {
            SpecConstraint::Bound(b) => bounds_in(cs.drop_last()).push(b),
            _ => bounds_in(cs.drop_last()),
        }
    }
}

/// The type constraints of the nodes `keys`, node by node, each node's in
/// order.
pub open spec fn ty_constraints_in(keys: Seq<u32>, tys: Map<u32, Seq<SpecTy>>) -> Seq<SpecConstraint>
    decreases keys.len(),
{
    if keys.len() == 0 {
        Seq::empty()
    } else {
        ty_constraints_in(keys.drop_last(), tys) + tys[keys.last()].map_values(
            |ty: SpecTy| SpecConstraint::Ty(NodeId(keys.last()), ty),
        )
    }
}

/// Constraints sorted by kind: the types of each node, the instantiations
/// and the bounds.
#[derive(Debug)]
pub struct Constraints {
    /// The nodes that the constraints were made for.
    pub nodes: BTreeSet<u32>,
    /// The types of each node, by the node's number, in order.
    pub tys: BTreeMap<u32, Vec<Ty>>,
    pub instantiations: Vec<Instantiation>,
    pub bounds: Vec<Bound>,
}

impl Constraints {
    /// The types of each node, by the node's number, in order.
    pub open spec fn ty_map(self) -> Map<u32, Seq<SpecTy>> {
        Map::new(|n: u32| self.tys@.contains_key(n), |n: u32| ty_models(self.tys@[n]@))
    }

    /// The instantiations, in order.
    pub open spec fn instantiation_models(self) -> Seq<SpecConstraint> {
        self.instantiations@.map_values(|i: Instantiation| instantiation_model(i))
    }

    /// The bounds, in order.
    pub open spec fn bound_models(self) -> Seq<SpecBound> {
        self.bounds@.map_values(|b: Bound| b.model())
    }

    /// The types of `node` so far.
    pub open spec fn tys_of(self, node: u32) -> Seq<SpecTy> {
        if self.ty_map().contains_key(node) {
            self.ty_map()[node]
        } else {
            Seq::empty()
        }
    }

    /// No constraints.
    pub fn new() -> (c: Constraints)
        ensures
            c.nodes@ == Set::<u32>::empty(),
            c.ty_map() == Map::<u32, Seq<SpecTy>>::empty(),
            c.instantiation_models() == Seq::<SpecConstraint>::empty(),
            c.bound_models() == Seq::<SpecBound>::empty(),
    {
        let c = Constraints {
            nodes: BTreeSet::new(),
            tys: BTreeMap::new(),
            instantiations: Vec::new(),
            bounds: Vec::new(),
        };
        proof {
            assert(c.ty_map() =~= Map::<u32, Seq<SpecTy>>::empty());
            assert(c.instantiation_models() =~= Seq::<SpecConstraint>::empty());
            assert(c.bound_models() =~= Seq::<SpecBound>::empty());
        }
        c
    }

    /// Adds `ty` to the types of `node`.
    pub fn insert_ty(&mut self, node: NodeId, ty: Ty)
        ensures
            final(self).ty_map() == old(self).ty_map().insert(node.0, old(self).tys_of(node.0).push(ty@)),
            final(self).nodes == old(self).nodes,
            final(self).instantiation_models() == old(self).instantiation_models(),
            final(self).bound_models() == old(self).bound_models(),
    {
        let mut list = match self.tys.remove(&node.0) {
            Some(list) => list,
            None => Vec::new(),
        };
        let ghost before = list@;
        proof {
            assert(ty_models(before) == old(self).tys_of(node.0)) by {
                if !old(self).tys@.contains_key(node.0) {
                    assert(before =~= Seq::<Ty>::empty());
                }
            }
        }
        list.push(ty);
        proof {
            assert(list@.drop_last() =~= before);
        }
        self.tys.insert(node.0, list);
        proof {
            assert(self.ty_map() =~= old(self).ty_map().insert(node.0, old(self).tys_of(node.0).push(ty@)));
        }
    }

    /// Adds an instantiation.
    pub fn insert_instantiation(&mut self, instantiation: Instantiation)
        ensures
            final(self).instantiation_models() == old(self).instantiation_models().push(
                instantiation_model(instantiation),
            ),
            final(self).ty_map() == old(self).ty_map(),
            final(self).nodes == old(self).nodes,
            final(self).bound_models() == old(self).bound_models(),
    {
        self.instantiations.push(instantiation);
        proof {
            assert(self.instantiation_models() =~= old(self).instantiation_models().push(
                instantiation_model(instantiation),
            ));
        }
    }

    /// Adds a bound.
    pub fn insert_bound(&mut self, bound: Bound)
        ensures
            final(self).bound_models() == old(self).bound_models().push(bound.model()),
            final(self).ty_map() == old(self).ty_map(),
            final(self).nodes == old(self).nodes,
            final(self).instantiation_models() == old(self).instantiation_models(),
    {
        self.bounds.push(bound);
        proof {
            assert(self.bound_models() =~= old(self).bound_models().push(bound.model()));
        }
    }

    /// Adds each of `constraints`, by its kind.
    #[verifier::loop_isolation(false)]
    pub fn extend(&mut self, constraints: Vec<Constraint>)
        ensures
            final(self).nodes == old(self).nodes,
            forall|n: u32| #[trigger] final(self).tys_of(n) == old(self).tys_of(n) + tys_for(constraint_models(constraints@), NodeId(n)),
            forall|n: u32| #[trigger] final(self).ty_map().contains_key(n) <==> old(self).ty_map().contains_key(n) || tys_for(constraint_models(constraints@), NodeId(n)).len() > 0,
            final(self).instantiation_models() == old(self).instantiation_models() + instantiations_in(constraint_models(constraints@)),
            final(self).bound_models() == old(self).bound_models() + bounds_in(constraint_models(constraints@)),
    {
        let mut i: usize = 0;
        while i < constraints.len()
            invariant
                i <= constraints@.len(),
                self.nodes == old(self).nodes,
                forall|n: u32| #[trigger] self.tys_of(n) == old(self).tys_of(n) + tys_for(constraint_models(constraints@.take(i as int)), NodeId(n)),
                forall|n: u32| #[trigger] self.ty_map().contains_key(n) <==> old(self).ty_map().contains_key(n) || tys_for(constraint_models(constraints@.take(i as int)), NodeId(n)).len() > 0,
                self.instantiation_models() == old(self).instantiation_models() + instantiations_in(constraint_models(constraints@.take(i as int))),
                self.bound_models() == old(self).bound_models() + bounds_in(constraint_models(constraints@.take(i as int))),
            decreases constraints@.len() - i,
        {
            let ghost prefix = constraints@.take(i as int);
            let ghost next = constraints@.take(i + 1);
            proof {
                assert(next.drop_last() =~= prefix);
                lemma_constraint_models(next);
                lemma_constraint_models(prefix);
                assert(constraint_models(next) =~= constraint_models(prefix).push(constraints@[i as int].model()));
            }
            let ghost s1 = *self;
            let c = constraints[i].deep_clone();
            proof {
                assert(constraint_models(next).last() == c.model());
                assert(constraint_models(next).drop_last() =~= constraint_models(prefix));
            }
            match c {
                Constraint::Ty(node, ty) => {
                    self.insert_ty(node, ty);
                    proof {
                        assert forall|n: u32| #[trigger] self.tys_of(n) == old(self).tys_of(n) + tys_for(constraint_models(next), NodeId(n)) by {
                            if n == node.0 {
                                assert(self.ty_map().contains_key(n));
                            } else {
                                assert(self.tys_of(n) == s1.tys_of(n));
                            }
                        }
                        assert forall|n: u32| #[trigger] self.ty_map().contains_key(n) <==> old(self).ty_map().contains_key(n) || tys_for(constraint_models(next), NodeId(n)).len() > 0 by {
                            if n != node.0 {
                                assert(self.ty_map().contains_key(n) == s1.ty_map().contains_key(n));
                            }
                        }
                    }
                },
                Constraint::Instantiation(instantiation) => {
                    self.insert_instantiation(instantiation);
                    proof {
                        assert forall|n: u32| #[trigger] self.tys_of(n) == old(self).tys_of(n) + tys_for(constraint_models(next), NodeId(n)) by {
                            assert(self.tys_of(n) == s1.tys_of(n));
                            assert(tys_for(constraint_models(next), NodeId(n)) == tys_for(constraint_models(prefix), NodeId(n)));
                        }
                        assert forall|n: u32| #[trigger] self.ty_map().contains_key(n) <==> old(self).ty_map().contains_key(n) || tys_for(constraint_models(next), NodeId(n)).len() > 0 by {
                            assert(self.ty_map().contains_key(n) == s1.ty_map().contains_key(n));
                        }
                    }
                },
                Constraint::Bound(bound) => {
                    self.insert_bound(bound);
                    proof {
                        assert forall|n: u32| #[trigger] self.tys_of(n) == old(self).tys_of(n) + tys_for(constraint_models(next), NodeId(n)) by {
                            assert(self.tys_of(n) == s1.tys_of(n));
                            assert(tys_for(constraint_models(next), NodeId(n)) == tys_for(constraint_models(prefix), NodeId(n)));
                        }
                        assert forall|n: u32| #[trigger] self.ty_map().contains_key(n) <==> old(self).ty_map().contains_key(n) || tys_for(constraint_models(next), NodeId(n)).len() > 0 by {
                            assert(self.ty_map().contains_key(n) == s1.ty_map().contains_key(n));
                        }
                    }
                },
            }
            i = i + 1;
        }
        proof {
            assert(constraints@.take(constraints@.len() as int) =~= constraints@);
        }
    }

    /// The constraints of `constraints`, made for `node`.
    pub fn from_iter(node: NodeId, constraints: Vec<Constraint>) -> (c: Constraints)
        ensures
            c.nodes@ == set![node.0],
            forall|n: u32| #[trigger] c.tys_of(n) == tys_for(constraint_models(constraints@), NodeId(n)),
            forall|n: u32| #[trigger] c.ty_map().contains_key(n) <==> tys_for(constraint_models(constraints@), NodeId(n)).len() > 0,
            c.instantiation_models() == instantiations_in(constraint_models(constraints@)),
            c.bound_models() == bounds_in(constraint_models(constraints@)),
    {
        let mut c = Constraints::new();
        c.nodes.insert(node.0);
        proof {
            assert(c.nodes@ =~= set![node.0]);
        }
        c.extend(constraints);
        proof {
            assert forall|n: u32| #[trigger] c.tys_of(n) == tys_for(constraint_models(constraints@), NodeId(n)) by {
                assert(Seq::<SpecTy>::empty() + tys_for(constraint_models(constraints@), NodeId(n))
                    =~= tys_for(constraint_models(constraints@), NodeId(n)));
            }
            assert(Seq::<SpecConstraint>::empty() + instantiations_in(constraint_models(constraints@))
                =~= instantiations_in(constraint_models(constraints@)));
            assert(Seq::<SpecBound>::empty() + bounds_in(constraint_models(constraints@))
                =~= bounds_in(constraint_models(constraints@)));
        }
        c
    }
}

impl Instantiation {
    /// A copy of the instantiation.
    #[verifier::loop_isolation(false)]
    pub fn deep_clone(&self) -> (r: Instantiation)
        ensures
            instantiation_model(r) == instantiation_model(*self),
    {
        let substitutions = self.substitutions.deep_clone();
        let mut copy: Vec<Constraint> = Vec::new();
        let mut i: usize = 0;
        while i < self.constraints.len()
            invariant
                i <= self.constraints@.len(),
                copy@.len() == i,
                forall|j: int|
                    0 <= j < i ==> (#[trigger] copy@[j]).model() == self.constraints@[j].model() && copy@[j].wf()
                        == self.constraints@[j].wf(),
            decreases self.constraints@.len() - i,
        {
            copy.push(self.constraints[i].deep_clone());
            i = i + 1;
        }
        proof {
            lemma_constraint_models_eq(copy@, self.constraints@);
        }
        Instantiation { substitutions, constraints: copy }
    }
}

impl Constraints {
    /// Every constraint: the types of each node, in increasing order of the
    /// node, then the instantiations, then the bounds.
    #[verifier::loop_isolation(false)]
    pub fn iter(&self) -> (r: Vec<Constraint>)
        ensures
            exists|keys: Seq<u32>|
                strictly_increasing(keys) && keys.to_set() == self.ty_map().dom() && #[trigger] constraint_models(r@)
                    == ty_constraints_in(keys, self.ty_map()) + self.instantiation_models()
                    + self.bound_models().map_values(|b: SpecBound| SpecConstraint::Bound(b)),
    {
        let keys = map_keys(&self.tys);
        let mut out: Vec<Constraint> = Vec::new();
        let mut i: usize = 0;
        while i < keys.len()
            invariant
                i <= keys@.len(),
                constraint_models(out@) == ty_constraints_in(keys@.take(i as int), self.ty_map()),
            decreases keys@.len() - i,
        {
            let k = keys[i];
            proof {
                assert(keys@.to_set().contains(k));
            }
            let list = self.tys.get(&k).unwrap();
            let ghost base = constraint_models(out@);
            let ghost tys = self.ty_map()[k];
            proof {
                lemma_ty_models(list@);
            }
            let mut j: usize = 0;
            while j < list.len()
                invariant
                    j <= list@.len(),
                    tys == ty_models(list@),
                    constraint_models(out@) == base + tys.take(j as int).map_values(
                        |ty: SpecTy| SpecConstraint::Ty(NodeId(k), ty),
                    ),
                decreases list@.len() - j,
            {
                let ghost before = out@;
                let c = Constraint::Ty(NodeId(k), list[j].deep_clone());
                out.push(c);
                proof {
                    assert(out@.drop_last() =~= before);
                    assert(constraint_models(out@) == constraint_models(before).push(c.model()));
                    assert(tys.take(j + 1).map_values(|ty: SpecTy| SpecConstraint::Ty(NodeId(k), ty))
                        =~= tys.take(j as int).map_values(|ty: SpecTy| SpecConstraint::Ty(NodeId(k), ty)).push(
                        SpecConstraint::Ty(NodeId(k), tys[j as int]),
                    ));
                    assert(constraint_models(out@) =~= base + tys.take(j + 1).map_values(
                        |ty: SpecTy| SpecConstraint::Ty(NodeId(k), ty),
                    ));
                }
                j = j + 1;
            }
            proof {
                assert(tys.take(list@.len() as int) =~= tys);
                assert(keys@.take(i + 1).drop_last() =~= keys@.take(i as int));
                assert(keys@.take(i + 1).last() == k);
            }
            i = i + 1;
        }
        proof {
            assert(keys@.take(keys@.len() as int) =~= keys@);
        }
        let ghost tys_part = constraint_models(out@);
        let mut i: usize = 0;
        while i < self.instantiations.len()
            invariant
                i <= self.instantiations@.len(),
                constraint_models(out@) == tys_part + self.instantiation_models().take(i as int),
            decreases self.instantiations@.len() - i,
        {
            let ghost before = out@;
            let c = Constraint::Instantiation(self.instantiations[i].deep_clone());
            out.push(c);
            proof {
                assert(out@.drop_last() =~= before);
                assert(c.model() == instantiation_model(self.instantiations@[i as int]));
                assert(constraint_models(out@) =~= tys_part + self.instantiation_models().take(i + 1));
            }
            i = i + 1;
        }
        proof {
            assert(self.instantiation_models().take(self.instantiations@.len() as int) =~= self.instantiation_models());
        }
        let ghost head = constraint_models(out@);
        let ghost bounds = self.bound_models().map_values(|b: SpecBound| SpecConstraint::Bound(b));
        let mut i: usize = 0;
        while i < self.bounds.len()
            invariant
                i <= self.bounds@.len(),
                constraint_models(out@) == head + bounds.take(i as int),
            decreases self.bounds@.len() - i,
        {
            let ghost before = out@;
            let c = Constraint::Bound(self.bounds[i].deep_clone());
            out.push(c);
            proof {
                assert(out@.drop_last() =~= before);
                assert(c.model() == SpecConstraint::Bound(self.bounds@[i as int].model()));
                assert(constraint_models(out@) == constraint_models(before).push(c.model()));
                assert(bounds[i as int] == SpecConstraint::Bound(self.bounds@[i as int].model()));
                assert(constraint_models(out@) =~= head + bounds.take(i + 1));
            }
            i = i + 1;
        }
        proof {
            assert(bounds.take(self.bounds@.len() as int) =~= bounds);
            assert(strictly_increasing(keys@) && keys@.to_set() == self.ty_map().dom());
        }
        out
    }
}


/// The type constraints of the nodes `keys`, node by node, each node's
/// types in the order that `cs` gives them.
pub open spec fn ty_constraints_of(keys: Seq<u32>, cs: Seq<SpecConstraint>) -> Seq<SpecConstraint>
    decreases keys.len(),
{
    if keys.len() == 0 {
        Seq::empty()
    } else {
        ty_constraints_of(keys.drop_last(), cs) + tys_for(cs, NodeId(keys.last())).map_values(
            |ty: SpecTy| SpecConstraint::Ty(NodeId(keys.last()), ty),
        )
    }
}

proof fn lemma_ty_constraints_agree(keys: Seq<u32>, tys: Map<u32, Seq<SpecTy>>, cs: Seq<SpecConstraint>)
    requires
        forall|i: int| 0 <= i < keys.len() ==> tys[#[trigger] keys[i]] == tys_for(cs, NodeId(keys[i])),
    ensures
        ty_constraints_in(keys, tys) == ty_constraints_of(keys, cs),
    decreases keys.len(),
{
    if keys.len() > 0 {
        let ks = keys.drop_last();
        assert forall|i: int| 0 <= i < ks.len() implies tys[#[trigger] ks[i]] == tys_for(cs, NodeId(ks[i])) by {
            assert(ks[i] == keys[i]);
        }
        lemma_ty_constraints_agree(ks, tys, cs);
        assert(keys.last() == keys[keys.len() - 1]);
    }
}

/// A node's types only grow as constraints are added.
proof fn lemma_tys_for_push(cs: Seq<SpecConstraint>, c: SpecConstraint, node: NodeId)
    ensures
        tys_for(cs.push(c), node) == (match c {
            SpecConstraint::Ty(n, ty) => if n == node {
                tys_for(cs, node).push(ty)
            } else {
                tys_for(cs, node)
            },
            _ => tys_for(cs, node),
        }),
{
    assert(cs.push(c).drop_last() =~= cs);
    assert(cs.push(c).last() == c);
}

/// Adding a constraint adds it to the type constraints of `keys` when it is
/// a type of one of them, and adds nothing otherwise.
proof fn lemma_ty_constraints_push(keys: Seq<u32>, cs: Seq<SpecConstraint>, c: SpecConstraint)
    requires
        keys.no_duplicates(),
    ensures
        ty_constraints_of(keys, cs.push(c)).to_multiset() == (if c matches SpecConstraint::Ty(n, _) && keys.contains(n.0) {
            ty_constraints_of(keys, cs).to_multiset().insert(c)
        } else {
            ty_constraints_of(keys, cs).to_multiset()
        }),
    decreases keys.len(),
{
    broadcast use vstd::seq_lib::lemma_multiset_commutative, vstd::seq_lib::to_multiset_build, vstd::multiset::group_multiset_axioms;

    if keys.len() > 0 {
        let ks = keys.drop_last();
        let k = keys.last();
        assert(ks.no_duplicates()) by {
            assert forall|i: int, j: int| 0 <= i < ks.len() && 0 <= j < ks.len() && i != j implies ks[i] != ks[j] by {
                assert(ks[i] == keys[i] && ks[j] == keys[j]);
            }
        }
        lemma_ty_constraints_push(ks, cs, c);
        lemma_tys_for_push(cs, c, NodeId(k));
        let f = |ty: SpecTy| SpecConstraint::Ty(NodeId(k), ty);
        let a = tys_for(cs, NodeId(k)).map_values(f);
        let a2 = tys_for(cs.push(c), NodeId(k)).map_values(f);
        let b = ty_constraints_of(ks, cs);
        let b2 = ty_constraints_of(ks, cs.push(c));
        assert(ty_constraints_of(keys, cs) == b + a);
        assert(ty_constraints_of(keys, cs.push(c)) == b2 + a2);
        if let SpecConstraint::Ty(n, t) = c {
            assert(keys.contains(n.0) <==> ks.contains(n.0) || n.0 == k) by {
                if keys.contains(n.0) {
                    let i = choose|i: int| 0 <= i < keys.len() && keys[i] == n.0;
                    if i < keys.len() - 1 {
                        assert(ks[i] == n.0);
                    }
                }
                if ks.contains(n.0) {
                    let i = choose|i: int| 0 <= i < ks.len() && ks[i] == n.0;
                    assert(keys[i] == n.0);
                }
                if n.0 == k {
                    assert(keys[keys.len() - 1] == n.0);
                }
            }
            if n.0 == k {
                assert(n == NodeId(k));
                assert(!ks.contains(k)) by {
                    if ks.contains(k) {
                        let i = choose|i: int| 0 <= i < ks.len() && ks[i] == k;
                        assert(keys[i] == keys[keys.len() - 1]);
                    }
                }
                assert(a2 =~= a.push(c));
            } else {
                assert(n != NodeId(k));
                assert(a2 =~= a);
            }
        } else {
            assert(a2 =~= a);
        }
    }
}

/// Taking constraints apart by kind keeps each of them, as often as it
/// occurs: the types of `keys`, which hold every node with a type in `cs`,
/// then the instantiations, then the bounds.
proof fn lemma_kinds_permute(keys: Seq<u32>, cs: Seq<SpecConstraint>)
    requires
        keys.no_duplicates(),
        forall|n: NodeId| #[trigger] tys_for(cs, n).len() > 0 ==> keys.contains(n.0),
    ensures
        (ty_constraints_of(keys, cs) + instantiations_in(cs) + bounds_in(cs).map_values(
            |b: SpecBound| SpecConstraint::Bound(b),
        )).to_multiset() == cs.to_multiset(),
    decreases cs.len(),
{
    broadcast use vstd::seq_lib::lemma_multiset_commutative, vstd::seq_lib::to_multiset_build, vstd::multiset::group_multiset_axioms;

    let g = |b: SpecBound| SpecConstraint::Bound(b);
    if cs.len() == 0 {
        assert(cs =~= Seq::<SpecConstraint>::empty());
        lemma_ty_constraints_empty(keys);
        assert(bounds_in(cs).map_values(g) =~= Seq::<SpecConstraint>::empty());
        assert(ty_constraints_of(keys, cs) + instantiations_in(cs) + bounds_in(cs).map_values(g) =~= cs);
    } else {
        let pre = cs.drop_last();
        let c = cs.last();
        assert(pre.push(c) =~= cs);
        assert forall|n: NodeId| #[trigger] tys_for(pre, n).len() > 0 implies keys.contains(n.0) by {
            lemma_tys_for_push(pre, c, n);
            assert(tys_for(cs, n).len() > 0);
        }
        lemma_kinds_permute(keys, pre);
        lemma_ty_constraints_push(keys, pre, c);
        let t0 = ty_constraints_of(keys, pre);
        let i0 = instantiations_in(pre);
        let b0 = bounds_in(pre).map_values(g);
        match c {
            SpecConstraint::Ty(n, t) => {
                lemma_tys_for_push(pre, c, n);
                assert(tys_for(cs, n).len() > 0);
                assert(keys.contains(n.0));
                assert(instantiations_in(cs) == i0);
                assert(bounds_in(cs) == bounds_in(pre));
            },
            SpecConstraint::Instantiation { .. } => {
                assert(instantiations_in(cs) == i0.push(c));
                assert(bounds_in(cs) == bounds_in(pre));
                assert((t0 + i0.push(c) + b0).to_multiset() =~= (t0 + i0 + b0).to_multiset().insert(c));
            },
            SpecConstraint::Bound(b) => {
                assert(instantiations_in(cs) == i0);
                assert(bounds_in(cs) == bounds_in(pre).push(b));
                assert(bounds_in(cs).map_values(g) =~= b0.push(c));
            },
        }
    }
}

proof fn lemma_ty_constraints_empty(keys: Seq<u32>)
    ensures
        ty_constraints_of(keys, Seq::<SpecConstraint>::empty()) == Seq::<SpecConstraint>::empty(),
    decreases keys.len(),
{
    if keys.len() > 0 {
        lemma_ty_constraints_empty(keys.drop_last());
        assert(tys_for(Seq::<SpecConstraint>::empty(), NodeId(keys.last())) == Seq::<SpecTy>::empty());
        assert(tys_for(Seq::<SpecConstraint>::empty(), NodeId(keys.last())).map_values(
            |ty: SpecTy| SpecConstraint::Ty(NodeId(keys.last()), ty),
        ) =~= Seq::<SpecConstraint>::empty());
        assert(Seq::<SpecConstraint>::empty() + Seq::<SpecConstraint>::empty() =~= Seq::<SpecConstraint>::empty());
    }
}

/// Gathering constraints into empty `Constraints` and iterating them gives
/// back each constraint exactly as often as it was given: what `iter`
/// returns after `extend` from `new` is a permutation of what was extended.
pub proof fn lemma_iter_gives_back(c: Constraints, cs: Seq<SpecConstraint>, keys: Seq<u32>)
    requires
        forall|n: u32| #[trigger] c.tys_of(n) == tys_for(cs, NodeId(n)),
        forall|n: u32| #[trigger] c.ty_map().contains_key(n) <==> tys_for(cs, NodeId(n)).len() > 0,
        c.instantiation_models() == instantiations_in(cs),
        c.bound_models() == bounds_in(cs),
        strictly_increasing(keys),
        keys.to_set() == c.ty_map().dom(),
    ensures
        (ty_constraints_in(keys, c.ty_map()) + c.instantiation_models() + c.bound_models().map_values(
            |b: SpecBound| SpecConstraint::Bound(b),
        )).to_multiset() == cs.to_multiset(),
{
    assert forall|i: int| 0 <= i < keys.len() implies c.ty_map()[#[trigger] keys[i]] == tys_for(cs, NodeId(keys[i])) by {
        assert(keys.to_set().contains(keys[i]));
        assert(c.tys_of(keys[i]) == tys_for(cs, NodeId(keys[i])));
    }
    lemma_ty_constraints_agree(keys, c.ty_map(), cs);
    assert(keys.no_duplicates()) by {
        assert forall|i: int, j: int| 0 <= i < keys.len() && 0 <= j < keys.len() && i != j implies keys[i] != keys[j] by {
            if i < j {
                assert(keys[i] < keys[j]);
            } else {
                assert(keys[j] < keys[i]);
            }
        }
    }
    assert forall|n: NodeId| #[trigger] tys_for(cs, n).len() > 0 implies keys.contains(n.0) by {
        assert(NodeId(n.0) == n);
        assert(c.ty_map().contains_key(n.0));
        assert(keys.to_set().contains(n.0));
    }
    lemma_kinds_permute(keys, cs);
}

/// Extending empty `Constraints` with `cs` and listing the result with
/// `iter` gives back a permutation of `cs`: each constraint as often as it
/// was given. The premises are what `new`, `extend` and `iter` ensure.
pub proof fn lemma_extend_then_iter_permutes(
    empty: Constraints,
    c: Constraints,
    cs: Seq<Constraint>,
    r: Seq<Constraint>,
)
    requires
        empty.ty_map() == Map::<u32, Seq<SpecTy>>::empty(),
        empty.instantiation_models() == Seq::<SpecConstraint>::empty(),
        empty.bound_models() == Seq::<SpecBound>::empty(),
        forall|n: u32| #[trigger] c.tys_of(n) == empty.tys_of(n) + tys_for(constraint_models(cs), NodeId(n)),
        forall|n: u32|
            #[trigger] c.ty_map().contains_key(n) <==> empty.ty_map().contains_key(n) || tys_for(
                constraint_models(cs),
                NodeId(n),
            ).len() > 0,
        c.instantiation_models() == empty.instantiation_models() + instantiations_in(constraint_models(cs)),
        c.bound_models() == empty.bound_models() + bounds_in(constraint_models(cs)),
        exists|keys: Seq<u32>|
            strictly_increasing(keys) && keys.to_set() == c.ty_map().dom() && #[trigger] constraint_models(r)
                == ty_constraints_in(keys, c.ty_map()) + c.instantiation_models() + c.bound_models().map_values(
                |b: SpecBound| SpecConstraint::Bound(b),
            ),
    ensures
        constraint_models(r).to_multiset() == constraint_models(cs).to_multiset(),
{
    let m = constraint_models(cs);
    let keys = choose|keys: Seq<u32>|
        strictly_increasing(keys) && keys.to_set() == c.ty_map().dom() && #[trigger] constraint_models(r)
            == ty_constraints_in(keys, c.ty_map()) + c.instantiation_models() + c.bound_models().map_values(
            |b: SpecBound| SpecConstraint::Bound(b),
        );
    assert forall|n: u32| #[trigger] c.tys_of(n) == tys_for(m, NodeId(n)) by {
        assert(empty.tys_of(n) == Seq::<SpecTy>::empty());
        assert(Seq::<SpecTy>::empty() + tys_for(m, NodeId(n)) =~= tys_for(m, NodeId(n)));
    }
    assert(c.instantiation_models() =~= instantiations_in(m));
    assert(c.bound_models() =~= bounds_in(m));
    lemma_iter_gives_back(c, m, keys);
}

} // verus!
