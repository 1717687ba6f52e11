//! Types and constraints as the user reads them, with the source text of
//! the nodes they refer to.

use crate::trace::{NodeId, Span};
use crate::typecheck::constraints::{
    lemma_param_models, lemma_ty_models, param_models, ty_models, Constraint, SpecTy, Ty,
};
use std::collections::BTreeMap;
use vstd::prelude::*;

verus! {

/// Where the program's source can be read: the span and source text of each
/// node, and the comments written above a definition, as the two functions
/// that the program gives.
pub struct FeedbackProvider<S, C> {
    get_span_source: S,
    get_comments: C,
}

impl<S: Fn(NodeId) -> (Span, String), C: Fn(NodeId) -> Option<String>> FeedbackProvider<S, C> {
    /// The function that gives the span and source text of a node.
    pub closed spec fn span_source(self) -> S {
        self.get_span_source
    }

    /// The function that gives the comments above a node.
    pub closed spec fn comments(self) -> C {
        self.get_comments
    }

    /// Both functions can be asked about any node.
    pub open spec fn wf(self) -> bool {
        &&& forall|n: NodeId| #[trigger] call_requires(self.span_source(), (n,))
        &&& forall|n: NodeId| #[trigger] call_requires(self.comments(), (n,))
    }

    /// A provider that reads the program through `get_span_source` and
    /// `get_comments`.
    pub fn new(get_span_source: S, get_comments: C) -> (p: Self)
        requires
            forall|n: NodeId| #[trigger] call_requires(get_span_source, (n,)),
            forall|n: NodeId| #[trigger] call_requires(get_comments, (n,)),
        ensures
            p.wf(),
            p.span_source() == get_span_source,
            p.comments() == get_comments,
    {
        FeedbackProvider { get_span_source, get_comments }
    }

    /// The span and source text of `node`.
    pub fn node_span_source(&self, node: NodeId) -> (r: (Span, String))
        requires
            self.wf(),
        ensures
            call_ensures(self.span_source(), (node,), r),
    {
        proof {
            assert(call_requires(self.span_source(), (node,)));
        }
        (self.get_span_source)(node)
    }

    /// The comments above `node`, one per line, if it is a definition that
    /// has any.
    pub fn node_comments(&self, node: NodeId) -> (r: Option<String>)
        requires
            self.wf(),
        ensures
            call_ensures(self.comments(), (node,), r),
    {
        proof {
            assert(call_requires(self.comments(), (node,)));
        }
        (self.get_comments)(node)
    }
}

/// Every source text that `sources` lists for a node is what `provider`
/// answered for that node.
pub open spec fn answered<S: Fn(NodeId) -> (Span, String), C: Fn(NodeId) -> Option<String>>(
    provider: FeedbackProvider<S, C>,
    sources: Map<u32, Seq<char>>,
) -> bool {
    forall|k: u32|
        #[trigger] sources.contains_key(k) ==> exists|a: (Span, String)|
            call_ensures(provider.span_source(), (NodeId(k),), a) && sources[k] == a.1@
}

/// The source text of each node, by the node's number; a node that is not
/// listed reads as nothing.
pub open spec fn source_in(sources: Map<u32, Seq<char>>) -> spec_fn(NodeId) -> Seq<char> {
    |n: NodeId| if sources.contains_key(n.0) {
        sources[n.0]
    } else {
        Seq::empty()
    }
}

/// The text of each string of a map.
pub open spec fn texts(sources: Map<u32, String>) -> Map<u32, Seq<char>> {
    sources.map_values(|s: String| s@)
}

/// How a type reads, given the source text of each node: `_` for a type
/// not known yet, a parameter's or name's source text, parameters after a
/// space each, `input input -> output` for a function, and `(a ; b)` for a
/// tuple.
pub open spec fn ty_text(ty: SpecTy, source: spec_fn(NodeId) -> Seq<char>) -> Seq<char>
    decreases ty,
{
    match ty {
        SpecTy::Unknown => seq!['_'],
        SpecTy::Of(_) => seq!['_'],
        SpecTy::Parameter(node) => source(node),
        SpecTy::Named { name, parameters } => source(name) + parameter_texts(parameters, source),
        SpecTy::Function { inputs, output } => input_texts(inputs, source) + seq!['-', '>', ' '] + ty_text(
            *output,
            source,
        ),
        SpecTy::Tuple { elements } => seq!['('] + element_texts(elements, source) + seq![')'],
    }
}

/// Each parameter's text after a space.
pub open spec fn parameter_texts(params: Seq<(NodeId, SpecTy)>, source: spec_fn(NodeId) -> Seq<char>) -> Seq<char>
    decreases params,
{
    if params.len() == 0 {
        Seq::empty()
    } else {
        parameter_texts(params.drop_last(), source) + seq![' '] + ty_text(params.last().1, source)
    }
}

/// How many characters the parameters take in a named type's text: each
/// parameter's text and the space before it.
pub open spec fn parameters_width(params: Seq<(NodeId, SpecTy)>, source: spec_fn(NodeId) -> Seq<char>) -> nat
    decreases params.len(),
{
    if params.len() == 0 {
        0
    } else {
        parameters_width(params.drop_last(), source) + 1 + ty_text(params.last().1, source).len()
    }
}

proof fn lemma_parameter_texts_len(params: Seq<(NodeId, SpecTy)>, source: spec_fn(NodeId) -> Seq<char>)
    ensures
        parameter_texts(params, source).len() == parameters_width(params, source),
    decreases params.len(),
{
    if params.len() > 0 {
        lemma_parameter_texts_len(params.drop_last(), source);
    }
}

/// Where each parameter's text stands among the parameters' texts.
proof fn lemma_parameter_texts_layout(params: Seq<(NodeId, SpecTy)>, source: spec_fn(NodeId) -> Seq<char>, i: int)
    requires
        0 <= i < params.len(),
    ensures
        parameters_width(params.take(i), source) + 1 + ty_text(params[i].1, source).len() <= parameter_texts(
            params,
            source,
        ).len(),
        parameter_texts(params, source).subrange(
            parameters_width(params.take(i), source) as int,
            parameters_width(params.take(i), source) as int + 1 + ty_text(params[i].1, source).len(),
        ) == seq![' '] + ty_text(params[i].1, source),
    decreases params.len(),
{
    let d = params.drop_last();
    lemma_parameter_texts_len(d, source);
    lemma_parameter_texts_len(params, source);
    let whole = parameter_texts(params, source);
    let head = parameter_texts(d, source);
    assert(whole == head + seq![' '] + ty_text(params.last().1, source));
    if i == params.len() - 1 {
        assert(params.take(i) =~= d);
        assert(whole.subrange(head.len() as int, whole.len() as int) =~= seq![' '] + ty_text(params[i].1, source));
    } else {
        assert(params.take(i) =~= d.take(i));
        assert(params[i] == d[i]);
        lemma_parameter_texts_layout(d, source, i);
        let a = parameters_width(params.take(i), source) as int;
        let b = a + 1 + ty_text(params[i].1, source).len();
        assert(whole.subrange(a, b) =~= head.subrange(a, b));
    }
}

/// The text of a named type is the source text of its name followed, for
/// each parameter in the order of the list, by a space and that
/// parameter's text: the text of parameter `i` starts right after the name
/// and the texts of the parameters before it, each with its space.
pub proof fn lemma_named_text_layout(
    name: NodeId,
    params: Seq<(NodeId, SpecTy)>,
    source: spec_fn(NodeId) -> Seq<char>,
    i: int,
)
    requires
        0 <= i < params.len(),
    ensures
        ({
            let text = ty_text(SpecTy::Named { name, parameters: params }, source);
            let start: int = source(name).len() as int + parameters_width(params.take(i), source);
            &&& text.len() == source(name).len() + parameters_width(params, source)
            &&& text.subrange(0, source(name).len() as int) == source(name)
            &&& text.subrange(start, start + 1 + ty_text(params[i].1, source).len()) == seq![' '] + ty_text(
                params[i].1,
                source,
            )
        }),
{
    let text = ty_text(SpecTy::Named { name, parameters: params }, source);
    let rest = parameter_texts(params, source);
    assert(text == source(name) + rest);
    lemma_parameter_texts_len(params, source);
    lemma_parameter_texts_layout(params, source, i);
    let a: int = parameters_width(params.take(i), source) as int;
    let b: int = a + 1 + ty_text(params[i].1, source).len();
    let n: int = source(name).len() as int;
    assert(text.subrange(0, n) =~= source(name));
    assert(text.subrange(n + a, n + b) =~= rest.subrange(a, b));
}

/// Each input's text followed by a space.
pub open spec fn input_texts(inputs: Seq<SpecTy>, source: spec_fn(NodeId) -> Seq<char>) -> Seq<char>
    decreases inputs,
{
    if inputs.len() == 0 {
        Seq::empty()
    } else {
        input_texts(inputs.drop_last(), source) + ty_text(inputs.last(), source) + seq![' ']
    }
}

/// The elements' texts joined by ` ; `.
pub open spec fn element_texts(elements: Seq<SpecTy>, source: spec_fn(NodeId) -> Seq<char>) -> Seq<char>
    decreases elements,
{
    if elements.len() == 0 {
        Seq::empty()
    } else if elements.len() == 1 {
        ty_text(elements[0], source)
    } else {
        element_texts(elements.drop_last(), source) + seq![' ', ';', ' '] + ty_text(elements.last(), source)
    }
}

/// How many characters the inputs take in a function type's text: each
/// input's text and the space after it.
pub open spec fn inputs_width(inputs: Seq<SpecTy>, source: spec_fn(NodeId) -> Seq<char>) -> nat
    decreases inputs.len(),
{
    if inputs.len() == 0 {
        0
    } else {
        inputs_width(inputs.drop_last(), source) + ty_text(inputs.last(), source).len() + 1
    }
}

/// Where each input's text stands among the inputs' texts.
proof fn lemma_input_texts_layout(inputs: Seq<SpecTy>, source: spec_fn(NodeId) -> Seq<char>, i: int)
    ensures
        input_texts(inputs, source).len() == inputs_width(inputs, source),
        0 <= i < inputs.len() ==> inputs_width(inputs.take(i), source) + ty_text(inputs[i], source).len() + 1
            <= input_texts(inputs, source).len() && input_texts(inputs, source).subrange(
            inputs_width(inputs.take(i), source) as int,
            inputs_width(inputs.take(i), source) as int + ty_text(inputs[i], source).len() + 1,
        ) == ty_text(inputs[i], source) + seq![' '],
    decreases inputs.len(),
{
    if inputs.len() > 0 {
        let d = inputs.drop_last();
        lemma_input_texts_layout(d, source, i);
        let whole = input_texts(inputs, source);
        let head = input_texts(d, source);
        assert(whole == head + ty_text(inputs.last(), source) + seq![' ']);
        if i == inputs.len() - 1 {
            assert(inputs.take(i) =~= d);
            assert(whole.subrange(head.len() as int, whole.len() as int) =~= ty_text(inputs[i], source) + seq![' ']);
        } else if 0 <= i < inputs.len() - 1 {
            assert(inputs.take(i) =~= d.take(i));
            assert(inputs[i] == d[i]);
            let a = inputs_width(inputs.take(i), source) as int;
            let b = a + ty_text(inputs[i], source).len() + 1;
            assert(whole.subrange(a, b) =~= head.subrange(a, b));
        }
    }
}

/// The text of a function type is the text of each input in the order of
/// the list, each followed by a space, then `-> ` and the output's text:
/// the text of input `i` starts after the texts of the inputs before it.
pub proof fn lemma_function_text_layout(
    inputs: Seq<SpecTy>,
    output: SpecTy,
    source: spec_fn(NodeId) -> Seq<char>,
    i: int,
)
    ensures
        ({
            let text = ty_text(SpecTy::Function { inputs, output: Box::new(output) }, source);
            let w: int = inputs_width(inputs, source) as int;
            &&& text.len() == w + 3 + ty_text(output, source).len()
            &&& text.subrange(w, w + 3) == seq!['-', '>', ' ']
            &&& text.subrange(w + 3, text.len() as int) == ty_text(output, source)
            &&& 0 <= i < inputs.len() ==> text.subrange(
                inputs_width(inputs.take(i), source) as int,
                inputs_width(inputs.take(i), source) as int + ty_text(inputs[i], source).len() + 1,
            ) == ty_text(inputs[i], source) + seq![' ']
        }),
{
    let text = ty_text(SpecTy::Function { inputs, output: Box::new(output) }, source);
    let head = input_texts(inputs, source);
    lemma_input_texts_layout(inputs, source, i);
    assert(text == head + seq!['-', '>', ' '] + ty_text(output, source));
    let w: int = head.len() as int;
    assert(text.subrange(w, w + 3) =~= seq!['-', '>', ' ']);
    assert(text.subrange(w + 3, text.len() as int) =~= ty_text(output, source));
    if 0 <= i < inputs.len() {
        let a = inputs_width(inputs.take(i), source) as int;
        let b = a + ty_text(inputs[i], source).len() + 1;
        assert(text.subrange(a, b) =~= head.subrange(a, b));
    }
}

/// Where the text of element `i` of a tuple starts among the elements'
/// texts: after the texts of the elements before it, each followed by ` ; `.
pub open spec fn element_start(elements: Seq<SpecTy>, source: spec_fn(NodeId) -> Seq<char>, i: int) -> int
    decreases i,
{
    if i <= 0 {
        0
    } else {
        element_start(elements, source, i - 1) + ty_text(elements[i - 1], source).len() + 3
    }
}

proof fn lemma_element_start_nonneg(elements: Seq<SpecTy>, source: spec_fn(NodeId) -> Seq<char>, i: int)
    ensures
        0 <= element_start(elements, source, i),
        i > 0 ==> 3 <= element_start(elements, source, i),
    decreases i,
{
    if i > 0 {
        lemma_element_start_nonneg(elements, source, i - 1);
    }
}

/// Where each element's text stands among the elements' texts.
proof fn lemma_element_texts_layout(elements: Seq<SpecTy>, source: spec_fn(NodeId) -> Seq<char>, i: int)
    requires
        0 <= i < elements.len(),
    ensures
        element_start(elements, source, i) + ty_text(elements[i], source).len() <= element_texts(elements, source).len(),
        element_texts(elements, source).len() == element_start(elements, source, elements.len() - 1) + ty_text(
            elements.last(),
            source,
        ).len(),
        element_texts(elements, source).subrange(
            element_start(elements, source, i),
            element_start(elements, source, i) + ty_text(elements[i], source).len(),
        ) == ty_text(elements[i], source),
        i > 0 ==> element_texts(elements, source).subrange(
            element_start(elements, source, i) - 3,
            element_start(elements, source, i),
        ) == seq![' ', ';', ' '],
    decreases elements.len(),
{
    lemma_element_start_nonneg(elements, source, i);
    let whole = element_texts(elements, source);
    if elements.len() == 1 {
        assert(whole =~= ty_text(elements[0], source));
        assert(whole.subrange(0, whole.len() as int) =~= whole);
    } else {
        let d = elements.drop_last();
        let head = element_texts(d, source);
        let last = elements.len() - 1;
        assert(whole == head + seq![' ', ';', ' '] + ty_text(elements.last(), source));
        lemma_element_texts_layout(d, source, d.len() - 1);
        assert forall|k: int| 0 <= k <= d.len() - 1 implies element_start(d, source, k) == element_start(
            elements,
            source,
            k,
        ) by {
            lemma_element_start_prefix(elements, d, source, k);
        }
        assert(element_start(elements, source, last) == element_start(d, source, d.len() - 1) + ty_text(
            d.last(),
            source,
        ).len() + 3);
        if i == last {
            let a = element_start(elements, source, i);
            assert(a == head.len() + 3);
            assert(whole.subrange(a, a + ty_text(elements[i], source).len()) =~= ty_text(elements[i], source));
            assert(whole.subrange(a - 3, a) =~= seq![' ', ';', ' ']);
        } else {
            assert(d[i] == elements[i]);
            lemma_element_texts_layout(d, source, i);
            let a = element_start(elements, source, i);
            let b = a + ty_text(elements[i], source).len();
            assert(whole.subrange(a, b) =~= head.subrange(a, b));
            if i > 0 {
                assert(whole.subrange(a - 3, a) =~= head.subrange(a - 3, a));
            }
        }
    }
}

/// Where elements start depends only on the elements before.
proof fn lemma_element_start_prefix(elements: Seq<SpecTy>, d: Seq<SpecTy>, source: spec_fn(NodeId) -> Seq<char>, k: int)
    requires
        d.len() <= elements.len(),
        forall|m: int| 0 <= m < d.len() ==> d[m] == elements[m],
        k <= d.len(),
    ensures
        element_start(d, source, k) == element_start(elements, source, k),
    decreases k,
{
    if k > 0 {
        lemma_element_start_prefix(elements, d, source, k - 1);
    }
}

/// The text of a tuple is its elements' texts in the order of the list,
/// joined by ` ; `, between brackets: the text of element `i` starts after
/// the bracket and the texts of the elements before it, each followed by
/// ` ; `.
pub proof fn lemma_tuple_text_layout(elements: Seq<SpecTy>, source: spec_fn(NodeId) -> Seq<char>, i: int)
    requires
        0 <= i < elements.len(),
    ensures
        ({
            let text = ty_text(SpecTy::Tuple { elements }, source);
            let start: int = 1 + element_start(elements, source, i);
            &&& text[0] == '('
            &&& text.len() == 2 + element_start(elements, source, elements.len() - 1) + ty_text(
                elements.last(),
                source,
            ).len()
            &&& text[text.len() - 1] == ')'
            &&& text.subrange(start, start + ty_text(elements[i], source).len()) == ty_text(elements[i], source)
            &&& i > 0 ==> text.subrange(start - 3, start) == seq![' ', ';', ' ']
        }),
{
    let text = ty_text(SpecTy::Tuple { elements }, source);
    let inner = element_texts(elements, source);
    lemma_element_texts_layout(elements, source, i);
    lemma_element_start_nonneg(elements, source, i);
    assert(text == seq!['('] + inner + seq![')']);
    let a = element_start(elements, source, i);
    let b = a + ty_text(elements[i], source).len();
    assert(text.subrange(1 + a, 1 + b) =~= inner.subrange(a, b));
    if i > 0 {
        assert(text.subrange(1 + a - 3, 1 + a) =~= inner.subrange(a - 3, a));
    }
}

/// An unknown type and a node's type read `_`; a parameter reads as its
/// source text; a named type without parameters as its name's; and a tuple
/// without elements as `()`.
pub proof fn lemma_plain_texts(p: NodeId, source: spec_fn(NodeId) -> Seq<char>)
    ensures
        ty_text(SpecTy::Unknown, source) == seq!['_'],
        ty_text(SpecTy::Of(p), source) == seq!['_'],
        ty_text(SpecTy::Parameter(p), source) == source(p),
        ty_text(SpecTy::Named { name: p, parameters: Seq::empty() }, source) == source(p),
        ty_text(SpecTy::Tuple { elements: Seq::empty() }, source) == seq!['(', ')'],
{
    assert(parameter_texts(Seq::empty(), source) == Seq::<char>::empty());
    assert(element_texts(Seq::empty(), source) == Seq::<char>::empty());
    assert(source(p) + Seq::<char>::empty() =~= source(p));
    assert(seq!['('] + Seq::<char>::empty() + seq![')'] =~= seq!['(', ')']);
}

impl Ty {
    /// How the type reads, with the source text of each node it names taken
    /// from `sources`, by the node's number.
    #[verifier::loop_isolation(false)]
    pub fn render(&self, sources: &BTreeMap<u32, String>) -> (s: String)
        ensures
            s@ == ty_text(self@, source_in(texts(sources@))),
        decreases self,
    {
        let ghost source = source_in(texts(sources@));
        match self {
            Ty::Unknown | Ty::Of(_) => {
                let s = "_".to_string();
                proof {
                    reveal_strlit("_");
                }
                s
            },
            Ty::Parameter(node) => source_text(sources, *node),
            Ty::Named { name, parameters } => {
                let mut s = source_text(sources, *name);
                proof {
                    lemma_param_models(parameters@);
                }
                let mut i: usize = 0;
                while i < parameters.len()
                    invariant
                        i <= parameters@.len(),
                        s@ == source(*name) + parameter_texts(param_models(parameters@).take(i as int), source),
                    decreases parameters@.len() - i,
                {
                    let text = parameters[i].1.render(sources);
                    let ghost before = s@;
                    let space = " ";
                    s.append(space);
                    s.append(text.as_str());
                    proof {
                        reveal_strlit(" ");
                        let m = param_models(parameters@);
                        assert(m.take(i + 1).drop_last() =~= m.take(i as int));
                        assert(m.take(i + 1).last() == (parameters@[i as int].0, parameters@[i as int].1.model()));
                        assert(s@ =~= source(*name) + parameter_texts(m.take(i + 1), source));
                    }
                    i = i + 1;
                }
                proof {
                    assert(param_models(parameters@).take(parameters@.len() as int) =~= param_models(parameters@));
                }
                s
            },
            Ty::Function { inputs, output } => {
                let mut s = String::new();
                proof {
                    lemma_ty_models(inputs@);
                    assert(ty_models(inputs@).take(0) =~= Seq::<SpecTy>::empty());
                }
                let mut i: usize = 0;
                while i < inputs.len()
                    invariant
                        i <= inputs@.len(),
                        s@ == input_texts(ty_models(inputs@).take(i as int), source),
                    decreases inputs@.len() - i,
                {
                    let text = inputs[i].render(sources);
                    s.append(text.as_str());
                    let space = " ";
                    s.append(space);
                    proof {
                        reveal_strlit(" ");
                        let m = ty_models(inputs@);
                        assert(m.take(i + 1).drop_last() =~= m.take(i as int));
                        assert(m.take(i + 1).last() == inputs@[i as int].model());
                        assert(s@ =~= input_texts(m.take(i + 1), source));
                    }
                    i = i + 1;
                }
                let arrow = "-> ";
                s.append(arrow);
                let text = output.render(sources);
                s.append(text.as_str());
                proof {
                    reveal_strlit("-> ");
                    assert(ty_models(inputs@).take(inputs@.len() as int) =~= ty_models(inputs@));
                    assert(s@ =~= ty_text(self@, source));
                }
                s
            },
            Ty::Tuple { elements } => {
                let mut s = "(".to_string();
                proof {
                    reveal_strlit("(");
                    lemma_ty_models(elements@);
                    assert(ty_models(elements@).take(0) =~= Seq::<SpecTy>::empty());
                }
                let ghost start = s@;
                let mut i: usize = 0;
                while i < elements.len()
                    invariant
                        i <= elements@.len(),
                        start == seq!['('],
                        s@ == start + element_texts(ty_models(elements@).take(i as int), source),
                    decreases elements@.len() - i,
                {
                    let text = elements[i].render(sources);
                    let ghost before = s@;
                    if i > 0 {
                        let separator = " ; ";
                        s.append(separator);
                        proof {
                            reveal_strlit(" ; ");
                        }
                    }
                    s.append(text.as_str());
                    proof {
                        let m = ty_models(elements@);
                        assert(m.take(i + 1).drop_last() =~= m.take(i as int));
                        assert(m.take(i + 1).last() == elements@[i as int].model());
                        if i == 0 {
                            assert(m.take(1)[0] == elements@[0].model());
                        }
                        assert(s@ =~= start + element_texts(m.take(i + 1), source));
                    }
                    i = i + 1;
                }
                let close = ")";
                s.append(close);
                proof {
                    reveal_strlit(")");
                    assert(ty_models(elements@).take(elements@.len() as int) =~= ty_models(elements@));
                    assert(s@ =~= ty_text(self@, source));
                }
                s
            },
        }
    }
}

/// How a constraint reads: a type constraint as its type, anything else as
/// `(instantiation)`.
pub open spec fn constraint_text(c: Constraint, source: spec_fn(NodeId) -> Seq<char>) -> Seq<char> {
    match c {
        Constraint::Ty(_, ty) => ty_text(ty@, source),
        _ => "(instantiation)"@,
    }
}

/// The source text of `node` in `sources`, or nothing.
fn source_text(sources: &BTreeMap<u32, String>, node: NodeId) -> (s: String)
    ensures
        s@ == source_in(texts(sources@))(node),
{
    match sources.get(&node.0) {
        Some(text) => text.clone(),
        None => String::new(),
    }
}

/// The nodes whose source text a type shows: its parameters and the names
/// of its named types.
pub open spec fn shown_nodes(ty: SpecTy) -> Set<u32>
    decreases ty,
{
    match ty {
        SpecTy::Parameter(node) => Set::empty().insert(node.0),
        SpecTy::Named { name, parameters } => Set::empty().insert(name.0).union(params_shown_nodes(parameters)),
        SpecTy::Function { inputs, output } => tys_shown_nodes(inputs).union(shown_nodes(*output)),
        SpecTy::Tuple { elements } => tys_shown_nodes(elements),
        _ => Set::empty(),
    }
}

/// `shown_nodes` of each type of the sequence.
pub open spec fn tys_shown_nodes(tys: Seq<SpecTy>) -> Set<u32>
    decreases tys,
{
    if tys.len() == 0 {
        Set::empty()
    } else {
        tys_shown_nodes(tys.drop_last()).union(shown_nodes(tys.last()))
    }
}

/// `shown_nodes` of the type of each entry.
pub open spec fn params_shown_nodes(params: Seq<(NodeId, SpecTy)>) -> Set<u32>
    decreases params,
{
    if params.len() == 0 {
        Set::empty()
    } else {
        params_shown_nodes(params.drop_last()).union(shown_nodes(params.last().1))
    }
}

/// `sources` after gathering lists what it listed before, unchanged, and
/// the nodes of `nodes`, and nothing else.
pub open spec fn gathered(before: Map<u32, String>, after: Map<u32, String>, nodes: Set<u32>) -> bool {
    &&& forall|k: u32| #[trigger] after.contains_key(k) <==> before.contains_key(k) || nodes.contains(k)
    &&& forall|k: u32| #[trigger] before.contains_key(k) ==> after[k] == before[k]
}

/// Gathering composes.
proof fn lemma_gathered_trans(a: Map<u32, String>, b: Map<u32, String>, c: Map<u32, String>, x: Set<u32>, y: Set<u32>)
    requires
        gathered(a, b, x),
        gathered(b, c, y),
    ensures
        gathered(a, c, x.union(y)),
{
    assert forall|k: u32| #[trigger] c.contains_key(k) <==> a.contains_key(k) || x.union(y).contains(k) by {
        assert(c.contains_key(k) <==> b.contains_key(k) || y.contains(k));
        assert(b.contains_key(k) <==> a.contains_key(k) || x.contains(k));
    }
    assert forall|k: u32| #[trigger] a.contains_key(k) implies c[k] == a[k] by {
        assert(b.contains_key(k));
        assert(b[k] == a[k]);
        assert(c[k] == b[k]);
    }
}

impl Ty {
    /// Asks `provider` for the source text of each node that the type names
    /// and `sources` does not list yet, and lists it.
    #[verifier::loop_isolation(false)]
    pub(crate) fn gather<S: Fn(NodeId) -> (Span, String), C: Fn(NodeId) -> Option<String>>(&self, provider: &FeedbackProvider<S, C>, sources: &mut BTreeMap<u32, String>)
        requires
            provider.wf(),
        ensures
            gathered(old(sources)@, final(sources)@, shown_nodes(self@)),
            answered(*provider, texts(old(sources)@)) ==> answered(*provider, texts(final(sources)@)),
        decreases self,
    {
        let ghost s0 = sources@;
        match self {
            Ty::Parameter(node) => gather_node(*node, provider, sources),
            Ty::Named { name, parameters } => {
                gather_node(*name, provider, sources);
                let ghost s1 = sources@;
                let ghost m = param_models(parameters@);
                proof {
                    lemma_param_models(parameters@);
                    assert(m.take(0) =~= Seq::<(NodeId, SpecTy)>::empty());
                    assert(params_shown_nodes(m.take(0)) =~= Set::<u32>::empty());
                }
                let mut i: usize = 0;
                while i < parameters.len()
                    invariant
                        answered(*provider, texts(s0)) ==> answered(*provider, texts(sources@)),
                        i <= parameters@.len(),
                        m == param_models(parameters@),
                        m.len() == parameters@.len(),
                        forall|j: int| 0 <= j < parameters@.len() ==> #[trigger] m[j] == (parameters@[j].0, parameters@[j].1@),
                        gathered(s1, sources@, params_shown_nodes(m.take(i as int))),
                    decreases parameters@.len() - i,
                {
                    let ghost before = sources@;
                    parameters[i].1.gather(provider, sources);
                    proof {
                        assert(m.take(i + 1).drop_last() =~= m.take(i as int));
                        assert(m.take(i + 1).last() == m[i as int]);
                        lemma_gathered_trans(s1, before, sources@, params_shown_nodes(m.take(i as int)), shown_nodes(m[i as int].1));
                    }
                    i = i + 1;
                }
                proof {
                    assert(m.take(m.len() as int) =~= m);
                    lemma_gathered_trans(s0, s1, sources@, Set::empty().insert(name.0), params_shown_nodes(m));
                }
            },
            Ty::Function { inputs, output } => {
                let ghost m = ty_models(inputs@);
                proof {
                    lemma_ty_models(inputs@);
                    assert(m.take(0) =~= Seq::<SpecTy>::empty());
                    assert(tys_shown_nodes(m.take(0)) =~= Set::<u32>::empty());
                    assert(gathered(s0, sources@, Set::empty()));
                }
                let mut i: usize = 0;
                while i < inputs.len()
                    invariant
                        answered(*provider, texts(s0)) ==> answered(*provider, texts(sources@)),
                        i <= inputs@.len(),
                        m == ty_models(inputs@),
                        m.len() == inputs@.len(),
                        forall|j: int| 0 <= j < inputs@.len() ==> #[trigger] m[j] == inputs@[j]@,
                        gathered(s0, sources@, tys_shown_nodes(m.take(i as int))),
                    decreases inputs@.len() - i,
                {
                    let ghost before = sources@;
                    inputs[i].gather(provider, sources);
                    proof {
                        assert(m.take(i + 1).drop_last() =~= m.take(i as int));
                        assert(m.take(i + 1).last() == m[i as int]);
                        lemma_gathered_trans(s0, before, sources@, tys_shown_nodes(m.take(i as int)), shown_nodes(m[i as int]));
                    }
                    i = i + 1;
                }
                let ghost s2 = sources@;
                output.gather(provider, sources);
                proof {
                    assert(m.take(m.len() as int) =~= m);
                    lemma_gathered_trans(s0, s2, sources@, tys_shown_nodes(m), shown_nodes(output@));
                }
            },
            Ty::Tuple { elements } => {
                let ghost m = ty_models(elements@);
                proof {
                    lemma_ty_models(elements@);
                    assert(m.take(0) =~= Seq::<SpecTy>::empty());
                    assert(tys_shown_nodes(m.take(0)) =~= Set::<u32>::empty());
                    assert(gathered(s0, sources@, Set::empty()));
                }
                let mut i: usize = 0;
                while i < elements.len()
                    invariant
                        answered(*provider, texts(s0)) ==> answered(*provider, texts(sources@)),
                        i <= elements@.len(),
                        m == ty_models(elements@),
                        m.len() == elements@.len(),
                        forall|j: int| 0 <= j < elements@.len() ==> #[trigger] m[j] == elements@[j]@,
                        gathered(s0, sources@, tys_shown_nodes(m.take(i as int))),
                    decreases elements@.len() - i,
                {
                    let ghost before = sources@;
                    elements[i].gather(provider, sources);
                    proof {
                        assert(m.take(i + 1).drop_last() =~= m.take(i as int));
                        assert(m.take(i + 1).last() == m[i as int]);
                        lemma_gathered_trans(s0, before, sources@, tys_shown_nodes(m.take(i as int)), shown_nodes(m[i as int]));
                    }
                    i = i + 1;
                }
                proof {
                    assert(m.take(m.len() as int) =~= m);
                }
            },
            _ => {
                proof {
                    assert(shown_nodes(self@) =~= Set::<u32>::empty());
                }
            },
        }
    }

    /// How the type reads, with the source text of the nodes it names, as
    /// `provider` gives it. The provider is asked once for each node; the
    /// text is then `ty_text` under what it answered.
    pub fn to_debug_string<S: Fn(NodeId) -> (Span, String), C: Fn(NodeId) -> Option<String>>(&self, provider: &FeedbackProvider<S, C>) -> (s: String)
        requires
            provider.wf(),
        ensures
            exists|sources: Map<u32, Seq<char>>|
                s@ == ty_text(self@, #[trigger] source_in(sources)) && answered(*provider, sources),
    {
        let mut sources: BTreeMap<u32, String> = BTreeMap::new();
        proof {
            assert(texts(sources@) =~= Map::<u32, Seq<char>>::empty());
        }
        self.gather(provider, &mut sources);
        self.render(&sources)
    }
}

/// Lists the source text of `node` in `sources`, asking `provider` for it
/// unless it is listed already.
fn gather_node<S: Fn(NodeId) -> (Span, String), C: Fn(NodeId) -> Option<String>>(node: NodeId, provider: &FeedbackProvider<S, C>, sources: &mut BTreeMap<u32, String>)
    requires
        provider.wf(),
    ensures
        gathered(old(sources)@, final(sources)@, Set::empty().insert(node.0)),
        answered(*provider, texts(old(sources)@)) ==> answered(*provider, texts(final(sources)@)),
{
    if sources.get(&node.0).is_none() {
        let ghost before = sources@;
        let answer = provider.node_span_source(node);
        let ghost a = answer;
        let text = answer.1;
        sources.insert(node.0, text);
        proof {
            if answered(*provider, texts(before)) {
                assert forall|k: u32| #[trigger] texts(sources@).contains_key(k) implies exists|a: (Span, String)|
                    call_ensures(provider.span_source(), (NodeId(k),), a) && texts(sources@)[k] == a.1@ by {
                    if k == node.0 {
                        assert(NodeId(k) == node);
                        assert(call_ensures(provider.span_source(), (NodeId(k),), a));
                        assert(texts(sources@)[k] == a.1@);
                    } else {
                        assert(texts(before).contains_key(k));
                    }
                }
            }
        }
    }
}

impl Constraint {
    /// How the constraint reads, with the source text of each node it names
    /// taken from `sources`.
    pub fn render(&self, sources: &BTreeMap<u32, String>) -> (s: String)
        ensures
            s@ == constraint_text(*self, source_in(texts(sources@))),
    {
        match self {
            Constraint::Ty(_, ty) => ty.render(sources),
            _ => "(instantiation)".to_string(),
        }
    }

    /// How the constraint reads, with the source text of the nodes it names,
    /// as `provider` gives it.
    pub fn to_debug_string<S: Fn(NodeId) -> (Span, String), C: Fn(NodeId) -> Option<String>>(&self, provider: &FeedbackProvider<S, C>) -> (s: String)
        requires
            provider.wf(),
        ensures
            exists|sources: Map<u32, Seq<char>>|
                s@ == constraint_text(*self, #[trigger] source_in(sources)) && answered(*provider, sources),
    {
        let mut sources: BTreeMap<u32, String> = BTreeMap::new();
        proof {
            assert(texts(sources@) =~= Map::<u32, Seq<char>>::empty());
        }
        match self {
            Constraint::Ty(_, ty) => ty.gather(provider, &mut sources),
            _ => {},
        }
        self.render(&sources)
    }
}

} // verus!
