use wipple_compiler::trace::{NodeId, Span};
use wipple_compiler::typecheck::constraints::{
    Bound, Constraint, Constraints, Instantiation, Substitutions, Ty,
};
use wipple_compiler::typecheck::display::FeedbackProvider;
use wipple_compiler::typecheck::id::TypedNodeId;
use wipple_compiler::typecheck::nodes::{
    AnnotateNode, Annotation, BlockNode, CallNode, ConstraintNode, DefinitionNode, EmptyNode,
    FunctionNode, PlaceholderNode, ToConstraints, ToConstraintsContext, TupleElementNode, TupleNode,
    UnitNode,
};

fn n(i: u32) -> NodeId {
    NodeId(i)
}

fn of(i: u32) -> Ty {
    Ty::Of(NodeId(i))
}

fn kinds(constraints: &[Constraint]) -> Vec<String> {
    constraints.iter().map(|c| format!("{:?}", c)).collect()
}

#[test]
fn unit_is_the_empty_tuple() {
    assert_eq!(Ty::unit(), Ty::Tuple { elements: vec![] });
}

#[test]
fn incomplete_types_refer_to_nodes() {
    assert!(of(1).is_incomplete());
    assert!(!Ty::Unknown.is_incomplete());
    assert!(!Ty::Parameter(n(1)).is_incomplete());
    assert!(!Ty::unit().is_incomplete());
    assert!(Ty::Tuple { elements: vec![Ty::unit(), of(3)] }.is_incomplete());
    assert!(Ty::Function { inputs: vec![], output: Box::new(of(2)) }.is_incomplete());
    assert!(!Ty::Function { inputs: vec![Ty::Unknown], output: Box::new(Ty::unit()) }.is_incomplete());
    assert!(Ty::Named { name: n(5), parameters: vec![(n(6), of(7))] }.is_incomplete());
    assert!(!Ty::Named { name: n(5), parameters: vec![(n(6), Ty::unit())] }.is_incomplete());
}

#[test]
fn types_compare_by_value() {
    let a = Ty::Function { inputs: vec![of(1)], output: Box::new(Ty::unit()) };
    assert!(a.same(&a.deep_clone()));
    assert!(!a.same(&Ty::Function { inputs: vec![of(2)], output: Box::new(Ty::unit()) }));
    assert_eq!(a.clone(), a);
}

#[test]
fn substitutions_keep_one_entry_per_parameter_in_order() {
    let mut s = Substitutions::replace_all();
    assert_eq!(s.get(n(3)), None);
    s.insert(n(5), of(50));
    s.insert(n(3), of(30));
    s.insert(n(5), of(55));
    assert_eq!(s.get(n(5)), Some(&of(55)));
    assert_eq!(s.get(n(3)), Some(&of(30)));
    assert_eq!(s.get(n(4)), None);
    assert_eq!(s.0, vec![(n(3), of(30)), (n(5), of(55))]);
}

#[test]
fn substitutions_from_pairs() {
    let s = Substitutions::from_pairs(vec![(n(2), n(20)), (n(1), n(10)), (n(2), n(21))]);
    assert_eq!(s.0, vec![(n(1), of(10)), (n(2), of(21))]);
}

#[test]
fn constraints_are_sorted_by_kind() {
    let mut c = Constraints::new();
    c.insert_ty(n(2), Ty::unit());
    c.insert_ty(n(1), of(2));
    c.insert_ty(n(2), of(3));
    c.insert_bound(Bound { node: n(4), tr: n(9), substitutions: Substitutions::replace_all() });
    c.insert_instantiation(Instantiation {
        substitutions: Substitutions::replace_all(),
        constraints: vec![Constraint::Ty(n(5), of(6))],
    });
    assert_eq!(c.tys.get(&2), Some(&vec![Ty::unit(), of(3)]));
    let all = c.iter();
    assert_eq!(
        kinds(&all),
        kinds(&[
            Constraint::Ty(n(1), of(2)),
            Constraint::Ty(n(2), Ty::unit()),
            Constraint::Ty(n(2), of(3)),
            Constraint::Instantiation(Instantiation {
                substitutions: Substitutions::replace_all(),
                constraints: vec![Constraint::Ty(n(5), of(6))],
            }),
            Constraint::Bound(Bound { node: n(4), tr: n(9), substitutions: Substitutions::replace_all() }),
        ])
    );
}

#[test]
fn constraints_from_iter() {
    let c = Constraints::from_iter(
        n(7),
        vec![
            Constraint::Ty(n(1), of(2)),
            Constraint::Bound(Bound { node: n(1), tr: n(9), substitutions: Substitutions::replace_all() }),
            Constraint::Ty(n(1), Ty::unit()),
        ],
    );
    assert!(c.nodes.contains(&7));
    assert_eq!(c.nodes.len(), 1);
    assert_eq!(c.tys.get(&1), Some(&vec![of(2), Ty::unit()]));
    assert_eq!(c.bounds.len(), 1);
    assert_eq!(c.instantiations.len(), 0);
}

fn collect(f: impl FnOnce(&mut ToConstraintsContext)) -> Vec<String> {
    let mut ctx = ToConstraintsContext::new();
    f(&mut ctx);
    kinds(&ctx.into_constraints())
}

#[test]
fn node_constraints() {
    assert_eq!(
        collect(|ctx| BlockNode { statements: vec![n(3), n(4)] }.to_constraints(n(1), ctx)),
        kinds(&[Constraint::Ty(n(1), of(4))])
    );
    assert_eq!(
        collect(|ctx| BlockNode { statements: vec![] }.to_constraints(n(1), ctx)),
        kinds(&[Constraint::Ty(n(1), Ty::unit())])
    );
    assert_eq!(
        collect(|ctx| CallNode { function: n(2), inputs: vec![n(3), n(4)] }.to_constraints(n(1), ctx)),
        kinds(&[Constraint::Ty(n(2), Ty::Function { inputs: vec![of(3), of(4)], output: Box::new(of(1)) })])
    );
    assert_eq!(
        collect(|ctx| FunctionNode { inputs: vec![n(3)], output: n(4) }.to_constraints(n(1), ctx)),
        kinds(&[Constraint::Ty(n(1), Ty::Function { inputs: vec![of(3)], output: Box::new(of(4)) })])
    );
    assert_eq!(
        collect(|ctx| TupleNode { elements: vec![n(3), n(4)] }.to_constraints(n(1), ctx)),
        kinds(&[Constraint::Ty(n(1), Ty::Tuple { elements: vec![of(3), of(4)] })])
    );
    assert_eq!(
        collect(|ctx| TupleElementNode { index: 1, count: 3, target: n(9) }.to_constraints(n(1), ctx)),
        kinds(&[Constraint::Ty(n(9), Ty::Tuple { elements: vec![Ty::Unknown, of(1), Ty::Unknown] })])
    );
    assert_eq!(collect(|ctx| UnitNode {}.to_constraints(n(1), ctx)), kinds(&[Constraint::Ty(n(1), Ty::unit())]));
    assert_eq!(collect(|ctx| EmptyNode.to_constraints(n(1), ctx)), Vec::<String>::new());
    assert_eq!(collect(|ctx| PlaceholderNode.to_constraints(n(1), ctx)), Vec::<String>::new());
    assert_eq!(
        collect(|ctx| DefinitionNode { definition: n(5), constraints: vec![Constraint::Ty(n(6), of(7))] }
            .to_constraints(n(1), ctx)),
        kinds(&[Constraint::Ty(n(1), of(5)), Constraint::Ty(n(6), of(7))])
    );
    assert_eq!(
        collect(|ctx| ConstraintNode { value: n(5), constraints: vec![Constraint::Ty(n(5), Ty::unit())] }
            .to_constraints(n(1), ctx)),
        kinds(&[Constraint::Ty(n(5), Ty::unit()), Constraint::Ty(n(1), of(5))])
    );
}

#[test]
fn annotations_constrain_the_annotated_value() {
    let node = AnnotateNode {
        value: n(2),
        annotations: vec![
            Annotation::Ty(Ty::unit()),
            Annotation::Bound { node: None, tr: n(9), substitutions: Substitutions::replace_all() },
            Annotation::Bound { node: Some(n(3)), tr: n(9), substitutions: Substitutions::replace_all() },
            Annotation::Instantiate {
                annotations: vec![Annotation::Ty(Ty::Parameter(n(8)))],
                substitutions: Substitutions::from_pairs(vec![(n(8), n(4))]),
            },
        ],
    };
    assert_eq!(
        collect(|ctx| node.to_constraints(n(1), ctx)),
        kinds(&[
            Constraint::Ty(n(2), Ty::unit()),
            Constraint::Bound(Bound { node: n(2), tr: n(9), substitutions: Substitutions::replace_all() }),
            Constraint::Bound(Bound { node: n(3), tr: n(9), substitutions: Substitutions::replace_all() }),
            Constraint::Instantiation(Instantiation {
                substitutions: Substitutions::from_pairs(vec![(n(8), n(4))]),
                constraints: vec![Constraint::Ty(n(2), Ty::Parameter(n(8)))],
            }),
        ])
    );
}

#[test]
fn typed_node_ids() {
    let plain = TypedNodeId::from(n(3));
    assert_eq!(plain.untyped(), n(3));
    assert_eq!(plain.instantiation, None);
    assert!(TypedNodeId::instantiate(n(3), n(3)) == plain);
    let under = TypedNodeId::instantiate(n(3), n(5));
    assert_eq!(under.instantiation, Some(n(5)));
    assert_eq!(under.untyped(), n(3));
    assert!(under.uninstantiated() == plain);
    assert!(plain.instantiated_under(n(5)) == under);
    assert!(under.instantiated_under(n(5)) == under);
    assert!(plain.instantiated_under(n(3)) == plain);
    assert_eq!(plain.to_debug_string(), "NodeId(3)");
    assert_eq!(under.to_debug_string(), "NodeId(3) instantiated under NodeId(5)");
    assert!(TypedNodeId::from_node(n(3)) == plain);
}

struct Source;

impl Source {
    fn node_span_source(&self, node: NodeId) -> (Span, String) {
        let text = match node.0 {
            1 => "Number",
            2 => "Maybe",
            3 => "value",
            _ => "?",
        };
        (Span::root("input"), String::from(text))
    }

    fn node_comments(&self, _node: NodeId) -> Option<String> {
        None
    }
}

fn source() -> FeedbackProvider<impl Fn(NodeId) -> (Span, String), impl Fn(NodeId) -> Option<String>> {
    FeedbackProvider::new(|node| Source.node_span_source(node), |node| Source.node_comments(node))
}

#[test]
fn types_read_with_source_names() {
    let number = Ty::Named { name: n(1), parameters: vec![] };
    let maybe = Ty::Named { name: n(2), parameters: vec![(n(3), number.deep_clone())] };
    assert_eq!(Ty::Unknown.to_debug_string(&source()), "_");
    assert_eq!(of(7).to_debug_string(&source()), "_");
    assert_eq!(Ty::Parameter(n(3)).to_debug_string(&source()), "value");
    assert_eq!(number.to_debug_string(&source()), "Number");
    assert_eq!(maybe.to_debug_string(&source()), "Maybe Number");
    assert_eq!(
        Ty::Function { inputs: vec![maybe.deep_clone(), number.deep_clone()], output: Box::new(Ty::unit()) }
            .to_debug_string(&source()),
        "Maybe Number Number -> ()"
    );
    assert_eq!(
        Ty::Function { inputs: vec![], output: Box::new(number.deep_clone()) }.to_debug_string(&source()),
        "-> Number"
    );
    assert_eq!(
        Ty::Tuple { elements: vec![number.deep_clone(), Ty::Parameter(n(3)), of(1)] }.to_debug_string(&source()),
        "(Number ; value ; _)"
    );
    assert_eq!(Constraint::Ty(n(1), maybe).to_debug_string(&source()), "Maybe Number");
    assert_eq!(
        Constraint::Bound(Bound { node: n(1), tr: n(2), substitutions: Substitutions::replace_all() })
            .to_debug_string(&source()),
        "(instantiation)"
    );
}

#[test]
fn types_read_with_listed_sources() {
    let mut sources = std::collections::BTreeMap::new();
    sources.insert(1, String::from("Number"));
    let number = Ty::Named { name: n(1), parameters: vec![] };
    let list = Ty::Named { name: n(2), parameters: vec![(n(3), number.deep_clone())] };
    assert_eq!(number.render(&sources), "Number");
    // A node that is not listed reads as nothing.
    assert_eq!(list.render(&sources), " Number");
    assert_eq!(Constraint::Ty(n(1), number).render(&sources), "Number");
}

#[test]
fn extended_constraints_come_back_as_a_permutation() {
    let given = vec![
        Constraint::Ty(n(3), of(1)),
        Constraint::Bound(Bound { node: n(4), tr: n(9), substitutions: Substitutions::replace_all() }),
        Constraint::Ty(n(1), Ty::unit()),
        Constraint::Ty(n(3), Ty::unit()),
        Constraint::Ty(n(1), of(3)),
    ];
    let mut c = Constraints::new();
    c.extend(given);
    let all = c.iter();
    assert_eq!(
        kinds(&all),
        kinds(&[
            Constraint::Ty(n(1), Ty::unit()),
            Constraint::Ty(n(1), of(3)),
            Constraint::Ty(n(3), of(1)),
            Constraint::Ty(n(3), Ty::unit()),
            Constraint::Bound(Bound { node: n(4), tr: n(9), substitutions: Substitutions::replace_all() }),
        ])
    );
}
