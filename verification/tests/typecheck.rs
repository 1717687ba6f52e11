use wipple_compiler::trace::NodeId;
use wipple_compiler::typecheck::checker::{Progress, TypeProvider, Typechecker};
use wipple_compiler::typecheck::constraints::{Bound, Constraint, Instantiation, Substitutions, Ty};
use wipple_compiler::typecheck::groups::TyGroups;

/// A program with numbered nodes: copies get fresh numbers, and the
/// instances of each trait are listed by hand.
struct Program {
    next: u32,
    copies: Vec<(NodeId, NodeId)>,
    instances: Vec<(NodeId, Vec<(NodeId, Vec<(NodeId, NodeId)>)>)>,
    resolved: Vec<(NodeId, NodeId, NodeId)>,
    unresolved: Vec<(NodeId, NodeId)>,
}

impl Program {
    fn new(next: u32) -> Self {
        Program { next, copies: vec![], instances: vec![], resolved: vec![], unresolved: vec![] }
    }
}

impl TypeProvider for Program {
    fn copy_node(&mut self, node: NodeId) -> NodeId {
        let copy = NodeId(self.next);
        self.next += 1;
        self.copies.push((node, copy));
        copy
    }

    fn get_trait_instances(&mut self, tr: NodeId) -> Vec<(NodeId, Vec<(NodeId, NodeId)>)> {
        self.instances
            .iter()
            .find(|(t, _)| *t == tr)
            .map(|(_, instances)| instances.clone())
            .unwrap_or_default()
    }

    fn flag_resolved(&mut self, node: NodeId, bound: Bound, instance: NodeId) {
        self.resolved.push((node, bound.tr, instance));
    }

    fn flag_unresolved(&mut self, node: NodeId, bound: Bound) {
        self.unresolved.push((node, bound.tr));
    }
}

impl TypeProvider for &mut Program {
    fn copy_node(&mut self, node: NodeId) -> NodeId {
        (**self).copy_node(node)
    }

    fn get_trait_instances(&mut self, tr: NodeId) -> Vec<(NodeId, Vec<(NodeId, NodeId)>)> {
        (**self).get_trait_instances(tr)
    }

    fn flag_resolved(&mut self, node: NodeId, bound: Bound, instance: NodeId) {
        (**self).flag_resolved(node, bound, instance)
    }

    fn flag_unresolved(&mut self, node: NodeId, bound: Bound) {
        (**self).flag_unresolved(node, bound)
    }
}

fn n(i: u32) -> NodeId {
    NodeId(i)
}

fn of(i: u32) -> Ty {
    Ty::Of(NodeId(i))
}

fn named(name: u32, parameters: Vec<(NodeId, Ty)>) -> Ty {
    Ty::Named { name: NodeId(name), parameters }
}

fn tys(groups: &TyGroups, node: u32) -> Vec<Ty> {
    let index = groups.index_of(n(node)).expect("node has a group");
    groups.tys_at(index).to_vec()
}

fn checker(nodes: &[u32]) -> Typechecker<Program> {
    let mut t = Typechecker::with_provider(Program::new(100));
    t.insert_nodes(nodes.iter().map(|&i| n(i)).collect());
    t
}

#[test]
fn every_inserted_node_gets_a_group() {
    let t = checker(&[1, 2, 3]);
    let groups = t.to_ty_groups();
    for i in [1, 2, 3] {
        assert_eq!(tys(&groups, i), vec![Ty::Unknown]);
    }
    assert_ne!(groups.index_of(n(1)), groups.index_of(n(2)));
    assert_eq!(groups.index_of(n(4)), None);
}

#[test]
fn nodes_of_the_same_type_share_a_group() {
    let mut t = checker(&[1, 2, 3]);
    t.insert_constraints(vec![Constraint::Ty(n(1), of(2)), Constraint::Ty(n(2), Ty::unit())]);
    let groups = t.to_ty_groups();
    assert_eq!(groups.index_of(n(1)), groups.index_of(n(2)));
    assert_eq!(tys(&groups, 1), vec![Ty::unit()]);
    assert_ne!(groups.index_of(n(3)), groups.index_of(n(1)));
    assert_eq!(tys(&groups, 3), vec![Ty::Unknown]);
}

#[test]
fn groups_join_through_chains_of_nodes() {
    let mut t = checker(&[1, 2, 3, 4]);
    t.insert_constraints(vec![
        Constraint::Ty(n(1), of(2)),
        Constraint::Ty(n(3), of(4)),
        Constraint::Ty(n(4), named(50, vec![])),
    ]);
    let groups = t.to_ty_groups();
    // Nodes of a group with no type yet are reported one by one.
    assert_ne!(groups.index_of(n(1)), groups.index_of(n(2)));
    assert_eq!(groups.index_of(n(3)), groups.index_of(n(4)));
    assert_eq!(tys(&groups, 1), vec![Ty::Unknown]);
    assert_eq!(tys(&groups, 3), vec![named(50, vec![])]);
    // The type of 3's group is applied first, so 2's group takes that type
    // and the two groups stay apart.
    t.insert_constraints(vec![Constraint::Ty(n(2), of(3))]);
    let groups = t.to_ty_groups();
    assert_eq!(groups.index_of(n(1)), groups.index_of(n(2)));
    assert_eq!(groups.index_of(n(3)), groups.index_of(n(4)));
    for i in [1, 2, 3, 4] {
        assert_eq!(tys(&groups, i), vec![named(50, vec![])]);
    }
}

#[test]
fn conflicting_types_stay_in_the_group() {
    let mut t = checker(&[1]);
    t.insert_constraints(vec![
        Constraint::Ty(n(1), Ty::unit()),
        Constraint::Ty(n(1), Ty::Tuple { elements: vec![Ty::unit()] }),
    ]);
    let groups = t.to_ty_groups();
    assert_eq!(tys(&groups, 1), vec![Ty::unit(), Ty::Tuple { elements: vec![Ty::unit()] }]);
}

#[test]
fn function_types_unify_part_by_part() {
    let mut t = checker(&[1, 2, 3, 4]);
    t.insert_constraints(vec![
        Constraint::Ty(n(1), Ty::Function { inputs: vec![of(2)], output: Box::new(of(3)) }),
        Constraint::Ty(n(1), Ty::Function { inputs: vec![Ty::unit()], output: Box::new(named(60, vec![])) }),
        Constraint::Ty(n(4), of(3)),
    ]);
    let groups = t.to_ty_groups();
    assert_eq!(tys(&groups, 2), vec![Ty::unit()]);
    assert_eq!(tys(&groups, 3), vec![named(60, vec![])]);
    assert_eq!(groups.index_of(n(4)), groups.index_of(n(3)));
    assert_eq!(
        tys(&groups, 1),
        vec![Ty::Function { inputs: vec![Ty::unit()], output: Box::new(named(60, vec![])) }]
    );
}

#[test]
fn named_types_with_other_names_do_not_unify() {
    let mut t = checker(&[1]);
    t.insert_constraints(vec![
        Constraint::Ty(n(1), named(60, vec![])),
        Constraint::Ty(n(1), named(61, vec![])),
    ]);
    let groups = t.to_ty_groups();
    assert_eq!(tys(&groups, 1), vec![named(60, vec![]), named(61, vec![])]);
}

#[test]
fn named_type_parameters_unify() {
    let mut t = checker(&[1, 2]);
    t.insert_constraints(vec![
        Constraint::Ty(n(1), named(60, vec![(n(70), of(2))])),
        Constraint::Ty(n(1), named(60, vec![(n(70), Ty::unit())])),
    ]);
    let groups = t.to_ty_groups();
    assert_eq!(tys(&groups, 2), vec![Ty::unit()]);
    assert_eq!(tys(&groups, 1), vec![named(60, vec![(n(70), Ty::unit())])]);
}

#[test]
fn different_parameters_do_not_unify() {
    let mut t = checker(&[1]);
    t.insert_constraints(vec![
        Constraint::Ty(n(1), Ty::Parameter(n(80))),
        Constraint::Ty(n(1), Ty::Parameter(n(80))),
        Constraint::Ty(n(1), Ty::Parameter(n(81))),
    ]);
    let groups = t.to_ty_groups();
    assert_eq!(tys(&groups, 1), vec![Ty::Parameter(n(80)), Ty::Parameter(n(81))]);
}

#[test]
fn instantiation_substitutes_parameters() {
    let mut t = checker(&[1, 2, 3]);
    let mut substitutions = Substitutions::replace_all();
    substitutions.insert(n(80), of(2));
    t.insert_constraints(vec![
        Constraint::Ty(n(2), named(60, vec![])),
        Constraint::Instantiation(Instantiation {
            substitutions,
            constraints: vec![Constraint::Ty(n(1), Ty::Parameter(n(80)))],
        }),
    ]);
    let groups = t.to_ty_groups();
    assert_eq!(tys(&groups, 1), vec![named(60, vec![])]);
    assert_eq!(tys(&groups, 2), vec![named(60, vec![])]);
}

#[test]
fn instantiation_copies_parameters_without_substitution() {
    let mut t = Typechecker::with_provider(Program::new(100));
    t.insert_nodes(vec![n(1), n(2)]);
    t.insert_constraints(vec![Constraint::Instantiation(Instantiation {
        substitutions: Substitutions::replace_all(),
        constraints: vec![
            Constraint::Ty(n(1), Ty::Parameter(n(80))),
            Constraint::Ty(n(2), Ty::Parameter(n(80))),
        ],
    })]);
    // The fresh node is reported, with no type yet.
    let groups = t.to_ty_groups();
    assert_eq!(tys(&groups, 100), vec![Ty::Unknown]);
    // Both occurrences of the parameter stand for the same fresh node.
    t.insert_constraints(vec![Constraint::Ty(n(100), Ty::unit())]);
    let groups = t.to_ty_groups();
    assert_eq!(groups.index_of(n(1)), groups.index_of(n(100)));
    assert_eq!(groups.index_of(n(2)), groups.index_of(n(100)));
    assert_eq!(tys(&groups, 1), vec![Ty::unit()]);
}

fn show_trait<P: TypeProvider>(t: &mut Typechecker<P>) {
    // The trait 90 has one parameter, 80; instance 91 is for unit, instance
    // 92 for the named type 60.
    t.insert_constraints(vec![
        Constraint::Ty(n(90), named(90, vec![(n(80), Ty::Parameter(n(80)))])),
        Constraint::Ty(n(91), named(90, vec![(n(80), Ty::unit())])),
        Constraint::Ty(n(92), named(90, vec![(n(80), named(60, vec![]))])),
    ]);
}

/// The bound that trait 90 has an instance for the type of `value`, checked
/// at node 2.
fn bound_on(value: u32) -> Constraint {
    let mut substitutions = Substitutions::replace_all();
    substitutions.insert(n(80), of(value));
    Constraint::Bound(Bound { node: n(2), tr: n(90), substitutions })
}

#[test]
fn bound_with_one_fitting_instance_is_resolved() {
    let mut program = Program::new(100);
    program.instances = vec![(n(90), vec![(n(91), vec![]), (n(92), vec![])])];
    let groups = {
        let mut t = Typechecker::with_provider(&mut program);
        t.insert_nodes(vec![n(1)]);
        show_trait(&mut t);
        t.insert_constraints(vec![Constraint::Ty(n(1), Ty::unit())]);
        t.insert_constraints(vec![bound_on(1)]);
        t.to_ty_groups()
    };
    assert_eq!(tys(&groups, 1), vec![Ty::unit()]);
    // The bound is checked at a copy of its node.
    assert_eq!(program.copies[0], (n(2), n(100)));
    assert_eq!(program.resolved, vec![(n(100), n(90), n(91))]);
    assert_eq!(program.unresolved, vec![]);
    // The copy has the trait's type for the value's type.
    assert_eq!(tys(&groups, 100), vec![named(90, vec![(n(80), Ty::unit())])]);
}

#[test]
fn bound_with_no_fitting_instance_is_unresolved() {
    let mut program = Program::new(100);
    program.instances = vec![(n(90), vec![(n(92), vec![])])];
    {
        let mut t = Typechecker::with_provider(&mut program);
        t.insert_nodes(vec![n(1)]);
        show_trait(&mut t);
        t.insert_constraints(vec![Constraint::Ty(n(1), Ty::unit())]);
        t.insert_constraints(vec![bound_on(1)]);
        let groups = t.to_ty_groups();
        assert_eq!(tys(&groups, 1), vec![Ty::unit()]);
    }
    assert_eq!(program.resolved, vec![]);
    assert_eq!(program.unresolved, vec![(n(100), n(90))]);
}

#[test]
fn bound_with_two_fitting_instances_is_unresolved() {
    let mut program = Program::new(100);
    program.instances = vec![(n(90), vec![(n(91), vec![]), (n(93), vec![])])];
    {
        let mut t = Typechecker::with_provider(&mut program);
        t.insert_nodes(vec![n(1)]);
        show_trait(&mut t);
        t.insert_constraints(vec![Constraint::Ty(n(93), named(90, vec![(n(80), Ty::unit())]))]);
        t.insert_constraints(vec![Constraint::Ty(n(1), Ty::unit())]);
        t.insert_constraints(vec![bound_on(1)]);
    }
    assert_eq!(program.resolved, vec![]);
    assert_eq!(program.unresolved, vec![(n(100), n(90))]);
}

#[test]
fn a_type_that_contains_itself_is_resolved_to_a_limit() {
    let mut t = checker(&[1]);
    t.insert_constraints(vec![Constraint::Ty(n(1), Ty::Tuple { elements: vec![of(1)] })]);
    let groups = t.to_ty_groups();
    let found = tys(&groups, 1);
    assert_eq!(found.len(), 1);
    assert!(matches!(found[0], Ty::Tuple { .. }));
}

#[test]
fn progress_is_taken_and_reset() {
    let mut p = Progress::default();
    assert_eq!(p, Progress::NoProgress);
    p.set();
    assert_eq!(p, Progress::Progressed);
    assert_eq!(p.take(), Progress::Progressed);
    assert_eq!(p, Progress::NoProgress);
    assert_eq!(Progress::Progressed.or_else(|| Progress::NoProgress), Progress::Progressed);
    assert_eq!(Progress::NoProgress.or_else(|| Progress::Progressed), Progress::Progressed);
    assert_eq!(Progress::NoProgress.or_else(|| Progress::NoProgress), Progress::NoProgress);
}

#[test]
fn ty_groups_by_hand() {
    let mut groups = TyGroups::new();
    let a = groups.insert_group(Ty::unit());
    let b = groups.insert_group(Ty::Unknown);
    assert_eq!((a, b), (0, 1));
    groups.assign_node_to_index(n(5), a);
    groups.assign_node_to_index(n(3), a);
    groups.assign_node_to_index(n(4), b);
    groups.push_ty_at(a, named(60, vec![]));
    assert_eq!(groups.index_of(n(3)), Some(0));
    assert_eq!(groups.index_of(n(6)), None);
    assert_eq!(groups.nodes(), vec![n(3), n(4), n(5)]);
    assert_eq!(groups.nodes_in_group(0), vec![n(3), n(5)]);
    assert_eq!(groups.nodes_in_group(1), vec![n(4)]);
    assert_eq!(groups.nodes_in_group(2), vec![]);
    assert_eq!(groups.tys_at(0).to_vec(), vec![Ty::unit(), named(60, vec![])]);
    assert_eq!(
        groups.groups(),
        vec![(0, vec![Ty::unit(), named(60, vec![])]), (1, vec![Ty::Unknown])]
    );
    let empty = TyGroups::default();
    assert_eq!(empty.nodes(), vec![]);
}

#[test]
fn grouped_nodes_stay_grouped_through_later_calls() {
    let mut t = checker(&[1, 2, 3]);
    t.insert_constraints(vec![Constraint::Ty(n(1), of(2)), Constraint::Ty(n(2), Ty::unit())]);
    t.insert_nodes(vec![n(4)]);
    t.insert_constraints(vec![Constraint::Ty(n(3), named(50, vec![]))]);
    t.insert_constraints(vec![Constraint::Ty(n(4), of(1))]);
    let groups = t.to_ty_groups();
    assert_eq!(groups.index_of(n(1)), groups.index_of(n(2)));
    // A node related to a group that already has a type takes that type in
    // a group of its own.
    assert_ne!(groups.index_of(n(4)), groups.index_of(n(1)));
    assert_eq!(tys(&groups, 4), vec![Ty::unit()]);
    assert_eq!(tys(&groups, 2), vec![Ty::unit()]);
    assert_eq!(tys(&groups, 3), vec![named(50, vec![])]);
}

#[test]
fn a_type_given_to_a_node_is_read_back() {
    let mut t = checker(&[]);
    let ty = Ty::Function { inputs: vec![named(50, vec![])], output: Box::new(Ty::Parameter(n(60))) };
    t.insert_constraints(vec![Constraint::Ty(n(7), ty.deep_clone())]);
    let groups = t.to_ty_groups();
    assert_eq!(tys(&groups, 7)[0], ty);
}

#[test]
fn nodes_related_in_one_call_share_the_type_given_to_one_of_them() {
    let mut t = checker(&[1, 2, 3]);
    // The type comes first; the relations are still solved before it.
    t.insert_constraints(vec![
        Constraint::Ty(n(2), named(50, vec![])),
        Constraint::Ty(n(1), of(2)),
        Constraint::Ty(n(3), of(1)),
    ]);
    let groups = t.to_ty_groups();
    assert_eq!(groups.index_of(n(1)), groups.index_of(n(2)));
    assert_eq!(groups.index_of(n(3)), groups.index_of(n(2)));
    assert_eq!(tys(&groups, 3), vec![named(50, vec![])]);
}

#[test]
fn nodes_without_types_get_groups_in_order_of_the_node() {
    let t = checker(&[5, 3]);
    let groups = t.to_ty_groups();
    assert_eq!(groups.index_of(n(3)), Some(0));
    assert_eq!(groups.index_of(n(5)), Some(1));
    assert_eq!(groups.tys_at(0).to_vec(), vec![Ty::Unknown]);
    assert_eq!(groups.tys_at(1).to_vec(), vec![Ty::Unknown]);
    assert_eq!(groups.groups().len(), 2);
}

#[test]
fn failed_types_follow_the_group_type_in_order() {
    let mut t = checker(&[1]);
    t.insert_constraints(vec![
        Constraint::Ty(n(1), Ty::unit()),
        Constraint::Ty(n(1), named(60, vec![])),
        Constraint::Ty(n(1), named(61, vec![])),
    ]);
    let groups = t.to_ty_groups();
    assert_eq!(tys(&groups, 1), vec![Ty::unit(), named(60, vec![]), named(61, vec![])]);
}

#[test]
fn a_clash_at_the_top_is_refused() {
    let mut t = checker(&[1, 2]);
    t.insert_constraints(vec![
        Constraint::Ty(n(1), Ty::Parameter(n(7))),
        Constraint::Ty(n(1), Ty::Parameter(n(8))),
        Constraint::Ty(n(2), Ty::Unknown),
        Constraint::Ty(n(2), Ty::Unknown),
    ]);
    let groups = t.to_ty_groups();
    assert_eq!(tys(&groups, 1), vec![Ty::Parameter(n(7)), Ty::Parameter(n(8))]);
    assert_eq!(tys(&groups, 2), vec![Ty::Unknown, Ty::Unknown]);
}

#[test]
fn a_clash_inside_tuples_is_refused() {
    let mut t = checker(&[1]);
    t.insert_constraints(vec![
        Constraint::Ty(n(1), Ty::Tuple { elements: vec![Ty::unit(), named(60, vec![])] }),
        Constraint::Ty(n(1), Ty::Tuple { elements: vec![Ty::unit(), named(61, vec![])] }),
    ]);
    let groups = t.to_ty_groups();
    assert_eq!(
        tys(&groups, 1),
        vec![
            Ty::Tuple { elements: vec![Ty::unit(), named(60, vec![])] },
            Ty::Tuple { elements: vec![Ty::unit(), named(61, vec![])] },
        ]
    );
}

#[test]
fn node_types_nested_in_a_type_are_replaced_by_their_group_types() {
    let mut t = checker(&[1, 2, 3]);
    t.insert_constraints(vec![
        Constraint::Ty(n(1), Ty::Tuple { elements: vec![of(2), named(71, vec![(n(9), of(3))])] }),
        Constraint::Ty(n(2), named(70, vec![])),
        Constraint::Ty(n(3), Ty::unit()),
    ]);
    let groups = t.to_ty_groups();
    assert_eq!(
        tys(&groups, 1),
        vec![Ty::Tuple { elements: vec![named(70, vec![]), named(71, vec![(n(9), Ty::unit())])] }]
    );
}
