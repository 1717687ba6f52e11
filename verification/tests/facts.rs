use std::collections::BTreeSet;
use wipple_compiler::trace::NodeId;
use wipple_compiler::typecheck::constraints::Ty;
use wipple_compiler::typecheck::facts::{type_facts, TypeFact};
use wipple_compiler::typecheck::groups::TyGroups;

#[test]
fn facts_of_typed_untyped_and_definition_nodes() {
    let mut groups = TyGroups::new();
    let typed = groups.insert_group(Ty::unit());
    groups.assign_node_to_index(NodeId(1), typed);
    let incomplete = groups.insert_group(Ty::Of(NodeId(9)));
    groups.assign_node_to_index(NodeId(2), incomplete);
    let mut definitions = BTreeSet::new();
    definitions.insert(4);
    let nodes = vec![NodeId(1), NodeId(2), NodeId(3), NodeId(4), NodeId(3)];
    let facts = type_facts(&mut groups, &nodes, &definitions);
    assert_eq!(facts.len(), 5);
    assert_eq!(facts[0], vec![TypeFact::Type(Ty::unit())]);
    assert_eq!(facts[1], vec![TypeFact::Type(Ty::Of(NodeId(9))), TypeFact::IncompleteType]);
    assert_eq!(facts[2], vec![TypeFact::UnknownType, TypeFact::Type(Ty::Unknown)]);
    assert_eq!(facts[3], vec![]);
    assert_eq!(facts[4], vec![TypeFact::Type(Ty::Unknown)]);
    assert_eq!(groups.index_of(NodeId(3)), Some(2));
    assert_eq!(groups.index_of(NodeId(4)), None);
}
