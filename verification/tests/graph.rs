use std::collections::{BTreeMap, BTreeSet};
use wipple_compiler::trace::{Fact, NodeId, Span};
use wipple_compiler::typecheck::constraints::Ty;
use wipple_compiler::typecheck::debug::{render_graph, write_graph};
use wipple_compiler::typecheck::display::FeedbackProvider;
use wipple_compiler::typecheck::groups::TyGroups;

struct Program;

fn span_at(line: usize) -> Span {
    Span {
        path: String::from("test"),
        range: 0..0,
        start_line_col: (line, 0),
        end_line_col: (line, 0),
    }
}

impl Program {
    fn node_span_source(&self, node: NodeId) -> (Span, String) {
        (span_at(node.0 as usize), format!("src{}", node.0))
    }

    fn node_comments(&self, node: NodeId) -> Option<String> {
        if node.0 == 1 {
            Some(String::from("// c"))
        } else {
            None
        }
    }
}

fn provider() -> FeedbackProvider<impl Fn(NodeId) -> (Span, String), impl Fn(NodeId) -> Option<String>> {
    FeedbackProvider::new(|node| Program.node_span_source(node), |node| Program.node_comments(node))
}

const HEADER: &str = "%%{init: {'theme':'neutral'}}%%\nflowchart TD\nclassDef success fill:#0000ff10,stroke:#0000ff,stroke-dasharray:10;\nclassDef error fill:#ff000010,stroke:#ff0000,stroke-dasharray:10;\n";

fn sample_groups() -> TyGroups {
    let mut groups = TyGroups::new();
    let first = groups.insert_group(Ty::Parameter(NodeId(5)));
    groups.assign_node_to_index(NodeId(1), first);
    groups.assign_node_to_index(NodeId(2), first);
    let second = groups.insert_group(Ty::Named { name: NodeId(7), parameters: vec![] });
    groups.push_ty_at(second, Ty::Tuple { elements: vec![] });
    groups.assign_node_to_index(NodeId(3), second);
    groups
}

fn sample_facts() -> BTreeMap<u32, Vec<Fact>> {
    let mut facts = BTreeMap::new();
    facts.insert(1, vec![Fact::marker("typed"), Fact::with_node(NodeId(2), "child")]);
    facts.insert(2, vec![Fact::with_str("name", "x")]);
    facts.insert(3, vec![Fact::marker("_hidden")]);
    facts
}

#[test]
fn graph_lists_nodes_relations_and_groups() {
    let mut out = String::new();
    write_graph(&mut out, &sample_groups(), &sample_facts(), &provider(), |_| true);
    let node1 = "node1@{ label: \"test:1:0\\n<pre>src1</pre>\\ntyped// c\" }\n";
    let node2 = "node2@{ label: \"test:2:0\\n<pre>src2</pre>\\nname(\\\"x\\\")\" }\n";
    let expected = format!(
        "{HEADER}node1-- child -->node2\n{node1}{node2}{node1}{node2}\
subgraph group0[\"<code>src5</code>\"]\nnode1\nnode2\nend\nclass group0 success\n\
subgraph group1[\"<code>src7 or ()</code>\"]\nnode3\nend\nclass group1 error\n"
    );
    assert_eq!(out, expected);
}

#[test]
fn graph_leaves_out_filtered_nodes() {
    let mut out = String::new();
    write_graph(&mut out, &sample_groups(), &sample_facts(), &provider(), |node| node.0 != 2);
    let node1 = "node1@{ label: \"test:1:0\\n<pre>src1</pre>\\ntyped// c\" }\n";
    let expected = format!(
        "{HEADER}node1-- child -->node2\n{node1}{node1}\
subgraph group0[\"<code>src5</code>\"]\nnode1\nend\nclass group0 success\n\
subgraph group1[\"<code>src7 or ()</code>\"]\nnode3\nend\nclass group1 error\n"
    );
    assert_eq!(out, expected);
}

#[test]
fn graph_appends_to_what_was_written() {
    let mut out = String::from("before\n");
    write_graph(&mut out, &TyGroups::new(), &BTreeMap::new(), &provider(), |_| true);
    assert_eq!(out, format!("before\n{HEADER}"));
}

#[test]
fn graph_skips_groups_without_kept_nodes_and_repeated_types() {
    let mut groups = TyGroups::new();
    let first = groups.insert_group(Ty::Unknown);
    groups.push_ty_at(first, Ty::Unknown);
    groups.assign_node_to_index(NodeId(4), first);
    let second = groups.insert_group(Ty::Unknown);
    groups.assign_node_to_index(NodeId(6), second);
    let mut keep = BTreeSet::new();
    keep.insert(4);
    let out = render_graph(
        &groups,
        &BTreeMap::new(),
        &keep,
        &BTreeMap::new(),
        &BTreeMap::new(),
        &BTreeMap::new(),
    );
    assert_eq!(
        out,
        format!("{HEADER}subgraph group0[\"<code>_</code>\"]\nnode4\nend\nclass group0 success\n")
    );
}

#[test]
fn graph_draws_each_relation_once() {
    let mut facts = BTreeMap::new();
    facts.insert(
        8,
        vec![
            Fact::with_node(NodeId(9), "arg"),
            Fact::with_node(NodeId(9), "arg"),
            Fact::with_node(NodeId(9), "fn"),
            Fact::with_node(NodeId(10), "missing"),
        ],
    );
    facts.insert(9, vec![]);
    let mut keep = BTreeSet::new();
    keep.insert(8);
    let mut spans = BTreeMap::new();
    spans.insert(8, span_at(3));
    let mut sources = BTreeMap::new();
    sources.insert(8, String::from("f x"));
    let out = render_graph(&TyGroups::new(), &facts, &keep, &spans, &sources, &BTreeMap::new());
    assert_eq!(
        out,
        format!(
            "{HEADER}node8-- arg -->node9\nnode8-- fn -->node9\nnode8@{{ label: \"test:3:0\\n<pre>f x</pre>\\n\" }}\n"
        )
    );
}
