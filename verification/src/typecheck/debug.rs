//! A flowchart of the type groups and the facts recorded about nodes, in
//! the text format of Mermaid.

use crate::text::{debug_quote, debug_quoted, decimal, decimal_string};
use crate::trace::{Fact, NodeId, Span};
use crate::typecheck::constraints::{lemma_ty_models, ty_models, SpecTy, Ty};
use crate::typecheck::display::{answered, source_in, texts, ty_text, FeedbackProvider};
use crate::typecheck::groups::{node_numbers, TyGroups};
use crate::typecheck::ordered::{map_keys, strictly_increasing};
use std::collections::{BTreeMap, BTreeSet};
use vstd::prelude::*;

verus! {

/// The members of a finite set of node numbers in increasing order: the one
/// strictly increasing sequence that holds exactly them.
pub open spec fn sorted(set: Set<u32>) -> Seq<u32> {
    choose|s: Seq<u32>| strictly_increasing(s) && s.to_set() == set
}

/// Two strictly increasing sequences with the same members are equal.
pub proof fn lemma_increasing_unique(a: Seq<u32>, b: Seq<u32>)
    requires
        strictly_increasing(a),
        strictly_increasing(b),
        a.to_set() == b.to_set(),
    ensures
        a == b,
    decreases a.len(),
{
    if a.len() == 0 {
        if b.len() > 0 {
            assert(b.to_set().contains(b[0]));
        }
        assert(b.len() == 0);
        assert(a =~= b);
    } else {
        assert(a.to_set().contains(a[0]));
        assert(b.to_set().contains(a[0]));
        assert(b.len() > 0);
        assert(b.to_set().contains(b[0]));
        assert(a.to_set().contains(b[0]));
        let ia = choose|i: int| 0 <= i < a.len() && a[i] == b[0];
        let ib = choose|i: int| 0 <= i < b.len() && b[i] == a[0];
        assert(a[0] <= a[ia]);
        assert(b[0] <= b[ib]);
        assert(a[0] == b[0]);
        let ra = a.drop_first();
        let rb = b.drop_first();
        assert forall|x: u32| ra.to_set().contains(x) <==> rb.to_set().contains(x) by {
            if ra.to_set().contains(x) {
                let k = choose|k: int| 0 <= k < ra.len() && ra[k] == x;
                assert(a[k + 1] == x);
                assert(a.to_set().contains(x));
                assert(b.to_set().contains(x));
                let j = choose|j: int| 0 <= j < b.len() && b[j] == x;
                assert(x > a[0]);
                assert(j != 0);
                assert(rb[j - 1] == x);
            }
            if rb.to_set().contains(x) {
                let k = choose|k: int| 0 <= k < rb.len() && rb[k] == x;
                assert(b[k + 1] == x);
                assert(b.to_set().contains(x));
                assert(a.to_set().contains(x));
                let j = choose|j: int| 0 <= j < a.len() && a[j] == x;
                assert(x > b[0]);
                assert(j != 0);
                assert(ra[j - 1] == x);
            }
        }
        assert(ra.to_set() =~= rb.to_set());
        lemma_increasing_unique(ra, rb);
        assert(a =~= seq![a[0]] + ra);
        assert(b =~= seq![b[0]] + rb);
    }
}

/// A strictly increasing sequence is the sorted list of its members.
pub proof fn lemma_sorted(s: Seq<u32>)
    requires
        strictly_increasing(s),
    ensures
        sorted(s.to_set()) == s,
{
    let t = sorted(s.to_set());
    assert(strictly_increasing(t) && t.to_set() == s.to_set());
    lemma_increasing_unique(t, s);
}

/// The text of node `n` in `m`, or nothing.
pub open spec fn text_of(m: Map<u32, Seq<char>>, n: u32) -> Seq<char> {
    if m.contains_key(n) {
        m[n]
    } else {
        Seq::empty()
    }
}

/// The facts of each node, as sequences.
pub open spec fn fact_map(facts: Map<u32, Vec<Fact>>) -> Map<u32, Seq<Fact>> {
    facts.map_values(|v: Vec<Fact>| v@)
}

/// The text of each span, as `{:?}` shows it.
pub open spec fn span_texts(spans: Map<u32, Span>) -> Map<u32, Seq<char>> {
    spans.map_values(|s: Span| s.debug_text())
}

/// How a node is named in the chart: `node` and its number.
pub open spec fn node_name(n: u32) -> Seq<char> {
    "node"@ + decimal(n as nat)
}

/// The lines that open the chart: the theme, the direction, and the two
/// classes of group.
pub open spec fn header_text() -> Seq<char> {
    "%%{init: {'theme':'neutral'}}%%\n"@ + "flowchart TD\n"@
        + "classDef success fill:#0000ff10,stroke:#0000ff,stroke-dasharray:10;\n"@
        + "classDef error fill:#ff000010,stroke:#ff0000,stroke-dasharray:10;\n"@
}

/// Whether some fact is hidden from output.
pub open spec fn any_ignored(facts: Seq<Fact>) -> bool {
    exists|i: int| 0 <= i < facts.len() && (#[trigger] facts[i]).spec_should_ignore()
}

/// A node is drawn when it has facts and none of them is hidden.
pub open spec fn drawn(fm: Map<u32, Seq<Fact>>, n: u32) -> bool {
    fm.contains_key(n) && !any_ignored(fm[n])
}

/// The relations already drawn, as (node, parent, relation) triples.
pub open spec fn relation_set(v: Seq<(u32, u32, String)>) -> Set<(u32, u32, Seq<char>)> {
    v.map_values(|e: (u32, u32, String)| (e.0, e.1, e.2@)).to_set()
}

/// The arrows drawn from node `n` for its relations to drawn parents, each
/// (node, parent, relation) once, and the relations drawn afterwards.
pub open spec fn edges(
    n: u32,
    facts: Seq<Fact>,
    fm: Map<u32, Seq<Fact>>,
    seen: Set<(u32, u32, Seq<char>)>,
) -> (Seq<char>, Set<(u32, u32, Seq<char>)>)
    decreases facts.len(),
{
    if facts.len() == 0 {
        (Seq::empty(), seen)
    } else {
        let (text, seen1) = edges(n, facts.drop_last(), fm, seen);
        match facts.last() {
            Fact::Node(parent, relation) => {
                if drawn(fm, parent.0) && !seen1.contains((n, parent.0, relation@)) {
                    (
                        text + node_name(n) + "-- "@ + relation@ + " -->"@ + node_name(parent.0) + "\n"@,
                        seen1.insert((n, parent.0, relation@)),
                    )
                } else {
                    (text, seen1)
                }
            },
            _ => (text, seen1),
        }
    }
}

/// The display texts of the facts that are neither hidden nor relations, in
/// order.
pub open spec fn listed_facts(facts: Seq<Fact>) -> Seq<Seq<char>>
    decreases facts.len(),
{
    if facts.len() == 0 {
        Seq::empty()
    } else {
        let rest = listed_facts(facts.drop_last());
        let f = facts.last();
        if !f.spec_should_ignore() && !(f is Node) {
            rest.push(f.display_text())
        } else {
            rest
        }
    }
}

/// The items joined by `sep`.
pub open spec fn joined(items: Seq<Seq<char>>, sep: Seq<char>) -> Seq<char>
    decreases items.len(),
{
    if items.len() == 0 {
        Seq::empty()
    } else if items.len() == 1 {
        items[0]
    } else {
        joined(items.drop_last(), sep) + sep + items.last()
    }
}

/// The label of node `n`: its span, its source text between `<pre>` tags,
/// its listed facts one per line, and its comments.
pub open spec fn description(
    n: u32,
    facts: Seq<Fact>,
    spans: Map<u32, Seq<char>>,
    sources: Map<u32, Seq<char>>,
    comments: Map<u32, Seq<char>>,
) -> Seq<char> {
    text_of(spans, n) + "\n<pre>"@ + text_of(sources, n) + "</pre>\n"@ + joined(
        listed_facts(facts),
        ",\n"@,
    ) + text_of(comments, n)
}

/// The line that declares node `n` with its label.
pub open spec fn label_line(
    n: u32,
    facts: Seq<Fact>,
    spans: Map<u32, Seq<char>>,
    sources: Map<u32, Seq<char>>,
    comments: Map<u32, Seq<char>>,
) -> Seq<char> {
    node_name(n) + "@{ label: "@ + debug_quoted(description(n, facts, spans, sources, comments))
        + " }\n"@
}

/// The nodes of `order` in turn: each one kept and drawn gets the arrows to
/// its parents and its label line; the relations drawn so far are carried
/// from one node to the next.
pub open spec fn node_section(
    order: Seq<u32>,
    fm: Map<u32, Seq<Fact>>,
    keep: Set<u32>,
    spans: Map<u32, Seq<char>>,
    sources: Map<u32, Seq<char>>,
    comments: Map<u32, Seq<char>>,
) -> (Seq<char>, Set<(u32, u32, Seq<char>)>)
    decreases order.len(),
{
    if order.len() == 0 {
        (Seq::empty(), Set::empty())
    } else {
        let (text, seen) = node_section(order.drop_last(), fm, keep, spans, sources, comments);
        let n = order.last();
        if keep.contains(n) && drawn(fm, n) {
            let (e, seen1) = edges(n, fm[n], fm, seen);
            (text + e + label_line(n, fm[n], spans, sources, comments), seen1)
        } else {
            (text, seen)
        }
    }
}

/// The types of `tys` without repeats, each where it first occurs.
pub open spec fn unique_tys(tys: Seq<SpecTy>) -> Seq<SpecTy>
    decreases tys.len(),
{
    if tys.len() == 0 {
        Seq::empty()
    } else {
        let rest = unique_tys(tys.drop_last());
        if rest.contains(tys.last()) {
            rest
        } else {
            rest.push(tys.last())
        }
    }
}

/// Whether all the types are equal (true when there are none).
pub open spec fn all_equal(tys: Seq<SpecTy>) -> bool {
    forall|i: int, j: int| 0 <= i < tys.len() && 0 <= j < tys.len() ==> tys[i] == tys[j]
}

/// One line per node, with its name.
pub open spec fn node_lines(nodes: Seq<u32>) -> Seq<char>
    decreases nodes.len(),
{
    if nodes.len() == 0 {
        Seq::empty()
    } else {
        node_lines(nodes.drop_last()) + node_name(nodes.last()) + "\n"@
    }
}

/// The kept nodes of the group at index `i`.
pub open spec fn group_set(index_map: Map<u32, u32>, keep: Set<u32>, i: int) -> Set<u32> {
    Set::new(|n: u32| index_map.contains_key(n) && index_map[n] == i && keep.contains(n))
}

/// The kept nodes of the group at index `i`, in increasing order.
pub open spec fn group_nodes(index_map: Map<u32, u32>, keep: Set<u32>, i: int) -> Seq<u32> {
    sorted(group_set(index_map, keep, i))
}

/// The subgraph of group `i`, if it has kept nodes: its types without
/// repeats joined by ` or `, its nodes, and its class, `error` when the
/// types differ.
pub open spec fn group_text(
    i: int,
    tys: Seq<SpecTy>,
    nodes: Seq<u32>,
    source: spec_fn(NodeId) -> Seq<char>,
) -> Seq<char> {
    if nodes.len() == 0 {
        Seq::empty()
    } else {
        "subgraph group"@ + decimal(i as nat) + "[\"<code>"@ + joined(
            unique_tys(tys).map_values(|t: SpecTy| ty_text(t, source)),
            " or "@,
        ) + "</code>\"]\n"@ + node_lines(nodes) + "end\n"@ + "class group"@ + decimal(i as nat)
            + " "@ + (if all_equal(tys) {
            "success"@
        } else {
            "error"@
        }) + "\n"@
    }
}

/// The subgraphs of the first `count` groups, in order of index.
pub open spec fn groups_section(
    count: nat,
    index_map: Map<u32, u32>,
    group_tys: Seq<Seq<SpecTy>>,
    keep: Set<u32>,
    source: spec_fn(NodeId) -> Seq<char>,
) -> Seq<char>
    decreases count,
{
    if count == 0 {
        Seq::empty()
    } else {
        let i = count - 1;
        groups_section((count - 1) as nat, index_map, group_tys, keep, source) + group_text(
            i,
            group_tys[i],
            group_nodes(index_map, keep, i),
            source,
        )
    }
}

/// The nodes in the order the chart visits them: those of the groups, then
/// those with facts, each list in increasing order.
pub open spec fn visit_order(index_map: Map<u32, u32>, fm: Map<u32, Seq<Fact>>) -> Seq<u32> {
    sorted(index_map.dom()) + sorted(fm.dom())
}


/// The whole chart: the header, the nodes with their relations and labels,
/// then the groups.
pub open spec fn graph_text(
    index_map: Map<u32, u32>,
    group_tys: Seq<Seq<SpecTy>>,
    fm: Map<u32, Seq<Fact>>,
    keep: Set<u32>,
    spans: Map<u32, Seq<char>>,
    sources: Map<u32, Seq<char>>,
    comments: Map<u32, Seq<char>>,
) -> Seq<char> {
    header_text() + node_section(visit_order(index_map, fm), fm, keep, spans, sources, comments).0
        + groups_section(group_tys.len(), index_map, group_tys, keep, source_in(sources))
}

/// The chart draws an arrow from every kept node that it draws to each
/// drawn parent that the node's facts name, labelled with the relation,
/// whatever arrows other nodes have.
pub proof fn lemma_graph_draws_each_relation(
    index_map: Map<u32, u32>,
    group_tys: Seq<Seq<SpecTy>>,
    fm: Map<u32, Seq<Fact>>,
    keep: Set<u32>,
    spans: Map<u32, Seq<char>>,
    sources: Map<u32, Seq<char>>,
    comments: Map<u32, Seq<char>>,
    n: u32,
    j: int,
)
    requires
        visit_order(index_map, fm).contains(n),
        keep.contains(n),
        drawn(fm, n),
        0 <= j < fm[n].len(),
        fm[n][j] is Node,
        drawn(fm, fm[n][j]->Node_0.0),
    ensures
        occurs_in(
            arrow_line(n, fm[n][j]->Node_0.0, fm[n][j]->Node_1@),
            graph_text(index_map, group_tys, fm, keep, spans, sources, comments),
        ),
{
    lemma_node_section_draws(visit_order(index_map, fm), fm, keep, spans, sources, comments, n, j);
    lemma_occurs_around(
        arrow_line(n, fm[n][j]->Node_0.0, fm[n][j]->Node_1@),
        header_text(),
        node_section(visit_order(index_map, fm), fm, keep, spans, sources, comments).0,
        groups_section(group_tys.len(), index_map, group_tys, keep, source_in(sources)),
    );
}

/// Whether some fact is hidden from output.
fn has_ignored(facts: &Vec<Fact>) -> (b: bool)
    ensures
        b == any_ignored(facts@),
{
    let mut i: usize = 0;
    while i < facts.len()
        invariant
            i <= facts@.len(),
            forall|k: int| 0 <= k < i ==> !(#[trigger] facts@[k]).spec_should_ignore(),
        decreases facts@.len() - i,
    {
        if facts[i].should_ignore() {
            return true;
        }
        i = i + 1;
    }
    false
}

/// Whether node `n` is drawn.
fn is_drawn(facts: &BTreeMap<u32, Vec<Fact>>, n: u32) -> (b: bool)
    ensures
        b == drawn(fact_map(facts@), n),
{
    match facts.get(&n) {
        Some(node_facts) => !has_ignored(node_facts),
        None => false,
    }
}

/// Whether the relation (node, parent, relation) was drawn already.
fn has_relation(visited: &Vec<(u32, u32, String)>, n: u32, parent: u32, relation: &String) -> (b: bool)
    ensures
        b == relation_set(visited@).contains((n, parent, relation@)),
{
    let ghost target = (n, parent, relation@);
    let ghost m = visited@.map_values(|e: (u32, u32, String)| (e.0, e.1, e.2@));
    let mut i: usize = 0;
    while i < visited.len()
        invariant
            i <= visited@.len(),
            m == visited@.map_values(|e: (u32, u32, String)| (e.0, e.1, e.2@)),
            target == (n, parent, relation@),
            forall|k: int| 0 <= k < i ==> #[trigger] m[k] != target,
        decreases visited@.len() - i,
    {
        let entry = &visited[i];
        proof {
            assert(m[i as int] == (visited@[i as int].0, visited@[i as int].1, visited@[i as int].2@));
        }
        if entry.0 == n && entry.1 == parent && entry.2 == *relation {
            proof {
                assert(m[i as int] == target);
                assert(m.to_set().contains(target));
            }
            return true;
        }
        i = i + 1;
    }
    proof {
        if m.to_set().contains(target) {
            let k = choose|k: int| 0 <= k < m.len() && m[k] == target;
            assert(m[k] != target);
        }
    }
    false
}

/// Stepping `joined` by one item.
proof fn lemma_joined_push(items: Seq<Seq<char>>, sep: Seq<char>, x: Seq<char>)
    ensures
        joined(items.push(x), sep) == (if items.len() == 0 {
            x
        } else {
            joined(items, sep) + sep + x
        }),
{
    assert(items.push(x).drop_last() =~= items);
    if items.len() == 0 {
        assert(items.push(x)[0] == x);
    }
}

/// The listed facts joined by `,` and a line break.
fn fact_lines(facts: &Vec<Fact>) -> (s: String)
    ensures
        s@ == joined(listed_facts(facts@), ",\n"@),
{
    let mut s = String::new();
    let mut count: usize = 0;
    let mut i: usize = 0;
    while i < facts.len()
        invariant
            i <= facts@.len(),
            count <= i,
            count == listed_facts(facts@.take(i as int)).len(),
            s@ == joined(listed_facts(facts@.take(i as int)), ",\n"@),
        decreases facts@.len() - i,
    {
        let ghost before = facts@.take(i as int);
        proof {
            assert(facts@.take(i + 1).drop_last() =~= before);
            assert(facts@.take(i + 1).last() == facts@[i as int]);
        }
        let fact = &facts[i];
        let listed = match fact {
            Fact::Node(_, _) => false,
            _ => !fact.should_ignore(),
        };
        if listed {
            let text = fact.to_display_string();
            proof {
                lemma_joined_push(listed_facts(before), ",\n"@, text@);
            }
            if count > 0 {
                s.append(",\n");
            }
            s.append(text.as_str());
            count = count + 1;
        }
        i = i + 1;
    }
    proof {
        assert(facts@.take(facts@.len() as int) =~= facts@);
    }
    s
}

/// Renders `node` and the node's number.
fn node_name_string(n: u32) -> (s: String)
    ensures
        s@ == node_name(n),
{
    let mut s = String::new();
    s.append("node");
    let digits = decimal_string(n as u64);
    s.append(digits.as_str());
    s
}

/// Adding a relation to the list adds it to the set.
proof fn lemma_relation_set_push(v: Seq<(u32, u32, String)>, e: (u32, u32, String))
    ensures
        relation_set(v.push(e)) == relation_set(v).insert((e.0, e.1, e.2@)),
{
    let f = |x: (u32, u32, String)| (x.0, x.1, x.2@);
    assert(v.push(e).map_values(f) =~= v.map_values(f).push(f(e)));
    v.map_values(f).lemma_push_to_set_commute(f(e));
}

/// The arrow that the chart draws from node `n` to its parent `parent` for
/// `relation`.
pub open spec fn arrow_line(n: u32, parent: u32, relation: Seq<char>) -> Seq<char> {
    node_name(n) + "-- "@ + relation + " -->"@ + node_name(parent) + "\n"@
}

/// `t` occurs in `s` as a run of consecutive characters.
pub open spec fn occurs_in(t: Seq<char>, s: Seq<char>) -> bool {
    exists|i: int| 0 <= i && i + t.len() <= s.len() && #[trigger] s.subrange(i, i + t.len()) == t
}

/// What occurs in a text occurs in any text around it.
pub proof fn lemma_occurs_around(t: Seq<char>, x: Seq<char>, s: Seq<char>, y: Seq<char>)
    requires
        occurs_in(t, s),
    ensures
        occurs_in(t, x + s + y),
{
    let i = choose|i: int| 0 <= i && i + t.len() <= s.len() && #[trigger] s.subrange(i, i + t.len()) == t;
    let z = x + s + y;
    assert(z.subrange(x.len() + i, x.len() + i + t.len()) =~= t);
}

/// A text occurs at the end of what it ends.
pub proof fn lemma_occurs_at_end(t: Seq<char>, s: Seq<char>)
    ensures
        occurs_in(t, s + t),
{
    assert((s + t).subrange(s.len() as int, s.len() as int + t.len()) =~= t);
}

/// The relations that `edges` records beyond `seen` are relations of `n`,
/// each drawn as an arrow.
proof fn lemma_edges_recorded(n: u32, facts: Seq<Fact>, fm: Map<u32, Seq<Fact>>, seen: Set<(u32, u32, Seq<char>)>)
    ensures
        seen.subset_of(edges(n, facts, fm, seen).1),
        forall|t: (u32, u32, Seq<char>)|
            #[trigger] edges(n, facts, fm, seen).1.contains(t) && !seen.contains(t) ==> t.0 == n && occurs_in(
                arrow_line(t.0, t.1, t.2),
                edges(n, facts, fm, seen).0,
            ),
    decreases facts.len(),
{
    if facts.len() > 0 {
        let (text, seen1) = edges(n, facts.drop_last(), fm, seen);
        lemma_edges_recorded(n, facts.drop_last(), fm, seen);
        if let Fact::Node(parent, relation) = facts.last() {
            if drawn(fm, parent.0) && !seen1.contains((n, parent.0, relation@)) {
                let line = arrow_line(n, parent.0, relation@);
                assert(edges(n, facts, fm, seen).0 =~= text + line);
                lemma_occurs_at_end(line, text);
                assert forall|t: (u32, u32, Seq<char>)|
                    #[trigger] edges(n, facts, fm, seen).1.contains(t) && !seen.contains(t) implies t.0 == n
                    && occurs_in(arrow_line(t.0, t.1, t.2), edges(n, facts, fm, seen).0) by {
                    if t != (n, parent.0, relation@) {
                        assert(seen1.contains(t));
                        lemma_occurs_around(arrow_line(t.0, t.1, t.2), Seq::empty(), text, line);
                        assert(Seq::<char>::empty() + text + line =~= text + line);
                    }
                }
            }
        }
    }
}

/// Every relation of node `n` to a drawn parent comes out as an arrow from
/// `n` to that parent, unless that same relation of `n` was drawn before:
/// which relations other nodes have, and which came first, does not matter.
pub proof fn lemma_edges_draw_each_relation(
    n: u32,
    facts: Seq<Fact>,
    fm: Map<u32, Seq<Fact>>,
    seen: Set<(u32, u32, Seq<char>)>,
    j: int,
)
    requires
        0 <= j < facts.len(),
        facts[j] is Node,
        drawn(fm, facts[j]->Node_0.0),
        !seen.contains((n, facts[j]->Node_0.0, facts[j]->Node_1@)),
    ensures
        occurs_in(arrow_line(n, facts[j]->Node_0.0, facts[j]->Node_1@), edges(n, facts, fm, seen).0),
    decreases facts.len(),
{
    let d = facts.drop_last();
    let (text, seen1) = edges(n, d, fm, seen);
    let line = arrow_line(n, facts[j]->Node_0.0, facts[j]->Node_1@);
    let full = edges(n, facts, fm, seen).0;
    assert(exists|rest: Seq<char>| full =~= text + rest) by {
        if let Fact::Node(parent, relation) = facts.last() {
            if drawn(fm, parent.0) && !seen1.contains((n, parent.0, relation@)) {
                assert(full =~= text + arrow_line(n, parent.0, relation@));
            } else {
                assert(full =~= text + Seq::<char>::empty());
            }
        } else {
            assert(full =~= text + Seq::<char>::empty());
        }
    }
    let rest = choose|rest: Seq<char>| full =~= text + rest;
    if j < facts.len() - 1 {
        assert(d[j] == facts[j]);
        lemma_edges_draw_each_relation(n, d, fm, seen, j);
        lemma_occurs_around(line, Seq::empty(), text, rest);
        assert(Seq::<char>::empty() + text + rest =~= full);
    } else if !seen1.contains((n, facts[j]->Node_0.0, facts[j]->Node_1@)) {
        assert(full =~= text + line);
        lemma_occurs_at_end(line, text);
    } else {
        lemma_edges_recorded(n, d, fm, seen);
        lemma_occurs_around(line, Seq::empty(), text, rest);
        assert(Seq::<char>::empty() + text + rest =~= full);
    }
}

/// The relation that a fact of node `n` names: the node, the parent and the
/// relation's name.
pub open spec fn relation_of(n: u32, f: Fact) -> (u32, u32, Seq<char>) {
    (n, f->Node_0.0, f->Node_1@)
}

/// Fact `j` of node `n` names a relation to a drawn parent that neither
/// `seen` nor an earlier fact of `n` names.
pub open spec fn new_relation(
    n: u32,
    facts: Seq<Fact>,
    fm: Map<u32, Seq<Fact>>,
    seen: Set<(u32, u32, Seq<char>)>,
    j: int,
) -> bool {
    &&& facts[j] is Node
    &&& drawn(fm, facts[j]->Node_0.0)
    &&& !seen.contains(relation_of(n, facts[j]))
    &&& forall|k: int|
        0 <= k < j && (#[trigger] facts[k]) is Node ==> relation_of(n, facts[k]) != relation_of(n, facts[j])
}

/// The arrows, in the order of the facts before `upto`, of those that name
/// new relations.
pub open spec fn new_arrows(
    n: u32,
    facts: Seq<Fact>,
    fm: Map<u32, Seq<Fact>>,
    seen: Set<(u32, u32, Seq<char>)>,
    upto: int,
) -> Seq<char>
    decreases upto,
{
    if upto <= 0 {
        Seq::empty()
    } else {
        new_arrows(n, facts, fm, seen, upto - 1) + if new_relation(n, facts, fm, seen, upto - 1) {
            arrow_line(n, facts[upto - 1]->Node_0.0, facts[upto - 1]->Node_1@)
        } else {
            Seq::empty()
        }
    }
}

/// The relations that node `n`'s facts name to drawn parents.
pub open spec fn drawn_relations(n: u32, facts: Seq<Fact>, fm: Map<u32, Seq<Fact>>) -> Set<(u32, u32, Seq<char>)> {
    Set::new(
        |t: (u32, u32, Seq<char>)|
            exists|j: int|
                0 <= j < facts.len() && (#[trigger] facts[j]) is Node && drawn(fm, facts[j]->Node_0.0) && t
                    == relation_of(n, facts[j]),
    )
}

proof fn lemma_new_arrows_prefix(
    n: u32,
    facts: Seq<Fact>,
    d: Seq<Fact>,
    fm: Map<u32, Seq<Fact>>,
    seen: Set<(u32, u32, Seq<char>)>,
    upto: int,
)
    requires
        upto <= d.len() <= facts.len(),
        forall|m: int| 0 <= m < d.len() ==> d[m] == facts[m],
    ensures
        new_arrows(n, d, fm, seen, upto) == new_arrows(n, facts, fm, seen, upto),
    decreases upto,
{
    if upto > 0 {
        lemma_new_arrows_prefix(n, facts, d, fm, seen, upto - 1);
        let j = upto - 1;
        assert(new_relation(n, d, fm, seen, j) == new_relation(n, facts, fm, seen, j)) by {
            assert(d[j] == facts[j]);
            assert forall|k: int| 0 <= k < j implies #[trigger] d[k] == facts[k] by {}
        }
    }
}

/// The arrows drawn for node `n` are, in the order of its facts, one for
/// each relation to a drawn parent that was not drawn before, at the first
/// fact that names it; the relations recorded are those drawn before and
/// every relation of `n` to a drawn parent.
pub proof fn lemma_edges_are_new_arrows(
    n: u32,
    facts: Seq<Fact>,
    fm: Map<u32, Seq<Fact>>,
    seen: Set<(u32, u32, Seq<char>)>,
)
    ensures
        edges(n, facts, fm, seen).0 == new_arrows(n, facts, fm, seen, facts.len() as int),
        edges(n, facts, fm, seen).1 == seen.union(drawn_relations(n, facts, fm)),
    decreases facts.len(),
{
    if facts.len() == 0 {
        assert(drawn_relations(n, facts, fm) =~= Set::empty());
        assert(seen.union(Set::empty()) =~= seen);
    } else {
        let d = facts.drop_last();
        let j = facts.len() - 1;
        lemma_edges_are_new_arrows(n, d, fm, seen);
        lemma_new_arrows_prefix(n, facts, d, fm, seen, j);
        let (text, seen1) = edges(n, d, fm, seen);
        let f = facts[j];
        assert(facts.last() == f);
        if f is Node && drawn(fm, f->Node_0.0) {
            let t = relation_of(n, f);
            assert(new_relation(n, facts, fm, seen, j) == !seen1.contains(t)) by {
                if seen1.contains(t) && !seen.contains(t) {
                    assert(drawn_relations(n, d, fm).contains(t));
                    let k = choose|k: int|
                        0 <= k < d.len() && (#[trigger] d[k]) is Node && drawn(fm, d[k]->Node_0.0) && t
                            == relation_of(n, d[k]);
                    assert(facts[k] == d[k]);
                }
                if !seen1.contains(t) {
                    assert forall|k: int| 0 <= k < j && (#[trigger] facts[k]) is Node implies relation_of(n, facts[k]) != t by {
                        assert(d[k] == facts[k]);
                        if relation_of(n, facts[k]) == t {
                            assert(drawn(fm, facts[k]->Node_0.0));
                            assert(drawn_relations(n, d, fm).contains(t));
                        }
                    }
                }
            }
            assert(edges(n, facts, fm, seen).1 =~= seen.union(drawn_relations(n, facts, fm))) by {
                assert forall|x: (u32, u32, Seq<char>)| #[trigger] drawn_relations(n, facts, fm).contains(x) implies
                    drawn_relations(n, d, fm).contains(x) || x == t by {
                    let k = choose|k: int|
                        0 <= k < facts.len() && (#[trigger] facts[k]) is Node && drawn(fm, facts[k]->Node_0.0) && x
                            == relation_of(n, facts[k]);
                    if k < j {
                        assert(d[k] == facts[k]);
                    }
                }
                assert forall|x: (u32, u32, Seq<char>)| #[trigger] drawn_relations(n, d, fm).contains(x) implies
                    drawn_relations(n, facts, fm).contains(x) by {
                    let k = choose|k: int|
                        0 <= k < d.len() && (#[trigger] d[k]) is Node && drawn(fm, d[k]->Node_0.0) && x
                            == relation_of(n, d[k]);
                    assert(facts[k] == d[k]);
                }
                assert(drawn_relations(n, facts, fm).contains(t));
            }
        } else {
            assert(!new_relation(n, facts, fm, seen, j));
            assert(edges(n, facts, fm, seen).1 =~= seen.union(drawn_relations(n, facts, fm))) by {
                assert forall|x: (u32, u32, Seq<char>)| #[trigger] drawn_relations(n, facts, fm).contains(x) implies
                    drawn_relations(n, d, fm).contains(x) by {
                    let k = choose|k: int|
                        0 <= k < facts.len() && (#[trigger] facts[k]) is Node && drawn(fm, facts[k]->Node_0.0) && x
                            == relation_of(n, facts[k]);
                    assert(k != j);
                    assert(d[k] == facts[k]);
                }
                assert forall|x: (u32, u32, Seq<char>)| #[trigger] drawn_relations(n, d, fm).contains(x) implies
                    drawn_relations(n, facts, fm).contains(x) by {
                    let k = choose|k: int|
                        0 <= k < d.len() && (#[trigger] d[k]) is Node && drawn(fm, d[k]->Node_0.0) && x
                            == relation_of(n, d[k]);
                    assert(facts[k] == d[k]);
                }
            }
        }
        assert(new_arrows(n, facts, fm, seen, facts.len() as int) == new_arrows(n, facts, fm, seen, j) + if new_relation(n, facts, fm, seen, j) {
            arrow_line(n, facts[j]->Node_0.0, facts[j]->Node_1@)
        } else {
            Seq::empty()
        });
        if new_relation(n, facts, fm, seen, j) {
            assert(edges(n, facts, fm, seen).0 =~= text + arrow_line(n, f->Node_0.0, f->Node_1@));
        } else {
            assert(edges(n, facts, fm, seen).0 =~= text + Seq::<char>::empty());
        }
    }
}

/// The relations recorded while the nodes of `order` are drawn are
/// relations of those nodes.
proof fn lemma_node_section_recorded(
    order: Seq<u32>,
    fm: Map<u32, Seq<Fact>>,
    keep: Set<u32>,
    spans: Map<u32, Seq<char>>,
    sources: Map<u32, Seq<char>>,
    comments: Map<u32, Seq<char>>,
)
    ensures
        forall|t: (u32, u32, Seq<char>)|
            #[trigger] node_section(order, fm, keep, spans, sources, comments).1.contains(t) ==> order.contains(t.0),
    decreases order.len(),
{
    if order.len() > 0 {
        let d = order.drop_last();
        lemma_node_section_recorded(d, fm, keep, spans, sources, comments);
        let (text, seen) = node_section(d, fm, keep, spans, sources, comments);
        let n = order.last();
        if keep.contains(n) && drawn(fm, n) {
            lemma_edges_recorded(n, fm[n], fm, seen);
        }
        assert forall|t: (u32, u32, Seq<char>)|
            #[trigger] node_section(order, fm, keep, spans, sources, comments).1.contains(t) implies order.contains(
            t.0,
        ) by {
            if seen.contains(t) {
                let k = choose|k: int| 0 <= k < d.len() && d[k] == t.0;
                assert(order[k] == t.0);
            } else {
                assert(order[order.len() - 1] == t.0);
            }
        }
    }
}

/// Every kept, drawn node of `order` gets an arrow to each drawn parent its
/// facts name.
proof fn lemma_node_section_draws(
    order: Seq<u32>,
    fm: Map<u32, Seq<Fact>>,
    keep: Set<u32>,
    spans: Map<u32, Seq<char>>,
    sources: Map<u32, Seq<char>>,
    comments: Map<u32, Seq<char>>,
    n: u32,
    j: int,
)
    requires
        order.contains(n),
        keep.contains(n),
        drawn(fm, n),
        0 <= j < fm[n].len(),
        fm[n][j] is Node,
        drawn(fm, fm[n][j]->Node_0.0),
    ensures
        occurs_in(
            arrow_line(n, fm[n][j]->Node_0.0, fm[n][j]->Node_1@),
            node_section(order, fm, keep, spans, sources, comments).0,
        ),
    decreases order.len(),
{
    let d = order.drop_last();
    let (text, seen) = node_section(d, fm, keep, spans, sources, comments);
    let line = arrow_line(n, fm[n][j]->Node_0.0, fm[n][j]->Node_1@);
    let full = node_section(order, fm, keep, spans, sources, comments).0;
    let m = order.last();
    if d.contains(n) {
        lemma_node_section_draws(d, fm, keep, spans, sources, comments, n, j);
        if keep.contains(m) && drawn(fm, m) {
            let rest = edges(m, fm[m], fm, seen).0 + label_line(m, fm[m], spans, sources, comments);
            lemma_occurs_around(line, Seq::empty(), text, rest);
            assert(Seq::<char>::empty() + text + rest =~= full);
        }
    } else {
        let k = choose|k: int| 0 <= k < order.len() && order[k] == n;
        if k < order.len() - 1 {
            assert(d[k] == n);
        }
        assert(m == n);
        lemma_node_section_recorded(d, fm, keep, spans, sources, comments);
        lemma_edges_draw_each_relation(n, fm[n], fm, seen, j);
        lemma_occurs_around(line, text, edges(n, fm[n], fm, seen).0, label_line(n, fm[n], spans, sources, comments));
    }
}

/// Writes the arrows from node `n` to the parents its facts name, each
/// relation once, and records the relations drawn in `visited`.
fn write_edges(
    w: &mut String,
    n: u32,
    node_facts: &Vec<Fact>,
    facts: &BTreeMap<u32, Vec<Fact>>,
    visited: &mut Vec<(u32, u32, String)>,
)
    ensures
        final(w)@ == old(w)@ + edges(n, node_facts@, fact_map(facts@), relation_set(old(visited)@)).0,
        relation_set(final(visited)@) == edges(
            n,
            node_facts@,
            fact_map(facts@),
            relation_set(old(visited)@),
        ).1,
{
    let ghost fm = fact_map(facts@);
    let ghost w0 = w@;
    let ghost seen0 = relation_set(visited@);
    let mut i: usize = 0;
    while i < node_facts.len()
        invariant
            i <= node_facts@.len(),
            fm == fact_map(facts@),
            w@ == w0 + edges(n, node_facts@.take(i as int), fm, seen0).0,
            relation_set(visited@) == edges(n, node_facts@.take(i as int), fm, seen0).1,
        decreases node_facts@.len() - i,
    {
        let ghost prefix = node_facts@.take(i as int);
        proof {
            assert(node_facts@.take(i + 1).drop_last() =~= prefix);
            assert(node_facts@.take(i + 1).last() == node_facts@[i as int]);
        }
        match &node_facts[i] {
            Fact::Node(parent, relation) => {
                if is_drawn(facts, parent.0) && !has_relation(visited, n, parent.0, relation) {
                    let from = node_name_string(n);
                    let to = node_name_string(parent.0);
                    w.append(from.as_str());
                    w.append("-- ");
                    w.append(relation.as_str());
                    w.append(" -->");
                    w.append(to.as_str());
                    w.append("\n");
                    let ghost before = visited@;
                    visited.push((n, parent.0, relation.clone()));
                    proof {
                        lemma_relation_set_push(before, (n, parent.0, *relation));
                    }
                }
            },
            _ => {},
        }
        i = i + 1;
    }
    proof {
        assert(node_facts@.take(node_facts@.len() as int) =~= node_facts@);
    }
}

/// The text of node `n` in `m`, or nothing.
fn text_in(m: &BTreeMap<u32, String>, n: u32) -> (s: String)
    ensures
        s@ == text_of(texts(m@), n),
{
    match m.get(&n) {
        Some(text) => text.clone(),
        None => String::new(),
    }
}

/// Node `n`'s line with its label.
fn label_string(
    n: u32,
    node_facts: &Vec<Fact>,
    spans: &BTreeMap<u32, Span>,
    sources: &BTreeMap<u32, String>,
    comments: &BTreeMap<u32, String>,
) -> (s: String)
    ensures
        s@ == label_line(n, node_facts@, span_texts(spans@), texts(sources@), texts(comments@)),
{
    let mut d = match spans.get(&n) {
        Some(span) => span.to_debug_string(),
        None => String::new(),
    };
    d.append("\n<pre>");
    let source = text_in(sources, n);
    d.append(source.as_str());
    d.append("</pre>\n");
    let lines = fact_lines(node_facts);
    d.append(lines.as_str());
    let comment = text_in(comments, n);
    d.append(comment.as_str());
    let quoted = debug_quote(d.as_str());
    let mut s = node_name_string(n);
    s.append("@{ label: ");
    s.append(quoted.as_str());
    s.append(" }\n");
    proof {
        assert(d@ == description(n, node_facts@, span_texts(spans@), texts(sources@), texts(comments@)));
    }
    s
}

/// Writes the node section for the nodes of `order`.
fn write_nodes(
    w: &mut String,
    order: &Vec<u32>,
    facts: &BTreeMap<u32, Vec<Fact>>,
    keep: &BTreeSet<u32>,
    spans: &BTreeMap<u32, Span>,
    sources: &BTreeMap<u32, String>,
    comments: &BTreeMap<u32, String>,
)
    ensures
        final(w)@ == old(w)@ + node_section(
            order@,
            fact_map(facts@),
            keep@,
            span_texts(spans@),
            texts(sources@),
            texts(comments@),
        ).0,
{
    let ghost fm = fact_map(facts@);
    let ghost sp = span_texts(spans@);
    let ghost so = texts(sources@);
    let ghost co = texts(comments@);
    let ghost w0 = w@;
    let mut visited: Vec<(u32, u32, String)> = Vec::new();
    proof {
        assert(relation_set(visited@) =~= Set::empty());
    }
    let mut i: usize = 0;
    while i < order.len()
        invariant
            i <= order@.len(),
            fm == fact_map(facts@),
            sp == span_texts(spans@),
            so == texts(sources@),
            co == texts(comments@),
            w@ == w0 + node_section(order@.take(i as int), fm, keep@, sp, so, co).0,
            relation_set(visited@) == node_section(order@.take(i as int), fm, keep@, sp, so, co).1,
        decreases order@.len() - i,
    {
        let n = order[i];
        proof {
            assert(order@.take(i + 1).drop_last() =~= order@.take(i as int));
            assert(order@.take(i + 1).last() == n);
        }
        if keep.contains(&n) && is_drawn(facts, n) {
            let node_facts = facts.get(&n).unwrap();
            write_edges(w, n, node_facts, facts, &mut visited);
            let label = label_string(n, node_facts, spans, sources, comments);
            w.append(label.as_str());
        }
        i = i + 1;
    }
    proof {
        assert(order@.take(order@.len() as int) =~= order@);
    }
}

/// Whether all the types are equal.
fn tys_all_equal(tys: &Vec<Ty>) -> (b: bool)
    ensures
        b == all_equal(ty_models(tys@)),
{
    let ghost m = ty_models(tys@);
    proof {
        lemma_ty_models(tys@);
    }
    if tys.len() == 0 {
        return true;
    }
    let mut j: usize = 1;
    while j < tys.len()
        invariant
            1 <= j <= tys@.len(),
            m == ty_models(tys@),
            m.len() == tys@.len(),
            forall|k: int| 0 <= k < j ==> #[trigger] m[k] == m[0],
        decreases tys@.len() - j,
    {
        proof {
            lemma_ty_models(tys@);
        }
        if !tys[0].same(&tys[j]) {
            proof {
                assert(m[0] != m[j as int]);
            }
            return false;
        }
        j = j + 1;
    }
    proof {
        assert forall|a: int, b: int| 0 <= a < m.len() && 0 <= b < m.len() implies m[a] == m[b] by {
            assert(m[a] == m[0]);
            assert(m[b] == m[0]);
        }
    }
    true
}

/// The types of the group joined by ` or `, each once, in the order of
/// their first occurrence.
fn group_description(tys: &Vec<Ty>, sources: &BTreeMap<u32, String>) -> (s: String)
    ensures
        s@ == joined(
            unique_tys(ty_models(tys@)).map_values(|t: SpecTy| ty_text(t, source_in(texts(sources@)))),
            " or "@,
        ),
{
    let ghost m = ty_models(tys@);
    let ghost source = source_in(texts(sources@));
    let ghost render = |t: SpecTy| ty_text(t, source);
    proof {
        lemma_ty_models(tys@);
    }
    let mut firsts: Vec<usize> = Vec::new();
    let mut s = String::new();
    let mut j: usize = 0;
    while j < tys.len()
        invariant
            j <= tys@.len(),
            m == ty_models(tys@),
            m.len() == tys@.len(),
            source == source_in(texts(sources@)),
            render == (|t: SpecTy| ty_text(t, source)),
            forall|t: int| 0 <= t < firsts@.len() ==> #[trigger] firsts@[t] < j,
            firsts@.map_values(|k: usize| m[k as int]) == unique_tys(m.take(j as int)),
            s@ == joined(unique_tys(m.take(j as int)).map_values(render), " or "@),
        decreases tys@.len() - j,
    {
        proof {
            lemma_ty_models(tys@);
        }
        let ghost u = unique_tys(m.take(j as int));
        let ghost fm = firsts@.map_values(|k: usize| m[k as int]);
        proof {
            assert(m.take(j + 1).drop_last() =~= m.take(j as int));
            assert(m.take(j + 1).last() == m[j as int]);
        }
        let mut found = false;
        let mut t: usize = 0;
        while t < firsts.len()
            invariant
                t <= firsts@.len(),
                j < tys@.len(),
                m == ty_models(tys@),
                m.len() == tys@.len(),
                fm == firsts@.map_values(|k: usize| m[k as int]),
                forall|q: int| 0 <= q < firsts@.len() ==> #[trigger] firsts@[q] < j,
                found == (exists|q: int| 0 <= q < t && #[trigger] fm[q] == m[j as int]),
            decreases firsts@.len() - t,
        {
            proof {
                lemma_ty_models(tys@);
            }
            let k = firsts[t];
            let same = tys[k].same(&tys[j]);
            proof {
                assert(fm[t as int] == m[k as int]);
                if same {
                    assert(fm[t as int] == m[j as int]);
                }
                if found {
                    let q = choose|q: int| 0 <= q < t && #[trigger] fm[q] == m[j as int];
                    assert(0 <= q < t + 1 && fm[q] == m[j as int]);
                }
            }
            found = found || same;
            t = t + 1;
        }
        proof {
            assert(fm == u);
            if found {
                let q = choose|q: int| 0 <= q < firsts@.len() && #[trigger] fm[q] == m[j as int];
                assert(u[q] == m[j as int]);
                assert(u.contains(m[j as int]));
            } else {
                if u.contains(m[j as int]) {
                    let q = choose|q: int| 0 <= q < u.len() && u[q] == m[j as int];
                    assert(fm[q] == m[j as int]);
                }
            }
        }
        if !found {
            let text = tys[j].render(sources);
            proof {
                assert(text@ == render(m[j as int]));
                assert(u.push(m[j as int]).map_values(render) =~= u.map_values(render).push(render(m[j as int])));
                lemma_joined_push(u.map_values(render), " or "@, text@);
            }
            if firsts.len() > 0 {
                s.append(" or ");
            }
            s.append(text.as_str());
            let ghost before = firsts@;
            firsts.push(j);
            proof {
                assert(firsts@.map_values(|k: usize| m[k as int]) =~= before.map_values(|k: usize| m[k as int]).push(m[j as int]));
            }
        }
        j = j + 1;
    }
    proof {
        assert(m.take(m.len() as int) =~= m);
    }
    s
}

/// The kept nodes of the group at index `i`, in increasing order, from the
/// list of all grouped nodes.
fn group_members(ty_groups: &TyGroups, all: &Vec<NodeId>, keep: &BTreeSet<u32>, i: usize) -> (out: Vec<u32>)
    requires
        strictly_increasing(node_numbers(all@)),
        forall|n: u32| #[trigger] node_numbers(all@).contains(n) <==> ty_groups.index_map().contains_key(n),
    ensures
        out@ == group_nodes(ty_groups.index_map(), keep@, i as int),
{
    let ghost nums = node_numbers(all@);
    let ghost im = ty_groups.index_map();
    let ghost pred = |n: u32| im.contains_key(n) && im[n] == i && keep@.contains(n);
    let mut out: Vec<u32> = Vec::new();
    let mut j: usize = 0;
    while j < all.len()
        invariant
            j <= all@.len(),
            nums == node_numbers(all@),
            nums.len() == all@.len(),
            strictly_increasing(nums),
            im == ty_groups.index_map(),
            pred == (|n: u32| im.contains_key(n) && im[n] == i && keep@.contains(n)),
            strictly_increasing(out@),
            forall|t: int| 0 <= t < out@.len() ==> pred(#[trigger] out@[t]),
            forall|t: int| 0 <= t < out@.len() ==> exists|k: int| 0 <= k < j && nums[k] == #[trigger] out@[t],
            forall|k: int| 0 <= k < j && pred(#[trigger] nums[k]) ==> out@.contains(nums[k]),
        decreases all@.len() - j,
    {
        let n = all[j].0;
        assert(nums[j as int] == n);
        let member = match ty_groups.index_of(NodeId(n)) {
            Some(index) => index as usize == i,
            None => false,
        };
        let ghost before = out@;
        if member && keep.contains(&n) {
            proof {
                if before.len() > 0 {
                    let t = before.len() - 1;
                    let k = choose|k: int| 0 <= k < j && nums[k] == #[trigger] before[t];
                    assert(nums[k] < nums[j as int]);
                }
            }
            out.push(n);
            proof {
                assert forall|a: int, b: int| 0 <= a < b < out@.len() implies out@[a] < out@[b] by {
                    if b < before.len() {
                        assert(out@[a] == before[a] && out@[b] == before[b]);
                    } else {
                        assert(out@[a] == before[a]);
                        let k = choose|k: int| 0 <= k < j && nums[k] == #[trigger] before[a];
                        assert(nums[k] < nums[j as int]);
                    }
                }
                assert forall|t: int| 0 <= t < out@.len() implies exists|k: int| 0 <= k < j + 1 && nums[k] == #[trigger] out@[t] by {
                    if t < before.len() {
                        assert(out@[t] == before[t]);
                        let k = choose|k: int| 0 <= k < j && nums[k] == #[trigger] before[t];
                        assert(nums[k] == out@[t]);
                    } else {
                        assert(nums[j as int] == out@[t]);
                    }
                }
                assert forall|k: int| 0 <= k < j + 1 && pred(#[trigger] nums[k]) implies out@.contains(nums[k]) by {
                    if k < j {
                        assert(before.contains(nums[k]));
                        let t = choose|t: int| 0 <= t < before.len() && before[t] == nums[k];
                        assert(out@[t] == nums[k]);
                    } else {
                        assert(out@[out@.len() - 1] == nums[k]);
                    }
                }
            }
        } else {
            proof {
                assert(!pred(n));
                assert forall|t: int| 0 <= t < out@.len() implies exists|k: int| 0 <= k < j + 1 && nums[k] == #[trigger] out@[t] by {
                    let k = choose|k: int| 0 <= k < j && nums[k] == #[trigger] out@[t];
                    assert(nums[k] == out@[t]);
                }
            }
        }
        j = j + 1;
    }
    proof {
        let target = group_set(im, keep@, i as int);
        assert forall|n: u32| out@.to_set().contains(n) <==> target.contains(n) by {
            if out@.to_set().contains(n) {
                let t = choose|t: int| 0 <= t < out@.len() && out@[t] == n;
                assert(pred(out@[t]));
            }
            if target.contains(n) {
                assert(nums.contains(n));
                let k = choose|k: int| 0 <= k < nums.len() && nums[k] == n;
                assert(pred(nums[k]));
                assert(out@.contains(nums[k]));
            }
        }
        assert(out@.to_set() =~= target);
        lemma_sorted(out@);
    }
    out
}

/// One line per node, with its name.
fn write_node_lines(w: &mut String, nodes: &Vec<u32>)
    ensures
        final(w)@ == old(w)@ + node_lines(nodes@),
{
    let ghost w0 = w@;
    let mut i: usize = 0;
    while i < nodes.len()
        invariant
            i <= nodes@.len(),
            w@ == w0 + node_lines(nodes@.take(i as int)),
        decreases nodes@.len() - i,
    {
        proof {
            assert(nodes@.take(i + 1).drop_last() =~= nodes@.take(i as int));
            assert(nodes@.take(i + 1).last() == nodes@[i as int]);
        }
        let name = node_name_string(nodes[i]);
        w.append(name.as_str());
        w.append("\n");
        i = i + 1;
    }
    proof {
        assert(nodes@.take(nodes@.len() as int) =~= nodes@);
    }
}

/// Writes the subgraph of group `i` with the given kept nodes, if there
/// are any.
fn write_group(w: &mut String, i: usize, tys: &Vec<Ty>, nodes: &Vec<u32>, sources: &BTreeMap<u32, String>)
    ensures
        final(w)@ == old(w)@ + group_text(i as int, ty_models(tys@), nodes@, source_in(texts(sources@))),
{
    if nodes.len() == 0 {
        proof {
            assert(old(w)@ + Seq::<char>::empty() =~= old(w)@);
        }
        return;
    }
    let error = !tys_all_equal(tys);
    let description = group_description(tys, sources);
    let index = decimal_string(i as u64);
    w.append("subgraph group");
    w.append(index.as_str());
    w.append("[\"<code>");
    w.append(description.as_str());
    w.append("</code>\"]\n");
    write_node_lines(w, nodes);
    w.append("end\n");
    w.append("class group");
    w.append(index.as_str());
    w.append(" ");
    if error {
        w.append("error");
    } else {
        w.append("success");
    }
    w.append("\n");
}

/// The nodes of the groups, then the nodes with facts, each list in
/// increasing order.
fn visit_order_vec(all: &Vec<NodeId>, facts: &BTreeMap<u32, Vec<Fact>>) -> (order: Vec<u32>)
    ensures
        order@ == node_numbers(all@) + sorted(facts@.dom()),
        forall|n: u32| #[trigger] order@.contains(n) <==> (node_numbers(all@).contains(n) || facts@.contains_key(n)),
{
    let keys = map_keys(facts);
    let mut order: Vec<u32> = Vec::new();
    let mut i: usize = 0;
    while i < all.len()
        invariant
            i <= all@.len(),
            order@ == node_numbers(all@.take(i as int)),
        decreases all@.len() - i,
    {
        proof {
            assert(all@.take(i + 1) =~= all@.take(i as int).push(all@[i as int]));
        }
        order.push(all[i].0);
        proof {
            assert(order@ =~= node_numbers(all@.take(i + 1)));
        }
        i = i + 1;
    }
    proof {
        assert(all@.take(all@.len() as int) =~= all@);
    }
    let ghost first = order@;
    let mut j: usize = 0;
    while j < keys.len()
        invariant
            j <= keys@.len(),
            order@ == first + keys@.take(j as int),
        decreases keys@.len() - j,
    {
        order.push(keys[j]);
        proof {
            assert(order@ =~= first + keys@.take(j + 1));
        }
        j = j + 1;
    }
    proof {
        assert(keys@.take(keys@.len() as int) =~= keys@);
        lemma_sorted(keys@);
        assert forall|n: u32| #[trigger] order@.contains(n) <==> (first.contains(n) || facts@.contains_key(n)) by {
            if order@.contains(n) {
                let k = choose|k: int| 0 <= k < order@.len() && order@[k] == n;
                if k < first.len() {
                    assert(first[k] == n);
                } else {
                    assert(keys@[k - first.len()] == n);
                    assert(keys@.to_set().contains(n));
                }
            }
            if first.contains(n) {
                let k = choose|k: int| 0 <= k < first.len() && first[k] == n;
                assert(order@[k] == n);
            }
            if facts@.contains_key(n) {
                assert(keys@.to_set().contains(n));
                let k = choose|k: int| 0 <= k < keys@.len() && keys@[k] == n;
                assert(order@[first.len() + k] == n);
            }
        }
    }
    order
}

/// The chart of `ty_groups` and `facts`, drawing the nodes of `keep`, with
/// the span, source text and comments of each node taken from `spans`,
/// `sources` and `comments`, by the node's number.
pub fn render_graph(
    ty_groups: &TyGroups,
    facts: &BTreeMap<u32, Vec<Fact>>,
    keep: &BTreeSet<u32>,
    spans: &BTreeMap<u32, Span>,
    sources: &BTreeMap<u32, String>,
    comments: &BTreeMap<u32, String>,
) -> (s: String)
    ensures
        s@ == graph_text(
            ty_groups.index_map(),
            ty_groups.group_tys(),
            fact_map(facts@),
            keep@,
            span_texts(spans@),
            texts(sources@),
            texts(comments@),
        ),
        forall|n: u32, j: int|
            keep@.contains(n) && drawn(fact_map(facts@), n) && 0 <= j < fact_map(facts@)[n].len()
                && (#[trigger] fact_map(facts@)[n][j]) is Node && drawn(
                fact_map(facts@),
                fact_map(facts@)[n][j]->Node_0.0,
            ) ==> occurs_in(
                arrow_line(n, fact_map(facts@)[n][j]->Node_0.0, fact_map(facts@)[n][j]->Node_1@),
                s@,
            ),
{
    let ghost im = ty_groups.index_map();
    let ghost gt = ty_groups.group_tys();
    let ghost source = source_in(texts(sources@));
    let mut s = String::new();
    s.append("%%{init: {'theme':'neutral'}}%%\n");
    s.append("flowchart TD\n");
    s.append("classDef success fill:#0000ff10,stroke:#0000ff,stroke-dasharray:10;\n");
    s.append("classDef error fill:#ff000010,stroke:#ff0000,stroke-dasharray:10;\n");
    let all = ty_groups.nodes();
    let order = visit_order_vec(&all, facts);
    proof {
        lemma_sorted(node_numbers(all@));
        assert(node_numbers(all@).to_set() =~= im.dom());
        assert(fact_map(facts@).dom() =~= facts@.dom());
        assert(order@ == visit_order(im, fact_map(facts@)));
    }
    write_nodes(&mut s, &order, facts, keep, spans, sources, comments);
    let ghost after_nodes = s@;
    let count = ty_groups.group_count();
    let mut g: usize = 0;
    while g < count
        invariant
            g <= count,
            count == gt.len(),
            gt == ty_groups.group_tys(),
            im == ty_groups.index_map(),
            source == source_in(texts(sources@)),
            strictly_increasing(node_numbers(all@)),
            forall|n: u32| #[trigger] node_numbers(all@).contains(n) <==> im.contains_key(n),
            s@ == after_nodes + groups_section(g as nat, im, gt, keep@, source),
        decreases count - g,
    {
        let members = group_members(ty_groups, &all, keep, g);
        write_group(&mut s, g, ty_groups.tys_of_group(g), &members, sources);
        g = g + 1;
    }
    proof {
        let fm = fact_map(facts@);
        assert forall|n: u32, j: int|
            keep@.contains(n) && drawn(fm, n) && 0 <= j < fm[n].len() && (#[trigger] fm[n][j]) is Node && drawn(
                fm,
                fm[n][j]->Node_0.0,
            ) implies occurs_in(arrow_line(n, fm[n][j]->Node_0.0, fm[n][j]->Node_1@), s@) by {
            assert(facts@.contains_key(n));
            assert(order@.contains(n));
            lemma_graph_draws_each_relation(
                im,
                gt,
                fm,
                keep@,
                span_texts(spans@),
                texts(sources@),
                texts(comments@),
                n,
                j,
            );
        }
    }
    s
}

/// Writes to `w` the chart of `ty_groups` and `facts`, drawing the nodes
/// for which `filter` holds, with the span, source text and comments of
/// each node as `provider` gives them.
///
/// `filter` is asked once for each node of the groups or with facts, and
/// `provider` once for each drawn node and each node that a drawn group's
/// types name; the chart is then `graph_text` under what they answered.
pub fn write_graph<S: Fn(NodeId) -> (Span, String), C: Fn(NodeId) -> Option<String>, F: Fn(NodeId) -> bool>(
    w: &mut String,
    ty_groups: &TyGroups,
    facts: &BTreeMap<u32, Vec<Fact>>,
    provider: &FeedbackProvider<S, C>,
    filter: F,
)
    requires
        forall|n: NodeId| #[trigger] call_requires(filter, (n,)),
        provider.wf(),
    ensures
        exists|
            keep: Set<u32>,
            spans: Map<u32, Seq<char>>,
            sources: Map<u32, Seq<char>>,
            comments: Map<u32, Seq<char>>,
        |
            {
                &&& final(w)@ == old(w)@ + #[trigger] graph_text(
                    ty_groups.index_map(),
                    ty_groups.group_tys(),
                    fact_map(facts@),
                    keep,
                    spans,
                    sources,
                    comments,
                )
                &&& forall|n: u32| #[trigger] keep.contains(n) ==> call_ensures(filter, (NodeId(n),), true)
                &&& forall|n: u32|
                    (ty_groups.index_map().contains_key(n) || facts@.contains_key(n)) && !(#[trigger] keep.contains(n))
                        ==> call_ensures(filter, (NodeId(n),), false)
                &&& forall|n: u32|
                    #[trigger] spans.contains_key(n) ==> sources.contains_key(n) && exists|a: (Span, String)|
                        call_ensures(provider.span_source(), (NodeId(n),), a) && spans[n] == a.0.debug_text()
                            && sources[n] == a.1@
                &&& answered(*provider, sources)
                &&& forall|n: u32|
                    #[trigger] comments.contains_key(n) ==> exists|c: String|
                        call_ensures(provider.comments(), (NodeId(n),), Some(c)) && comments[n] == c@
            },
{
    let ghost im = ty_groups.index_map();
    let all = ty_groups.nodes();
    let order = visit_order_vec(&all, facts);
    let mut keep: BTreeSet<u32> = BTreeSet::new();
    let mut asked: BTreeSet<u32> = BTreeSet::new();
    let mut i: usize = 0;
    while i < order.len()
        invariant
            i <= order@.len(),
            forall|n: NodeId| #[trigger] call_requires(filter, (n,)),
            forall|n: u32| #[trigger] keep@.contains(n) ==> asked@.contains(n),
            forall|n: u32| #[trigger] keep@.contains(n) ==> call_ensures(filter, (NodeId(n),), true),
            forall|n: u32| #[trigger] asked@.contains(n) && !keep@.contains(n) ==> call_ensures(filter, (NodeId(n),), false),
            forall|k: int| 0 <= k < i ==> asked@.contains(#[trigger] order@[k]),
        decreases order@.len() - i,
    {
        let n = order[i];
        if !asked.contains(&n) {
            asked.insert(n);
            let wanted = filter(NodeId(n));
            if wanted {
                keep.insert(n);
            }
        }
        i = i + 1;
    }
    proof {
        assert forall|n: u32| (im.contains_key(n) || facts@.contains_key(n)) implies asked@.contains(n) by {
            assert(order@.contains(n));
            let k = choose|k: int| 0 <= k < order@.len() && order@[k] == n;
            assert(asked@.contains(order@[k]));
        }
    }
    let mut spans: BTreeMap<u32, Span> = BTreeMap::new();
    let mut sources: BTreeMap<u32, String> = BTreeMap::new();
    let mut comments: BTreeMap<u32, String> = BTreeMap::new();
    let mut j: usize = 0;
    proof {
        assert(texts(sources@) =~= Map::<u32, Seq<char>>::empty());
    }
    while j < order.len()
        invariant
            provider.wf(),
            forall|n: u32|
                #[trigger] spans@.contains_key(n) ==> sources@.contains_key(n) && exists|a: (Span, String)|
                    call_ensures(provider.span_source(), (NodeId(n),), a) && spans@[n] == a.0 && sources@[n]@ == a.1@,
            forall|n: u32| #[trigger] sources@.contains_key(n) ==> spans@.contains_key(n),
            forall|n: u32|
                #[trigger] comments@.contains_key(n) ==> exists|c: String|
                    call_ensures(provider.comments(), (NodeId(n),), Some(c)) && comments@[n]@ == c@,
        decreases order@.len() - j,
    {
        let n = order[j];
        if keep.contains(&n) && is_drawn(facts, n) && spans.get(&n).is_none() {
            let ghost sp0 = spans@;
            let ghost so0 = sources@;
            let answer = provider.node_span_source(NodeId(n));
            let ghost a = answer;
            let (span, source) = answer;
            spans.insert(n, span);
            sources.insert(n, source);
            let found = provider.node_comments(NodeId(n));
            let ghost f = found;
            match found {
                Some(text) => {
                    comments.insert(n, text);
                },
                None => {},
            }
            proof {
                assert forall|m: u32| #[trigger] spans@.contains_key(m) implies sources@.contains_key(m) && exists|b: (Span, String)|
                    call_ensures(provider.span_source(), (NodeId(m),), b) && spans@[m] == b.0 && sources@[m]@ == b.1@ by {
                    if m == n {
                        assert(call_ensures(provider.span_source(), (NodeId(m),), a));
                        assert(spans@[m] == a.0 && sources@[m]@ == a.1@);
                    } else {
                        assert(sp0.contains_key(m));
                    }
                }
            }
        }
        j = j + 1;
    }
    let ghost spans1 = spans@;
    let ghost sources1 = sources@;
    let ghost comments1 = comments@;
    proof {
        assert forall|k: u32| #[trigger] texts(sources@).contains_key(k) implies exists|a: (Span, String)|
            call_ensures(provider.span_source(), (NodeId(k),), a) && texts(sources@)[k] == a.1@ by {
            assert(spans@.contains_key(k));
        }
    }
    let count = ty_groups.group_count();
    let mut g: usize = 0;
    while g < count
        invariant
            count == ty_groups.group_tys().len(),
            strictly_increasing(node_numbers(all@)),
            forall|n: u32| #[trigger] node_numbers(all@).contains(n) <==> ty_groups.index_map().contains_key(n),
            provider.wf(),
            spans@ == spans1,
            comments@ == comments1,
            forall|k: u32| #[trigger] sources1.contains_key(k) ==> sources@.contains_key(k) && sources@[k] == sources1[k],
            answered(*provider, texts(sources@)),
        decreases count - g,
    {
        let members = group_members(ty_groups, &all, &keep, g);
        if members.len() > 0 {
            let tys = ty_groups.tys_of_group(g);
            let mut t: usize = 0;
            while t < tys.len()
                invariant
                    provider.wf(),
                    spans@ == spans1,
                    comments@ == comments1,
                    forall|k: u32| #[trigger] sources1.contains_key(k) ==> sources@.contains_key(k) && sources@[k] == sources1[k],
                    answered(*provider, texts(sources@)),
                decreases tys@.len() - t,
            {
                tys[t].gather(provider, &mut sources);
                t = t + 1;
            }
        }
        g = g + 1;
    }
    let text = render_graph(ty_groups, facts, &keep, &spans, &sources, &comments);
    w.append(text.as_str());
    proof {
        let witness = graph_text(
            im,
            ty_groups.group_tys(),
            fact_map(facts@),
            keep@,
            span_texts(spans@),
            texts(sources@),
            texts(comments@),
        );
        assert(final(w)@ == old(w)@ + witness);
        assert forall|n: u32| #[trigger] span_texts(spans@).contains_key(n) implies texts(sources@).contains_key(n)
            && exists|a: (Span, String)|
            call_ensures(provider.span_source(), (NodeId(n),), a) && span_texts(spans@)[n] == a.0.debug_text()
                && texts(sources@)[n] == a.1@ by {
            assert(spans1.contains_key(n));
            let a = choose|a: (Span, String)|
                call_ensures(provider.span_source(), (NodeId(n),), a) && spans1[n] == a.0 && sources1[n]@ == a.1@;
            assert(sources@[n] == sources1[n]);
        }
        assert forall|n: u32| #[trigger] texts(comments@).contains_key(n) implies exists|c: String|
            call_ensures(provider.comments(), (NodeId(n),), Some(c)) && texts(comments@)[n] == c@ by {
            assert(comments1.contains_key(n));
        }
    }
}

} // verus!
