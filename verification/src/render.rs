//! Text forms of a graph: a directed-graph description, and a dump of its edges.

use crate::graph::Graph;
use crate::model::{listing, GraphView};
use crate::node::{Arrow, NodeId};
use std::collections::HashMap;
use std::fmt::Display;
use vstd::prelude::*;
use vstd::string::{to_string_from_display_ensures, StringExecFns};

verus! {

broadcast use vstd::std_specs::hash::group_hash_axioms;

/// The character of a decimal digit.
pub open spec fn digit(d: int) -> char {
    if d == 0 {
        '0'
    } else if d == 1 {
        '1'
    } else if d == 2 {
        '2'
    } else if d == 3 {
        '3'
    } else if d == 4 {
        '4'
    } else if d == 5 {
        '5'
    } else if d == 6 {
        '6'
    } else if d == 7 {
        '7'
    } else if d == 8 {
        '8'
    } else {
        '9'
    }
}

/// A number in decimal digits, without leading zeros.
pub open spec fn decimal(n: nat) -> Seq<char>
    decreases n,
{
    if n < 10 {
        seq![digit(n as int)]
    } else {
        decimal(n / 10) + seq![digit((n % 10) as int)]
    }
}

/// The line that declares a node, after the line break that starts it.
pub open spec fn node_line(id: NodeId, label: Seq<char>) -> Seq<char> {
    "\n"@ + decimal(id as nat) + " [label=\""@ + label + "\"];"@
}

/// The line that declares an arrow, after the line break that starts it.
pub open spec fn arrow_line(arrow: Arrow) -> Seq<char> {
    "\n"@ + decimal(arrow.from as nat) + " -> "@ + decimal(arrow.to as nat) + ";"@
}

/// The lines of some arrows, in their order.
pub open spec fn arrow_lines(arrows: Seq<Arrow>) -> Seq<char>
    decreases arrows.len(),
{
    if arrows.len() == 0 {
        Seq::empty()
    } else {
        arrow_lines(arrows.drop_last()) + arrow_line(arrows.last())
    }
}

/// The lines of the nodes `ids`, in their order: for each node its own
/// line, then the lines of its outgoing arrows.
pub open spec fn node_blocks<T>(m: GraphView<T>, ids: Seq<NodeId>, labels: Map<NodeId, String>) -> Seq<char>
    decreases ids.len(),
{
    if ids.len() == 0 {
        Seq::empty()
    } else {
        let id = ids.last();
        node_blocks(m, ids.drop_last(), labels) + node_line(id, labels[id]@) + arrow_lines(m[id].outgoing)
    }
}

/// The directed-graph description of `m`: between an opening and a closing
/// line, the nodes in ascending order of identifier, each with its label
/// and followed by its outgoing arrows.
pub open spec fn dot_text<T>(m: GraphView<T>, labels: Map<NodeId, String>) -> Seq<char> {
    "digraph {"@ + node_blocks(m, listing(m.dom()), labels) + "\n}"@
}

/// The line of an edge in the dump, after the line break that starts it.
pub open spec fn edge_line(arrow: Arrow, labels: Map<NodeId, String>) -> Seq<char> {
    "\n\t"@ + labels[arrow.from]@ + " "@ + labels[arrow.to]@
}

/// The dump lines of some arrows, in their order.
pub open spec fn edge_lines(arrows: Seq<Arrow>, labels: Map<NodeId, String>) -> Seq<char>
    decreases arrows.len(),
{
    if arrows.len() == 0 {
        Seq::empty()
    } else {
        edge_lines(arrows.drop_last(), labels) + edge_line(arrows.last(), labels)
    }
}

/// The dump lines of the outgoing arrows of the nodes `ids`, in their order.
pub open spec fn edge_blocks<T>(m: GraphView<T>, ids: Seq<NodeId>, labels: Map<NodeId, String>) -> Seq<char>
    decreases ids.len(),
{
    if ids.len() == 0 {
        Seq::empty()
    } else {
        edge_blocks(m, ids.drop_last(), labels) + edge_lines(m[ids.last()].outgoing, labels)
    }
}

/// The dump of `m`: between an opening and a closing line, one line for
/// each arrow with the labels of its two ends, the arrows taken node by
/// node in ascending order of identifier.
pub open spec fn dump_text<T>(m: GraphView<T>, labels: Map<NodeId, String>) -> Seq<char> {
    "{"@ + edge_blocks(m, listing(m.dom()), labels) + "\n}"@
}

/// `labels` has a label for every node of `m` and for both ends of every
/// outgoing arrow.
pub open spec fn labels_cover<T>(m: GraphView<T>, labels: Map<NodeId, String>) -> bool {
    &&& forall|id: NodeId| m.contains_key(id) ==> labels.contains_key(id)
    &&& forall|id: NodeId, i: int|
        m.contains_key(id) && 0 <= i < m[id].outgoing.len() ==> labels.contains_key(
            (#[trigger] m[id].outgoing[i]).from,
        ) && labels.contains_key(m[id].outgoing[i].to)
}

/// Every outgoing arrow of every node joins two nodes of `m`.
pub open spec fn arrows_joined<T>(m: GraphView<T>) -> bool {
    forall|id: NodeId, i: int|
        m.contains_key(id) && 0 <= i < m[id].outgoing.len() ==> m.contains_key(
            (#[trigger] m[id].outgoing[i]).from,
        ) && m.contains_key(m[id].outgoing[i].to)
}

/// `labels` holds, for each node of `m` and for no other identifier, a text
/// that displaying the value of the node gave.
pub open spec fn displayed<T: Display>(m: GraphView<T>, labels: Map<NodeId, String>) -> bool {
    &&& labels.dom() == m.dom()
    &&& forall|id: NodeId| m.contains_key(id) ==> to_string_from_display_ensures::<T>(&m[id].value, #[trigger] labels[id])
}

/// The text of one decimal digit.
fn digit_text(d: u64) -> (text: &'static str)
    requires
        d < 10,
    ensures
        text@ == seq![digit(d as int)],
{
    proof {
        reveal_strlit("0");
        reveal_strlit("1");
        reveal_strlit("2");
        reveal_strlit("3");
        reveal_strlit("4");
        reveal_strlit("5");
        reveal_strlit("6");
        reveal_strlit("7");
        reveal_strlit("8");
        reveal_strlit("9");
    }
    let text = if d == 0 {
        "0"
    } else if d == 1 {
        "1"
    } else if d == 2 {
        "2"
    } else if d == 3 {
        "3"
    } else if d == 4 {
        "4"
    } else if d == 5 {
        "5"
    } else if d == 6 {
        "6"
    } else if d == 7 {
        "7"
    } else if d == 8 {
        "8"
    } else {
        "9"
    };
    assert(text@ =~= seq![digit(d as int)]);
    text
}

/// A number in decimal digits.
pub fn decimal_text(n: u64) -> (text: String)
    ensures
        text@ == decimal(n as nat),
    decreases n,
{
    if n < 10 {
        String::from_str(digit_text(n))
    } else {
        let mut text = decimal_text(n / 10);
        text.append(digit_text(n % 10));
        text
    }
}

/// Appends the line that declares a node.
fn push_node_line(text: &mut String, id: NodeId, label: &str)
    ensures
        final(text)@ == old(text)@ + node_line(id, label@),
{
    let number = decimal_text(id);
    text.append("\n");
    text.append(number.as_str());
    text.append(" [label=\"");
    text.append(label);
    text.append("\"];");
    assert(text@ =~= old(text)@ + node_line(id, label@));
}

/// Appends the line that declares an arrow.
fn push_arrow_line(text: &mut String, arrow: Arrow)
    ensures
        final(text)@ == old(text)@ + arrow_line(arrow),
{
    let from = decimal_text(arrow.from);
    let to = decimal_text(arrow.to);
    text.append("\n");
    text.append(from.as_str());
    text.append(" -> ");
    text.append(to.as_str());
    text.append(";");
    assert(text@ =~= old(text)@ + arrow_line(arrow));
}

/// Appends the dump line of an arrow.
fn push_edge_line(text: &mut String, arrow: Arrow, labels: &HashMap<NodeId, String>)
    requires
        labels@.contains_key(arrow.from),
        labels@.contains_key(arrow.to),
    ensures
        final(text)@ == old(text)@ + edge_line(arrow, labels@),
{
    let from = labels.get(&arrow.from).unwrap();
    let to = labels.get(&arrow.to).unwrap();
    text.append("\n\t");
    text.append(from.as_str());
    text.append(" ");
    text.append(to.as_str());
    assert(text@ =~= old(text)@ + edge_line(arrow, labels@));
}

impl<T> Graph<T> {
    /// The directed-graph description of the graph, with the given labels.
    pub fn to_dot_with(&self, labels: &HashMap<NodeId, String>) -> (text: String)
        requires
            forall|id: NodeId| self@.contains_key(id) ==> labels@.contains_key(id),
        ensures
            text@ == dot_text(self@, labels@),
    {
        let nodes = self.iter();
        let ghost ids = listing(self@.dom());
        let mut text = String::from_str("digraph {");
        let mut i: usize = 0;
        while i < nodes.len()
            invariant
                i <= nodes.len(),
                ids == listing(self@.dom()),
                nodes@.len() == ids.len(),
                forall|j: int| 0 <= j < nodes@.len() ==> self@.contains_key(#[trigger] nodes@[j]@.id),
                forall|j: int| 0 <= j < nodes@.len() ==> (#[trigger] nodes@[j])@ == self@[ids[j]],
                forall|j: int| 0 <= j < nodes@.len() ==> (#[trigger] nodes@[j])@.id == ids[j],
                forall|id: NodeId| self@.contains_key(id) ==> labels@.contains_key(id),
                text@ == "digraph {"@ + node_blocks(self@, ids.take(i as int), labels@),
            decreases nodes.len() - i,
        {
            let node = nodes[i];
            let ghost id = ids[i as int];
            assert(self@.contains_key(nodes@[i as int]@.id));
            let label = labels.get(&node.id()).unwrap();
            push_node_line(&mut text, node.id(), label.as_str());
            let arrows = node.outgoing();
            let ghost start = text@;
            let mut k: usize = 0;
            while k < arrows.len()
                invariant
                    k <= arrows.len(),
                    text@ == start + arrow_lines(arrows@.take(k as int)),
                decreases arrows.len() - k,
            {
                push_arrow_line(&mut text, arrows[k]);
                proof {
                    assert(arrows@.take(k + 1).drop_last() == arrows@.take(k as int));
                    assert(text@ =~= start + arrow_lines(arrows@.take(k + 1)));
                }
                k += 1;
            }
            proof {
                assert(arrows@.take(k as int) == arrows@);
                assert(ids.take(i + 1).drop_last() == ids.take(i as int));
                assert(ids.take(i + 1).last() == id);
                assert(text@ =~= "digraph {"@ + node_blocks(self@, ids.take(i + 1), labels@));
            }
            i += 1;
        }
        proof {
            assert(ids.take(i as int) == ids);
        }
        text.append("\n}");
        text
    }

    /// The dump of the edges of the graph, with the given labels.
    pub fn dump_with(&self, labels: &HashMap<NodeId, String>) -> (text: String)
        requires
            labels_cover(self@, labels@),
        ensures
            text@ == dump_text(self@, labels@),
    {
        let nodes = self.iter();
        let ghost ids = listing(self@.dom());
        let mut text = String::from_str("{");
        let mut i: usize = 0;
        while i < nodes.len()
            invariant
                i <= nodes.len(),
                ids == listing(self@.dom()),
                nodes@.len() == ids.len(),
                forall|j: int| 0 <= j < nodes@.len() ==> self@.contains_key(#[trigger] nodes@[j]@.id),
                forall|j: int| 0 <= j < nodes@.len() ==> (#[trigger] nodes@[j])@ == self@[ids[j]],
                forall|j: int| 0 <= j < nodes@.len() ==> (#[trigger] nodes@[j])@.id == ids[j],
                labels_cover(self@, labels@),
                text@ == "{"@ + edge_blocks(self@, ids.take(i as int), labels@),
            decreases nodes.len() - i,
        {
            let node = nodes[i];
            let ghost id = ids[i as int];
            assert(self@.contains_key(nodes@[i as int]@.id));
            let arrows = node.outgoing();
            let ghost start = text@;
            let mut k: usize = 0;
            while k < arrows.len()
                invariant
                    k <= arrows.len(),
                    self@.contains_key(id),
                    arrows@ == self@[id].outgoing,
                    labels_cover(self@, labels@),
                    text@ == start + edge_lines(arrows@.take(k as int), labels@),
                decreases arrows.len() - k,
            {
                assert(labels@.contains_key(self@[id].outgoing[k as int].from));
                push_edge_line(&mut text, arrows[k], labels);
                proof {
                    assert(arrows@.take(k + 1).drop_last() == arrows@.take(k as int));
                    assert(text@ =~= start + edge_lines(arrows@.take(k + 1), labels@));
                }
                k += 1;
            }
            proof {
                assert(arrows@.take(k as int) == arrows@);
                assert(ids.take(i + 1).drop_last() == ids.take(i as int));
                assert(ids.take(i + 1).last() == id);
                assert(text@ =~= "{"@ + edge_blocks(self@, ids.take(i + 1), labels@));
            }
            i += 1;
        }
        proof {
            assert(ids.take(i as int) == ids);
        }
        text.append("\n}");
        text
    }
}

impl<T: Display> Graph<T> {
    /// For each node, the text that displaying its value gives.
    pub fn labels(&self) -> (labels: HashMap<NodeId, String>)
        ensures
            displayed(self@, labels@),
    {
        let nodes = self.iter();
        let mut labels: HashMap<NodeId, String> = HashMap::new();
        let mut i: usize = 0;
        while i < nodes.len()
            invariant
                i <= nodes.len(),
                forall|j: int| 0 <= j < nodes@.len() ==> self@.contains_key(#[trigger] nodes@[j]@.id)
                    && self@[nodes@[j]@.id] == nodes@[j]@,
                forall|id: NodeId|
                    self@.contains_key(id) ==> exists|j: int| 0 <= j < nodes@.len() && nodes@[j]@.id == id,
                forall|id: NodeId|
                    #![trigger labels@.contains_key(id)]
                    labels@.contains_key(id) <==> exists|j: int| 0 <= j < i && (#[trigger] nodes@[j])@.id == id,
                forall|id: NodeId|
                    labels@.contains_key(id) ==> to_string_from_display_ensures::<T>(
                        &self@[id].value,
                        #[trigger] labels@[id],
                    ),
            decreases nodes.len() - i,
        {
            let node = nodes[i];
            let ghost earlier = labels@;
            assert(self@.contains_key(nodes@[i as int]@.id));
            labels.insert(node.id(), node.value().to_string());
            proof {
                assert forall|id: NodeId|
                    #![trigger labels@.contains_key(id)]
                    labels@.contains_key(id) <==> exists|j: int|
                        0 <= j < i + 1 && (#[trigger] nodes@[j])@.id == id by {
                    if earlier.contains_key(id) {
                        let j = choose|j: int| 0 <= j < i && (#[trigger] nodes@[j])@.id == id;
                        assert(nodes@[j]@.id == id);
                    }
                    if id == nodes@[i as int]@.id {
                        assert(nodes@[i as int]@.id == id);
                    }
                    if exists|j: int| 0 <= j < i + 1 && (#[trigger] nodes@[j])@.id == id {
                        let j = choose|j: int| 0 <= j < i + 1 && (#[trigger] nodes@[j])@.id == id;
                        if j < i {
                            assert(earlier.contains_key(id));
                        }
                    }
                }
            }
            i += 1;
        }
        proof {
            assert forall|id: NodeId| labels@.dom().contains(id) <==> self@.dom().contains(id) by {
                if self@.contains_key(id) {
                    let j = choose|j: int| 0 <= j < nodes@.len() && nodes@[j]@.id == id;
                    assert(nodes@[j]@.id == id);
                }
                if labels@.contains_key(id) {
                    let j = choose|j: int| 0 <= j < nodes@.len() && (#[trigger] nodes@[j])@.id == id;
                    assert(self@.contains_key(nodes@[j]@.id));
                }
            }
            assert(labels@.dom() =~= self@.dom());
        }
        labels
    }

    /// The directed-graph description of the graph, each node labelled
    /// with the text that displaying its value gives.
    pub fn to_dot(&self) -> (text: String)
        ensures
            exists|labels: Map<NodeId, String>| displayed(self@, labels) && text@ == dot_text(self@, labels),
    {
        let labels = self.labels();
        let text = self.to_dot_with(&labels);
        assert(displayed(self@, labels@) && text@ == dot_text(self@, labels@));
        text
    }
}

/// The dump of the edges of a graph, one line for each arrow, with the
/// texts that displaying the values of its two ends gives.
pub fn output_graph_rudimentary<T: Display>(g: &Graph<T>) -> (text: String)
    requires
        arrows_joined(g@),
    ensures
        exists|labels: Map<NodeId, String>| displayed(g@, labels) && text@ == dump_text(g@, labels),
{
    let labels = g.labels();
    let text = g.dump_with(&labels);
    assert(displayed(g@, labels@) && text@ == dump_text(g@, labels@));
    text
}

} // verus!
