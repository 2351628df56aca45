//! The graph of the states known, as `petgraph` holds it, and its
//! drawing in the DOT language.

use vstd::prelude::*;
use crate::text::strs;

verus! {

/// `petgraph::Directed`, the marker type of the graphs whose edges have a
/// direction.
#[verifier::external_type_specification]
#[verifier::external_body]
pub struct ExDirected(petgraph::Directed);

/// `petgraph::graph::Graph`, the graph of the crate `petgraph`. What it
/// holds is known through [`graph_labels`] and [`graph_edges`] only.
#[verifier::external_type_specification]
#[verifier::external_body]
#[verifier::reject_recursive_types(N)]
#[verifier::reject_recursive_types(E)]
#[verifier::reject_recursive_types(Ty)]
#[verifier::reject_recursive_types(Ix)]
pub struct ExGraph<N, E, Ty, Ix>(petgraph::graph::Graph<N, E, Ty, Ix>);

/// The labels of the nodes of a graph, in the order of the nodes' numbers.
pub uninterp spec fn graph_labels(
    graph: petgraph::graph::Graph<String, (), petgraph::Directed, u32>,
) -> Seq<Seq<char>>;

/// The edges of a graph, each as the numbers of the node that it leaves
/// and of the node that it reaches, in the order in which they were added.
pub uninterp spec fn graph_edges(
    graph: petgraph::graph::Graph<String, (), petgraph::Directed, u32>,
) -> Seq<(nat, nat)>;

/// The drawing, in the DOT language, of the directed graph with the node
/// labels `labels` and the edges `edges`, without labels on the edges.
pub uninterp spec fn dot_text(labels: Seq<Seq<char>>, edges: Seq<(nat, nat)>) -> Seq<char>;

/// `petgraph::graph::Graph::new` creates a graph without nodes and edges.
#[verifier::external_body]
fn graph_new() -> (graph: petgraph::graph::Graph<String, (), petgraph::Directed, u32>)
    ensures
        graph_labels(graph) == Seq::<Seq<char>>::empty(),
        graph_edges(graph) == Seq::<(nat, nat)>::empty(),
{
    petgraph::graph::Graph::new()
}

/// `petgraph::graph::Graph::add_node` adds a node behind the others and
/// gives its number. It panics where the graph has as many nodes as `u32`
/// can number.
#[verifier::external_body]
fn graph_add_node(
    graph: &mut petgraph::graph::Graph<String, (), petgraph::Directed, u32>,
    label: String,
) -> (at: usize)
    requires
        graph_labels(*old(graph)).len() < u32::MAX,
    ensures
        at == graph_labels(*old(graph)).len(),
        graph_labels(*final(graph)) == graph_labels(*old(graph)).push(label@),
        graph_edges(*final(graph)) == graph_edges(*old(graph)),
{
    graph.add_node(label).index()
}

/// `petgraph::graph::Graph::update_edge` adds the edge from `a` to `b`
/// unless the graph has it. It panics where one of the nodes does not
/// exist, or the graph has as many edges as `u32` can number.
#[verifier::external_body]
fn graph_update_edge(
    graph: &mut petgraph::graph::Graph<String, (), petgraph::Directed, u32>,
    a: usize,
    b: usize,
)
    requires
        a < graph_labels(*old(graph)).len() <= u32::MAX,
        b < graph_labels(*old(graph)).len(),
        graph_edges(*old(graph)).len() < u32::MAX,
    ensures
        graph_labels(*final(graph)) == graph_labels(*old(graph)),
        graph_edges(*final(graph)) == if graph_edges(*old(graph)).contains((a as nat, b as nat)) {
            graph_edges(*old(graph))
        } else {
            graph_edges(*old(graph)).push((a as nat, b as nat))
        },
{
    graph.update_edge(
        petgraph::graph::NodeIndex::new(a),
        petgraph::graph::NodeIndex::new(b),
        (),
    );
}

/// The `Debug` form of `petgraph::dot::Dot` with `Config::EdgeNoLabel` is
/// the drawing of the graph in the DOT language.
#[verifier::external_body]
fn graph_dot(graph: &petgraph::graph::Graph<String, (), petgraph::Directed, u32>) -> (out: String)
    ensures
        out@ == dot_text(graph_labels(*graph), graph_edges(*graph)),
{
    format!("{:?}", petgraph::dot::Dot::with_config(graph, &[petgraph::dot::Config::EdgeNoLabel]))
}


/// A graph as mathematical values: the labels of its nodes, in the order
/// of the nodes' numbers, and its edges, in the order in which they came.
pub struct GraphModel {
    pub labels: Seq<Seq<char>>,
    pub edges: Seq<(nat, nat)>,
}

/// The graph without nodes.
pub open spec fn empty_graph() -> GraphModel {
    GraphModel { labels: Seq::empty(), edges: Seq::empty() }
}

/// `labels` with `label` behind them, unless it is among them already.
pub open spec fn with_label(labels: Seq<Seq<char>>, label: Seq<char>) -> Seq<Seq<char>> {
    if labels.contains(label) {
        labels
    } else {
        labels.push(label)
    }
}

/// `edges` with `edge` behind them, unless it is among them already.
pub open spec fn with_edge(edges: Seq<(nat, nat)>, edge: (nat, nat)) -> Seq<(nat, nat)> {
    if edges.contains(edge) {
        edges
    } else {
        edges.push(edge)
    }
}

/// Whether the graph has room for two nodes and an edge more.
pub open spec fn has_room(g: GraphModel) -> bool {
    g.labels.len() + 2 < u32::MAX && g.edges.len() + 1 < u32::MAX
}

/// The graph `g` with the nodes `state` and `next`, where it lacks them,
/// and the edge from the one to the other, where it lacks it.
pub open spec fn with_neighbor(g: GraphModel, state: Seq<char>, next: Seq<char>) -> GraphModel {
    let labels = with_label(with_label(g.labels, state), next);
    GraphModel {
        labels,
        edges: with_edge(g.edges, (labels.index_of(state) as nat, labels.index_of(next) as nat)),
    }
}

/// The graph of the states as `petgraph` holds it: each node is labelled
/// with a state, and no two nodes with the same.
pub struct StateGraph {
    nodes: Vec<String>,
    edge_count: usize,
    graph: petgraph::graph::Graph<String, (), petgraph::Directed, u32>,
}

impl View for StateGraph {
    type V = GraphModel;

    closed spec fn view(&self) -> GraphModel {
        GraphModel { labels: graph_labels(self.graph), edges: graph_edges(self.graph) }
    }
}

impl StateGraph {
    /// Whether the value is one that this type's functions built.
    pub closed spec fn wf(&self) -> bool {
        &&& strs(self.nodes@) == graph_labels(self.graph)
        &&& self.edge_count == graph_edges(self.graph).len()
        &&& graph_labels(self.graph).no_duplicates()
        &&& graph_labels(self.graph).len() <= u32::MAX
        &&& graph_edges(self.graph).len() <= u32::MAX
    }

    /// Creates a new state graph.
    pub fn new() -> (out: Self)
        ensures
            out.wf(),
            out@ == empty_graph(),
    {
        let out = StateGraph { nodes: Vec::new(), edge_count: 0, graph: graph_new() };
        assert(strs(out.nodes@) =~= Seq::<Seq<char>>::empty());
        out
    }

    /// Whether the graph has room for two nodes and an edge more.
    pub fn roomy(&self) -> (b: bool)
        requires
            self.wf(),
        ensures
            b == has_room(self@),
    {
        self.nodes.len() < 0xffff_fffd && self.edge_count < 0xffff_fffe
    }

    /// The number of the node labelled `node`, if there is one.
    fn number_of(&self, node: &String) -> (out: Option<usize>)
        requires
            self.wf(),
        ensures
            match out {
                Some(i) => i < self@.labels.len() && self@.labels[i as int] == node@ && i
                    == self@.labels.index_of(node@),
                None => !self@.labels.contains(node@),
            },
    {
        let mut i: usize = 0;
        while i < self.nodes.len()
            invariant
                i <= self.nodes.len(),
                self.wf(),
                forall|j: int| 0 <= j < i ==> strs(self.nodes@)[j] != node@,
            decreases self.nodes.len() - i,
        {
            if self.nodes[i] == *node {
                proof {
                    let labels = self@.labels;
                    assert(strs(self.nodes@)[i as int] == node@);
                    assert(labels[i as int] == node@);
                    assert(labels.contains(node@));
                    let k = labels.index_of(node@);
                    assert(labels[k] == node@);
                }
                return Some(i);
            }
            i += 1;
        }
        None
    }

    /// Adds a new node (in case it hasn't been added) to the graph and
    /// retrieves its number.
    fn add_node(&mut self, node: String) -> (at: usize)
        requires
            old(self).wf(),
            old(self)@.labels.len() < u32::MAX,
        ensures
            final(self).wf(),
            final(self)@.labels == with_label(old(self)@.labels, node@),
            final(self)@.edges == old(self)@.edges,
            at < final(self)@.labels.len(),
            at == final(self)@.labels.index_of(node@),
    {
        match self.number_of(&node) {
            Some(i) => i,
            None => {
                let ghost before = strs(self.nodes@);
                self.nodes.push(node.clone());
                let at = graph_add_node(&mut self.graph, node);
                proof {
                    let labels = self@.labels;
                    assert(strs(self.nodes@) =~= before.push(node@));
                    assert(labels[at as int] == node@);
                    assert(labels.contains(node@));
                    assert forall|i: int, j: int| 0 <= i < j < labels.len() implies labels[i]
                        != labels[j] by {
                        if j == before.len() {
                            assert(before[i] == labels[i]);
                            assert(before.contains(before[i]));
                        } else {
                            assert(before[i] != before[j]);
                        }
                    }
                    let k = labels.index_of(node@);
                    assert(labels[k] == node@);
                }
                at
            },
        }
    }

    /// Adds a new edge (in case it hasn't been added) to the graph.
    fn add_edge(&mut self, from: usize, to: usize)
        requires
            old(self).wf(),
            from < old(self)@.labels.len(),
            to < old(self)@.labels.len(),
            old(self)@.edges.len() < u32::MAX,
        ensures
            final(self).wf(),
            final(self)@.labels == old(self)@.labels,
            final(self)@.edges == with_edge(old(self)@.edges, (from as nat, to as nat)),
    {
        graph_update_edge(&mut self.graph, from, to);
        self.edge_count = graph_edge_count(&self.graph);
    }

    /// Adds a `next_state` to `state`: the two nodes, where the graph lacks
    /// them, and the edge between them. Nothing is added where the graph
    /// has no room.
    pub fn add_neighbor(&mut self, state: String, next_state: String) -> (added: bool)
        requires
            old(self).wf(),
        ensures
            final(self).wf(),
            added == has_room(old(self)@),
            final(self)@ == if added {
                with_neighbor(old(self)@, state@, next_state@)
            } else {
                old(self)@
            },
    {
        if !self.roomy() {
            return false;
        }
        let ghost state_text = state@;
        let ghost next_text = next_state@;
        let from = self.add_node(state);
        let ghost middle = self@.labels;
        let to = self.add_node(next_state);
        proof {
            let labels = self@.labels;
            let first = old(self)@.labels;
            assert(middle == with_label(first, state_text));
            if !first.contains(state_text) {
                assert(middle[first.len() as int] == state_text);
            }
            assert(middle.contains(state_text));
            assert(labels == with_label(middle, next_text));
            let k = choose|k: int| 0 <= k < middle.len() && middle[k] == state_text;
            assert(labels[k] == state_text);
            assert(labels.contains(state_text));
            assert(labels[from as int] == state_text) by {
                assert(middle[from as int] == state_text) by {
                    let m = middle.index_of(state_text);
                    assert(middle[m] == state_text);
                }
            }
            let j = labels.index_of(state_text);
            assert(labels[j] == state_text);
            assert(j == from);
        }
        self.add_edge(from, to);
        true
    }

    /// The drawing of the graph in the DOT language.
    pub fn dot(self) -> (out: String)
        ensures
            out@ == dot_text(self@.labels, self@.edges),
    {
        graph_dot(&self.graph)
    }
}

/// `petgraph::graph::Graph::edge_count` gives the number of the graph's
/// edges.
#[verifier::external_body]
fn graph_edge_count(graph: &petgraph::graph::Graph<String, (), petgraph::Directed, u32>) -> (n:
    usize)
    ensures
        n == graph_edges(*graph).len(),
{
    graph.edge_count()
}

} // verus!
