//! The graph-structured stack, kept in a `petgraph` graph.
//!
//! Nodes are return frames `(label, position)`; an edge leads from a frame to
//! the frame of its caller and carries the index of a forest node. The graph
//! itself is opaque to the verifier: what it holds is named by
//! [`graph_nodes`] and [`graph_edges`], and the functions below state what
//! each `petgraph` call does to them.

use crate::grammar::Label;
use petgraph::Directed;
use petgraph::graph::Graph;
use petgraph::graph::NodeIndex;
use petgraph::visit::EdgeRef;
use vstd::prelude::*;

verus! {

/// `petgraph::graph::Graph`, taken as an opaque value.
#[verifier::external_type_specification]
#[verifier::external_body]
#[verifier::reject_recursive_types(N)]
#[verifier::reject_recursive_types(E)]
#[verifier::reject_recursive_types(Ty)]
#[verifier::reject_recursive_types(Ix)]
pub struct ExGraph<N, E, Ty, Ix>(Graph<N, E, Ty, Ix>);

/// `petgraph::Directed`, the marker of graphs with directed edges.
#[verifier::external_type_specification]
#[verifier::external_body]
pub struct ExDirected(Directed);

/// The node weights of a stack graph, by node index.
pub uninterp spec fn graph_nodes(g: Graph<(Label, usize), usize, Directed, usize>) -> Seq<
    (Label, usize),
>;

/// The edges of a stack graph as `(source, target, weight)`, by edge index,
/// that is in the order in which they were added.
pub uninterp spec fn graph_edges(g: Graph<(Label, usize), usize, Directed, usize>) -> Seq<
    (usize, usize, usize),
>;

/// The `(target, weight)` pairs of the edges that leave `a`, newest first.
pub open spec fn out_edges(edges: Seq<(usize, usize, usize)>, a: usize) -> Seq<(usize, usize)>
    decreases edges.len(),
{
    if edges.len() == 0 {
        Seq::empty()
    } else {
        let rest = out_edges(edges.drop_last(), a);
        let e = edges.last();
        if e.0 == a {
            seq![(e.1, e.2)] + rest
        } else {
            rest
        }
    }
}

/// Whether some edge leads from `a` to `b`, whatever its weight.
pub open spec fn has_edge(edges: Seq<(usize, usize, usize)>, a: usize, b: usize) -> bool {
    exists|k: int| 0 <= k < edges.len() && (#[trigger] edges[k]).0 == a && edges[k].1 == b
}

/// `Graph::with_capacity`: a graph without nodes or edges.
#[verifier::external_body]
pub(crate) fn graph_new() -> (g: Graph<(Label, usize), usize, Directed, usize>)
    ensures
        graph_nodes(g) == Seq::<(Label, usize)>::empty(),
        graph_edges(g) == Seq::<(usize, usize, usize)>::empty(),
{
    Graph::with_capacity(0, 0)
}

/// `Graph::node_count`: the number of nodes.
#[verifier::external_body]
pub(crate) fn graph_node_count(g: &Graph<(Label, usize), usize, Directed, usize>) -> (n: usize)
    ensures
        n == graph_nodes(*g).len(),
{
    g.node_count()
}

/// `Graph::add_node`: appends a node with the given weight and returns its
/// index, which is the number of nodes before the call. With `usize` indices
/// the graph has no node limit of its own. Edges are untouched.
#[verifier::external_body]
pub(crate) fn graph_add_node(
    g: &mut Graph<(Label, usize), usize, Directed, usize>,
    weight: (Label, usize),
) -> (index: usize)
    ensures
        index == graph_nodes(*old(g)).len(),
        graph_nodes(*final(g)) == graph_nodes(*old(g)).push(weight),
        graph_edges(*final(g)) == graph_edges(*old(g)),
{
    g.add_node(weight).index()
}

/// `Graph::index` by a `NodeIndex`: the weight of an existing node. The
/// call panics on a node that does not exist, which the precondition rules
/// out.
#[verifier::external_body]
pub(crate) fn graph_node_weight(g: &Graph<(Label, usize), usize, Directed, usize>, a: usize) -> (w:
    (Label, usize))
    requires
        a < graph_nodes(*g).len(),
    ensures
        w == graph_nodes(*g)[a as int],
{
    g[NodeIndex::new(a)]
}

/// `Graph::add_edge`: appends an edge between two existing nodes; parallel
/// edges are allowed. Nodes and earlier edges are untouched.
#[verifier::external_body]
pub(crate) fn graph_add_edge(
    g: &mut Graph<(Label, usize), usize, Directed, usize>,
    a: usize,
    b: usize,
    weight: usize,
)
    requires
        a < graph_nodes(*old(g)).len(),
        b < graph_nodes(*old(g)).len(),
    ensures
        graph_nodes(*final(g)) == graph_nodes(*old(g)),
        graph_edges(*final(g)) == graph_edges(*old(g)).push((a, b, weight)),
{
    g.add_edge(NodeIndex::new(a), NodeIndex::new(b), weight);
}

/// `Graph::find_edge`: the index of an edge from `a` to `b`, or `None` when
/// no edge leads from `a` to `b`.
#[verifier::external_body]
pub(crate) fn graph_find_edge(
    g: &Graph<(Label, usize), usize, Directed, usize>,
    a: usize,
    b: usize,
) -> (found: Option<usize>)
    ensures
        match found {
            Some(k) => {
                &&& k < graph_edges(*g).len()
                &&& graph_edges(*g)[k as int].0 == a
                &&& graph_edges(*g)[k as int].1 == b
            },
            None => !has_edge(graph_edges(*g), a, b),
        },
{
    g.find_edge(NodeIndex::new(a), NodeIndex::new(b)).map(|e| e.index())
}

/// `Graph::edges`: the edges that leave `a`, newest first, each as its
/// target and weight.
#[verifier::external_body]
pub(crate) fn graph_out_edges(g: &Graph<(Label, usize), usize, Directed, usize>, a: usize) -> (out:
    Vec<(usize, usize)>)
    ensures
        out@ == out_edges(graph_edges(*g), a),
{
    g.edges(NodeIndex::new(a)).map(|e| (e.target().index(), *e.weight())).collect()
}

/// Whatever `out_edges` lists is an edge that leaves `a`.
pub proof fn lemma_out_edges_sound(edges: Seq<(usize, usize, usize)>, a: usize, j: int)
    requires
        0 <= j < out_edges(edges, a).len(),
    ensures
        exists|k: int|
            0 <= k < edges.len() && #[trigger] edges[k] == (
                a,
                out_edges(edges, a)[j].0,
                out_edges(edges, a)[j].1,
            ),
    decreases edges.len(),
{
    let rest = out_edges(edges.drop_last(), a);
    let e = edges.last();
    if e.0 == a && j == 0 {
        assert(edges[edges.len() - 1] == (a, out_edges(edges, a)[j].0, out_edges(edges, a)[j].1));
    } else {
        let j2 = if e.0 == a {
            j - 1
        } else {
            j
        };
        assert(out_edges(edges, a)[j] == rest[j2]);
        lemma_out_edges_sound(edges.drop_last(), a, j2);
        let k = choose|k: int|
            0 <= k < edges.drop_last().len() && #[trigger] edges.drop_last()[k] == (
                a,
                rest[j2].0,
                rest[j2].1,
            );
        assert(edges[k] == edges.drop_last()[k]);
    }
}

/// Every edge that leaves `a` is listed by `out_edges`.
pub proof fn lemma_out_edges_complete(edges: Seq<(usize, usize, usize)>, a: usize, k: int)
    requires
        0 <= k < edges.len(),
        edges[k].0 == a,
    ensures
        exists|j: int|
            0 <= j < out_edges(edges, a).len() && #[trigger] out_edges(edges, a)[j] == (
                edges[k].1,
                edges[k].2,
            ),
    decreases edges.len(),
{
    let rest = out_edges(edges.drop_last(), a);
    let e = edges.last();
    let out = out_edges(edges, a);
    if k == edges.len() - 1 {
        assert(out[0] == (e.1, e.2));
    } else {
        assert(edges.drop_last()[k] == edges[k]);
        lemma_out_edges_complete(edges.drop_last(), a, k);
        let j2 = choose|j: int| 0 <= j < rest.len() && #[trigger] rest[j] == (edges[k].1, edges[k].2);
        if e.0 == a {
            assert(out[j2 + 1] == rest[j2]);
        } else {
            assert(out[j2] == rest[j2]);
        }
    }
}

} // verus!
