//! Directed graphs. They are kept and searched by `petgraph`; this module
//! states what the library relies on from it, and what it means for one node
//! to be reachable from another.

use petgraph::graph::DiGraph;
use petgraph::graph::NodeIndex;
use vstd::prelude::*;

verus! {

/// `petgraph::graph::Graph`, used as it is: nothing inside it is visible
/// here.
#[verifier::external_type_specification]
#[verifier::external_body]
#[verifier::reject_recursive_types(N)]
#[verifier::reject_recursive_types(E)]
#[verifier::reject_recursive_types(Ty)]
#[verifier::reject_recursive_types(Ix)]
pub struct ExGraph<N, E, Ty, Ix>(petgraph::graph::Graph<N, E, Ty, Ix>);

/// `petgraph::Directed`, the marker of graphs whose edges have a direction.
#[verifier::external_type_specification]
#[verifier::external_body]
pub struct ExDirected(petgraph::Directed);

/// How many nodes a graph holds. They are numbered from zero in the order in
/// which they were added.
pub uninterp spec fn graph_nodes(g: DiGraph<(), ()>) -> nat;

/// The edges of a graph in the order in which they were added, each as the
/// number of the node it leaves and the number of the node it enters.
pub uninterp spec fn graph_edges(g: DiGraph<(), ()>) -> Seq<(nat, nat)>;

/// Whether `walk` takes an edge from its place `i` to the next.
pub open spec fn takes_edge(edges: Seq<(nat, nat)>, walk: Seq<nat>, i: int) -> bool {
    edges.contains((walk[i], walk[i + 1]))
}

/// A walk: one node or more, each joined to the next by an edge.
pub open spec fn is_walk(edges: Seq<(nat, nat)>, walk: Seq<nat>) -> bool {
    walk.len() > 0 && forall|i: int| 0 <= i < walk.len() - 1 ==> #[trigger] takes_edge(edges, walk, i)
}

/// Whether a walk leads from `from` to `to`. Every node reaches itself.
pub open spec fn reachable(edges: Seq<(nat, nat)>, from: nat, to: nat) -> bool {
    exists|walk: Seq<nat>| #[trigger] is_walk(edges, walk) && walk.first() == from && walk.last() == to
}

/// Calls `Graph::new`: a directed graph without nodes or edges.
#[verifier::external_body]
pub(crate) fn graph_new() -> (g: DiGraph<(), ()>)
    ensures
        graph_nodes(g) == 0,
        graph_edges(g) == Seq::<(nat, nat)>::empty(),
{
    DiGraph::<(), ()>::new()
}

/// Calls `Graph::add_node` and returns the number of the new node, which is
/// the number of nodes that the graph held. The crate panics when the
/// number of nodes would reach the largest index.
#[verifier::external_body]
pub(crate) fn graph_add_node(g: &mut DiGraph<(), ()>) -> (index: usize)
    requires
        graph_nodes(*old(g)) < u32::MAX,
    ensures
        index == graph_nodes(*old(g)),
        graph_nodes(*final(g)) == graph_nodes(*old(g)) + 1,
        graph_edges(*final(g)) == graph_edges(*old(g)),
{
    g.add_node(()).index()
}

/// Calls `Graph::add_edge`, which adds an edge from `from` to `to` behind
/// the others. The crate panics when a node is not in the graph or the
/// number of edges would reach the largest index.
#[verifier::external_body]
pub(crate) fn graph_add_edge(g: &mut DiGraph<(), ()>, from: usize, to: usize)
    requires
        from < graph_nodes(*old(g)),
        to < graph_nodes(*old(g)),
        graph_edges(*old(g)).len() < u32::MAX,
    ensures
        graph_nodes(*final(g)) == graph_nodes(*old(g)),
        graph_edges(*final(g)) == graph_edges(*old(g)).push((from as nat, to as nat)),
{
    g.add_edge(NodeIndex::new(from), NodeIndex::new(to), ());
}

/// Calls `petgraph::algo::has_path_connecting`, which says whether a path
/// along the edges starts at `from` and reaches `to`, and says yes where
/// the two are the same node.
#[verifier::external_body]
pub(crate) fn graph_has_path(g: &DiGraph<(), ()>, from: usize, to: usize) -> (found: bool)
    requires
        from < graph_nodes(*g),
        to < graph_nodes(*g),
    ensures
        found == reachable(graph_edges(*g), from as nat, to as nat),
{
    petgraph::algo::has_path_connecting(g, NodeIndex::new(from), NodeIndex::new(to), None)
}

/// How many of the nodes below `upto`, the node `target` itself left out,
/// reach `target`.
pub open spec fn reaching(edges: Seq<(nat, nat)>, target: nat, upto: nat) -> nat
    decreases upto,
{
    if upto == 0 {
        0
    } else {
        let node = (upto - 1) as nat;
        reaching(edges, target, node) + if node != target && reachable(edges, node, target) {
            1nat
        } else {
            0nat
        }
    }
}

/// Fewer nodes reach a node than there are nodes: the node itself does not
/// count.
pub proof fn lemma_reaching_bound(edges: Seq<(nat, nat)>, target: nat, upto: nat)
    ensures
        reaching(edges, target, upto) <= upto,
        target < upto ==> reaching(edges, target, upto) < upto,
    decreases upto,
{
    if upto > 0 {
        lemma_reaching_bound(edges, target, (upto - 1) as nat);
    }
}

/// A node that no other node reaches is reached by none.
pub proof fn lemma_reaching_none(edges: Seq<(nat, nat)>, target: nat, upto: nat)
    requires
        forall|node: nat|
            node < upto && node != target ==> !#[trigger] reachable(edges, node, target),
    ensures
        reaching(edges, target, upto) == 0,
    decreases upto,
{
    if upto > 0 {
        lemma_reaching_none(edges, target, (upto - 1) as nat);
    }
}

/// A walk ends where its last edge enters, so a node that no edge enters is
/// reached from itself alone.
pub proof fn lemma_unentered_is_unreached(edges: Seq<(nat, nat)>, from: nat, to: nat)
    requires
        from != to,
        forall|i: int| 0 <= i < edges.len() ==> (#[trigger] edges[i]).1 != to,
    ensures
        !reachable(edges, from, to),
{
    if reachable(edges, from, to) {
        let walk = choose|walk: Seq<nat>| #[trigger]
            is_walk(edges, walk) && walk.first() == from && walk.last() == to;
        assert(walk.len() > 1);
        assert(takes_edge(edges, walk, walk.len() - 2));
        let pair = (walk[walk.len() - 2], walk[walk.len() - 1]);
        let i = choose|i: int| 0 <= i < edges.len() && edges[i] == pair;
        assert(edges[i].1 == to);
    }
}

/// The number of nodes that reach the node `target` of a graph of `total`
/// nodes.
pub(crate) fn count_reaching(g: &DiGraph<(), ()>, target: usize, total: usize) -> (count: usize)
    requires
        target < total,
        total == graph_nodes(*g),
    ensures
        count == reaching(graph_edges(*g), target as nat, total as nat),
        count < total,
{
    let mut count: usize = 0;
    let mut node: usize = 0;
    while node < total
        invariant
            node <= total,
            total == graph_nodes(*g),
            target < total,
            count == reaching(graph_edges(*g), target as nat, node as nat),
            count <= node,
        decreases total - node,
    {
        if node != target && graph_has_path(g, node, target) {
            count = count + 1;
        }
        node = node + 1;
    }
    proof {
        lemma_reaching_bound(graph_edges(*g), target as nat, total as nat);
    }
    count
}

} // verus!
