//! The edge store: a directed `petgraph` graph whose edges carry a dirty flag.
//! Node payloads live beside it; the graph only records structure.

use petgraph::graph::{EdgeIndex, Graph, NodeIndex};
use petgraph::visit::EdgeRef;
use petgraph::{Directed, Direction};
use vstd::prelude::*;

verus! {

#[verifier::external_type_specification]
#[verifier::external_body]
#[verifier::reject_recursive_types(N)]
#[verifier::reject_recursive_types(E)]
#[verifier::reject_recursive_types(Ty)]
#[verifier::reject_recursive_types(Ix)]
pub struct ExGraph<N, E, Ty, Ix>(Graph<N, E, Ty, Ix>);

#[verifier::external_type_specification]
#[verifier::external_body]
pub struct ExDirected(Directed);

/// The edges of a graph, by edge index: (source, target, dirty).
pub uninterp spec fn arc_list(g: Graph<(), bool>) -> Seq<(usize, usize, bool)>;

/// The number of nodes of a graph.
pub uninterp spec fn node_total(g: Graph<(), bool>) -> nat;

/// Relies on `Graph::new`: an empty directed graph.
#[verifier::external_body]
pub(crate) fn empty_graph() -> (g: Graph<(), bool>)
    ensures
        arc_list(g) == Seq::<(usize, usize, bool)>::empty(),
        node_total(g) == 0,
{
    Graph::new()
}

/// The largest node or edge count that the graph's 32-bit indices admit.
pub const INDEX_LIMIT: usize = 0xFFFF_FFFF;

/// Relies on `Graph::add_node`: the new node takes the next index; edges stay.
/// It panics once the count reaches the index limit, which `requires` excludes.
#[verifier::external_body]
pub(crate) fn add_vertex(g: &mut Graph<(), bool>) -> (r: usize)
    requires
        node_total(*old(g)) < INDEX_LIMIT,
    ensures
        r == node_total(*old(g)),
        node_total(*final(g)) == node_total(*old(g)) + 1,
        arc_list(*final(g)) == arc_list(*old(g)),
{
    g.add_node(()).index()
}

/// Relies on `Graph::add_edge`: the new edge is appended with the next index.
/// It panics on a missing endpoint or at the index limit, which `requires` excludes.
#[verifier::external_body]
pub(crate) fn add_arc(g: &mut Graph<(), bool>, a: usize, b: usize, dirty: bool) -> (r: usize)
    requires
        a < node_total(*old(g)),
        b < node_total(*old(g)),
        node_total(*old(g)) <= INDEX_LIMIT,
        arc_list(*old(g)).len() < INDEX_LIMIT,
    ensures
        r == arc_list(*old(g)).len(),
        arc_list(*final(g)) == arc_list(*old(g)).push((a, b, dirty)),
        node_total(*final(g)) == node_total(*old(g)),
{
    g.add_edge(NodeIndex::new(a), NodeIndex::new(b), dirty).index()
}

/// Relies on `Graph::edge_weight_mut`: replaces the dirty flag of edge `e`.
#[verifier::external_body]
pub(crate) fn set_arc_dirty(g: &mut Graph<(), bool>, e: usize, dirty: bool)
    requires
        e < arc_list(*old(g)).len(),
        arc_list(*old(g)).len() <= INDEX_LIMIT,
    ensures
        arc_list(*final(g)) == arc_list(*old(g)).update(
            e as int,
            (arc_list(*old(g))[e as int].0, arc_list(*old(g))[e as int].1, dirty),
        ),
        node_total(*final(g)) == node_total(*old(g)),
{
    *g.edge_weight_mut(EdgeIndex::new(e)).unwrap() = dirty;
}

/// Relies on `Graph::edges_directed`: lists the edges into `n` (`incoming`) or
/// out of `n`, each as (edge index, source, target, dirty).
#[verifier::external_body]
pub(crate) fn arcs_at(g: &Graph<(), bool>, n: usize, incoming: bool) -> (r: Vec<(usize, usize, usize, bool)>)
    requires
        n < node_total(*g),
        node_total(*g) <= INDEX_LIMIT,
    ensures
        forall|k: int|
            0 <= k < r@.len() ==> {
                let (e, a, b, d) = #[trigger] r@[k];
                &&& e < arc_list(*g).len()
                &&& arc_list(*g)[e as int] == (a, b, d)
                &&& if incoming { b == n } else { a == n }
            },
        forall|e: int|
            0 <= e < arc_list(*g).len() && (if incoming { #[trigger] arc_list(*g)[e].1 == n } else { arc_list(*g)[e].0 == n })
                ==> exists|k: int| 0 <= k < r@.len() && r@[k].0 == e,
{
    let dir = if incoming { Direction::Incoming } else { Direction::Outgoing };
    g.edges_directed(NodeIndex::new(n), dir)
        .map(|a| (a.id().index(), a.source().index(), a.target().index(), *a.weight()))
        .collect()
}

/// Relies on `Graph::edge_weights`: the dirty flags of all edges, by edge index.
#[verifier::external_body]
pub(crate) fn arc_flags(g: &Graph<(), bool>) -> (r: Vec<bool>)
    ensures
        r@.len() == arc_list(*g).len(),
        forall|e: int| 0 <= e < r@.len() ==> r@[e] == arc_list(*g)[e].2,
{
    g.edge_weights().copied().collect()
}

} // verus!
