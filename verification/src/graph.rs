//! The application dependency graph: a directed graph over application
//! atoms (as their indices), held in a `petgraph` graph and used only for
//! reachability queries.

use vstd::prelude::*;

verus! {

#[verifier::external_type_specification]
#[verifier::external_body]
#[verifier::reject_recursive_types(N)]
#[verifier::reject_recursive_types(E)]
#[verifier::reject_recursive_types(Ty)]
#[verifier::reject_recursive_types(S)]
pub struct ExGraphMap<N, E, Ty, S>(petgraph::graphmap::GraphMap<N, E, Ty, S>) where S: std::hash::BuildHasher;

#[verifier::external_type_specification]
#[verifier::external_body]
pub struct ExDirected(petgraph::Directed);

/// Directed graph over application atoms; an edge `(a, d)` records that
/// application `a` declares a dependency on application `d`.
pub type AppDeps = petgraph::graphmap::DiGraphMap<usize, ()>;

/// The set of directed edges the graph holds.
pub uninterp spec fn graph_edges(g: AppDeps) -> Set<(usize, usize)>;

/// The set of nodes the graph holds (every edge endpoint, plus nodes added
/// alone).
pub uninterp spec fn graph_nodes(g: AppDeps) -> Set<usize>;

/// `p` is a walk through `edges` from `from` to `to`: nonempty, consecutive
/// elements joined by edges.
pub open spec fn is_path(edges: Set<(usize, usize)>, p: Seq<usize>, from: usize, to: usize) -> bool {
    &&& p.len() >= 1
    &&& p.first() == from
    &&& p.last() == to
    &&& forall|i: int| 0 <= i < p.len() - 1 ==> edges.contains((#[trigger] p[i], p[i + 1]))
}

/// Directed reachability over `edges`, any number of hops; every node
/// reaches itself by the trivial walk.
pub open spec fn reachable(edges: Set<(usize, usize)>, from: usize, to: usize) -> bool {
    exists|p: Seq<usize>| is_path(edges, p, from, to)
}

/// Every node reaches itself, whatever the edges.
pub proof fn lemma_reachable_self(edges: Set<(usize, usize)>, x: usize)
    ensures
        reachable(edges, x, x),
{
    let p = seq![x];
    assert(is_path(edges, p, x, x));
}

/// Relies on petgraph's `GraphMap::new`: a graph with no nodes and no edges.
#[verifier::external_body]
pub(crate) fn graph_new() -> (g: AppDeps)
    ensures
        graph_edges(g) == Set::<(usize, usize)>::empty(),
        graph_nodes(g) == Set::<usize>::empty(),
{
    petgraph::graphmap::DiGraphMap::new()
}

/// Relies on petgraph's `GraphMap::add_node`: inserts the node and keeps the
/// edges.
#[verifier::external_body]
pub(crate) fn graph_add_node(g: &mut AppDeps, n: usize)
    ensures
        graph_nodes(*final(g)) == graph_nodes(*old(g)).insert(n),
        graph_edges(*final(g)) == graph_edges(*old(g)),
{
    g.add_node(n);
}

/// Relies on petgraph's `GraphMap::add_edge` on a directed graph: inserts the
/// edge `a -> b`, inserting its endpoints as nodes.
#[verifier::external_body]
pub(crate) fn graph_add_edge(g: &mut AppDeps, a: usize, b: usize)
    ensures
        graph_edges(*final(g)) == graph_edges(*old(g)).insert((a, b)),
        graph_nodes(*final(g)) == graph_nodes(*old(g)).insert(a).insert(b),
{
    g.add_edge(a, b, ());
}

/// Relies on petgraph's `algo::has_path_connecting`: true iff there is a
/// directed path from `from` to `to` (equal endpoints count as connected).
#[verifier::external_body]
pub(crate) fn graph_has_path(g: &AppDeps, from: usize, to: usize) -> (r: bool)
    ensures
        r == reachable(graph_edges(*g), from, to),
{
    petgraph::algo::has_path_connecting(g, from, to, None)
}

} // verus!
