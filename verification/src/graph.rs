//! The parent-to-child graph of block ids, kept in a `petgraph` graph map,
//! and the few operations on it that the block graph needs.
//!
//! Verus does not look inside the graph map. What the operations below do to
//! it is stated over two names, the set of its nodes and the set of its edges,
//! and is taken on trust from the source of `petgraph` and `itertools`.

use std::hash::RandomState;
use vstd::prelude::*;

verus! {

/// `petgraph::graphmap::GraphMap`, carried as an opaque value.
#[verifier::external_type_specification]
#[verifier::external_body]
#[verifier::reject_recursive_types(N)]
#[verifier::reject_recursive_types(E)]
#[verifier::reject_recursive_types(Ty)]
#[verifier::reject_recursive_types(S)]
pub struct ExGraphMap<N, E, Ty, S: std::hash::BuildHasher>(
    petgraph::graphmap::GraphMap<N, E, Ty, S>,
);

/// `petgraph::Directed`, the marker of graphs with directed edges.
#[verifier::external_type_specification]
#[verifier::external_body]
pub struct ExDirected(petgraph::Directed);

/// `itertools::ExactlyOneError`, the error of `at_most_one`, carried as an
/// opaque value.
#[verifier::external_type_specification]
#[verifier::external_body]
#[verifier::reject_recursive_types(I)]
pub struct ExExactlyOneError<I: Iterator>(itertools::ExactlyOneError<I>);

/// A directed graph whose nodes are block ids.
pub type IdGraph = petgraph::graphmap::GraphMap<u64, (), petgraph::Directed, RandomState>;

/// The nodes of a graph.
pub uninterp spec fn graph_nodes(graph: IdGraph) -> Set<u64>;

/// The edges of a graph, each as the pair of its source and its target.
pub uninterp spec fn graph_edges(graph: IdGraph) -> Set<(u64, u64)>;

/// The nodes that `edges` lead to from `node`.
pub open spec fn successors(edges: Set<(u64, u64)>, node: u64) -> Set<u64> {
    Set::new(|to: u64| edges.contains((node, to)))
}

/// `path` leads from `from` to `to` along `edges` and visits no node twice.
pub open spec fn is_simple_path(edges: Set<(u64, u64)>, from: u64, to: u64, path: Seq<u64>) -> bool {
    &&& path.len() >= 2
    &&& path.first() == from
    &&& path.last() == to
    &&& path.no_duplicates()
    &&& forall|i: int| 0 <= i < path.len() - 1 ==> edges.contains((#[trigger] path[i], path[i + 1]))
}

/// `GraphMap::new`: a graph without nodes or edges.
#[verifier::external_body]
pub(crate) fn new_graph() -> (graph: IdGraph)
    ensures
        graph_nodes(graph) == Set::<u64>::empty(),
        graph_edges(graph) == Set::<(u64, u64)>::empty(),
{
    petgraph::graphmap::GraphMap::new()
}

/// `GraphMap::add_node`: the node joins the graph if it is not yet part of
/// it; the edges stay as they are.
#[verifier::external_body]
pub(crate) fn add_node(graph: &mut IdGraph, node: u64)
    ensures
        graph_nodes(*final(graph)) == graph_nodes(*old(graph)).insert(node),
        graph_edges(*final(graph)) == graph_edges(*old(graph)),
{
    graph.add_node(node);
}

/// `GraphMap::add_edge`: the edge joins the graph, and so do its two ends
/// where they are not yet part of it.
#[verifier::external_body]
pub(crate) fn add_edge(graph: &mut IdGraph, from: u64, to: u64)
    ensures
        graph_nodes(*final(graph)) == graph_nodes(*old(graph)).insert(from).insert(to),
        graph_edges(*final(graph)) == graph_edges(*old(graph)).insert((from, to)),
{
    graph.add_edge(from, to, ());
}

/// `GraphMap::neighbors`, counted: the number of nodes that an edge leads to
/// from `node`. A node that is not in the graph has none.
#[verifier::external_body]
pub(crate) fn count_neighbors(graph: &IdGraph, node: u64) -> (count: usize)
    ensures
        count == successors(graph_edges(*graph), node).len(),
{
    graph.neighbors(node).count()
}

/// `petgraph::algo::all_simple_paths` without a bound on the length: every
/// simple path from `from` to `to`, each once.
///
/// The two ends must differ, and the graph must not be empty: the search
/// computes the number of nodes less one.
#[verifier::external_body]
pub(crate) fn all_simple_paths(graph: &IdGraph, from: u64, to: u64) -> (paths: Vec<Vec<u64>>)
    requires
        graph_nodes(*graph).contains(from),
        from != to,
    ensures
        forall|i: int|
            0 <= i < paths.len() ==> is_simple_path(
                graph_edges(*graph),
                from,
                to,
                (#[trigger] paths[i])@,
            ),
        forall|path: Seq<u64>| #[trigger]
            is_simple_path(graph_edges(*graph), from, to, path) ==> exists|i: int|
                0 <= i < paths.len() && (#[trigger] paths[i])@ == path,
        forall|i: int, j: int|
            0 <= i < j < paths.len() ==> (#[trigger] paths[i])@ != (#[trigger] paths[j])@,
{
    petgraph::algo::all_simple_paths::<Vec<u64>, _>(graph, from, to, 0, None).collect()
}

/// `Itertools::sorted`: the same numbers in ascending order.
#[verifier::external_body]
pub(crate) fn sorted(ids: Vec<u64>) -> (ascending: Vec<u64>)
    ensures
        ascending@.to_multiset() == ids@.to_multiset(),
        forall|i: int, j: int| 0 <= i < j < ascending.len() ==> ascending[i] <= ascending[j],
{
    itertools::Itertools::sorted(ids.into_iter()).collect()
}


/// `Itertools::at_most_one`: nothing where there is no path, the path where
/// there is one, and an error where there are more.
#[verifier::external_body]
pub(crate) fn at_most_one(paths: Vec<Vec<u64>>) -> (only: Result<
    Option<Vec<u64>>,
    itertools::ExactlyOneError<std::vec::IntoIter<Vec<u64>>>,
>)
    ensures
        match only {
            Ok(None) => paths.len() == 0,
            Ok(Some(path)) => paths.len() == 1 && path@ == paths[0]@,
            Err(_) => paths.len() >= 2,
        },
{
    itertools::Itertools::at_most_one(paths.into_iter())
}

} // verus!
