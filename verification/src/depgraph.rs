use vstd::prelude::*;

verus! {

/// Identifies one parameter in the dependency graph: the raw key of the
/// owning node, then the index of the parameter within that node.
pub type ParamKey = (u64, usize);

/// A dependency edge: the first parameter is read by the second.
pub type Edge = (ParamKey, ParamKey);

/// `petgraph::Directed`, the marker for graphs with directed edges.
#[verifier::external_type_specification]
#[verifier::external_body]
pub struct ExDirected(petgraph::Directed);

/// `petgraph::graphmap::GraphMap`, a graph whose vertices are plain values;
/// what it holds is told by `graph_nodes` and `graph_edges`.
#[verifier::external_type_specification]
#[verifier::external_body]
#[verifier::reject_recursive_types(N)]
#[verifier::reject_recursive_types(E)]
#[verifier::reject_recursive_types(Ty)]
#[verifier::reject_recursive_types(S)]
pub struct ExGraphMap<N, E, Ty, S: std::hash::BuildHasher>(
    petgraph::graphmap::GraphMap<N, E, Ty, S>,
);

/// The directed graph that stores the dependency edges.
pub type Depgraph = petgraph::graphmap::GraphMap<
    (u64, usize),
    (),
    petgraph::Directed,
    std::collections::hash_map::RandomState,
>;

/// The vertices held by the graph.
pub uninterp spec fn graph_nodes(g: Depgraph) -> Set<ParamKey>;

/// The directed edges held by the graph.
pub uninterp spec fn graph_edges(g: Depgraph) -> Set<Edge>;

/// `GraphMap::new`: a graph without vertices or edges.
#[verifier::external_body]
pub(crate) fn graph_new() -> (g: Depgraph)
    ensures
        graph_nodes(g) == Set::<ParamKey>::empty(),
        graph_edges(g) == Set::<Edge>::empty(),
{
    petgraph::graphmap::GraphMap::new()
}

/// `GraphMap::clone`: a graph with the same vertices and edges.
#[verifier::external_body]
pub(crate) fn graph_clone(g: &Depgraph) -> (copy: Depgraph)
    ensures
        graph_nodes(copy) == graph_nodes(*g),
        graph_edges(copy) == graph_edges(*g),
{
    g.clone()
}

/// `GraphMap::add_node`: the vertex joins the graph; edges are untouched.
#[verifier::external_body]
pub(crate) fn graph_add_node(g: &mut Depgraph, n: ParamKey)
    ensures
        graph_nodes(*final(g)) == graph_nodes(*old(g)).insert(n),
        graph_edges(*final(g)) == graph_edges(*old(g)),
{
    g.add_node(n);
}

/// `GraphMap::remove_node`: the vertex leaves the graph together with every
/// edge that starts or ends at it; the result tells whether it was present.
#[verifier::external_body]
pub(crate) fn graph_remove_node(g: &mut Depgraph, n: ParamKey) -> (was_present: bool)
    ensures
        was_present == graph_nodes(*old(g)).contains(n),
        graph_nodes(*final(g)) == graph_nodes(*old(g)).remove(n),
        graph_edges(*final(g)) == graph_edges(*old(g)).filter(|e: Edge| e.0 != n && e.1 != n),
{
    g.remove_node(n)
}

/// `GraphMap::add_edge`: the edge from `a` to `b` joins the graph, and so do
/// its two ends where they were missing.
#[verifier::external_body]
pub(crate) fn graph_add_edge(g: &mut Depgraph, a: ParamKey, b: ParamKey)
    ensures
        graph_nodes(*final(g)) == graph_nodes(*old(g)).insert(a).insert(b),
        graph_edges(*final(g)) == graph_edges(*old(g)).insert((a, b)),
{
    g.add_edge(a, b, ());
}

/// `GraphMap::remove_edge`: the edge from `a` to `b` leaves the graph; the
/// vertices stay.
#[verifier::external_body]
pub(crate) fn graph_remove_edge(g: &mut Depgraph, a: ParamKey, b: ParamKey)
    ensures
        graph_nodes(*final(g)) == graph_nodes(*old(g)),
        graph_edges(*final(g)) == graph_edges(*old(g)).remove((a, b)),
{
    g.remove_edge(a, b);
}

/// `GraphMap::neighbors`: the heads of the edges that start at `a`, each
/// listed once.
#[verifier::external_body]
pub(crate) fn graph_successors(g: &Depgraph, a: ParamKey) -> (succ: Vec<ParamKey>)
    ensures
        succ@.no_duplicates(),
        forall|x: ParamKey| succ@.contains(x) <==> graph_edges(*g).contains((a, x)),
{
    g.neighbors(a).collect()
}

/// `GraphMap::neighbors_directed` with `Incoming`: the tails of the edges
/// that end at `a`, each listed once.
#[verifier::external_body]
pub(crate) fn graph_predecessors(g: &Depgraph, a: ParamKey) -> (pred: Vec<ParamKey>)
    ensures
        pred@.no_duplicates(),
        forall|x: ParamKey| pred@.contains(x) <==> graph_edges(*g).contains((x, a)),
{
    g.neighbors_directed(a, petgraph::Direction::Incoming).collect()
}

} // verus!
