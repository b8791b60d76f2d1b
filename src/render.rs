use vstd::prelude::*;

use petgraph::dot::{Config, Dot};
use petgraph::graph::{Graph, NodeIndex};
use petgraph::Directed;

verus! {

#[verifier::external_type_specification]
#[verifier::external_body]
#[verifier::reject_recursive_types(N)]
#[verifier::reject_recursive_types(E)]
#[verifier::reject_recursive_types(Ty)]
#[verifier::reject_recursive_types(Ix)]
pub struct ExGraph<N, E, Ty, Ix>(Graph<N, E, Ty, Ix>);

#[verifier::external_type_specification]
#[verifier::external_body]
pub struct ExDirected(Directed);

/// The node weights of a petgraph graph, by node index.
pub uninterp spec fn dot_weights(g: Graph<String, String, Directed, usize>) -> Seq<Seq<char>>;

/// The edges of a petgraph graph, as `(source, target)` node indices, by
/// edge index.
pub uninterp spec fn dot_links(g: Graph<String, String, Directed, usize>) -> Seq<(usize, usize)>;

/// The DOT text that petgraph writes for a directed graph with these node
/// weights and these edges, edge labels left out.
pub uninterp spec fn dot_text(weights: Seq<Seq<char>>, links: Seq<(usize, usize)>) -> Seq<char>;

/// Relies on petgraph's `Graph::with_capacity`: a directed graph with no node and no
/// edge.
#[verifier::external_body]
fn empty_graph() -> (g: Graph<String, String, Directed, usize>)
    ensures
        dot_weights(g) == Seq::<Seq<char>>::empty(),
        dot_links(g) == Seq::<(usize, usize)>::empty(),
{
    Graph::<String, String, Directed, usize>::with_capacity(0, 0)
}

/// Relies on petgraph's `Graph::add_node`: the node is appended with the
/// next index, edges stay; with `usize` indices it never panics.
#[verifier::external_body]
fn add_vertex(g: &mut Graph<String, String, Directed, usize>, weight: String) -> (r: usize)
    ensures
        dot_weights(*final(g)) == dot_weights(*old(g)).push(weight@),
        dot_links(*final(g)) == dot_links(*old(g)),
        r == dot_weights(*old(g)).len(),
{
    g.add_node(weight).index()
}

/// Relies on petgraph's `Graph::add_edge`: the edge is appended, nodes stay;
/// it panics when an endpoint is not a node, which `requires` rules out.
#[verifier::external_body]
fn add_link(g: &mut Graph<String, String, Directed, usize>, from: usize, to: usize)
    requires
        from < dot_weights(*old(g)).len(),
        to < dot_weights(*old(g)).len(),
    ensures
        dot_weights(*final(g)) == dot_weights(*old(g)),
        dot_links(*final(g)) == dot_links(*old(g)).push((from, to)),
{
    g.add_edge(NodeIndex::new(from), NodeIndex::new(to), String::new());
}

/// Relies on petgraph's `Dot::with_config` with `Config::EdgeNoLabel`,
/// written through `Debug`: the text depends on the weights and edges alone.
#[verifier::external_body]
fn dot_of(g: &Graph<String, String, Directed, usize>) -> (s: String)
    ensures
        s@ == dot_text(dot_weights(*g), dot_links(*g)),
{
    format!("{:?}", Dot::with_config(g, &[Config::EdgeNoLabel]))
}

/// One more than the largest endpoint of `edges`; zero without edges.
pub open spec fn vertex_count(edges: Seq<(usize, usize)>) -> nat
    decreases edges.len(),
{
    if edges.len() == 0 {
        0
    } else {
        let e = edges.last();
        let m = if e.0 >= e.1 {
            e.0 as nat + 1
        } else {
            e.1 as nat + 1
        };
        let rest = vertex_count(edges.drop_last());
        if rest >= m {
            rest
        } else {
            m
        }
    }
}

/// The display text of the last entry for node `i`; empty when there is none.
pub open spec fn weight_at(entries: Seq<(usize, String)>, i: int) -> Seq<char>
    decreases entries.len(),
{
    if entries.len() == 0 {
        Seq::empty()
    } else if entries.last().0 as int == i {
        entries.last().1@
    } else {
        weight_at(entries.drop_last(), i)
    }
}

/// The node weights of the rendered graph: one node per index below
/// `vertex_count(edges)`, carrying its display text.
pub open spec fn rendered_weights(entries: Seq<(usize, String)>, edges: Seq<(usize, usize)>) -> Seq<Seq<char>> {
    Seq::new(vertex_count(edges), |i: int| weight_at(entries, i))
}

proof fn lemma_vertex_count(edges: Seq<(usize, usize)>)
    ensures
        forall|j: int|
            0 <= j < edges.len() ==> (#[trigger] edges[j]).0 < vertex_count(edges) && edges[j].1 < vertex_count(
                edges,
            ),
    decreases edges.len(),
{
    if edges.len() > 0 {
        lemma_vertex_count(edges.drop_last());
        assert forall|j: int| 0 <= j < edges.len() implies (#[trigger] edges[j]).0 < vertex_count(edges)
            && edges[j].1 < vertex_count(edges) by {
            if j < edges.len() - 1 {
                assert(edges[j] == edges.drop_last()[j]);
            }
        }
    }
}

/// The number of nodes that the rendered graph gets from `edges`.
pub fn count_vertices(edges: &Vec<(usize, usize)>) -> (r: usize)
    requires
        forall|j: int| 0 <= j < edges@.len() ==> (#[trigger] edges@[j]).0 < usize::MAX && edges@[j].1 < usize::MAX,
    ensures
        r == vertex_count(edges@),
{
    let mut r: usize = 0;
    let mut j: usize = 0;
    while j < edges.len()
        invariant
            0 <= j <= edges.len(),
            forall|j: int| 0 <= j < edges@.len() ==> (#[trigger] edges@[j]).0 < usize::MAX && edges@[j].1 < usize::MAX,
            r == vertex_count(edges@.take(j as int)),
        decreases edges.len() - j,
    {
        assert(edges@.take(j as int + 1).drop_last() =~= edges@.take(j as int));
        let (a, b) = edges[j];
        let m = if a >= b {
            a + 1
        } else {
            b + 1
        };
        if m > r {
            r = m;
        }
        j += 1;
    }
    assert(edges@.take(edges.len() as int) =~= edges@);
    r
}

/// Renders collected nodes and edges as DOT text. Each node is a pair of its
/// id and its display text; the graph has one node per id below one more
/// than the largest edge endpoint, those without an entry left blank, and
/// the edges in the order given.
pub fn render_dot(entries: &Vec<(usize, String)>, edges: &Vec<(usize, usize)>) -> (s: String)
    requires
        forall|j: int| 0 <= j < edges@.len() ==> (#[trigger] edges@[j]).0 < usize::MAX && edges@[j].1 < usize::MAX,
    ensures
        s@ == dot_text(rendered_weights(entries@, edges@), edges@),
{
    let count = count_vertices(edges);
    let mut weights: Vec<String> = Vec::new();
    let mut i: usize = 0;
    while i < count
        invariant
            0 <= i <= count,
            weights@.len() == i,
            forall|k: int| 0 <= k < i ==> (#[trigger] weights@[k])@ == Seq::<char>::empty(),
        decreases count - i,
    {
        weights.push(String::new());
        i += 1;
    }
    let mut j: usize = 0;
    while j < entries.len()
        invariant
            0 <= j <= entries.len(),
            weights@.len() == count,
            forall|k: int| 0 <= k < count ==> (#[trigger] weights@[k])@ == weight_at(entries@.take(j as int), k),
        decreases entries.len() - j,
    {
        assert(entries@.take(j as int + 1).drop_last() =~= entries@.take(j as int));
        let id = entries[j].0;
        if id < count {
            let text = entries[j].1.clone();
            weights.set(id, text);
        }
        j += 1;
    }
    assert(entries@.take(entries.len() as int) =~= entries@);
    let mut g = empty_graph();
    let mut k: usize = 0;
    while k < count
        invariant
            0 <= k <= count,
            weights@.len() == count,
            count == vertex_count(edges@),
            forall|m: int| 0 <= m < count ==> (#[trigger] weights@[m])@ == weight_at(entries@, m),
            dot_weights(g) == rendered_weights(entries@, edges@).take(k as int),
            dot_links(g) == Seq::<(usize, usize)>::empty(),
        decreases count - k,
    {
        let w = weights[k].clone();
        add_vertex(&mut g, w);
        assert(rendered_weights(entries@, edges@).take(k as int + 1) =~= rendered_weights(entries@, edges@).take(
            k as int,
        ).push(weight_at(entries@, k as int)));
        k += 1;
    }
    assert(rendered_weights(entries@, edges@).take(count as int) =~= rendered_weights(entries@, edges@));
    proof {
        lemma_vertex_count(edges@);
    }
    let mut e: usize = 0;
    while e < edges.len()
        invariant
            0 <= e <= edges.len(),
            count == vertex_count(edges@),
            forall|j: int| 0 <= j < edges@.len() ==> (#[trigger] edges@[j]).0 < count && edges@[j].1 < count,
            dot_weights(g) == rendered_weights(entries@, edges@),
            dot_links(g) == edges@.take(e as int),
        decreases edges.len() - e,
    {
        let (a, b) = edges[e];
        add_link(&mut g, a, b);
        assert(edges@.take(e as int + 1) =~= edges@.take(e as int).push((a, b)));
        e += 1;
    }
    assert(edges@.take(edges.len() as int) =~= edges@);
    dot_of(&g)
}

} // verus!
