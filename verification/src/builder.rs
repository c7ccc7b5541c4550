//! From a list of edges to an adjacency map.

use crate::adjacency::{with_neighbor, AdjacencyMap};
use crate::walk::{has_edge, Adjacency, Label};
use vstd::prelude::*;

verus! {

/// `label` is one of the two ends of `edge`.
pub open spec fn mentions(edge: (Label, Label), label: Label) -> bool {
    edge.0 == label || edge.1 == label
}

/// `edge` joins `a` and `b`, in either direction.
pub open spec fn joins(edge: (Label, Label), a: Label, b: Label) -> bool {
    edge == (a, b) || edge == (b, a)
}

/// The undirected graph that a list of edges stands for: the labels that
/// some edge mentions, each with the labels that some edge joins it to.
/// Neither the order of the edges nor a repeated edge makes a difference.
pub open spec fn adjacency_of(edges: Seq<(Label, Label)>) -> Adjacency {
    Map::new(
        |label: Label| exists|i: int| 0 <= i < edges.len() && #[trigger] mentions(edges[i], label),
        |label: Label|
            Set::new(
                |other: Label|
                    exists|i: int| 0 <= i < edges.len() && #[trigger] joins(edges[i], label, other),
            ),
    )
}

/// One more edge adds each of its ends to the neighbours of the other.
pub proof fn lemma_adjacency_of_push(edges: Seq<(Label, Label)>, edge: (Label, Label))
    ensures
        adjacency_of(edges.push(edge)) == with_neighbor(
            with_neighbor(adjacency_of(edges), edge.0, edge.1),
            edge.1,
            edge.0,
        ),
{
    let more = edges.push(edge);
    let last = edges.len() as int;
    let base = adjacency_of(edges);
    let got = adjacency_of(more);
    let want = with_neighbor(with_neighbor(base, edge.0, edge.1), edge.1, edge.0);
    assert forall|label: Label| got.contains_key(label) <==> want.contains_key(label) by {
        if base.contains_key(label) {
            let i = choose|i: int| 0 <= i < edges.len() && #[trigger] mentions(edges[i], label);
            assert(mentions(more[i], label));
        }
        if label == edge.0 || label == edge.1 {
            assert(mentions(more[last], label));
        }
    }
    assert forall|label: Label| got.contains_key(label) implies #[trigger] got[label]
        =~= want[label] by {
        assert forall|other: Label| got[label].contains(other) <==> want[label].contains(other) by {
            if got[label].contains(other) {
                let i = choose|i: int| 0 <= i < more.len() && #[trigger] joins(more[i], label, other);
                if i < last {
                    assert(mentions(edges[i], label));
                }
            }
            if base.contains_key(label) && base[label].contains(other) {
                let i = choose|i: int|
                    0 <= i < edges.len() && #[trigger] joins(edges[i], label, other);
                assert(joins(more[i], label, other));
            }
            if (label == edge.0 && other == edge.1) || (label == edge.1 && other == edge.0) {
                assert(joins(more[last], label, other));
            }
        }
    }
}

/// Builds the undirected graph of `edges`: for each edge, either end becomes
/// a neighbour of the other. A label that no edge mentions stays unknown.
pub fn build_graph(edges: Vec<(String, String)>) -> (graph: AdjacencyMap)
    ensures
        graph@ == adjacency_of(edges.deep_view()),
        forall|i: int|
            0 <= i < edges.len() ==> #[trigger] has_edge(
                graph@,
                edges.deep_view()[i].0,
                edges.deep_view()[i].1,
            ) && has_edge(graph@, edges.deep_view()[i].1, edges.deep_view()[i].0),
        forall|a: Label, b: Label| has_edge(graph@, a, b) <==> has_edge(graph@, b, a),
        forall|label: Label|
            graph@.contains_key(label) <==> exists|i: int|
                0 <= i < edges.len() && #[trigger] mentions(edges.deep_view()[i], label),
{
    let ghost all = edges.deep_view();
    let mut graph = AdjacencyMap::new();
    let mut i: usize = 0;
    while i < edges.len()
        invariant
            i <= edges.len(),
            all == edges.deep_view(),
            graph@ == adjacency_of(all.take(i as int)),
        decreases edges.len() - i,
    {
        let first: String = edges[i].0.clone();
        let second: String = edges[i].1.clone();
        proof {
            assert(all.take(i + 1) == all.take(i as int).push(all[i as int]));
            lemma_adjacency_of_push(all.take(i as int), all[i as int]);
        }
        graph.add_neighbor(first.clone(), second.clone());
        graph.add_neighbor(second, first);
        i += 1;
    }
    proof {
        assert(all.take(i as int) == all);
        assert forall|k: int| 0 <= k < all.len() implies #[trigger] has_edge(
            graph@,
            all[k].0,
            all[k].1,
        ) && has_edge(graph@, all[k].1, all[k].0) by {
            lemma_edge_ends_are_neighbors(all, k);
        }
        assert forall|a: Label, b: Label| has_edge(graph@, a, b) <==> has_edge(graph@, b, a) by {
            lemma_neighbors_are_mutual(all, a, b);
        }
    }
    graph
}

/// In the graph of a list of edges, the two ends of each edge are neighbours
/// of each other.
pub proof fn lemma_edge_ends_are_neighbors(edges: Seq<(Label, Label)>, i: int)
    requires
        0 <= i < edges.len(),
    ensures
        has_edge(adjacency_of(edges), edges[i].0, edges[i].1),
        has_edge(adjacency_of(edges), edges[i].1, edges[i].0),
{
    let edge = edges[i];
    assert(mentions(edges[i], edge.0) && mentions(edges[i], edge.1));
    assert(joins(edges[i], edge.0, edge.1) && joins(edges[i], edge.1, edge.0));
}

/// In the graph of a list of edges, whoever has a neighbour is a neighbour
/// of that neighbour.
pub proof fn lemma_neighbors_are_mutual(edges: Seq<(Label, Label)>, a: Label, b: Label)
    ensures
        has_edge(adjacency_of(edges), a, b) <==> has_edge(adjacency_of(edges), b, a),
{
    if has_edge(adjacency_of(edges), a, b) {
        let i = choose|i: int| 0 <= i < edges.len() && #[trigger] joins(edges[i], a, b);
        assert(mentions(edges[i], b));
        assert(joins(edges[i], b, a));
    }
    if has_edge(adjacency_of(edges), b, a) {
        let i = choose|i: int| 0 <= i < edges.len() && #[trigger] joins(edges[i], b, a);
        assert(mentions(edges[i], a));
        assert(joins(edges[i], a, b));
    }
}

/// Two lists that hold the same edges stand for the same graph, in whatever
/// order and however often each edge is written.
pub proof fn lemma_edge_order_is_irrelevant(a: Seq<(Label, Label)>, b: Seq<(Label, Label)>)
    requires
        a.to_set() == b.to_set(),
    ensures
        adjacency_of(a) == adjacency_of(b),
{
    lemma_adjacency_covers(a, b);
    lemma_adjacency_covers(b, a);
    assert forall|label: Label| adjacency_of(a).contains_key(label) implies #[trigger] adjacency_of(
        a,
    )[label] =~= adjacency_of(b)[label] by {}
}

/// Where each edge of `a` is also one of `b`, the graph of `b` knows what
/// the graph of `a` knows.
proof fn lemma_adjacency_covers(a: Seq<(Label, Label)>, b: Seq<(Label, Label)>)
    requires
        a.to_set().subset_of(b.to_set()),
    ensures
        forall|label: Label| #[trigger]
            adjacency_of(a).contains_key(label) ==> adjacency_of(b).contains_key(label),
        forall|label: Label, other: Label|
            adjacency_of(a).contains_key(label) && #[trigger] adjacency_of(a)[label].contains(other)
                ==> adjacency_of(b)[label].contains(other),
{
    assert forall|label: Label| #[trigger]
        adjacency_of(a).contains_key(label) implies adjacency_of(b).contains_key(label) by {
        let i = choose|i: int| 0 <= i < a.len() && #[trigger] mentions(a[i], label);
        assert(a.to_set().contains(a[i]));
    }
    assert forall|label: Label, other: Label|
        adjacency_of(a).contains_key(label) && #[trigger] adjacency_of(a)[label].contains(
            other,
        ) implies adjacency_of(b)[label].contains(other) by {
        let i = choose|i: int| 0 <= i < a.len() && #[trigger] joins(a[i], label, other);
        assert(a.to_set().contains(a[i]));
    }
}

} // verus!
