//! The mathematical side of a graph: edges, walks, reachability, distance.

use vstd::prelude::*;

verus! {

/// A node label as contracts see it: the characters of its text.
pub type Label = Seq<char>;

/// A graph as contracts see it: each known label with the set of its
/// neighbours. A label outside the domain is unknown, which is not the same
/// as known with no neighbours.
pub type Adjacency = Map<Label, Set<Label>>;

/// `from` is known and lists `to` among its neighbours.
pub open spec fn has_edge(adj: Adjacency, from: Label, to: Label) -> bool {
    adj.contains_key(from) && adj[from].contains(to)
}

/// A non-empty sequence of labels in which each one lists the next among its
/// neighbours.
pub open spec fn is_walk(adj: Adjacency, nodes: Seq<Label>) -> bool {
    &&& nodes.len() >= 1
    &&& forall|i: int| 0 <= i < nodes.len() - 1 ==> has_edge(adj, #[trigger] nodes[i], nodes[i + 1])
}

/// `nodes` is a walk that starts at `start` and ends at `end`.
pub open spec fn connects(adj: Adjacency, nodes: Seq<Label>, start: Label, end: Label) -> bool {
    &&& is_walk(adj, nodes)
    &&& nodes.first() == start
    &&& nodes.last() == end
}

/// Some walk leads from `start` to `end`.
pub open spec fn reachable(adj: Adjacency, start: Label, end: Label) -> bool {
    exists|nodes: Seq<Label>| connects(adj, nodes, start, end)
}

/// `nodes` leads from `start` to `end`, and no walk between the two has
/// fewer edges.
pub open spec fn is_shortest(adj: Adjacency, nodes: Seq<Label>, start: Label, end: Label) -> bool {
    &&& connects(adj, nodes, start, end)
    &&& forall|other: Seq<Label>| #[trigger]
        connects(adj, other, start, end) ==> nodes.len() <= other.len()
}

/// The number of edges on a shortest walk from `start` to `end`. It says
/// nothing where `end` cannot be reached from `start`.
pub open spec fn distance(adj: Adjacency, start: Label, end: Label) -> nat {
    ((choose|nodes: Seq<Label>| is_shortest(adj, nodes, start, end)).len() - 1) as nat
}

/// Every shortest walk between two labels has as many edges as their
/// distance says.
pub proof fn lemma_shortest_has_distance(
    adj: Adjacency,
    nodes: Seq<Label>,
    start: Label,
    end: Label,
)
    requires
        is_shortest(adj, nodes, start, end),
    ensures
        nodes.len() == distance(adj, start, end) + 1,
{
}

/// A label reaches itself, by the walk that holds nothing else, and that
/// walk is the only shortest one.
pub proof fn lemma_shortest_to_itself(adj: Adjacency, nodes: Seq<Label>, label: Label)
    ensures
        is_shortest(adj, seq![label], label, label),
        is_shortest(adj, nodes, label, label) ==> nodes == seq![label],
{
    assert(connects(adj, seq![label], label, label));
}

} // verus!
