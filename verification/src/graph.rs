//! What a path search asks of a graph.

use crate::node_set::NodeSet;
use crate::walk::{Adjacency, Label};
use vstd::prelude::*;

verus! {

/// The graph has finitely many known labels, and each has finitely many
/// neighbours.
pub open spec fn is_finite(adj: Adjacency) -> bool {
    &&& adj.dom().finite()
    &&& forall|label: Label| #[trigger] adj.contains_key(label) ==> adj[label].finite()
}

/// A graph that a path can be searched in. Any store can stand behind it, as
/// long as it answers the two questions in line with one fixed, finite
/// adjacency. What a search proves of its result holds of that adjacency: an
/// implementation that is not itself verified gives these promises unproved.
pub trait PathableGraph {
    /// The graph that the answers are read from.
    spec fn adjacency(&self) -> Adjacency;

    /// The adjacency is finite.
    proof fn adjacency_is_finite(&self)
        ensures
            is_finite(self.adjacency()),
    ;

    /// The neighbours of `node`, or `None` where the graph does not know
    /// `node`. A known node without neighbours gives an empty set, never
    /// `None`.
    fn get_neighbors(&self, node: String) -> (neighbors: Option<&NodeSet>)
        ensures
            match neighbors {
                Some(set) => self.adjacency().contains_key(node@) && set@ == self.adjacency()[node@],
                None => !self.adjacency().contains_key(node@),
            },
    ;

    /// Whether the graph knows `node`.
    fn contains_node(&self, node: String) -> (known: bool)
        ensures
            known == self.adjacency().contains_key(node@),
    ;
}

/// A borrowed graph is the graph it borrows, so one graph can serve many
/// searches.
impl<G: PathableGraph> PathableGraph for &G {
    open spec fn adjacency(&self) -> Adjacency {
        (**self).adjacency()
    }

    proof fn adjacency_is_finite(&self) {
        (**self).adjacency_is_finite();
    }

    fn get_neighbors(&self, node: String) -> (neighbors: Option<&NodeSet>) {
        (**self).get_neighbors(node)
    }

    fn contains_node(&self, node: String) -> (known: bool) {
        (**self).contains_node(node)
    }
}

} // verus!
