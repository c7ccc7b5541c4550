//! An adjacency map held in memory.

use crate::graph::PathableGraph;
use crate::node_set::NodeSet;
use crate::walk::{Adjacency, Label};
use vstd::prelude::*;

verus! {

/// `adj` with `to` added to the neighbours of `from`, which becomes known if
/// it was not. Nothing changes for `to` itself.
pub open spec fn with_neighbor(adj: Adjacency, from: Label, to: Label) -> Adjacency {
    adj.insert(
        from,
        if adj.contains_key(from) {
            adj[from].insert(to)
        } else {
            set![to]
        },
    )
}

/// A map from each known label to the set of its neighbours. A label that
/// was never entered has no entry at all.
#[derive(Debug)]
pub struct AdjacencyMap {
    /// The known labels, in the order in which they were first entered.
    nodes: NodeSet,
    /// `neighbors[i]` belongs to the label at position `i` of `nodes`.
    neighbors: Vec<NodeSet>,
}

impl View for AdjacencyMap {
    type V = Adjacency;

    /// Each known label with the texts of its neighbours.
    closed spec fn view(&self) -> Adjacency {
        Map::new(
            |label: Label| self.nodes@.contains(label),
            |label: Label| self.neighbors[self.nodes.labels().index_of(label)]@,
        )
    }
}

impl AdjacencyMap {
    /// Every known label has its neighbour set, and no label is known twice.
    #[verifier::type_invariant]
    closed spec fn wf(&self) -> bool {
        &&& self.nodes.wf()
        &&& self.nodes.labels().len() == self.neighbors.len()
    }

    /// The map without any label.
    pub fn new() -> (map: Self)
        ensures
            map@ == Map::<Label, Set<Label>>::empty(),
    {
        AdjacencyMap { nodes: NodeSet::new(), neighbors: Vec::new() }
    }

    /// The number of known labels.
    pub fn len(&self) -> (n: usize)
        ensures
            n == self@.dom().len(),
    {
        assert(self@.dom() =~= self.nodes@);
        self.nodes.len()
    }

    /// Whether `node` is known.
    pub fn contains_key(&self, node: &String) -> (known: bool)
        ensures
            known == self@.contains_key(node@),
    {
        self.nodes.contains(node)
    }

    /// The neighbour set of `node`, or `None` where `node` is not known.
    pub fn get(&self, node: &String) -> (neighbors: Option<&NodeSet>)
        ensures
            match neighbors {
                Some(set) => self@.contains_key(node@) && set@ == self@[node@],
                None => !self@.contains_key(node@),
            },
    {
        proof {
            use_type_invariant(self);
        }
        match self.nodes.position(node) {
            Some(index) => {
                Some(&self.neighbors[index])
            },
            None => None,
        }
    }

    /// Makes `to` a neighbour of `from`, and `from` known if it was not.
    /// Nothing is said of `to` itself: an undirected edge takes two calls.
    pub fn add_neighbor(&mut self, from: String, to: String)
        ensures
            final(self)@ == with_neighbor(old(self)@, from@, to@),
    {
        proof {
            use_type_invariant(&*self);
        }
        let ghost before = *self;
        let mut taken = AdjacencyMap::new();
        std::mem::swap(&mut taken, self);
        let AdjacencyMap { mut nodes, mut neighbors } = taken;
        match nodes.position(&from) {
            Some(index) => {
                neighbors[index].insert(to);
            },
            None => {
                let mut set = NodeSet::new();
                set.insert(to);
                nodes.insert(from);
                neighbors.push(set);
            },
        }
        proof {
            use_type_invariant(&nodes);
        }
        *self = AdjacencyMap { nodes, neighbors };
        assert(self@ =~= with_neighbor(before@, from@, to@)) by {
            let want = with_neighbor(before@, from@, to@);
            assert forall|label: Label| self@.contains_key(label) implies #[trigger] self@[label]
                == want[label] by {
                if label != from@ {
                    // Any other label keeps its position, and its set with it.
                    let kept = before.nodes.labels().index_of(label);
                    assert(self.nodes.labels()[kept] == label);
                }
            }
        }
    }
}

impl PathableGraph for AdjacencyMap {
    open spec fn adjacency(&self) -> Adjacency {
        self@
    }

    proof fn adjacency_is_finite(&self) {
        assert(self@.dom() =~= self.nodes@);
    }

    fn get_neighbors(&self, node: String) -> (neighbors: Option<&NodeSet>) {
        self.get(&node)
    }

    fn contains_node(&self, node: String) -> (known: bool) {
        self.contains_key(&node)
    }
}

} // verus!
