//! Breadth-first search for a shortest path between two labels.

use crate::graph::{is_finite, PathableGraph};
use crate::node_set::NodeSet;
use crate::search_tree::{
    all_labels, lemma_explored_one_more, lemma_not_found_is_unreachable, lemma_search_begins,
    lemma_search_is_bounded, lemma_seen_before, lemma_seen_new, lemma_state_shape,
    lemma_trail_to_head, search_state, seen_from, trail,
};
use crate::walk::{
    distance, has_edge, is_shortest, lemma_shortest_has_distance, lemma_shortest_to_itself,
    reachable, Adjacency, Label,
};
use std::collections::VecDeque;
use vstd::prelude::*;

verus! {

/// How a search between two labels ended.
#[derive(Debug)]
pub enum SearchOutcome {
    /// The graph does not know the start, or does not know the end.
    InvalidEndpoint,
    /// The graph knows both labels, and no walk leads from one to the other.
    NoPathFound,
    /// A shortest walk from the start to the end.
    Found(VecDeque<String>),
}

/// The labels on the way from the start of the search to the label found at
/// position `last`, read off the parent steps.
fn trace_back(
    found: &NodeSet,
    parents: &Vec<Option<usize>>,
    last: usize,
    Ghost(adj): Ghost<Adjacency>,
    Ghost(head): Ghost<int>,
) -> (path: VecDeque<String>)
    requires
        search_state(adj, found.labels(), parents@, head),
        last < found.labels().len(),
    ensures
        path.deep_view() == trail(found.labels(), parents@, last as int),
{
    let mut path: VecDeque<String> = VecDeque::new();
    let mut at: usize = last;
    proof {
        lemma_state_shape(adj, found.labels(), parents@, head);
        assert(trail(found.labels(), parents@, at as int) + path.deep_view() =~= trail(
            found.labels(),
            parents@,
            last as int,
        ));
    }
    loop
        invariant_except_break
            search_state(adj, found.labels(), parents@, head),
            at <= last < found.labels().len(),
            found.labels().len() == parents@.len(),
            trail(found.labels(), parents@, at as int) + path.deep_view() == trail(
                found.labels(),
                parents@,
                last as int,
            ),
        ensures
            path.deep_view() == trail(found.labels(), parents@, last as int),
        decreases at,
    {
        let ghost rest = path.deep_view();
        proof {
            lemma_state_shape(adj, found.labels(), parents@, head);
        }
        path.push_front(found.get(at).unwrap().clone());
        match parents[at] {
            Some(parent) => {
                assert(trail(found.labels(), parents@, parent as int) + path.deep_view() =~= trail(
                    found.labels(),
                    parents@,
                    at as int,
                ) + rest);
                at = parent;
            },
            None => {
                break ;
            },
        }
    }
    path
}

/// Marks each of `neighbors` that was not found before as found from the
/// label at position `head`.
fn explore(
    neighbors: &NodeSet,
    found: &mut NodeSet,
    parents: &mut Vec<Option<usize>>,
    head: usize,
    Ghost(adj): Ghost<Adjacency>,
)
    requires
        search_state(adj, old(found).labels(), old(parents)@, head as int),
        head < old(found).labels().len(),
        adj.contains_key(old(found).labels()[head as int]),
        neighbors@ == adj[old(found).labels()[head as int]],
    ensures
        search_state(adj, final(found).labels(), final(parents)@, head + 1),
        final(found).labels().len() >= old(found).labels().len(),
        final(found).labels().take(old(found).labels().len() as int) == old(found).labels(),
{
    let ghost first = found.labels();
    let mut k: usize = 0;
    while k < neighbors.len()
        invariant
            search_state(adj, found.labels(), parents@, head as int),
            first.len() <= found.labels().len(),
            found.labels().take(first.len() as int) == first,
            head < first.len(),
            adj.contains_key(first[head as int]),
            neighbors@ == adj[first[head as int]],
            k <= neighbors.labels().len(),
            forall|j: int|
                0 <= j < k ==> seen_from(
                    found.labels(),
                    parents@,
                    head as int,
                    #[trigger] neighbors.labels()[j],
                ),
        decreases neighbors.labels().len() - k,
    {
        let candidate: String = neighbors.get(k).unwrap().clone();
        let ghost before = found.labels();
        let ghost links = parents@;
        if found.insert(candidate) {
            parents.push(Some(head));
            proof {
                lemma_seen_new(adj, before, links, head as int, candidate@);
            }
        } else {
            proof {
                lemma_seen_before(adj, before, links, head as int, candidate@);
            }
        }
        k += 1;
    }
    proof {
        let now = found.labels();
        assert forall|next: Label| #[trigger] has_edge(adj, now[head as int], next) implies seen_from(
            now,
            parents@,
            head as int,
            next,
        ) by {}
        lemma_explored_one_more(adj, now, parents@, head as int);
    }
}

/// Searches `graph` breadth first for a shortest walk from `start` to `end`,
/// and says which of three things holds: an endpoint is unknown, no walk
/// exists, or this is a shortest one.
///
/// Found labels are explored in the order in which they were found, and a
/// label is marked as found when it is first seen, with the label it was seen
/// from as its parent. Among several shortest walks the one returned depends
/// on the order in which the graph lists neighbours.
pub fn search_path<T: PathableGraph>(graph: &T, start: &String, end: &String) -> (outcome:
    SearchOutcome)
    ensures
        match outcome {
            SearchOutcome::InvalidEndpoint => !(graph.adjacency().contains_key(start@)
                && graph.adjacency().contains_key(end@)),
            SearchOutcome::NoPathFound => {
                &&& graph.adjacency().contains_key(start@)
                &&& graph.adjacency().contains_key(end@)
                &&& !reachable(graph.adjacency(), start@, end@)
            },
            SearchOutcome::Found(path) => {
                &&& graph.adjacency().contains_key(start@)
                &&& graph.adjacency().contains_key(end@)
                &&& is_shortest(graph.adjacency(), path.deep_view(), start@, end@)
                &&& path.deep_view().len() == distance(graph.adjacency(), start@, end@) + 1
                &&& path.deep_view().no_duplicates()
            },
        },
{
    let ghost adj = graph.adjacency();
    if !graph.contains_node(start.clone()) || !graph.contains_node(end.clone()) {
        return SearchOutcome::InvalidEndpoint;
    }
    let mut found = NodeSet::new();
    found.insert(start.clone());
    let mut parents: Vec<Option<usize>> = Vec::new();
    parents.push(None);
    let mut head: usize = 0;
    proof {
        graph.adjacency_is_finite();
        lemma_search_begins(adj, start@);
    }
    while head < found.len()
        invariant
            adj == graph.adjacency(),
            is_finite(adj),
            adj.contains_key(start@),
            adj.contains_key(end@),
            found.labels().len() >= 1,
            found.labels()[0] == start@,
            search_state(adj, found.labels(), parents@, head as int),
            forall|i: int| 0 <= i < head ==> found.labels()[i] != end@,
        decreases all_labels(adj).len() - head,
    {
        proof {
            lemma_search_is_bounded(adj, found.labels(), parents@, head as int);
        }
        let ghost before = found.labels();
        let node: String = found.get(head).unwrap().clone();
        if node == *end {
            let path = trace_back(&found, &parents, head, Ghost(adj), Ghost(head as int));
            proof {
                lemma_trail_to_head(adj, found.labels(), parents@, head as int);
                lemma_shortest_has_distance(adj, path.deep_view(), start@, end@);
            }
            return SearchOutcome::Found(path);
        }
        match graph.get_neighbors(node.clone()) {
            Some(neighbors) => {
                explore(neighbors, &mut found, &mut parents, head, Ghost(adj));
            },
            None => {
                proof {
                    lemma_explored_one_more(adj, found.labels(), parents@, head as int);
                }
            },
        }
        proof {
            assert forall|i: int| 0 <= i < head + 1 implies found.labels()[i] != end@ by {
                assert(found.labels()[i] == found.labels().take(before.len() as int)[i]);
            }
        }
        head += 1;
    }
    proof {
        lemma_state_shape(adj, found.labels(), parents@, head as int);
        lemma_not_found_is_unreachable(adj, found.labels(), parents@, end@);
    }
    SearchOutcome::NoPathFound
}

/// Finds a shortest path from `start` to `end`: the labels on the way, both
/// ends included, so that a label and itself give the one label. The path is
/// empty where the graph does not know one of the two, and where it knows
/// both and nothing leads from one to the other.
pub fn find_path<T: PathableGraph>(graph: T, start: String, end: String) -> (path: VecDeque<String>)
    ensures
        graph.adjacency().contains_key(start@) && graph.adjacency().contains_key(end@)
            && reachable(graph.adjacency(), start@, end@) ==> {
            &&& is_shortest(graph.adjacency(), path.deep_view(), start@, end@)
            &&& path.deep_view().len() == distance(graph.adjacency(), start@, end@) + 1
            &&& path.deep_view().no_duplicates()
        },
        !(graph.adjacency().contains_key(start@) && graph.adjacency().contains_key(end@)
            && reachable(graph.adjacency(), start@, end@)) ==> path.deep_view().len() == 0,
        graph.adjacency().contains_key(start@) && start@ == end@ ==> path.deep_view() == seq![
            start@,
        ],
{
    match search_path(&graph, &start, &end) {
        SearchOutcome::Found(path) => {
            proof {
                lemma_shortest_to_itself(graph.adjacency(), path.deep_view(), start@);
            }
            path
        },
        _ => {
            let path: VecDeque<String> = VecDeque::new();
            proof {
                lemma_shortest_to_itself(graph.adjacency(), path.deep_view(), start@);
            }
            path
        },
    }
}

} // verus!
