//! The record a breadth-first search keeps, and why it yields shortest
//! walks.
//!
//! The search keeps the labels it has found, in the order in which it found
//! them, and beside each the position of the label it was found from. The
//! first label is the start and has no such parent. Labels are explored in
//! the order in which they were found.

use crate::graph::is_finite;
use crate::walk::{connects, has_edge, is_shortest, is_walk, reachable, Adjacency, Label};
use vstd::prelude::*;

verus! {

/// How many parent steps lead from position `i` back to the start.
spec fn level(parents: Seq<Option<usize>>, i: int) -> nat
    decreases i,
{
    if 0 <= i < parents.len() {
        match parents[i] {
            Some(p) => if p < i {
                level(parents, p as int) + 1
            } else {
                0
            },
            None => 0,
        }
    } else {
        0
    }
}

/// The labels from the start to position `i`, along the parent steps.
pub closed spec fn trail(found: Seq<Label>, parents: Seq<Option<usize>>, i: int) -> Seq<Label>
    decreases i,
{
    if 0 <= i < parents.len() {
        match parents[i] {
            Some(p) => if p < i {
                trail(found, parents, p as int).push(found[i])
            } else {
                seq![found[i]]
            },
            None => seq![found[i]],
        }
    } else {
        seq![found[i]]
    }
}

/// `found` and `parents` are the record of a search in `adj`: no label was
/// found twice, each but the first was found from an earlier one over an
/// edge, and levels never fall along the order of finding.
spec fn is_search_tree(adj: Adjacency, found: Seq<Label>, parents: Seq<Option<usize>>) -> bool {
    &&& found.len() == parents.len()
    &&& found.len() >= 1
    &&& found.no_duplicates()
    &&& parents[0] is None
    &&& forall|i: int|
        1 <= i < found.len() ==> {
            &&& (#[trigger] parents[i]) matches Some(p)
            &&& p < i
            &&& has_edge(adj, found[p as int], found[i])
        }
    &&& forall|i: int, j: int|
        0 <= i <= j < found.len() ==> level(parents, i) <= level(parents, j)
}

/// `label` was found, at a level of at most `bound`.
spec fn found_within(
    found: Seq<Label>,
    parents: Seq<Option<usize>>,
    label: Label,
    bound: nat,
) -> bool {
    exists|b: int| 0 <= b < found.len() && #[trigger] found[b] == label && level(parents, b) <= bound
}

/// Every neighbour of the labels before position `head` was found, at most
/// one level further out than the label itself.
spec fn explored(
    adj: Adjacency,
    found: Seq<Label>,
    parents: Seq<Option<usize>>,
    head: int,
) -> bool {
    forall|a: int, next: Label|
        0 <= a < head && #[trigger] has_edge(adj, found[a], next) ==> found_within(
            found,
            parents,
            next,
            level(parents, a) + 1,
        )
}

/// No label found so far lies more than one level behind the label at
/// `head`, the next to be explored.
spec fn within_one_level(parents: Seq<Option<usize>>, head: int) -> bool {
    forall|i: int| 0 <= i < parents.len() ==> #[trigger] level(parents, i) <= level(parents, head) + 1
}

/// A longer record tells the same levels for the positions it had.
proof fn lemma_level_push(parents: Seq<Option<usize>>, parent: Option<usize>, i: int)
    requires
        0 <= i < parents.len(),
    ensures
        level(parents.push(parent), i) == level(parents, i),
    decreases i,
{
    match parents[i] {
        Some(p) => {
            if p < i {
                lemma_level_push(parents, parent, p as int);
            }
        },
        None => {},
    }
}

/// Finding a new label from the label at `head` keeps the record a search
/// tree, and keeps what was explored.
proof fn lemma_found_one_more(
    adj: Adjacency,
    found: Seq<Label>,
    parents: Seq<Option<usize>>,
    head: int,
    label: Label,
)
    requires
        is_search_tree(adj, found, parents),
        0 <= head < found.len(),
        head <= usize::MAX,
        within_one_level(parents, head),
        has_edge(adj, found[head], label),
        !found.contains(label),
    ensures
        is_search_tree(adj, found.push(label), parents.push(Some(head as usize))),
        within_one_level(parents.push(Some(head as usize)), head),
        level(parents.push(Some(head as usize)), head) == level(parents, head),
        level(parents.push(Some(head as usize)), found.len() as int) == level(parents, head) + 1,
        forall|k: int|
            k <= found.len() && explored(adj, found, parents, k) ==> explored(
                adj,
                found.push(label),
                parents.push(Some(head as usize)),
                k,
            ),
        forall|other: Label, bound: nat|
            found_within(found, parents, other, bound) ==> found_within(
                found.push(label),
                parents.push(Some(head as usize)),
                other,
                bound,
            ),
{
    let more = found.push(label);
    let links = parents.push(Some(head as usize));
    // The labels found before keep their levels; the new one lies one level
    // behind the label it was found from, and no label lay further out.
    assert forall|i: int| 0 <= i < found.len() implies level(links, i) == level(parents, i) by {
        lemma_level_push(parents, Some(head as usize), i);
    }
    assert(more.no_duplicates());
    assert forall|i: int| 1 <= i < more.len() implies {
        &&& (#[trigger] links[i]) matches Some(p)
        &&& p < i
        &&& has_edge(adj, more[p as int], more[i])
    } by {}
    assert forall|i: int, j: int| 0 <= i <= j < more.len() implies level(links, i) <= level(
        links,
        j,
    ) by {}
    assert forall|other: Label, bound: nat|
        found_within(found, parents, other, bound) implies found_within(more, links, other, bound) by {}
    assert forall|k: int| k <= found.len() && explored(adj, found, parents, k) implies explored(
        adj,
        more,
        links,
        k,
    ) by {
        assert forall|a: int, next: Label|
            0 <= a < k && #[trigger] has_edge(adj, more[a], next) implies found_within(
            more,
            links,
            next,
            level(links, a) + 1,
        ) by {}
    }
    assert forall|i: int| 0 <= i < links.len() implies #[trigger] level(links, i) <= level(
        links,
        head,
    ) + 1 by {}
}

/// The trail to a found label is a walk from the start to that label, has
/// one label more than the label's level, repeats no label, and holds only
/// labels found no later than the label itself.
proof fn lemma_trail_is_walk(
    adj: Adjacency,
    found: Seq<Label>,
    parents: Seq<Option<usize>>,
    i: int,
)
    requires
        is_search_tree(adj, found, parents),
        0 <= i < found.len(),
    ensures
        connects(adj, trail(found, parents, i), found[0], found[i]),
        trail(found, parents, i).len() == level(parents, i) + 1,
        trail(found, parents, i).no_duplicates(),
        forall|k: int|
            0 <= k < trail(found, parents, i).len() ==> exists|j: int|
                0 <= j <= i && found[j] == #[trigger] trail(found, parents, i)[k],
    decreases i,
{
    if i > 0 {
        // The trail to the parent, by induction, and one edge more.
        let parent = parents[i]->0 as int;
        lemma_trail_is_walk(adj, found, parents, parent);
        let here = trail(found, parents, i);
        assert forall|k: int| 0 <= k < here.len() - 1 implies has_edge(
            adj,
            #[trigger] here[k],
            here[k + 1],
        ) by {}
    }
}

/// Along a walk from the start, the label after `steps` edges was found at a
/// level of at most `steps`, unless the label at `head` itself lies no
/// further out than `steps`.
proof fn lemma_walk_stays_behind(
    adj: Adjacency,
    found: Seq<Label>,
    parents: Seq<Option<usize>>,
    head: int,
    walk: Seq<Label>,
    steps: nat,
)
    requires
        is_search_tree(adj, found, parents),
        0 <= head < found.len(),
        explored(adj, found, parents, head),
        is_walk(adj, walk),
        walk[0] == found[0],
        steps < walk.len(),
    ensures
        level(parents, head) <= steps || found_within(found, parents, walk[steps as int], steps),
    decreases steps,
{
    // By induction: the label one step back was found at a level of at most
    // `steps - 1`, so it was explored before `head`, and with it this label
    // was found, at most one level further out.
    if steps > 0 {
        lemma_walk_stays_behind(adj, found, parents, head, walk, (steps - 1) as nat);
    }
}

/// When the label at `head` comes up for exploring, its trail is a shortest
/// walk from the start.
proof fn lemma_trail_is_shortest(
    adj: Adjacency,
    found: Seq<Label>,
    parents: Seq<Option<usize>>,
    head: int,
    walk: Seq<Label>,
)
    requires
        is_search_tree(adj, found, parents),
        0 <= head < found.len(),
        explored(adj, found, parents, head),
        connects(adj, walk, found[0], found[head]),
    ensures
        trail(found, parents, head).len() <= walk.len(),
{
    // The walk ends at the label at `head`, which was found once only: its
    // level is at most the number of edges of the walk.
    lemma_trail_is_walk(adj, found, parents, head);
    lemma_walk_stays_behind(adj, found, parents, head, walk, (walk.len() - 1) as nat);
}

/// Once every found label was explored, a walk from the start never leaves
/// the found labels.
proof fn lemma_walk_stays_inside(
    adj: Adjacency,
    found: Seq<Label>,
    parents: Seq<Option<usize>>,
    walk: Seq<Label>,
    steps: nat,
)
    requires
        found.len() >= 1,
        explored(adj, found, parents, found.len() as int),
        is_walk(adj, walk),
        walk[0] == found[0],
        steps < walk.len(),
    ensures
        found.contains(walk[steps as int]),
    decreases steps,
{
    // By induction: the label one step back was found, hence explored, and
    // with it this label was found.
    if steps > 0 {
        lemma_walk_stays_inside(adj, found, parents, walk, (steps - 1) as nat);
    }
}

/// Every label that `adj` speaks of: the known ones and their neighbours.
pub open spec fn all_labels(adj: Adjacency) -> Set<Label> {
    adj.dom().union(adj.dom().map(|from: Label| adj[from]).flatten())
}

/// A search from the label at position `0` that has explored the labels
/// before position `head`.
pub closed spec fn search_state(
    adj: Adjacency,
    found: Seq<Label>,
    parents: Seq<Option<usize>>,
    head: int,
) -> bool {
    &&& is_search_tree(adj, found, parents)
    &&& adj.contains_key(found[0])
    &&& 0 <= head <= found.len()
    &&& explored(adj, found, parents, head)
    &&& head < found.len() ==> within_one_level(parents, head)
}

/// `label` was found, no more than one level further out than the label at
/// `head`.
pub closed spec fn seen_from(
    found: Seq<Label>,
    parents: Seq<Option<usize>>,
    head: int,
    label: Label,
) -> bool {
    found_within(found, parents, label, level(parents, head) + 1)
}

/// A search begins with its start as the one label found.
pub proof fn lemma_search_begins(adj: Adjacency, start: Label)
    requires
        adj.contains_key(start),
    ensures
        search_state(adj, seq![start], seq![None], 0),
{
}

/// The shape of the record: a parent entry for each found label, the start
/// among them, and each parent found earlier than its child.
pub proof fn lemma_state_shape(
    adj: Adjacency,
    found: Seq<Label>,
    parents: Seq<Option<usize>>,
    head: int,
)
    requires
        search_state(adj, found, parents, head),
    ensures
        found.len() == parents.len(),
        found.len() >= 1,
        0 <= head <= found.len(),
        found.no_duplicates(),
        forall|i: int|
            0 <= i < found.len() ==> match #[trigger] parents[i] {
                Some(p) => p < i && trail(found, parents, i) == trail(found, parents, p as int).push(
                    found[i],
                ),
                None => trail(found, parents, i) == seq![found[i]],
            },
{
    assert forall|i: int| 0 <= i < found.len() implies match #[trigger] parents[i] {
        Some(p) => p < i && trail(found, parents, i) == trail(found, parents, p as int).push(found[i]),
        None => trail(found, parents, i) == seq![found[i]],
    } by {}
}

/// A label seen from the label at `head` for the first time is found from
/// there; what was seen before stays seen.
pub proof fn lemma_seen_new(
    adj: Adjacency,
    found: Seq<Label>,
    parents: Seq<Option<usize>>,
    head: int,
    label: Label,
)
    requires
        search_state(adj, found, parents, head),
        head < found.len(),
        head <= usize::MAX,
        has_edge(adj, found[head], label),
        !found.contains(label),
    ensures
        search_state(adj, found.push(label), parents.push(Some(head as usize)), head),
        seen_from(found.push(label), parents.push(Some(head as usize)), head, label),
        forall|other: Label|
            seen_from(found, parents, head, other) ==> seen_from(
                found.push(label),
                parents.push(Some(head as usize)),
                head,
                other,
            ),
{
    lemma_found_one_more(adj, found, parents, head, label);
}

/// A label that was found before is within one level of the label at `head`.
pub proof fn lemma_seen_before(
    adj: Adjacency,
    found: Seq<Label>,
    parents: Seq<Option<usize>>,
    head: int,
    label: Label,
)
    requires
        search_state(adj, found, parents, head),
        head < found.len(),
        found.contains(label),
    ensures
        seen_from(found, parents, head, label),
{
}

/// Once every neighbour of the label at `head` was seen, that label is
/// explored.
pub proof fn lemma_explored_one_more(
    adj: Adjacency,
    found: Seq<Label>,
    parents: Seq<Option<usize>>,
    head: int,
)
    requires
        search_state(adj, found, parents, head),
        head < found.len(),
        forall|next: Label| #[trigger]
            has_edge(adj, found[head], next) ==> seen_from(found, parents, head, next),
    ensures
        search_state(adj, found, parents, head + 1),
{
    assert forall|a: int, next: Label|
        0 <= a < head + 1 && #[trigger] has_edge(adj, found[a], next) implies found_within(
        found,
        parents,
        next,
        level(parents, a) + 1,
    ) by {}
    if head + 1 < found.len() {
        assert forall|i: int| 0 <= i < parents.len() implies #[trigger] level(parents, i) <= level(
            parents,
            head + 1,
        ) + 1 by {}
    }
}

/// In a finite graph a search finds no more labels than the graph speaks
/// of, and those are finitely many.
pub proof fn lemma_search_is_bounded(
    adj: Adjacency,
    found: Seq<Label>,
    parents: Seq<Option<usize>>,
    head: int,
)
    requires
        is_finite(adj),
        search_state(adj, found, parents, head),
    ensures
        all_labels(adj).finite(),
        found.len() <= all_labels(adj).len(),
{
    let neighbors_of = |from: Label| adj[from];
    let sets = adj.dom().map(neighbors_of);
    adj.dom().lemma_map_finite(neighbors_of);
    sets.lemma_flatten_finite();
    assert forall|label: Label| found.to_set().contains(label) implies all_labels(adj).contains(
        label,
    ) by {
        let i = choose|i: int| 0 <= i < found.len() && found[i] == label;
        if i > 0 {
            let from = found[parents[i]->0 as int];
            assert(sets.contains(adj[from]));
        }
    }
    found.unique_seq_to_set();
    vstd::set_lib::lemma_len_subset(found.to_set(), all_labels(adj));
}

/// The trail to the label that comes up for exploring is a shortest walk to
/// it from the start, and repeats no label.
pub proof fn lemma_trail_to_head(
    adj: Adjacency,
    found: Seq<Label>,
    parents: Seq<Option<usize>>,
    head: int,
)
    requires
        search_state(adj, found, parents, head),
        head < found.len(),
    ensures
        is_shortest(adj, trail(found, parents, head), found[0], found[head]),
        trail(found, parents, head).no_duplicates(),
{
    lemma_trail_is_walk(adj, found, parents, head);
    assert forall|other: Seq<Label>| #[trigger]
        connects(adj, other, found[0], found[head]) implies trail(found, parents, head).len()
        <= other.len() by {
        lemma_trail_is_shortest(adj, found, parents, head, other);
    }
}

/// Once every found label was explored, a label that was not found cannot
/// be reached from the start.
pub proof fn lemma_not_found_is_unreachable(
    adj: Adjacency,
    found: Seq<Label>,
    parents: Seq<Option<usize>>,
    end: Label,
)
    requires
        search_state(adj, found, parents, found.len() as int),
        !found.contains(end),
    ensures
        !reachable(adj, found[0], end),
{
    assert forall|walk: Seq<Label>| connects(adj, walk, found[0], end) implies false by {
        lemma_walk_stays_inside(adj, found, parents, walk, (walk.len() - 1) as nat);
    }
}

} // verus!
