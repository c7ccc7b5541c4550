//! Rendering a path as text.

use std::collections::VecDeque;
use vstd::prelude::*;
use vstd::string::*;

verus! {

/// A label between single quotes.
pub open spec fn quoted(label: Seq<char>) -> Seq<char> {
    seq!['\''] + label + seq!['\'']
}

/// The quoted labels of `path`, in order, with `->` between neighbours. The
/// empty path renders as the empty text.
pub open spec fn rendered(path: Seq<Seq<char>>) -> Seq<char>
    decreases path.len(),
{
    if path.len() == 0 {
        Seq::empty()
    } else if path.len() == 1 {
        quoted(path[0])
    } else {
        rendered(path.drop_last()) + seq!['-', '>'] + quoted(path.last())
    }
}

/// Renders a path for a reader: `'a'->'b'->'c'`.
pub fn stringify_path(path: VecDeque<String>) -> (text: String)
    ensures
        text@ == rendered(path.deep_view()),
{
    let ghost labels = path.deep_view();
    let mut text = String::new();
    let mut i: usize = 0;
    while i < path.len()
        invariant
            i <= path.len(),
            labels == path.deep_view(),
            text@ == rendered(labels.take(i as int)),
        decreases path.len() - i,
    {
        proof {
            reveal_strlit("->'");
            reveal_strlit("'");
            assert(labels.take(i + 1).drop_last() == labels.take(i as int));
        }
        if i > 0 {
            text.append("->'");
        } else {
            text.append("'");
        }
        text.append(path[i].as_str());
        text.append("'");
        i += 1;
    }
    assert(labels.take(i as int) == labels);
    text
}

} // verus!
