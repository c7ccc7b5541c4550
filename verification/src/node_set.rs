//! A set of node labels that remembers the order in which they came.

use vstd::prelude::*;

verus! {

/// A set of labels. Two labels are the same member when their text is the
/// same. Members keep the order in which they were first inserted, so they
/// can be walked by position.
#[derive(Debug)]
pub struct NodeSet {
    members: Vec<String>,
}

impl View for NodeSet {
    type V = Set<Seq<char>>;

    /// The members, as a set of texts.
    open spec fn view(&self) -> Set<Seq<char>> {
        self.labels().to_set()
    }
}

impl NodeSet {
    /// No text occurs twice among the members.
    #[verifier::type_invariant]
    pub open spec fn wf(&self) -> bool {
        self.labels().no_duplicates()
    }

    /// The members' texts in insertion order.
    pub closed spec fn labels(&self) -> Seq<Seq<char>> {
        self.members.deep_view()
    }

    /// The empty set.
    pub fn new() -> (set: Self)
        ensures
            set.labels() == Seq::<Seq<char>>::empty(),
            set@ == Set::<Seq<char>>::empty(),
    {
        let set = NodeSet { members: Vec::new() };
        set
    }

    /// The number of members.
    pub fn len(&self) -> (n: usize)
        ensures
            n == self.labels().len(),
            n == self@.len(),
    {
        proof {
            use_type_invariant(self);
            self.labels().unique_seq_to_set();
        }
        self.members.len()
    }

    /// The member at `index` in insertion order, or `None` where the set has
    /// no more than `index` members.
    pub fn get(&self, index: usize) -> (member: Option<&String>)
        ensures
            match member {
                Some(label) => index < self.labels().len() && label@ == self.labels()[index as int],
                None => index >= self.labels().len(),
            },
    {
        if index < self.members.len() {
            Some(&self.members[index])
        } else {
            None
        }
    }

    /// The members in insertion order.
    pub fn to_vec(&self) -> (members: Vec<String>)
        ensures
            members.deep_view() == self.labels(),
    {
        let mut members: Vec<String> = Vec::new();
        let mut i: usize = 0;
        while i < self.members.len()
            invariant
                i <= self.members.len(),
                members.deep_view() == self.labels().take(i as int),
            decreases self.members.len() - i,
        {
            let ghost before = members.deep_view();
            members.push(self.members[i].clone());
            assert(self.labels().take(i + 1) =~= self.labels().take(i as int).push(
                self.labels()[i as int],
            ));
            i += 1;
        }
        members
    }

    /// Where `label` stands in insertion order, if it is a member.
    pub fn position(&self, label: &String) -> (found: Option<usize>)
        ensures
            match found {
                Some(index) => index < self.labels().len() && self.labels()[index as int] == label@,
                None => !self@.contains(label@),
            },
    {
        let mut i: usize = 0;
        while i < self.members.len()
            invariant
                i <= self.members.len(),
                forall|j: int| 0 <= j < i ==> self.labels()[j] != label@,
            decreases self.members.len() - i,
        {
            if self.members[i] == *label {
                return Some(i);
            }
            i += 1;
        }
        None
    }

    /// Whether `label` is a member.
    pub fn contains(&self, label: &String) -> (found: bool)
        ensures
            found == self@.contains(label@),
    {
        self.position(label).is_some()
    }

    /// Adds `label` behind the members there are, unless its text is one of
    /// them already. Says whether it was added.
    pub fn insert(&mut self, label: String) -> (added: bool)
        ensures
            added == !old(self)@.contains(label@),
            final(self)@ == old(self)@.insert(label@),
            final(self).labels() == if added {
                old(self).labels().push(label@)
            } else {
                old(self).labels()
            },
    {
        proof {
            use_type_invariant(&*self);
        }
        if self.contains(&label) {
            false
        } else {
            let ghost before = self.labels();
            let mut members: Vec<String> = Vec::new();
            std::mem::swap(&mut members, &mut self.members);
            members.push(label);
            assert(members.deep_view() =~= before.push(label@));
            self.members = members;
            proof {
                before.lemma_push_to_set_commute(label@);
            }
            true
        }
    }
}

} // verus!
