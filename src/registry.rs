//! Assignment of dense indices to node labels.

use vstd::prelude::*;

verus! {

/// A node label.
pub struct Node(pub String);

impl Node {
    pub fn new(s: &str) -> (r: Node)
        ensures
            r.0@ == s@,
    {
        Node(s.to_owned())
    }
}

/// No label occurs twice.
pub open spec fn distinct_labels(labels: Seq<Seq<char>>) -> bool {
    forall|i: int, j: int|
        0 <= i < labels.len() && 0 <= j < labels.len() && i != j ==> labels[i] != labels[j]
}

/// The position of `label` in `labels`, where it occurs.
pub open spec fn position_of(labels: Seq<Seq<char>>, label: Seq<char>) -> int {
    choose|i: int| 0 <= i < labels.len() && labels[i] == label
}

/// The labels after registering `label`, and the index it is given: the index
/// it already has, or the next one.
pub open spec fn register_model(labels: Seq<Seq<char>>, label: Seq<char>) -> (Seq<Seq<char>>, int) {
    if labels.contains(label) {
        (labels, position_of(labels, label))
    } else {
        (labels.push(label), labels.len() as int)
    }
}

/// The labels after registering each of `ls` in turn, and the indices they
/// were given.
pub open spec fn register_all(labels: Seq<Seq<char>>, ls: Seq<Seq<char>>) -> (Seq<Seq<char>>, Seq<int>)
    decreases ls.len(),
{
    if ls.len() == 0 {
        (labels, Seq::empty())
    } else {
        let (l1, indices) = register_all(labels, ls.drop_last());
        let (l2, i) = register_model(l1, ls.last());
        (l2, indices.push(i))
    }
}

/// Registering a label a second time gives the index it was given the first
/// time, and changes nothing.
pub proof fn lemma_register_twice(labels: Seq<Seq<char>>, label: Seq<char>)
    requires
        distinct_labels(labels),
    ensures
        register_model(register_model(labels, label).0, label) == register_model(labels, label),
{
    let (l1, i) = register_model(labels, label);
    assert(l1[i] == label);
    assert(l1.contains(label));
    let j = position_of(l1, label);
    assert(l1[j] == label);
}

/// Registering `k` distinct labels in turn, from none, gives them the indices
/// `0, 1, ..., k - 1` in order, without gaps or repeats.
pub proof fn lemma_register_dense(ls: Seq<Seq<char>>)
    requires
        distinct_labels(ls),
    ensures
        register_all(Seq::empty(), ls).0 == ls,
        register_all(Seq::empty(), ls).1 == Seq::new(ls.len(), |i: int| i),
    decreases ls.len(),
{
    if ls.len() > 0 {
        let init = ls.drop_last();
        lemma_register_dense(init);
        assert(!init.contains(ls.last())) by {
            if init.contains(ls.last()) {
                let j = choose|j: int| 0 <= j < init.len() && init[j] == ls.last();
                assert(ls[j] == ls[ls.len() - 1]);
            }
        }
        assert(init.push(ls.last()) =~= ls);
        assert(Seq::new(init.len(), |i: int| i).push(init.len() as int) =~= Seq::new(ls.len(), |i: int| i));
    } else {
        assert(Seq::<int>::empty() =~= Seq::new(ls.len(), |i: int| i));
    }
}

/// The distinct labels of `ls`, in the order of their first occurrence.
pub open spec fn first_occurrences(ls: Seq<Seq<char>>) -> Seq<Seq<char>>
    decreases ls.len(),
{
    if ls.len() == 0 {
        Seq::empty()
    } else {
        let seen = first_occurrences(ls.drop_last());
        if seen.contains(ls.last()) {
            seen
        } else {
            seen.push(ls.last())
        }
    }
}

/// Registering the labels of `ls` in turn, from none, repeats allowed, numbers
/// the distinct labels `0, 1, ..., k - 1` in the order of their first
/// occurrence: each call returns the number of its label, and each of those
/// labels occurs in `ls`, so every number is returned.
pub proof fn lemma_register_first_occurrence(ls: Seq<Seq<char>>)
    ensures
        register_all(Seq::empty(), ls).0 == first_occurrences(ls),
        distinct_labels(first_occurrences(ls)),
        register_all(Seq::empty(), ls).1.len() == ls.len(),
        forall|i: int|
            0 <= i < ls.len() ==> 0 <= #[trigger] register_all(Seq::empty(), ls).1[i]
                < first_occurrences(ls).len() && first_occurrences(ls)[register_all(
                Seq::empty(),
                ls,
            ).1[i]] == ls[i],
        forall|j: int|
            0 <= j < first_occurrences(ls).len() ==> ls.contains(#[trigger] first_occurrences(ls)[j]),
    decreases ls.len(),
{
    if ls.len() > 0 {
        let init = ls.drop_last();
        lemma_register_first_occurrence(init);
        let (l1, idx1) = register_all(Seq::empty(), init);
        let (l2, idx) = register_all(Seq::empty(), ls);
        let last = ls.last();
        assert(idx == idx1.push(register_model(l1, last).1));
        assert forall|i: int| 0 <= i < init.len() implies #[trigger] idx[i] == idx1[i] && ls[i]
            == init[i] by {}
        assert(l1 == first_occurrences(init));
        assert(l2 == first_occurrences(ls));
        if l1.contains(last) {
            let p = position_of(l1, last);
            assert(idx[ls.len() - 1] == p);
        } else {
            assert(idx[ls.len() - 1] == l1.len());
        }
        assert forall|j: int| 0 <= j < l2.len() implies ls.contains(#[trigger] l2[j]) by {
            if j < l1.len() {
                assert(l1[j] == first_occurrences(init)[j]);
                let i = choose|i: int| 0 <= i < init.len() && init[i] == l1[j];
                assert(ls[i] == l2[j]);
            } else {
                assert(ls[ls.len() - 1] == l2[j]);
            }
        }
    } else {
        assert(first_occurrences(ls).len() == 0);
        assert(register_all(Seq::empty(), ls).1 =~= Seq::<int>::empty());
    }
}

/// Labels mapped one to one onto the indices `0..size()`, in the order in
/// which they were first registered.
pub struct NodeRegistry {
    nodes: Vec<Node>,
}

impl View for NodeRegistry {
    type V = Seq<Seq<char>>;

    closed spec fn view(&self) -> Seq<Seq<char>> {
        Seq::new(self.nodes@.len(), |i: int| self.nodes@[i].0@)
    }
}

impl NodeRegistry {
    pub open spec fn wf(&self) -> bool {
        distinct_labels(self@)
    }

    pub fn new() -> (r: NodeRegistry)
        ensures
            r.wf(),
            r@ == Seq::<Seq<char>>::empty(),
    {
        let r = NodeRegistry { nodes: Vec::new() };
        assert(r@ =~= Seq::<Seq<char>>::empty());
        r
    }

    pub fn size(&self) -> (r: usize)
        ensures
            r == self@.len(),
    {
        self.nodes.len()
    }

    /// The label with index `i`.
    pub fn label(&self, i: usize) -> (r: &str)
        requires
            i < self@.len(),
        ensures
            r@ == self@[i as int],
    {
        self.nodes[i].0.as_str()
    }

    /// The index of `label`, if it was registered.
    pub fn find(&self, label: &str) -> (r: Option<usize>)
        requires
            self.wf(),
        ensures
            r is None <==> !self@.contains(label@),
            r matches Some(i) ==> i < self@.len() && self@[i as int] == label@ && i
                == position_of(self@, label@),
    {
        let key = label.to_owned();
        let mut i: usize = 0;
        while i < self.nodes.len()
            invariant
                0 <= i <= self@.len(),
                self.wf(),
                key@ == label@,
                forall|j: int| 0 <= j < i ==> self@[j] != label@,
            decreases self@.len() - i,
        {
            if self.nodes[i].0 == key {
                assert(self@[i as int] == label@);
                return Some(i);
            }
            i = i + 1;
        }
        None
    }

    /// Gives `label` its index: the one it has, or else the next unused one.
    pub fn register(&mut self, label: &str) -> (r: usize)
        requires
            old(self).wf(),
        ensures
            final(self).wf(),
            final(self)@ == register_model(old(self)@, label@).0,
            r == register_model(old(self)@, label@).1,
            r < final(self)@.len(),
            final(self)@[r as int] == label@,
    {
        match self.find(label) {
            Some(i) => i,
            None => {
                let i = self.nodes.len();
                self.nodes.push(Node::new(label));
                assert(self@ =~= old(self)@.push(label@));
                i
            },
        }
    }
}

} // verus!
