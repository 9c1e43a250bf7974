//! Trees of chord sequences: each path of chords leads to a node with
//! further chords, or to a leaf that holds an event.
use vstd::prelude::*;
use crate::input::Chord;
use crate::input::parse::{parse_chord, ParseError, chord_parse};

verus! {

/// A node of an input tree
pub enum InputNode<E> {
    Node {
        desc: String,
        key: Chord,
        children: Vec<InputNode<E>>,
    },
    Leaf {
        desc: String,
        key: Chord,
        event: E,
    },
}

impl<E> InputNode<E> {
    /// The chord that leads to this node
    pub open spec fn key_spec(&self) -> Chord {
        match self {
            InputNode::Node { key, .. } => *key,
            InputNode::Leaf { key, .. } => *key,
        }
    }

    /// The description of this node
    pub open spec fn desc_spec(&self) -> Seq<char> {
        match self {
            InputNode::Node { desc, .. } => desc@,
            InputNode::Leaf { desc, .. } => desc@,
        }
    }

    pub fn is_chord(&self, chord: &Chord) -> (r: bool)
        ensures
            r == (self.key_spec() == *chord),
    {
        match self {
            InputNode::Node { key, .. } => *key == *chord,
            InputNode::Leaf { key, .. } => *key == *chord,
        }
    }

    pub fn children(&self) -> (r: Option<&[InputNode<E>]>)
        ensures
            match self {
                InputNode::Node { children, .. } => r matches Some(c) && c@ == children@,
                InputNode::Leaf { .. } => r is None,
            },
    {
        match self {
            InputNode::Node { children, .. } => Some(children.as_slice()),
            InputNode::Leaf { .. } => None,
        }
    }

    /// The children of a node, to change in place; none for a leaf
    pub fn as_children(&mut self) -> (r: Option<&mut [InputNode<E>]>)
        ensures
            match *old(self) {
                InputNode::Node { desc, key, children } => r matches Some(c) && c@ == children@
                    && (*final(self) matches InputNode::Node { desc: d2, key: k2, children: c2 }
                        && d2 == desc && k2 == key && c2@ == final(c)@),
                InputNode::Leaf { .. } => r is None && *final(self) == *old(self),
            },
    {
        match self {
            InputNode::Node { children, .. } => Some(children.as_mut_slice()),
            InputNode::Leaf { .. } => None,
        }
    }

    pub fn set_desc(&mut self, new_desc: String)
        ensures
            match *old(self) {
                InputNode::Node { desc, key, children } => *final(self) == InputNode::Node { desc: new_desc, key, children },
                InputNode::Leaf { desc, key, event } => *final(self) == InputNode::Leaf { desc: new_desc, key, event },
            },
    {
        match self {
            InputNode::Node { desc, .. } => {
                *desc = new_desc;
            },
            InputNode::Leaf { desc, .. } => {
                *desc = new_desc;
            },
        }
    }

    pub fn desc(&self) -> (r: &str)
        ensures
            r@ == self.desc_spec(),
    {
        match self {
            InputNode::Node { desc, .. } => desc.as_str(),
            InputNode::Leaf { desc, .. } => desc.as_str(),
        }
    }

    pub fn key(&self) -> (r: Chord)
        ensures
            r == self.key_spec(),
    {
        match self {
            InputNode::Node { key, .. } => *key,
            InputNode::Leaf { key, .. } => *key,
        }
    }

    /// The node made from this one to hold children: a leaf becomes an
    /// empty node with the same desc and key, a node stays as it is
    fn into_node(self) -> (r: (String, Chord, Vec<InputNode<E>>))
        ensures
            match self {
                InputNode::Node { desc, key, children } => r == (desc, key, children),
                InputNode::Leaf { desc, key, .. } => r.0 == desc && r.1 == key && r.2@.len() == 0,
            },
    {
        match self {
            InputNode::Node { desc, key, children } => (desc, key, children),
            InputNode::Leaf { desc, key, .. } => (desc, key, Vec::new()),
        }
    }
}

/// The index of the first of `nodes[i..]` with key `k`.
pub open spec fn first_key<E>(nodes: Seq<InputNode<E>>, k: Chord, i: int) -> Option<int>
    decreases nodes.len() - i,
{
    if i < 0 || i >= nodes.len() {
        None
    } else if nodes[i].key_spec() == k {
        Some(i)
    } else {
        first_key(nodes, k, i + 1)
    }
}

/// The node that the chords `p` lead to from `nodes`: each chord picks the
/// first node with that key among the children of the one before.
pub open spec fn at<E>(nodes: Seq<InputNode<E>>, p: Seq<Chord>) -> Option<InputNode<E>>
    decreases p.len(),
{
    if p.len() == 0 {
        None
    } else {
        match first_key(nodes, p[0], 0) {
            None => None,
            Some(i) => if p.len() == 1 {
                Some(nodes[i])
            } else {
                match nodes[i] {
                    InputNode::Node { children, .. } => at(children@, p.drop_first()),
                    InputNode::Leaf { .. } => None,
                }
            },
        }
    }
}

/// Where `first_key` stops.
proof fn lemma_first_key<E>(nodes: Seq<InputNode<E>>, k: Chord, i: int)
    requires
        0 <= i,
    ensures
        match first_key(nodes, k, i) {
            Some(j) => i <= j < nodes.len() && nodes[j].key_spec() == k
                && forall|m: int| i <= m < j ==> (#[trigger] nodes[m]).key_spec() != k,
            None => forall|m: int| i <= m < nodes.len() ==> (#[trigger] nodes[m]).key_spec() != k,
        },
    decreases nodes.len() - i,
{
    if i < nodes.len() && nodes[i].key_spec() != k {
        lemma_first_key(nodes, k, i + 1);
    }
}

/// The first node with key `k` is the one before which none has it.
proof fn lemma_first_key_at<E>(nodes: Seq<InputNode<E>>, k: Chord, j: int, i: int)
    requires
        0 <= j <= i < nodes.len(),
        nodes[i].key_spec() == k,
        forall|m: int| j <= m < i ==> (#[trigger] nodes[m]).key_spec() != k,
    ensures
        first_key(nodes, k, j) == Some(i),
    decreases i - j,
{
    if j < i {
        lemma_first_key_at(nodes, k, j + 1, i);
    }
}

/// Nodes with the same keys, one for one, pick the same index for each chord.
proof fn lemma_first_key_same_keys<E>(a: Seq<InputNode<E>>, b: Seq<InputNode<E>>, k: Chord, i: int)
    requires
        0 <= i,
        a.len() == b.len(),
        forall|m: int| 0 <= m < a.len() ==> (#[trigger] a[m]).key_spec() == b[m].key_spec(),
    ensures
        first_key(a, k, i) == first_key(b, k, i),
    decreases a.len() - i,
{
    if i < a.len() {
        lemma_first_key_same_keys(a, b, k, i + 1);
    }
}

/// A node added at the end is found only by its own key, and only when
/// no earlier node has it.
proof fn lemma_first_key_push<E>(a: Seq<InputNode<E>>, n: InputNode<E>, k: Chord, i: int)
    requires
        0 <= i <= a.len(),
    ensures
        first_key(a.push(n), k, i) == match first_key(a, k, i) {
            Some(j) => Some(j),
            None => if n.key_spec() == k { Some(a.len() as int) } else { None },
        },
    decreases a.len() - i,
{
    if i < a.len() {
        assert(a.push(n)[i] == a[i]);
        lemma_first_key_push(a, n, k, i + 1);
    } else {
        assert(a.push(n)[i] == n);
        assert(first_key(a.push(n), k, i + 1) is None);
    }
}

/// Whether `q` is a proper prefix of `p`.
pub open spec fn proper_prefix(q: Seq<Chord>, p: Seq<Chord>) -> bool {
    q.len() < p.len() && q == p.subrange(0, q.len() as int)
}

/// Whether neither of `p` and `q` starts with the other.
pub open spec fn apart(p: Seq<Chord>, q: Seq<Chord>) -> bool {
    !p.is_prefix_of(q) && !q.is_prefix_of(p)
}

/// What registering the leaf `leaf` at the chords `c` leaves: the leaf at
/// `c`, a node on each shorter path to it (keeping its desc, or with an
/// empty one where there was none), nothing below the leaf, and every
/// other path as it was.
pub open spec fn registered<E>(old: Seq<InputNode<E>>, new: Seq<InputNode<E>>, c: Seq<Chord>, leaf: InputNode<E>) -> bool {
    &&& at(new, c) == Some(leaf)
    &&& forall|q: Seq<Chord>| #![trigger at(new, q)] q.len() > 0 && proper_prefix(q, c) ==> {
        &&& at(new, q) matches Some(InputNode::Node { desc, key, .. })
        &&& key == q.last()
        &&& desc@ == match at(old, q) { Some(n) => n.desc_spec(), None => Seq::<char>::empty() }
    }
    &&& forall|q: Seq<Chord>| #![trigger at(new, q)] proper_prefix(c, q) ==> at(new, q) is None
    &&& forall|q: Seq<Chord>| #![trigger at(new, q)] apart(q, c) ==> at(new, q) == at(old, q)
}

/// What describing the chords `c` with `d` leaves: a node with desc `d`
/// at `c` (the leaf or node that was there keeps everything else; a new
/// one is an empty node), a node on each shorter path to it, and every
/// path that does not lead through `c` as it was.
pub open spec fn described<E>(old: Seq<InputNode<E>>, new: Seq<InputNode<E>>, c: Seq<Chord>, d: Seq<char>) -> bool {
    &&& at(new, c) matches Some(n) && n.desc_spec() == d && n.key_spec() == c.last()
        && match at(old, c) {
            Some(InputNode::Node { children, .. }) => n matches InputNode::Node { children: ch, .. } && ch == children,
            Some(InputNode::Leaf { event, .. }) => n matches InputNode::Leaf { event: ev, .. } && ev == event,
            None => n matches InputNode::Node { children: ch, .. } && ch@.len() == 0,
        }
    &&& forall|q: Seq<Chord>| #![trigger at(new, q)] q.len() > 0 && proper_prefix(q, c) ==> {
        &&& at(new, q) matches Some(InputNode::Node { desc, key, .. })
        &&& key == q.last()
        &&& desc@ == match at(old, q) { Some(n) => n.desc_spec(), None => Seq::<char>::empty() }
    }
    &&& forall|q: Seq<Chord>| #![trigger at(new, q)] proper_prefix(c, q) ==> at(new, q) == at(old, q)
    &&& forall|q: Seq<Chord>| #![trigger at(new, q)] apart(q, c) ==> at(new, q) == at(old, q)
}


/// What `get_or_insert` leaves: `mid` is `old` where a node with key `k`
/// is at `idx`, else `old` with an empty node of key `k` added at `idx`.
pub open spec fn found_or_added<E>(old: Seq<InputNode<E>>, mid: Seq<InputNode<E>>, idx: int, k: Chord) -> bool {
    &&& 0 <= idx < mid.len()
    &&& mid[idx].key_spec() == k
    &&& first_key(mid, k, 0) == Some(idx)
    &&& match first_key(old, k, 0) {
        Some(i) => i == idx && mid == old,
        None => idx == old.len() && mid.drop_last() == old
            && (mid[idx] matches InputNode::Node { desc, children, .. } && desc@.len() == 0 && children@.len() == 0),
    }
}

/// Paths that start with another chord than `k` lead where they led
/// before a node with key `k` was found or added and then replaced.
proof fn lemma_other_paths<E>(old: Seq<InputNode<E>>, mid: Seq<InputNode<E>>, idx: int, made: InputNode<E>, k: Chord, q: Seq<Chord>)
    requires
        found_or_added(old, mid, idx, k),
        made.key_spec() == k,
        q.len() > 0,
        q[0] != k,
    ensures
        at(mid.update(idx, made), q) == at(old, q),
{
    let new = mid.update(idx, made);
    assert forall|m: int| 0 <= m < new.len() implies (#[trigger] new[m]).key_spec() == mid[m].key_spec() by {}
    lemma_first_key_same_keys(new, mid, q[0], 0);
    lemma_first_key(old, q[0], 0);
    lemma_first_key(mid, q[0], 0);
    if first_key(old, k, 0) is None {
        assert(mid == old.push(mid[idx]));
        lemma_first_key_push(old, mid[idx], q[0], 0);
    }
    match first_key(old, q[0], 0) {
        Some(j) => {
            assert(j != idx);
            assert(new[j] == old[j]);
        },
        None => {},
    }
}

/// Paths that start with `k` lead, below the first chord, where they led
/// among the children of the node found or added for `k`.
proof fn lemma_same_paths<E>(old: Seq<InputNode<E>>, mid: Seq<InputNode<E>>, idx: int, made: InputNode<E>,
    kids: Seq<InputNode<E>>, k: Chord, q: Seq<Chord>)
    requires
        found_or_added(old, mid, idx, k),
        made.key_spec() == k,
        kids == match mid[idx] {
            InputNode::Node { children, .. } => children@,
            InputNode::Leaf { .. } => Seq::empty(),
        },
        q.len() > 1,
        q[0] == k,
    ensures
        at(old, q) == at(kids, q.drop_first()),
        at(mid.update(idx, made), q) == match made {
            InputNode::Node { children, .. } => at(children@, q.drop_first()),
            InputNode::Leaf { .. } => None,
        },
{
    let new = mid.update(idx, made);
    assert forall|m: int| 0 <= m < new.len() implies (#[trigger] new[m]).key_spec() == mid[m].key_spec() by {}
    lemma_first_key_same_keys(new, mid, k, 0);
    if first_key(old, k, 0) is None {
        assert(at(old, q) is None);
        assert(kids.len() == 0);
        assert(at(kids, q.drop_first()) is None);
    }
}

/// The one-chord path to where a node with key `k` was found or added.
proof fn lemma_first_path<E>(old: Seq<InputNode<E>>, mid: Seq<InputNode<E>>, idx: int, made: InputNode<E>, k: Chord, q: Seq<Chord>)
    requires
        found_or_added(old, mid, idx, k),
        made.key_spec() == k,
        q.len() == 1,
        q[0] == k,
    ensures
        at(mid.update(idx, made), q) == Some(made),
        at(old, q) == if first_key(old, k, 0) is Some { Some(mid[idx]) } else { None },
{
    let new = mid.update(idx, made);
    assert forall|m: int| 0 <= m < new.len() implies (#[trigger] new[m]).key_spec() == mid[m].key_spec() by {}
    lemma_first_key_same_keys(new, mid, k, 0);
}

/// Registering at a one-chord path where a node has that key.
proof fn lemma_update_one<E>(old: Seq<InputNode<E>>, i: int, leaf: InputNode<E>, c: Seq<Chord>)
    requires
        c.len() == 1,
        first_key(old, c[0], 0) == Some(i),
        leaf is Leaf,
        leaf.key_spec() == c[0],
    ensures
        registered(old, old.update(i, leaf), c, leaf),
{
    lemma_first_key(old, c[0], 0);
    let new = old.update(i, leaf);
    assert(found_or_added(old, old, i, c[0]));
    assert(c.last() == c[0]);
    lemma_first_path(old, old, i, leaf, c[0], c);
    assert forall|q: Seq<Chord>| #![trigger at(new, q)] proper_prefix(c, q) implies at(new, q) is None by {
        assert(q[0] == c[0]);
        lemma_same_paths(old, old, i, leaf, match old[i] {
            InputNode::Node { children, .. } => children@,
            InputNode::Leaf { .. } => Seq::empty(),
        }, c[0], q);
    }
    assert forall|q: Seq<Chord>| #![trigger at(new, q)] apart(q, c) implies at(new, q) == at(old, q) by {
        if q.len() > 0 && q[0] == c[0] {
            assert(c.is_prefix_of(q));
        }
        if q.len() > 0 {
            lemma_other_paths(old, old, i, leaf, c[0], q);
        }
    }
}

/// Registering at a one-chord path where no node has that key.
proof fn lemma_push_one<E>(old: Seq<InputNode<E>>, leaf: InputNode<E>, c: Seq<Chord>)
    requires
        c.len() == 1,
        first_key(old, c[0], 0) is None,
        leaf is Leaf,
        leaf.key_spec() == c[0],
    ensures
        registered(old, old.push(leaf), c, leaf),
{
    let new = old.push(leaf);
    lemma_first_key_push(old, leaf, c[0], 0);
    assert(c.last() == c[0]);
    assert forall|q: Seq<Chord>| #![trigger at(new, q)] proper_prefix(c, q) implies at(new, q) is None by {
        assert(q[0] == c[0]);
        assert(new[old.len() as int] == leaf);
    }
    assert forall|q: Seq<Chord>| #![trigger at(new, q)] apart(q, c) implies at(new, q) == at(old, q) by {
        if q.len() > 0 {
            if q[0] == c[0] {
                assert(c.is_prefix_of(q));
            }
            lemma_first_key_push(old, leaf, q[0], 0);
            lemma_first_key(old, q[0], 0);
            match first_key(old, q[0], 0) {
                Some(j) => {
                    assert(new[j] == old[j]);
                },
                None => {},
            }
        }
    }
}

/// Registering below the first chord lifts to the whole path.
proof fn lemma_descend<E>(old: Seq<InputNode<E>>, mid: Seq<InputNode<E>>, idx: int, made: InputNode<E>,
    kids: Seq<InputNode<E>>, c: Seq<Chord>, leaf: InputNode<E>)
    requires
        c.len() > 1,
        found_or_added(old, mid, idx, c[0]),
        kids == match mid[idx] {
            InputNode::Node { children, .. } => children@,
            InputNode::Leaf { .. } => Seq::empty(),
        },
        made matches InputNode::Node { desc, key, children } && key == c[0] && desc@ == mid[idx].desc_spec()
            && registered(kids, children@, c.drop_first(), leaf),
    ensures
        registered(old, mid.update(idx, made), c, leaf),
{
    let new = mid.update(idx, made);
    let tail = c.drop_first();
    let ch = match made {
        InputNode::Node { children, .. } => children@,
        InputNode::Leaf { .. } => Seq::empty(),
    };
    lemma_same_paths(old, mid, idx, made, kids, c[0], c);
    assert(tail.last() == c.last());
    assert forall|q: Seq<Chord>| #![trigger at(new, q)] q.len() > 0 && proper_prefix(q, c) implies {
        &&& at(new, q) matches Some(InputNode::Node { desc, key, .. })
        &&& key == q.last()
        &&& desc@ == match at(old, q) { Some(n) => n.desc_spec(), None => Seq::<char>::empty() }
    } by {
        assert(q[0] == c[0]);
        if q.len() == 1 {
            lemma_first_path(old, mid, idx, made, c[0], q);
            assert(q.last() == c[0]);
        } else {
            lemma_same_paths(old, mid, idx, made, kids, c[0], q);
            let qt = q.drop_first();
            assert(proper_prefix(qt, tail)) by {
                assert(qt =~= tail.subrange(0, qt.len() as int));
            }
            assert(qt.last() == q.last());
            assert(at(ch, qt) == at(new, q));
        }
    }
    assert forall|q: Seq<Chord>| #![trigger at(new, q)] proper_prefix(c, q) implies at(new, q) is None by {
        assert(q[0] == c[0]);
        lemma_same_paths(old, mid, idx, made, kids, c[0], q);
        let qt = q.drop_first();
        assert(proper_prefix(tail, qt)) by {
            assert(tail =~= qt.subrange(0, tail.len() as int));
        }
        assert(at(ch, qt) == at(new, q));
    }
    assert forall|q: Seq<Chord>| #![trigger at(new, q)] apart(q, c) implies at(new, q) == at(old, q) by {
        if q.len() > 0 {
            if q[0] != c[0] {
                lemma_other_paths(old, mid, idx, made, c[0], q);
            } else {
                if q.len() == 1 {
                    assert(q.is_prefix_of(c));
                }
                lemma_same_paths(old, mid, idx, made, kids, c[0], q);
                let qt = q.drop_first();
                assert(apart(qt, tail)) by {
                    if qt.is_prefix_of(tail) {
                        assert(q.is_prefix_of(c)) by {
                            assert forall|m: int| 0 <= m < q.len() implies q[m] == c[m] by {
                                if m > 0 {
                                    assert(qt[m - 1] == tail[m - 1]);
                                }
                            }
                        }
                    }
                    if tail.is_prefix_of(qt) {
                        assert(c.is_prefix_of(q)) by {
                            assert forall|m: int| 0 <= m < c.len() implies c[m] == q[m] by {
                                if m > 0 {
                                    assert(qt[m - 1] == tail[m - 1]);
                                }
                            }
                        }
                    }
                }
                assert(at(ch, qt) == at(new, q));
            }
        } else {
            assert(q.is_prefix_of(c));
        }
    }
}

/// Describing at a one-chord path.
proof fn lemma_describe_one<E>(old: Seq<InputNode<E>>, mid: Seq<InputNode<E>>, idx: int, made: InputNode<E>, c: Seq<Chord>)
    requires
        c.len() == 1,
        found_or_added(old, mid, idx, c[0]),
        made.key_spec() == c[0],
        match mid[idx] {
            InputNode::Node { key, children, .. } => made matches InputNode::Node { key: k2, children: ch, .. } && ch == children,
            InputNode::Leaf { key, event, .. } => made matches InputNode::Leaf { key: k2, event: ev, .. } && ev == event,
        },
    ensures
        described(old, mid.update(idx, made), c, made.desc_spec()),
{
    let new = mid.update(idx, made);
    let kids = match mid[idx] {
        InputNode::Node { children, .. } => children@,
        InputNode::Leaf { .. } => Seq::empty(),
    };
    lemma_first_path(old, mid, idx, made, c[0], c);
    assert(c.last() == c[0]);
    assert forall|q: Seq<Chord>| #![trigger at(new, q)] proper_prefix(c, q) implies at(new, q) == at(old, q) by {
        assert(q[0] == c[0]);
        lemma_same_paths(old, mid, idx, made, kids, c[0], q);
    }
    assert forall|q: Seq<Chord>| #![trigger at(new, q)] apart(q, c) implies at(new, q) == at(old, q) by {
        if q.len() > 0 {
            if q[0] == c[0] {
                assert(c.is_prefix_of(q));
            }
            lemma_other_paths(old, mid, idx, made, c[0], q);
        }
    }
}

/// Describing below the first chord lifts to the whole path.
proof fn lemma_descend_describe<E>(old: Seq<InputNode<E>>, mid: Seq<InputNode<E>>, idx: int, made: InputNode<E>,
    kids: Seq<InputNode<E>>, c: Seq<Chord>, d: Seq<char>)
    requires
        c.len() > 1,
        found_or_added(old, mid, idx, c[0]),
        kids == match mid[idx] {
            InputNode::Node { children, .. } => children@,
            InputNode::Leaf { .. } => Seq::empty(),
        },
        made matches InputNode::Node { desc, key, children } && key == c[0] && desc@ == mid[idx].desc_spec()
            && described(kids, children@, c.drop_first(), d),
    ensures
        described(old, mid.update(idx, made), c, d),
{
    let new = mid.update(idx, made);
    let tail = c.drop_first();
    let ch = match made {
        InputNode::Node { children, .. } => children@,
        InputNode::Leaf { .. } => Seq::empty(),
    };
    lemma_same_paths(old, mid, idx, made, kids, c[0], c);
    assert(tail.last() == c.last());
    assert forall|q: Seq<Chord>| #![trigger at(new, q)] q.len() > 0 && proper_prefix(q, c) implies {
        &&& at(new, q) matches Some(InputNode::Node { desc, key, .. })
        &&& key == q.last()
        &&& desc@ == match at(old, q) { Some(n) => n.desc_spec(), None => Seq::<char>::empty() }
    } by {
        assert(q[0] == c[0]);
        if q.len() == 1 {
            lemma_first_path(old, mid, idx, made, c[0], q);
            assert(q.last() == c[0]);
        } else {
            lemma_same_paths(old, mid, idx, made, kids, c[0], q);
            let qt = q.drop_first();
            assert(proper_prefix(qt, tail)) by {
                assert(qt =~= tail.subrange(0, qt.len() as int));
            }
            assert(qt.last() == q.last());
            assert(at(ch, qt) == at(new, q));
        }
    }
    assert forall|q: Seq<Chord>| #![trigger at(new, q)] proper_prefix(c, q) implies at(new, q) == at(old, q) by {
        assert(q[0] == c[0]);
        lemma_same_paths(old, mid, idx, made, kids, c[0], q);
        let qt = q.drop_first();
        assert(proper_prefix(tail, qt)) by {
            assert(tail =~= qt.subrange(0, tail.len() as int));
        }
        assert(at(ch, qt) == at(new, q));
    }
    assert forall|q: Seq<Chord>| #![trigger at(new, q)] apart(q, c) implies at(new, q) == at(old, q) by {
        if q.len() > 0 {
            if q[0] != c[0] {
                lemma_other_paths(old, mid, idx, made, c[0], q);
            } else {
                if q.len() == 1 {
                    assert(q.is_prefix_of(c));
                }
                lemma_same_paths(old, mid, idx, made, kids, c[0], q);
                let qt = q.drop_first();
                assert(apart(qt, tail)) by {
                    if qt.is_prefix_of(tail) {
                        assert(q.is_prefix_of(c)) by {
                            assert forall|m: int| 0 <= m < q.len() implies q[m] == c[m] by {
                                if m > 0 {
                                    assert(qt[m - 1] == tail[m - 1]);
                                }
                            }
                        }
                    }
                    if tail.is_prefix_of(qt) {
                        assert(c.is_prefix_of(q)) by {
                            assert forall|m: int| 0 <= m < c.len() implies c[m] == q[m] by {
                                if m > 0 {
                                    assert(qt[m - 1] == tail[m - 1]);
                                }
                            }
                        }
                    }
                }
                assert(at(ch, qt) == at(new, q));
            }
        } else {
            assert(q.is_prefix_of(c));
        }
    }
}

/// The index of the first node with key `chord`, one with an empty desc
/// and no children added at the end where there is none
fn get_or_insert<E>(nodes: &mut Vec<InputNode<E>>, chord: &Chord) -> (r: usize)
    ensures
        r < final(nodes)@.len(),
        match first_key(old(nodes)@, *chord, 0) {
            Some(i) => r == i && final(nodes)@ == old(nodes)@,
            None => r == old(nodes)@.len() && final(nodes)@.len() == old(nodes)@.len() + 1
                && final(nodes)@.drop_last() == old(nodes)@
                && (final(nodes)@[r as int] matches InputNode::Node { desc, key, children }
                && desc@.len() == 0 && key == *chord && children@.len() == 0),
        },
        first_key(final(nodes)@, *chord, 0) == Some(r as int),
{
    proof {
        lemma_first_key(old(nodes)@, *chord, 0);
    }
    let mut i: usize = 0;
    while i < nodes.len()
        invariant
            i <= nodes@.len(),
            nodes@ == old(nodes)@,
            forall|m: int| 0 <= m < i ==> (#[trigger] nodes@[m]).key_spec() != *chord,
        decreases nodes.len() - i,
    {
        if nodes[i].is_chord(chord) {
            proof {
                assert(nodes@[i as int].key_spec() == *chord);
                lemma_first_key(nodes@, *chord, 0);
            }
            return i;
        }
        i = i + 1;
    }
    nodes.push(InputNode::Node {
        desc: String::new(),
        key: *chord,
        children: Vec::new(),
    });
    proof {
        lemma_first_key_push(old(nodes)@, nodes@.last(), *chord, 0);
        assert(nodes@ == old(nodes)@.push(nodes@.last()));
    }
    nodes.len() - 1
}

/// What feeding `chord` into the tree `t` gives: the step `r` and the tree `u` after it.
pub open spec fn stepped<E, B>(t: InputTree<E, B>, u: InputTree<E, B>, chord: Chord, r: Step) -> bool {
    let fed = t.current_spec().push(chord);
    &&& u.root_spec() == t.root_spec()
    &&& u.backup_spec() == t.backup_spec()
    &&& u.backup_desc_spec() == t.backup_desc_spec()
    &&& match at(t.root_spec(), fed) {
        Some(InputNode::Node { .. }) => r is Step && u.current_spec() == fed,
        Some(InputNode::Leaf { .. }) => r matches Step::Complete(cs) && cs@ == fed && u.current_spec().len() == 0,
        None => if fed.len() == 1 && t.backup_spec() is Some {
            r matches Step::Backup(cs) && cs@ == fed && u.current_spec().len() == 0
        } else {
            r is Failed && u.current_spec().len() == 0
        },
    }
}

/// Result of feeding one chord into `InputTree::step`
pub enum Step {
    /// No binding goes on with the chords so far; they are dropped
    Failed,
    /// The chords so far lead to a node; more are awaited
    Step,
    /// The chords, now taken, lead to a leaf, whose event is to run
    Complete(Vec<Chord>),
    /// A single chord that no binding starts with, taken for the backup event
    Backup(Vec<Chord>),
}

pub struct InputTree<E, B> {
    root: Vec<InputNode<E>>,
    current: Vec<Chord>,

    backup: Option<B>,
    backup_desc: Option<String>,
}

impl<E, B> InputTree<E, B> {
    /// The nodes at the top of the tree
    pub closed spec fn root_spec(&self) -> Seq<InputNode<E>> {
        self.root@
    }

    /// The chords fed in since the last sequence ended
    pub closed spec fn current_spec(&self) -> Seq<Chord> {
        self.current@
    }

    /// The event for a single chord that starts no binding
    pub closed spec fn backup_spec(&self) -> Option<B> {
        self.backup
    }

    /// The description of the backup event
    pub closed spec fn backup_desc_spec(&self) -> Option<String> {
        self.backup_desc
    }

    /// Create a new empty tree
    pub fn new() -> (r: Self)
        ensures
            r.root_spec().len() == 0,
            r.current_spec().len() == 0,
            r.backup_spec() is None,
            r.backup_desc_spec() is None,
    {
        InputTree {
            root: Vec::new(),
            current: Vec::new(),

            backup: None,
            backup_desc: None,
        }
    }

    /// Retrieves the node found when using the chords
    pub fn find(&self, chords: &[Chord]) -> (r: Option<&InputNode<E>>)
        ensures
            match at(self.root_spec(), chords@) {
                Some(n) => r == Some(&n),
                None => r is None,
            },
    {
        find_in(self.root.as_slice(), chords)
    }

    /// The event of the leaf that the chords lead to, if they lead to one
    pub fn event(&self, chords: &[Chord]) -> (r: Option<&E>)
        ensures
            match at(self.root_spec(), chords@) {
                Some(InputNode::Leaf { event, .. }) => r == Some(&event),
                _ => r is None,
            },
    {
        match self.find(chords) {
            Some(InputNode::Leaf { event, .. }) => Some(event),
            _ => None,
        }
    }

    /// The backup event, if one is set
    pub fn backup(&self) -> (r: Option<&B>)
        ensures
            match self.backup_spec() {
                Some(b) => r == Some(&b),
                None => r is None,
            },
    {
        match &self.backup {
            Some(b) => Some(b),
            None => None,
        }
    }

    /// Feed a single chord into the tree, advancing from wherever the last `step` left off
    pub fn step(&mut self, chord: Chord) -> (r: Step)
        ensures
            stepped(*old(self), *final(self), chord, r),
    {
        self.current.push(chord);

        match self.find(self.current.as_slice()) {
            Some(InputNode::Node { .. }) => Step::Step,
            Some(InputNode::Leaf { .. }) => {
                let mut chords = Vec::new();
                std::mem::swap(&mut chords, &mut self.current);
                Step::Complete(chords)
            },
            None => {
                // Only 1 chord input and a backup method exists
                if self.current.len() == 1 && self.backup.is_some() {
                    let mut chords = Vec::new();
                    std::mem::swap(&mut chords, &mut self.current);
                    return Step::Backup(chords);
                }

                self.current.clear();
                Step::Failed
            },
        }
    }

    /// The node the chords fed so far lead to
    pub fn find_current(&self) -> (r: Option<&InputNode<E>>)
        ensures
            match at(self.root_spec(), self.current_spec()) {
                Some(n) => r == Some(&n),
                None => r is None,
            },
    {
        find_in(self.root.as_slice(), self.current.as_slice())
    }

    /// The nodes at the top of the tree
    pub fn root_nodes(&self) -> (r: &[InputNode<E>])
        ensures
            r@ == self.root_spec(),
    {
        self.root.as_slice()
    }

    /// How many chords have been fed since the last sequence ended
    pub fn current_len(&self) -> (r: usize)
        ensures
            r == self.current_spec().len(),
    {
        self.current.len()
    }

    /// The description of the backup event, if one is set
    pub fn backup_desc(&self) -> (r: Option<&String>)
        ensures
            match self.backup_desc_spec() {
                Some(d) => r == Some(&d),
                None => r is None,
            },
    {
        match &self.backup_desc {
            Some(d) => Some(d),
            None => None,
        }
    }

    /// Discard any in-progress chord sequence
    pub fn reset(&mut self)
        ensures
            final(self).root_spec() == old(self).root_spec(),
            final(self).current_spec().len() == 0,
            final(self).backup_spec() == old(self).backup_spec(),
            final(self).backup_desc_spec() == old(self).backup_desc_spec(),
    {
        self.current.clear();
    }

    pub fn set_backup(&mut self, backup: B, desc: String)
        ensures
            final(self).root_spec() == old(self).root_spec(),
            final(self).current_spec() == old(self).current_spec(),
            final(self).backup_spec() == Some(backup),
            final(self).backup_desc_spec() == Some(desc),
    {
        self.backup = Some(backup);
        self.backup_desc = Some(desc);
    }

    pub fn clear_backup(&mut self)
        ensures
            final(self).root_spec() == old(self).root_spec(),
            final(self).current_spec() == old(self).current_spec(),
            final(self).backup_spec() is None,
            final(self).backup_desc_spec() is None,
    {
        self.backup = None;
        self.backup_desc = None;
    }

    /// Binds the chords written as `keys` to `event`, failing with the
    /// first that does not parse
    pub fn bind(&mut self, keys: &[&str], desc: String, event: E) -> (r: Result<(), ParseError>)
        ensures
            final(self).current_spec() == old(self).current_spec(),
            final(self).backup_spec() == old(self).backup_spec(),
            final(self).backup_desc_spec() == old(self).backup_desc_spec(),
            r is Ok <==> forall|i: int| 0 <= i < keys@.len() ==> #[trigger] keys@[i]@.len() > 0 && chord_parse(keys@[i]@) is Ok,
            r is Ok ==> {
                let c = Seq::new(keys@.len(), |i: int| chord_parse(keys@[i]@)->Ok_0);
                if c.len() == 0 {
                    final(self).root_spec() == old(self).root_spec()
                } else {
                    registered(old(self).root_spec(), final(self).root_spec(), c,
                        InputNode::Leaf { desc, key: c.last(), event })
                }
            },
            r is Err ==> final(self).root_spec() == old(self).root_spec(),
    {
        let chords = parse_all(keys)?;
        self.register(chords.as_slice(), desc, event);
        Ok(())
    }

    /// Binds the chords to `event`, replacing what they led to; the
    /// shorter paths to it become nodes
    pub fn register(&mut self, chords: &[Chord], desc: String, event: E)
        ensures
            final(self).current_spec() == old(self).current_spec(),
            final(self).backup_spec() == old(self).backup_spec(),
            final(self).backup_desc_spec() == old(self).backup_desc_spec(),
            chords@.len() == 0 ==> final(self).root_spec() == old(self).root_spec(),
            chords@.len() > 0 ==> registered(old(self).root_spec(), final(self).root_spec(), chords@,
                InputNode::Leaf { desc, key: chords@.last(), event }),
    {
        if chords.len() == 0 {
            return;
        }
        register_in(&mut self.root, chords, desc, event);
    }

    /// Sets the description of the node that the chords written as `keys`
    /// lead to, failing with the first that does not parse
    pub fn desc(&mut self, keys: &[&str], desc: String) -> (r: Result<(), ParseError>)
        requires
            keys@.len() > 0,
        ensures
            final(self).current_spec() == old(self).current_spec(),
            final(self).backup_spec() == old(self).backup_spec(),
            final(self).backup_desc_spec() == old(self).backup_desc_spec(),
            r is Ok <==> forall|i: int| 0 <= i < keys@.len() ==> #[trigger] keys@[i]@.len() > 0 && chord_parse(keys@[i]@) is Ok,
            r is Ok ==> described(old(self).root_spec(), final(self).root_spec(),
                Seq::new(keys@.len(), |i: int| chord_parse(keys@[i]@)->Ok_0), desc@),
            r is Err ==> final(self).root_spec() == old(self).root_spec(),
    {
        let chords = parse_all(keys)?;
        self.describe(chords.as_slice(), desc);
        Ok(())
    }

    /// Sets the description of the node that the chords lead to, making
    /// it (and each node on the way) where there is none
    pub fn describe(&mut self, chords: &[Chord], desc: String)
        requires
            chords@.len() > 0,
        ensures
            final(self).current_spec() == old(self).current_spec(),
            final(self).backup_spec() == old(self).backup_spec(),
            final(self).backup_desc_spec() == old(self).backup_desc_spec(),
            described(old(self).root_spec(), final(self).root_spec(), chords@, desc@),
    {
        describe_in(&mut self.root, chords, desc);
    }
}

/// The chords written as `keys`, or the error of the first that does not parse
fn parse_all(keys: &[&str]) -> (r: Result<Vec<Chord>, ParseError>)
    ensures
        r is Ok <==> forall|i: int| 0 <= i < keys@.len() ==> #[trigger] keys@[i]@.len() > 0 && chord_parse(keys@[i]@) is Ok,
        r matches Ok(v) ==> v@ == Seq::new(keys@.len(), |i: int| chord_parse(keys@[i]@)->Ok_0),
{
    let mut out: Vec<Chord> = Vec::new();
    let mut i: usize = 0;
    while i < keys.len()
        invariant
            i <= keys@.len(),
            out@.len() == i,
            forall|j: int| 0 <= j < i ==> #[trigger] keys@[j]@.len() > 0 && chord_parse(keys@[j]@) is Ok,
            forall|j: int| 0 <= j < i ==> #[trigger] out@[j] == chord_parse(keys@[j]@)->Ok_0,
        decreases keys.len() - i,
    {
        let c = parse_chord(keys[i])?;
        out.push(c);
        i = i + 1;
    }
    assert(out@ =~= Seq::new(keys@.len(), |i: int| chord_parse(keys@[i]@)->Ok_0));
    Ok(out)
}

/// The node that the chords lead to from `nodes`
fn find_in<'a, E>(nodes: &'a [InputNode<E>], chords: &[Chord]) -> (r: Option<&'a InputNode<E>>)
    ensures
        match at(nodes@, chords@) {
            Some(n) => r == Some(&n),
            None => r is None,
        },
    decreases chords@.len(),
{
    if chords.len() == 0 {
        return None;
    }
    proof {
        lemma_first_key(nodes@, chords@[0], 0);
    }
    let mut i: usize = 0;
    while i < nodes.len()
        invariant
            i <= nodes@.len(),
            chords@.len() > 0,
            forall|m: int| 0 <= m < i ==> (#[trigger] nodes@[m]).key_spec() != chords@[0],
        decreases nodes.len() - i,
    {
        if nodes[i].is_chord(&chords[0]) {
            proof {
                assert(nodes@[i as int].key_spec() == chords@[0]);
                lemma_first_key_at(nodes@, chords@[0], 0, i as int);
            }
            if chords.len() == 1 {
                return Some(&nodes[i]);
            }
            let rest = vstd::slice::slice_subrange(chords, 1, chords.len());
            assert(rest@ =~= chords@.drop_first());
            return match nodes[i].children() {
                Some(children) => find_in(children, rest),
                None => None,
            };
        }
        i = i + 1;
    }
    None
}

/// Registers the leaf at the chords among `nodes`
fn register_in<E>(nodes: &mut Vec<InputNode<E>>, chords: &[Chord], desc: String, event: E)
    requires
        chords@.len() > 0,
    ensures
        registered(old(nodes)@, final(nodes)@, chords@, InputNode::Leaf { desc, key: chords@.last(), event }),
    decreases chords@.len(),
{
    let n = chords.len();
    if n == 1 {
        let leaf = InputNode::Leaf { desc, key: chords[0], event };
        let ghost lf = leaf;
        proof {
            lemma_first_key(old(nodes)@, chords@[0], 0);
        }
        let mut i: usize = 0;
        while i < nodes.len()
            invariant
                i <= nodes@.len(),
                chords@.len() == 1,
                nodes@ == old(nodes)@,
                lf == leaf,
                lf == (InputNode::Leaf { desc, key: chords@[0], event }),
                forall|m: int| 0 <= m < i ==> (#[trigger] nodes@[m]).key_spec() != chords@[0],
            decreases nodes.len() - i,
        {
            if nodes[i].is_chord(&chords[0]) {
                proof {
                    assert(nodes@[i as int].key_spec() == chords@[0]);
                    lemma_first_key_at(nodes@, chords@[0], 0, i as int);
                }
                nodes.set(i, leaf);
                proof {
                    lemma_update_one(old(nodes)@, i as int, lf, chords@);
                }
                return;
            }
            i = i + 1;
        }
        nodes.push(leaf);
        proof {
            lemma_push_one(old(nodes)@, lf, chords@);
        }
        return;
    }

    let idx = get_or_insert(nodes, &chords[0]);
    let ghost mid = nodes@;
    proof {
        lemma_first_key(mid, chords@[0], 0);
    }
    let node = nodes.remove(idx);
    let (d, key, mut children) = node.into_node();
    let ghost kids = children@;
    proof {
        if mid[idx as int] is Leaf {
            assert(kids =~= Seq::<InputNode<E>>::empty());
        }
    }
    let rest = vstd::slice::slice_subrange(chords, 1, n);
    assert(rest@ =~= chords@.drop_first());
    let ghost lf = InputNode::Leaf { desc, key: chords@.last(), event };
    assert(rest@.last() == chords@.last());
    register_in(&mut children, rest, desc, event);
    let ghost made = InputNode::Node { desc: d, key, children };
    nodes.insert(idx, InputNode::Node { desc: d, key, children });
    proof {
        assert(nodes@ =~= mid.update(idx as int, made));
        lemma_descend(old(nodes)@, mid, idx as int, made, kids, chords@, lf);
    }
}

/// Describes the node at the chords among `nodes`
fn describe_in<E>(nodes: &mut Vec<InputNode<E>>, chords: &[Chord], desc: String)
    requires
        chords@.len() > 0,
    ensures
        described(old(nodes)@, final(nodes)@, chords@, desc@),
    decreases chords@.len(),
{
    let n = chords.len();
    let idx = get_or_insert(nodes, &chords[0]);
    let ghost mid = nodes@;
    proof {
        lemma_first_key(mid, chords@[0], 0);
    }
    if n == 1 {
        let mut node = nodes.remove(idx);
        node.set_desc(desc);
        let ghost made = node;
        nodes.insert(idx, node);
        proof {
            assert(nodes@ =~= mid.update(idx as int, made));
            lemma_describe_one(old(nodes)@, mid, idx as int, made, chords@);
        }
        return;
    }

    let node = nodes.remove(idx);
    let (d, key, mut children) = node.into_node();
    let ghost kids = children@;
    proof {
        if mid[idx as int] is Leaf {
            assert(kids =~= Seq::<InputNode<E>>::empty());
        }
    }
    let rest = vstd::slice::slice_subrange(chords, 1, n);
    assert(rest@ =~= chords@.drop_first());
    describe_in(&mut children, rest, desc);
    let ghost made = InputNode::Node { desc: d, key, children };
    nodes.insert(idx, InputNode::Node { desc: d, key, children });
    proof {
        assert(nodes@ =~= mid.update(idx as int, made));
        lemma_descend_describe(old(nodes)@, mid, idx as int, made, kids, chords@, desc@);
    }
}

} // verus!
