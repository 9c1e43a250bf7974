//! Editor modes, each with its own input tree; chords go to the current one.
use vstd::prelude::*;
use crate::input::Chord;
use crate::input::tree::{at, first_key, stepped, InputNode, InputTree, Step};
use crate::text::str_eq;

verus! {

/// The tree of the first entry named `name`, and its index.
pub open spec fn tree_index<E, B>(trees: Seq<(String, InputTree<E, B>)>, name: Seq<char>, i: int) -> Option<int>
    decreases trees.len() - i,
{
    if i < 0 || i >= trees.len() {
        None
    } else if trees[i].0@ == name {
        Some(i)
    } else {
        tree_index(trees, name, i + 1)
    }
}

proof fn lemma_tree_index<E, B>(trees: Seq<(String, InputTree<E, B>)>, name: Seq<char>, i: int)
    requires
        0 <= i,
    ensures
        match tree_index(trees, name, i) {
            Some(j) => i <= j < trees.len() && trees[j].0@ == name
                && forall|m: int| i <= m < j ==> (#[trigger] trees[m]).0@ != name,
            None => forall|m: int| i <= m < trees.len() ==> (#[trigger] trees[m]).0@ != name,
        },
    decreases trees.len() - i,
{
    if i < trees.len() && trees[i].0@ != name {
        lemma_tree_index(trees, name, i + 1);
    }
}

proof fn lemma_tree_index_at<E, B>(trees: Seq<(String, InputTree<E, B>)>, name: Seq<char>, j: int, i: int)
    requires
        0 <= j <= i < trees.len(),
        trees[i].0@ == name,
        forall|m: int| j <= m < i ==> (#[trigger] trees[m]).0@ != name,
    ensures
        tree_index(trees, name, j) == Some(i),
    decreases i - j,
{
    if j < i {
        lemma_tree_index_at(trees, name, j + 1, i);
    }
}

/// The tree of the first entry named `name`, if there is one.
pub open spec fn tree_in<E, B>(trees: Seq<(String, InputTree<E, B>)>, name: Seq<char>) -> Option<InputTree<E, B>> {
    match tree_index(trees, name, 0) {
        Some(i) => Some(trees[i].1),
        None => None,
    }
}

/// A tree with no bindings, no chords fed and no backup.
pub open spec fn is_empty_tree<E, B>(t: InputTree<E, B>) -> bool {
    &&& t.root_spec().len() == 0
    &&& t.current_spec().len() == 0
    &&& t.backup_spec() is None
    &&& t.backup_desc_spec() is None
}

/// A set of user-defined modes, each with its own `InputTree`, with stepping routed to whichever mode is current
pub struct InputState<E, B> {
    trees: Vec<(String, InputTree<E, B>)>,
    mode: String,
}

impl<E, B> InputState<E, B> {
    /// The modes with their trees
    pub closed spec fn trees_spec(&self) -> Seq<(String, InputTree<E, B>)> {
        self.trees@
    }

    /// The current mode
    pub closed spec fn mode_spec(&self) -> Seq<char> {
        self.mode@
    }

    /// The tree of a mode, if it has one
    pub open spec fn tree_of(&self, name: Seq<char>) -> Option<InputTree<E, B>> {
        tree_in(self.trees_spec(), name)
    }

    /// Create a new state starting in the given mode
    pub fn new(mode: String) -> (r: Self)
        ensures
            r.mode_spec() == mode@,
            r.trees_spec().len() == 1,
            r.trees_spec()[0].0@ == mode@,
            is_empty_tree(r.trees_spec()[0].1),
    {
        let mut trees = Vec::new();
        trees.push((mode.clone(), InputTree::new()));
        InputState { trees, mode }
    }

    /// Name of the currently active mode
    pub fn mode(&self) -> (r: &str)
        ensures
            r@ == self.mode_spec(),
    {
        self.mode.as_str()
    }

    /// The index of the tree of `name`, made empty where there is none
    fn index_or_create(&mut self, name: &str) -> (r: usize)
        ensures
            final(self).mode_spec() == old(self).mode_spec(),
            r < final(self).trees_spec().len(),
            tree_index(final(self).trees_spec(), name@, 0) == Some(r as int),
            match tree_index(old(self).trees_spec(), name@, 0) {
                Some(i) => r == i && final(self).trees_spec() == old(self).trees_spec(),
                None => r == old(self).trees_spec().len()
                    && final(self).trees_spec().drop_last() == old(self).trees_spec()
                    && final(self).trees_spec()[r as int].0@ == name@
                    && is_empty_tree(final(self).trees_spec()[r as int].1),
            },
    {
        proof {
            lemma_tree_index(self.trees@, name@, 0);
        }
        let mut i: usize = 0;
        while i < self.trees.len()
            invariant
                i <= self.trees@.len(),
                self.trees@ == old(self).trees@,
                self.mode == old(self).mode,
                forall|m: int| 0 <= m < i ==> (#[trigger] self.trees@[m]).0@ != name@,
            decreases self.trees.len() - i,
        {
            if str_eq(self.trees[i].0.as_str(), name) {
                proof {
                    lemma_tree_index_at(self.trees@, name@, 0, i as int);
                }
                return i;
            }
            i = i + 1;
        }
        self.trees.push((name.to_owned(), InputTree::new()));
        proof {
            let t = self.trees@;
            assert forall|m: int| 0 <= m < t.len() - 1 implies (#[trigger] t[m]).0@ != name@ by {
                assert(t[m] == old(self).trees@[m]);
            }
            lemma_tree_index_at(t, name@, 0, t.len() - 1);
            assert(t.drop_last() =~= old(self).trees@);
        }
        self.trees.len() - 1
    }

    /// Switch the active mode, discarding any in-progress chord sequence, creating the mode's tree if it doesn't exist yet
    pub fn set_mode(&mut self, mode: String)
        ensures
            final(self).mode_spec() == mode@,
            final(self).tree_of(mode@) is Some,
            forall|name: Seq<char>| name != mode@ && name != old(self).mode_spec() ==>
                #[trigger] final(self).tree_of(name) == old(self).tree_of(name),
            (old(self).tree_of(old(self).mode_spec()) is Some && old(self).mode_spec() != mode@) ==> ({
                let t = old(self).tree_of(old(self).mode_spec())->Some_0;
                final(self).tree_of(old(self).mode_spec()) matches Some(u) && u.current_spec().len() == 0
                && u.root_spec() == t.root_spec() && u.backup_spec() == t.backup_spec()
                && u.backup_desc_spec() == t.backup_desc_spec()
            }),
    {
        let mut i: usize = 0;
        let ghost t0 = self.trees@;
        proof {
            lemma_tree_index(t0, self.mode@, 0);
        }
        while i < self.trees.len()
            invariant
                i <= self.trees@.len(),
                self.trees@ == t0,
                self.trees@ == old(self).trees@,
                self.mode == old(self).mode,
                forall|m: int| 0 <= m < i ==> (#[trigger] self.trees@[m]).0@ != self.mode@,
            ensures
                i <= self.trees@.len(),
                self.trees@ == t0,
                self.mode == old(self).mode,
                forall|m: int| 0 <= m < i ==> (#[trigger] self.trees@[m]).0@ != self.mode@,
                i < self.trees@.len() ==> self.trees@[i as int].0@ == self.mode@,
            decreases self.trees.len() - i,
        {
            if str_eq(self.trees[i].0.as_str(), self.mode.as_str()) {
                break;
            }
            i = i + 1;
        }
        let ghost t1 = self.trees@;
        if i < self.trees.len() {
            proof {
                lemma_tree_index_at(t0, old(self).mode@, 0, i as int);
            }
            let (name, mut tree) = self.trees.remove(i);
            tree.reset();
            self.trees.insert(i, (name, tree));
            proof {
                let t = self.trees@;
                assert(t =~= t0.update(i as int, t[i as int]));
                lemma_update_same_names(t0, i as int, t[i as int]);
            }
        }
        let ghost t2 = self.trees@;
        self.mode = mode;
        let m = self.mode.clone();
        let _ = self.index_or_create(m.as_str());
        proof {
            let t3 = self.trees@;
            assert forall|name: Seq<char>| name != mode@ && name != old(self).mode_spec() implies
                #[trigger] self.tree_of(name) == old(self).tree_of(name) by {
                lemma_tree_index(t3, name, 0);
                lemma_tree_index(t2, name, 0);
                lemma_tree_index(t0, name, 0);
                if tree_index(t2, mode@, 0) is None {
                    lemma_push_other_name(t2, t3, name);
                }
                if i < t0.len() {
                    lemma_update_other_name(t0, i as int, t2[i as int], name);
                }
            }
            if old(self).mode_spec() != mode@ && old(self).tree_of(old(self).mode_spec()) is Some {
                lemma_tree_index(t0, old(self).mode_spec(), 0);
                if tree_index(t2, mode@, 0) is None {
                    lemma_push_other_name(t2, t3, old(self).mode_spec());
                }
            }
        }
    }

    /// The tree of `mode`, made empty where there is none
    pub fn tree(&mut self, mode: &str) -> (r: &mut InputTree<E, B>)
        ensures
            final(self).mode_spec() == old(self).mode_spec(),
            *r == match old(self).tree_of(mode@) {
                Some(t) => t,
                None => *r,
            },
            old(self).tree_of(mode@) is None ==> is_empty_tree(*r),
            final(self).tree_of(mode@) == Some(*final(r)),
            forall|name: Seq<char>| name != mode@ ==> #[trigger] final(self).tree_of(name) == old(self).tree_of(name),
    {
        let i = self.index_or_create(mode);
        proof {
            lemma_update_any_tree(self.trees@, i as int);
            lemma_tree_index(self.trees@, mode@, 0);
            lemma_other_modes_kept(old(self).trees@, self.trees@, i as int, mode@);
        }
        let r = &mut self.trees[i].1;
        r
    }

    /// Feed a single chord into the current mode's tree
    pub fn step(&mut self, chord: Chord) -> (r: Step)
        ensures
            final(self).mode_spec() == old(self).mode_spec(),
            ({
                let t = match old(self).tree_of(old(self).mode_spec()) {
                    Some(t) => t,
                    None => old(self).tree_of(old(self).mode_spec())->Some_0,
                };
                (final(self).tree_of(old(self).mode_spec()) matches Some(u)
                    && (old(self).tree_of(old(self).mode_spec()) is None ==> u.root_spec().len() == 0 && u.backup_spec() is None)
                    && (old(self).tree_of(old(self).mode_spec()) is Some ==> stepped(t, u, chord, r)))
            }),
            forall|name: Seq<char>| name != old(self).mode_spec() ==> #[trigger] final(self).tree_of(name) == old(self).tree_of(name),
            old(self).tree_of(old(self).mode_spec()) is None ==> r is Failed,
    {
        let m = self.mode.clone();
        let i = self.index_or_create(m.as_str());
        let ghost mid = self.trees@;
        let ghost fresh = tree_index(old(self).trees@, m@, 0) is None;
        proof {
            lemma_tree_index(mid, m@, 0);
        }
        let (name, mut tree) = self.trees.remove(i);
        let ghost t0 = tree;
        let r = tree.step(chord);
        proof {
            if fresh {
                assert(is_empty_tree(t0));
                let fed = t0.current_spec().push(chord);
                assert(fed.len() == 1);
                assert(first_key(t0.root_spec(), fed[0], 0) is None);
                assert(at(t0.root_spec(), fed) is None);
            }
        }
        self.trees.insert(i, (name, tree));
        proof {
            let t = self.trees@;
            assert(t =~= mid.update(i as int, t[i as int]));
            lemma_update_same_names(mid, i as int, t[i as int]);
            assert forall|nm: Seq<char>| nm != old(self).mode_spec() implies
                #[trigger] self.tree_of(nm) == old(self).tree_of(nm) by {
                lemma_update_other_name(mid, i as int, t[i as int], nm);
                if tree_index(old(self).trees@, m@, 0) is None {
                    lemma_push_other_name(old(self).trees@, mid, nm);
                }
            }
        }
        r
    }

    /// Returns if a chord is currently in progress
    pub fn is_active(&self) -> (r: bool)
        ensures
            r == (self.tree_of(self.mode_spec()) is Some && self.tree_of(self.mode_spec())->Some_0.current_spec().len() > 0),
    {
        proof {
            lemma_tree_index(self.trees@, self.mode@, 0);
        }
        let mut i: usize = 0;
        while i < self.trees.len()
            invariant
                i <= self.trees@.len(),
                forall|m: int| 0 <= m < i ==> (#[trigger] self.trees@[m]).0@ != self.mode@,
            decreases self.trees.len() - i,
        {
            if str_eq(self.trees[i].0.as_str(), self.mode.as_str()) {
                proof {
                    lemma_tree_index_at(self.trees@, self.mode@, 0, i as int);
                }
                return self.trees[i].1.current_len() > 0;
            }
            i = i + 1;
        }
        false
    }

    /// Returns a list of items at the current layer of the input node
    pub fn get_layer(&self) -> (r: Vec<(Option<Chord>, String)>)
        ensures
            match self.tree_of(self.mode_spec()) {
                None => r@.len() == 0,
                Some(t) => match at(t.root_spec(), t.current_spec()) {
                    Some(InputNode::Leaf { .. }) => r@.len() == 0,
                    found => {
                        let layer = match found {
                            Some(InputNode::Node { children, .. }) => children@,
                            _ => t.root_spec(),
                        };
                        &&& r@.len() == layer.len() + if t.backup_desc_spec() is Some { 1int } else { 0int }
                        &&& forall|i: int| 0 <= i < layer.len() ==> (#[trigger] r@[i]).0 == Some(layer[i].key_spec())
                            && r@[i].1@ == layer[i].desc_spec()
                        &&& (t.backup_desc_spec() matches Some(d) ==> (r@[layer.len() as int].0 is None
                            && r@[layer.len() as int].1@ == d@))
                    },
                },
            },
    {
        let mut out: Vec<(Option<Chord>, String)> = Vec::new();
        proof {
            lemma_tree_index(self.trees@, self.mode@, 0);
        }
        let mut k: usize = 0;
        while k < self.trees.len()
            invariant
                k <= self.trees@.len(),
                forall|m: int| 0 <= m < k ==> (#[trigger] self.trees@[m]).0@ != self.mode@,
            ensures
                k <= self.trees@.len(),
                forall|m: int| 0 <= m < k ==> (#[trigger] self.trees@[m]).0@ != self.mode@,
                k < self.trees@.len() ==> self.trees@[k as int].0@ == self.mode@,
            decreases self.trees.len() - k,
        {
            if str_eq(self.trees[k].0.as_str(), self.mode.as_str()) {
                break;
            }
            k = k + 1;
        }
        if k >= self.trees.len() {
            return out;
        }
        proof {
            lemma_tree_index_at(self.trees@, self.mode@, 0, k as int);
        }
        let tree = &self.trees[k].1;

        let found: &[InputNode<E>] = match tree.find_current() {
            Some(node) => match node.children() {
                Some(nodes) => nodes,
                None => {
                    return out;
                },
            },
            None => tree.root_nodes(),
        };

        // Add all children to the layer
        let mut i: usize = 0;
        while i < found.len()
            invariant
                i <= found@.len(),
                out@.len() == i,
                forall|j: int| 0 <= j < i ==> (#[trigger] out@[j]).0 == Some(found@[j].key_spec())
                    && out@[j].1@ == found@[j].desc_spec(),
            decreases found.len() - i,
        {
            let child = &found[i];
            out.push((Some(child.key()), child.desc().to_owned()));
            i = i + 1;
        }

        match tree.backup_desc() {
            Some(d) => {
                out.push((None, d.clone()));
            },
            None => {},
        }

        out
    }
}

/// Replacing an entry by one of the same name keeps where each name is found.
proof fn lemma_update_same_names<E, B>(t: Seq<(String, InputTree<E, B>)>, i: int, e: (String, InputTree<E, B>))
    requires
        0 <= i < t.len(),
        e.0@ == t[i].0@,
    ensures
        forall|name: Seq<char>| #[trigger] tree_index(t.update(i, e), name, 0) == tree_index(t, name, 0),
{
    assert forall|name: Seq<char>| #[trigger] tree_index(t.update(i, e), name, 0) == tree_index(t, name, 0) by {
        lemma_same_names(t.update(i, e), t, name, 0);
    }
}

/// Putting any tree in place of entry `i`, under the same name, keeps where each name is found.
proof fn lemma_update_any_tree<E, B>(t: Seq<(String, InputTree<E, B>)>, i: int)
    requires
        0 <= i < t.len(),
    ensures
        forall|e: (String, InputTree<E, B>), name: Seq<char>| e.0 == t[i].0 ==>
            #[trigger] tree_index(t.update(i, e), name, 0) == tree_index(t, name, 0),
{
    assert forall|e: (String, InputTree<E, B>), name: Seq<char>| e.0 == t[i].0 implies
        #[trigger] tree_index(t.update(i, e), name, 0) == tree_index(t, name, 0) by {
        lemma_same_names(t.update(i, e), t, name, 0);
    }
}

proof fn lemma_same_names<E, B>(a: Seq<(String, InputTree<E, B>)>, b: Seq<(String, InputTree<E, B>)>, name: Seq<char>, i: int)
    requires
        0 <= i,
        a.len() == b.len(),
        forall|m: int| 0 <= m < a.len() ==> (#[trigger] a[m]).0@ == b[m].0@,
    ensures
        tree_index(a, name, i) == tree_index(b, name, i),
    decreases a.len() - i,
{
    if i < a.len() {
        lemma_same_names(a, b, name, i + 1);
    }
}

/// A name other than the replaced entry's finds the same tree.
proof fn lemma_update_other_name<E, B>(t: Seq<(String, InputTree<E, B>)>, i: int, e: (String, InputTree<E, B>), name: Seq<char>)
    requires
        0 <= i < t.len(),
        e.0@ == t[i].0@,
        t[i].0@ != name,
    ensures
        match tree_index(t, name, 0) {
            Some(j) => tree_index(t.update(i, e), name, 0) == Some(j) && t.update(i, e)[j] == t[j],
            None => tree_index(t.update(i, e), name, 0) is None,
        },
{
    lemma_update_same_names(t, i, e);
    lemma_tree_index(t, name, 0);
}

/// Putting any tree, under the same name, in place of the entry of `mode`
/// (found in `o`, or added after it) keeps the tree of every other name.
proof fn lemma_other_modes_kept<E, B>(o: Seq<(String, InputTree<E, B>)>, t1: Seq<(String, InputTree<E, B>)>, i: int, mode: Seq<char>)
    requires
        0 <= i < t1.len(),
        t1[i].0@ == mode,
        t1 == o || (t1.len() == o.len() + 1 && t1.drop_last() == o && i == o.len()),
    ensures
        forall|e: (String, InputTree<E, B>), name: Seq<char>| e.0 == t1[i].0 && name != mode ==>
            #[trigger] tree_in(t1.update(i, e), name) == tree_in(o, name),
{
    assert forall|e: (String, InputTree<E, B>), name: Seq<char>| e.0 == t1[i].0 && name != mode implies
        #[trigger] tree_in(t1.update(i, e), name) == tree_in(o, name) by {
        lemma_update_other_name(t1, i, e, name);
        if t1 != o {
            lemma_push_other_name(o, t1, name);
        }
    }
}

/// Adding an entry at the end leaves every other name where it was.
proof fn lemma_push_other_name<E, B>(t: Seq<(String, InputTree<E, B>)>, u: Seq<(String, InputTree<E, B>)>, name: Seq<char>)
    requires
        u.len() == t.len() + 1,
        u.drop_last() == t,
        u.last().0@ != name,
    ensures
        tree_index(u, name, 0) == tree_index(t, name, 0),
        match tree_index(t, name, 0) {
            Some(j) => u[j] == t[j],
            None => true,
        },
{
    lemma_tree_index(t, name, 0);
    lemma_tree_index(u, name, 0);
    match tree_index(t, name, 0) {
        Some(j) => {
            assert(u[j] == t[j]);
            assert forall|m: int| 0 <= m < j implies (#[trigger] u[m]).0@ != name by {
                assert(u[m] == t[m]);
            }
            lemma_tree_index_at(u, name, 0, j);
        },
        None => {
            assert forall|m: int| 0 <= m < t.len() implies (#[trigger] u[m]).0@ != name by {
                assert(u[m] == t[m]);
            }
        },
    }
}

} // verus!
