//! The variables a kaon program can see: a stack of frames.
use vstd::prelude::*;
use crate::text::str_eq;

verus! {

/// One frame of variables; a blocking frame hides the frames beneath it
/// (all but the global one) from lookups.
pub struct Frame<V> {
    variables: Vec<(String, V)>,
    blocking: bool,
}

/// The value of `k` among `vars[i..]`: the first entry named `k`.
pub open spec fn var_find<V>(vars: Seq<(String, V)>, k: Seq<char>, i: int) -> Option<V>
    decreases vars.len() - i,
{
    if i < 0 || i >= vars.len() {
        None
    } else if vars[i].0@ == k {
        Some(vars[i].1)
    } else {
        var_find(vars, k, i + 1)
    }
}

impl<V> Frame<V> {
    /// The value this frame gives `k`
    pub closed spec fn get_spec(&self, k: Seq<char>) -> Option<V> {
        var_find(self.variables@, k, 0)
    }

    /// Whether this frame blocks lookups from reaching the frames beneath it
    pub closed spec fn is_blocking(&self) -> bool {
        self.blocking
    }

    fn empty(blocking: bool) -> (r: Self)
        ensures
            r.is_blocking() == blocking,
            forall|k: Seq<char>| #[trigger] r.get_spec(k) is None,
    {
        Frame { variables: Vec::new(), blocking }
    }
}

/// The index of the topmost blocking frame among `frames[..n]`, or 0 if there is none.
pub open spec fn boundary_of<V>(frames: Seq<Frame<V>>, n: int) -> int
    decreases n,
{
    if n <= 0 {
        0
    } else if frames[n - 1].is_blocking() {
        n - 1
    } else {
        boundary_of(frames, n - 1)
    }
}

/// The value of `k` in the topmost frame among `frames[lo..hi]` that has it.
pub open spec fn find_down<V>(frames: Seq<Frame<V>>, k: Seq<char>, lo: int, hi: int) -> Option<V>
    decreases hi - lo,
{
    if hi <= lo {
        None
    } else {
        match frames[hi - 1].get_spec(k) {
            Some(v) => Some(v),
            None => find_down(frames, k, lo, hi - 1),
        }
    }
}

/// What `k` looks up to: the topmost frame from the topmost blocking one up
/// that has it, else the global frame when a blocking frame stands above it.
pub open spec fn lookup_in<V>(frames: Seq<Frame<V>>, k: Seq<char>) -> Option<V> {
    let b = boundary_of(frames, frames.len() as int);
    match find_down(frames, k, b, frames.len() as int) {
        Some(v) => Some(v),
        None => if b > 0 { frames[0].get_spec(k) } else { None },
    }
}

/// A set of frames that are accessible for variables
pub struct Scope<V> {
    frames: Vec<Frame<V>>,
}

impl<V> Scope<V> {
    /// The frames, from the global one up
    pub closed spec fn frames(&self) -> Seq<Frame<V>> {
        self.frames@
    }

    /// What `k` currently looks up to
    pub open spec fn lookup(&self, k: Seq<char>) -> Option<V> {
        lookup_in(self.frames(), k)
    }

    /// There is always a global frame
    pub open spec fn wf(&self) -> bool {
        self.frames().len() >= 1
    }

    /// A scope holding one empty global frame
    pub fn new() -> (r: Self)
        ensures
            r.wf(),
            r.frames().len() == 1,
            forall|k: Seq<char>| #[trigger] r.lookup(k) is None,
    {
        let mut frames = Vec::new();
        frames.push(Frame::empty(false));
        let r = Scope { frames };
        assert(r.frames()[0].is_blocking() == false);
        assert forall|k: Seq<char>| #[trigger] r.lookup(k) is None by {
            assert(boundary_of(r.frames(), 0) == 0);
            assert(boundary_of(r.frames(), 1) == 0);
            assert(find_down(r.frames(), k, 0, 0) is None);
        }
        r
    }

    /// Pushes a frame onto the stack, creating a new logical "scope" that inherits all parent scopes
    pub fn push_frame(&mut self)
        requires
            old(self).wf(),
        ensures
            final(self).wf(),
            final(self).frames().len() == old(self).frames().len() + 1,
            final(self).frames().drop_last() == old(self).frames(),
            forall|k: Seq<char>| #[trigger] final(self).lookup(k) == old(self).lookup(k),
    {
        let ghost f0 = self.frames();
        self.frames.push(Frame::empty(false));
        proof {
            let f1 = self.frames();
            assert(f1.drop_last() == f0);
            lemma_boundary_bounds(f0, f0.len() as int);
            assert(!f1.last().is_blocking());
            assert forall|k: Seq<char>| #[trigger] self.lookup(k) == old(self).lookup(k) by {
                assert(f1.last().get_spec(k) is None);
                assert(f1.subrange(0, f0.len() as int) == f0);
                lemma_boundary_prefix(f1, f0.len() as int);
                assert(boundary_of(f1, f1.len() as int) == boundary_of(f0, f0.len() as int));
                lemma_find_down_prefix(f1, f0, k, boundary_of(f0, f0.len() as int), f0.len() as int);
                assert(find_down(f1, k, boundary_of(f0, f0.len() as int), f1.len() as int)
                    == find_down(f1, k, boundary_of(f0, f0.len() as int), f0.len() as int));
            }
        }
    }

    /// Pushes a frame that blocks lookups from reaching frames beneath it, other than the global frame
    pub fn push_blocking_frame(&mut self)
        requires
            old(self).wf(),
        ensures
            final(self).wf(),
            final(self).frames().len() == old(self).frames().len() + 1,
            final(self).frames().drop_last() == old(self).frames(),
            forall|k: Seq<char>| #[trigger] final(self).lookup(k) == old(self).frames()[0].get_spec(k),
    {
        let ghost f0 = self.frames();
        self.frames.push(Frame::empty(true));
        proof {
            let f1 = self.frames();
            assert(f1.drop_last() == f0);
            assert(f1[0] == f0[0]);
            assert forall|k: Seq<char>| #[trigger] self.lookup(k) == old(self).frames()[0].get_spec(k) by {
                assert(boundary_of(f1, f1.len() as int) == f0.len());
                assert(find_down(f1, k, f0.len() as int, f0.len() as int) is None);
            }
        }
    }

    /// Removes a single frame from the system, not removing the bottom of the stack
    pub fn pop_frame(&mut self)
        requires
            old(self).wf(),
        ensures
            final(self).wf(),
            final(self).frames() == if old(self).frames().len() <= 1 {
                old(self).frames()
            } else {
                old(self).frames().drop_last()
            },
    {
        if self.frames.len() <= 1 {
            return;
        }

        self.frames.pop();
    }

    /// Creates a **new** variable for the top of the stack
    pub fn register(&mut self, name: &str, value: V)
        requires
            old(self).wf(),
        ensures
            final(self).wf(),
            final(self).frames().len() == old(self).frames().len(),
            final(self).frames().drop_last() == old(self).frames().drop_last(),
            forall|k: Seq<char>| #[trigger] final(self).frames().last().get_spec(k) == if k == name@ {
                Some(value)
            } else {
                old(self).frames().last().get_spec(k)
            },
            final(self).frames().last().is_blocking() == old(self).frames().last().is_blocking(),
            final(self).lookup(name@) == Some(value),
            forall|k: Seq<char>| k != name@ ==> #[trigger] final(self).lookup(k) == old(self).lookup(k),
    {
        let ghost f0 = self.frames();
        let top = self.frames.len() - 1;
        let frame = &mut self.frames[top];
        let ghost vars0 = frame.variables@;
        let ghost old_frame = *frame;
        let pos = frame.position(name);
        let entry = (name.to_owned(), value);
        assert(entry.0@ == name@);
        if let Some(i) = pos {
            frame.variables.set(i, entry);
            proof {
                assert forall|k: Seq<char>| #[trigger] frame.get_spec(k) == if k == name@ {
                    Some(value)
                } else {
                    old_frame.get_spec(k)
                } by {
                    lemma_var_find_set(vars0, k, 0, i as int, entry);
                }
            }
        } else {
            proof {
                assert forall|m: int| 0 <= m < vars0.len() implies (#[trigger] vars0[m]).0@ != name@ by {
                    if vars0[m].0@ == name@ {
                        lemma_var_find_found_first(vars0, name@, m);
                    }
                }
            }
            frame.variables.push(entry);
            proof {
                assert forall|k: Seq<char>| #[trigger] frame.get_spec(k) == if k == name@ {
                    Some(value)
                } else {
                    old_frame.get_spec(k)
                } by {
                    lemma_var_find_push(vars0, k, 0, entry);
                }
            }
        }
        proof {
            let f1 = self.frames();
            assert(f1 == f0.update(top as int, *frame));
            lemma_frame_update_lookup(f0, top as int, *frame, name@, value);
        }
    }

    /// Sets an existing variable's value, returns false if the value doesn't exist
    pub fn set(&mut self, name: &str, value: V) -> (r: bool)
        requires
            old(self).wf(),
        ensures
            final(self).wf(),
            r == (old(self).lookup(name@) is Some),
            r ==> final(self).lookup(name@) == Some(value),
            r ==> exists|fi: int| #[trigger] visible_at(old(self).frames(), name@, fi)
                && overwritten_at(old(self).frames(), final(self).frames(), fi, name@, value),
            !r ==> final(self).frames() == old(self).frames(),
            forall|k: Seq<char>| k != name@ ==> #[trigger] final(self).lookup(k) == old(self).lookup(k),
    {
        let ghost f0 = self.frames();
        match self.locate(name) {
            None => false,
            Some((fi, vi)) => {
                let frame = &mut self.frames[fi];
                let ghost old_frame = *frame;
                let ghost vars0 = frame.variables@;
                let entry = (name.to_owned(), value);
                assert(entry.0@ == name@);
                frame.variables.set(vi, entry);
                proof {
                    assert forall|k: Seq<char>| #[trigger] frame.get_spec(k) == if k == name@ {
                        Some(value)
                    } else {
                        old_frame.get_spec(k)
                    } by {
                        lemma_var_find_set(vars0, k, 0, vi as int, entry);
                    }
                    assert(frame.is_blocking() == old_frame.is_blocking());
                    let f1 = self.frames();
                    assert(f1 == f0.update(fi as int, *frame));
                    lemma_frame_update_visible(f0, fi as int, *frame, name@, value);
                    assert(overwritten_at(f0, f1, fi as int, name@, value));
                }
                true
            },
        }
    }

    /// The index of the topmost blocking frame, or 0 if there is none
    fn boundary(&self) -> (r: usize)
        requires
            self.wf(),
        ensures
            r == boundary_of(self.frames(), self.frames().len() as int),
            r < self.frames().len(),
    {
        let mut n = self.frames.len();
        while n > 0
            invariant
                n <= self.frames@.len(),
                boundary_of(self.frames@, n as int) == boundary_of(self.frames@, self.frames@.len() as int),
            decreases n,
        {
            if self.frames[n - 1].blocking {
                return n - 1;
            }
            n = n - 1;
        }
        0
    }

    /// Where the variable `name` lives: its frame and its index there
    fn locate(&self, name: &str) -> (r: Option<(usize, usize)>)
        requires
            self.wf(),
        ensures
            match r {
                None => self.lookup(name@) is None,
                Some((fi, vi)) => {
                    &&& fi < self.frames().len()
                    &&& vi < self.frames()[fi as int].variables@.len()
                    &&& self.frames()[fi as int].variables@[vi as int].0@ == name@
                    &&& forall|m: int| 0 <= m < vi ==> (#[trigger] self.frames()[fi as int].variables@[m]).0@ != name@
                    &&& self.lookup(name@) == Some(self.frames()[fi as int].variables@[vi as int].1)
                    &&& visible_at(self.frames(), name@, fi as int)
                },
            },
    {
        let b = self.boundary();
        let ghost f = self.frames@;
        let ghost len = f.len() as int;
        proof {
            lemma_boundary_bounds(f, len);
        }
        let mut n = self.frames.len();
        while n > b
            invariant
                b <= n <= self.frames@.len(),
                f == self.frames@,
                len == f.len(),
                b == boundary_of(f, len),
                forall|m: int| n <= m < len ==> (#[trigger] f[m]).get_spec(name@) is None,
            decreases n,
        {
            match self.frames[n - 1].position(name) {
                Some(vi) => {
                    proof {
                        lemma_find_down_hit(f, name@, b as int, len, n - 1);
                    }
                    return Some((n - 1, vi));
                },
                None => {},
            }
            n = n - 1;
        }
        proof {
            lemma_find_down_spec(f, name@, b as int, len);
        }
        if b > 0 {
            match self.frames[0].position(name) {
                Some(vi) => {
                    return Some((0, vi));
                },
                None => {},
            }
        }
        None
    }


    /// A scope with the same frames and names as this one, holding no values
    pub fn outline(&self) -> (r: Scope<()>)
        requires
            self.wf(),
        ensures
            r.wf(),
            r.frames().len() == self.frames().len(),
            forall|k: Seq<char>| (#[trigger] r.lookup(k) is Some) == (self.lookup(k) is Some),
            forall|k: Seq<char>| (#[trigger] r.frames()[0].get_spec(k) is Some) == (self.frames()[0].get_spec(k) is Some),
    {
        let n = self.frames.len();
        let mut frames: Vec<Frame<()>> = Vec::new();
        let mut i: usize = 0;
        while i < n
            invariant
                n == self.frames@.len(),
                i <= n,
                frames@.len() == i,
                forall|m: int| 0 <= m < i ==> mirrors(#[trigger] frames@[m], self.frames@[m]),
            decreases n - i,
        {
            let f = &self.frames[i];
            let mut vars: Vec<(String, ())> = Vec::new();
            let mut j: usize = 0;
            while j < f.variables.len()
                invariant
                    j <= f.variables@.len(),
                    vars@.len() == j,
                    forall|m: int| 0 <= m < j ==> (#[trigger] vars@[m]).0@ == f.variables@[m].0@,
                decreases f.variables.len() - j,
            {
                vars.push((f.variables[j].0.clone(), ()));
                j = j + 1;
            }
            let nf = Frame { variables: vars, blocking: f.blocking };
            assert(nf.names() =~= f.names());
            frames.push(nf);
            i = i + 1;
        }
        let r = Scope { frames };
        proof {
            lemma_mirror_lookup(r.frames(), self.frames());
        }
        r
    }

    /// The name of every variable visible from the current frame, each once
    pub fn names(&self) -> (r: Vec<String>)
        requires
            self.wf(),
        ensures
            forall|k: Seq<char>| #[trigger] has_name(r@, k) <==> (self.lookup(k) is Some),
            forall|i: int, j: int| 0 <= i < j < r@.len() ==> (#[trigger] r@[i])@ != (#[trigger] r@[j])@,
    {
        let b = self.boundary();
        let n = self.frames.len();
        let mut out: Vec<String> = Vec::new();
        let mut fi = n;
        while fi > b
            invariant
                b <= fi <= n == self.frames@.len(),
                b == boundary_of(self.frames@, n as int),
                forall|k: Seq<char>| #[trigger] has_name(out@, k) <==> frames_have(self.frames@, fi as int, n as int, k),
                forall|i: int, j: int| 0 <= i < j < out@.len() ==> (#[trigger] out@[i])@ != (#[trigger] out@[j])@,
            decreases fi,
        {
            fi = fi - 1;
            let ghost before = out@;
            add_names(&mut out, &self.frames[fi]);
            assert forall|k: Seq<char>| #[trigger] has_name(out@, k) <==> frames_have(self.frames@, fi as int, n as int, k) by {
                if self.frames@[fi as int].get_spec(k) is Some {
                    assert(frames_have(self.frames@, fi as int, n as int, k));
                }
                if frames_have(self.frames@, fi as int, n as int, k) {
                    let m = choose|m: int| fi <= m < n && (#[trigger] self.frames@[m]).get_spec(k) is Some;
                    if m > fi {
                        assert(frames_have(self.frames@, fi + 1, n as int, k));
                    }
                }
                if frames_have(self.frames@, fi + 1, n as int, k) {
                    let m = choose|m: int| fi + 1 <= m < n && (#[trigger] self.frames@[m]).get_spec(k) is Some;
                    assert(frames_have(self.frames@, fi as int, n as int, k));
                }
            }
        }
        if b > 0 {
            add_names(&mut out, &self.frames[0]);
        }
        proof {
            let f = self.frames@;
            lemma_boundary_bounds(f, n as int);
            assert forall|k: Seq<char>| #[trigger] has_name(out@, k) <==> (self.lookup(k) is Some) by {
                lemma_find_down_spec(f, k, b as int, n as int);
                if frames_have(f, b as int, n as int, k) {
                    let m = choose|m: int| b <= m < n && (#[trigger] f[m]).get_spec(k) is Some;
                    assert(f[m].get_spec(k) is Some);
                }
            }
        }
        out
    }

    /// Retrieves a value from the scope
    pub fn get(&self, name: &str) -> (r: Option<&V>)
        requires
            self.wf(),
        ensures
            match r {
                Some(v) => self.lookup(name@) == Some(*v),
                None => self.lookup(name@) is None,
            },
    {
        match self.locate(name) {
            Some((fi, vi)) => Some(&self.frames[fi].variables[vi].1),
            None => None,
        }
    }
}

impl<V> Frame<V> {
    /// The index of the first variable named `name`, if any
    fn position(&self, name: &str) -> (r: Option<usize>)
        ensures
            match r {
                None => self.get_spec(name@) is None,
                Some(i) => i < self.variables@.len() && self.variables@[i as int].0@ == name@
                    && (forall|m: int| 0 <= m < i ==> (#[trigger] self.variables@[m]).0@ != name@)
                    && self.get_spec(name@) == Some(self.variables@[i as int].1),
            },
    {
        let mut i: usize = 0;
        while i < self.variables.len()
            invariant
                i <= self.variables@.len(),
                forall|m: int| 0 <= m < i ==> (#[trigger] self.variables@[m]).0@ != name@,
            decreases self.variables.len() - i,
        {
            if str_eq(self.variables[i].0.as_str(), name) {
                proof {
                    lemma_var_find_found(self.variables@, name@, 0, i as int);
                }
                return Some(i);
            }
            i = i + 1;
        }
        proof {
            lemma_var_find_absent(self.variables@, name@, 0);
        }
        None
    }
}


/// Two frames with the same names in the same order, and the same blocking flag.
pub open spec fn mirrors<V, W>(a: Frame<V>, b: Frame<W>) -> bool {
    &&& a.is_blocking() == b.is_blocking()
    &&& a.names() == b.names()
}

impl<V> Frame<V> {
    /// The names of the variables, in order
    pub closed spec fn names(&self) -> Seq<Seq<char>> {
        self.variables@.map_values(|e: (String, V)| e.0@)
    }

    /// A frame has a name when one of its variables is called so
    proof fn lemma_names(&self, k: Seq<char>)
        ensures
            (self.get_spec(k) is Some) == self.names().contains(k),
            self.names().len() == self.variables@.len(),
    {
        let v = self.variables@;
        lemma_var_find_some(v, k, 0);
        if self.names().contains(k) {
            let j = choose|j: int| 0 <= j < self.names().len() && self.names()[j] == k;
            assert(v[j].0@ == k);
        }
        if self.get_spec(k) is Some {
            let j = choose|j: int| 0 <= j < v.len() && (#[trigger] v[j]).0@ == k;
            assert(self.names()[j] == k);
        }
    }
}

proof fn lemma_var_find_some<V>(v: Seq<(String, V)>, k: Seq<char>, i: int)
    requires
        0 <= i,
    ensures
        (var_find(v, k, i) is Some) == (exists|j: int| i <= j < v.len() && (#[trigger] v[j]).0@ == k),
    decreases v.len() - i,
{
    if i < v.len() {
        lemma_var_find_some(v, k, i + 1);
        if v[i].0@ != k {
            if exists|j: int| i <= j < v.len() && (#[trigger] v[j]).0@ == k {
                let j = choose|j: int| i <= j < v.len() && (#[trigger] v[j]).0@ == k;
                assert(j != i);
                assert(i + 1 <= j);
            }
        }
    }
}

/// Frames that mirror each other one for one answer the same names.
proof fn lemma_mirror_lookup<V, W>(a: Seq<Frame<V>>, b: Seq<Frame<W>>)
    requires
        a.len() == b.len(),
        a.len() >= 1,
        forall|m: int| 0 <= m < a.len() ==> mirrors(#[trigger] a[m], b[m]),
    ensures
        forall|k: Seq<char>| (#[trigger] lookup_in(a, k) is Some) == (lookup_in(b, k) is Some),
        forall|k: Seq<char>| (#[trigger] a[0].get_spec(k) is Some) == (b[0].get_spec(k) is Some),
{
    let n = a.len() as int;
    lemma_mirror_boundary(a, b, n);
    assert forall|k: Seq<char>| #[trigger] a[0].get_spec(k) is Some == (b[0].get_spec(k) is Some) by {
        a[0].lemma_names(k);
        b[0].lemma_names(k);
    }
    assert forall|k: Seq<char>| (#[trigger] lookup_in(a, k) is Some) == (lookup_in(b, k) is Some) by {
        let bd = boundary_of(a, n);
        lemma_boundary_bounds(a, n);
        lemma_find_down_spec(a, k, bd, n);
        lemma_find_down_spec(b, k, bd, n);
        assert forall|m: int| #![trigger a[m].get_spec(k)] #![trigger b[m].get_spec(k)]
            bd <= m < n implies (a[m].get_spec(k) is Some) == (b[m].get_spec(k) is Some) by {
            a[m].lemma_names(k);
            b[m].lemma_names(k);
        }
        a[0].lemma_names(k);
        b[0].lemma_names(k);
        assert(boundary_of(b, n) == bd);
        if find_down(a, k, bd, n) is None {
            assert(find_down(b, k, bd, n) is None);
        } else {
            assert(find_down(b, k, bd, n) is Some);
        }
    }
}

proof fn lemma_mirror_boundary<V, W>(a: Seq<Frame<V>>, b: Seq<Frame<W>>, n: int)
    requires
        0 <= n <= a.len(),
        n <= b.len(),
        forall|m: int| 0 <= m < a.len() && m < b.len() ==> mirrors(#[trigger] a[m], b[m]),
    ensures
        boundary_of(a, n) == boundary_of(b, n),
    decreases n,
{
    if n > 0 {
        assert(mirrors(a[n - 1], b[n - 1]));
        lemma_mirror_boundary(a, b, n - 1);
    }
}

/// Whether one of the strings is `k`.
pub open spec fn has_name(s: Seq<String>, k: Seq<char>) -> bool {
    exists|i: int| 0 <= i < s.len() && #[trigger] s[i]@ == k
}

/// Whether one of `frames[lo..hi]` has a variable `k`.
pub open spec fn frames_have<V>(frames: Seq<Frame<V>>, lo: int, hi: int, k: Seq<char>) -> bool {
    exists|m: int| lo <= m < hi && (#[trigger] frames[m]).get_spec(k) is Some
}

/// Whether one of the first `j` variables is called `k`.
spec fn vars_have<V>(v: Seq<(String, V)>, j: int, k: Seq<char>) -> bool {
    exists|m: int| 0 <= m < j && (#[trigger] v[m]).0@ == k
}

/// Whether some string of `v` is `k`.
pub fn holds_name(v: &Vec<String>, k: &str) -> (r: bool)
    ensures
        r == has_name(v@, k@),
{
    let mut i: usize = 0;
    while i < v.len()
        invariant
            i <= v@.len(),
            forall|m: int| 0 <= m < i ==> (#[trigger] v@[m])@ != k@,
        decreases v.len() - i,
    {
        if str_eq(v[i].as_str(), k) {
            return true;
        }
        i = i + 1;
    }
    false
}

/// Appends each name of `frame` that `out` does not hold yet.
fn add_names<V>(out: &mut Vec<String>, frame: &Frame<V>)
    requires
        forall|i: int, j: int| 0 <= i < j < old(out)@.len() ==> (#[trigger] old(out)@[i])@ != (#[trigger] old(out)@[j])@,
    ensures
        forall|k: Seq<char>| #[trigger] has_name(final(out)@, k) <==> (has_name(old(out)@, k) || frame.get_spec(k) is Some),
        forall|i: int, j: int| 0 <= i < j < final(out)@.len() ==> (#[trigger] final(out)@[i])@ != (#[trigger] final(out)@[j])@,
{
    let ghost v = frame.variables@;
    let mut j: usize = 0;
    while j < frame.variables.len()
        invariant
            j <= v.len(),
            v == frame.variables@,
            forall|k: Seq<char>| #[trigger] has_name(out@, k) <==> (has_name(old(out)@, k) || vars_have(v, j as int, k)),
            forall|i: int, i2: int| 0 <= i < i2 < out@.len() ==> (#[trigger] out@[i])@ != (#[trigger] out@[i2])@,
        decreases v.len() - j,
    {
        let name = &frame.variables[j].0;
        let ghost before = out@;
        if !holds_name(out, name.as_str()) {
            out.push(name.clone());
            assert forall|i: int, i2: int| 0 <= i < i2 < out@.len() implies (#[trigger] out@[i])@ != (#[trigger] out@[i2])@ by {
                if i2 == out@.len() - 1 {
                    assert(out@[i] == before[i]);
                }
            }
        }
        proof {
            assert forall|k: Seq<char>| #[trigger] has_name(out@, k) <==> (has_name(old(out)@, k) || vars_have(v, j + 1, k)) by {
                if k == v[j as int].0@ {
                    assert(v[j as int].0@ == k);
                    if !has_name(before, k) {
                        assert(out@[out@.len() - 1]@ == k);
                    }
                } else {
                    if has_name(out@, k) {
                        let i = choose|i: int| 0 <= i < out@.len() && #[trigger] out@[i]@ == k;
                        if i < before.len() {
                            assert(before[i]@ == k);
                        }
                    }
                    if has_name(before, k) {
                        let i = choose|i: int| 0 <= i < before.len() && #[trigger] before[i]@ == k;
                        assert(out@[i] == before[i]);
                    }
                    if vars_have(v, j + 1, k) {
                        let m = choose|m: int| 0 <= m < j + 1 && (#[trigger] v[m]).0@ == k;
                        assert(m < j);
                    }
                }
            }
        }
        j = j + 1;
    }
    proof {
        assert forall|k: Seq<char>| #[trigger] frame.get_spec(k) is Some <==> vars_have(v, v.len() as int, k) by {
            lemma_var_find_some(v, k, 0);
        }
    }
}

/// `f1` is `f0` with frame `fi` alone changed, and that frame changed only
/// in giving `k` the value `v`.
pub open spec fn overwritten_at<V>(f0: Seq<Frame<V>>, f1: Seq<Frame<V>>, fi: int, k: Seq<char>, v: V) -> bool {
    &&& 0 <= fi < f0.len()
    &&& f1 == f0.update(fi, f1[fi])
    &&& f1[fi].is_blocking() == f0[fi].is_blocking()
    &&& f1[fi].get_spec(k) == Some(v)
    &&& forall|j: Seq<char>| j != k ==> #[trigger] f1[fi].get_spec(j) == f0[fi].get_spec(j)
}

/// Whether the lookup of `k` is answered by frame `fi`.
pub open spec fn visible_at<V>(frames: Seq<Frame<V>>, k: Seq<char>, fi: int) -> bool {
    let b = boundary_of(frames, frames.len() as int);
    &&& 0 <= fi < frames.len()
    &&& frames[fi].get_spec(k) is Some
    &&& ((b <= fi && forall|m: int| fi < m < frames.len() ==> (#[trigger] frames[m]).get_spec(k) is None)
        || (fi == 0 && b > 0 && forall|m: int| b <= m < frames.len() ==> (#[trigger] frames[m]).get_spec(k) is None))
}

/// A value set through a frame beneath the top one is what its name looks up
/// to once the top frame is popped, when that frame neither blocks nor has
/// the name itself (as for a loop body's frame).
pub proof fn law_set_survives_pop<V>(f0: Seq<Frame<V>>, f1: Seq<Frame<V>>, k: Seq<char>, v: V, fi: int)
    requires
        f0.len() >= 2,
        !f0.last().is_blocking(),
        f0.last().get_spec(k) is None,
        visible_at(f0, k, fi),
        overwritten_at(f0, f1, fi, k, v),
    ensures
        lookup_in(f1.drop_last(), k) == Some(v),
{
    let n = f0.len() as int;
    let g = f1.drop_last();
    assert(fi < n - 1);
    assert forall|m: int| 0 <= m < n - 1 implies (#[trigger] g[m]).is_blocking() == f0[m].is_blocking() by {
        assert(g[m] == f1[m]);
    }
    lemma_boundary_blocking_same(g, f0, n - 1);
    assert(boundary_of(f0, n) == boundary_of(f0, n - 1));
    let b = boundary_of(f0, n);
    assert(g[fi] == f1[fi]);
    if b <= fi && forall|m: int| fi < m < n ==> (#[trigger] f0[m]).get_spec(k) is None {
        assert forall|m: int| fi < m < n - 1 implies (#[trigger] g[m]).get_spec(k) is None by {
            assert(g[m] == f1[m]);
            assert(f1[m] == f0[m]);
            assert(f0[m].get_spec(k) is None);
        }
    } else {
        assert forall|m: int| b <= m < n - 1 implies (#[trigger] g[m]).get_spec(k) is None by {
            assert(g[m] == f1[m]);
            assert(f1[m] == f0[m]);
            assert(f0[m].get_spec(k) is None);
        }
    }
    assert(visible_at(g, k, fi));
    lemma_visible_lookup(g, k, fi);
}

/// The frame that answers a lookup gives its value.
proof fn lemma_visible_lookup<V>(f: Seq<Frame<V>>, k: Seq<char>, fi: int)
    requires
        visible_at(f, k, fi),
    ensures
        lookup_in(f, k) == f[fi].get_spec(k),
{
    let n = f.len() as int;
    let b = boundary_of(f, n);
    lemma_boundary_bounds(f, n);
    if b <= fi && forall|m: int| fi < m < n ==> (#[trigger] f[m]).get_spec(k) is None {
        lemma_find_down_hit(f, k, b, n, fi);
    } else {
        lemma_find_down_spec(f, k, b, n);
    }
}

proof fn lemma_var_find_found<V>(v: Seq<(String, V)>, k: Seq<char>, i: int, j: int)
    requires
        0 <= i <= j < v.len(),
        forall|m: int| i <= m < j ==> (#[trigger] v[m]).0@ != k,
        v[j].0@ == k,
    ensures
        var_find(v, k, i) == Some(v[j].1),
    decreases j - i,
{
    if i < j {
        lemma_var_find_found(v, k, i + 1, j);
    }
}

proof fn lemma_var_find_found_first<V>(v: Seq<(String, V)>, k: Seq<char>, j: int)
    requires
        0 <= j < v.len(),
        v[j].0@ == k,
    ensures
        var_find(v, k, 0) is Some,
    decreases j,
{
    if exists|m: int| 0 <= m < j && (#[trigger] v[m]).0@ == k {
        let m = choose|m: int| 0 <= m < j && (#[trigger] v[m]).0@ == k;
        lemma_var_find_found_first(v, k, m);
    } else {
        lemma_var_find_found(v, k, 0, j);
    }
}

proof fn lemma_var_find_absent<V>(v: Seq<(String, V)>, k: Seq<char>, i: int)
    requires
        0 <= i,
        forall|m: int| i <= m < v.len() ==> (#[trigger] v[m]).0@ != k,
    ensures
        var_find(v, k, i) is None,
    decreases v.len() - i,
{
    if i < v.len() {
        lemma_var_find_absent(v, k, i + 1);
    }
}

proof fn lemma_var_find_set<V>(v: Seq<(String, V)>, k: Seq<char>, i: int, j: int, e: (String, V))
    requires
        0 <= i <= j < v.len(),
        forall|m: int| 0 <= m < j ==> (#[trigger] v[m]).0@ != e.0@,
        v[j].0@ == e.0@,
    ensures
        var_find(v.update(j, e), k, i) == if k == e.0@ { Some(e.1) } else { var_find(v, k, i) },
    decreases v.len() - i,
{
    if i < v.len() {
        if i < j {
            lemma_var_find_set(v, k, i + 1, j, e);
        } else if i == j {
            if k != e.0@ {
                lemma_var_find_set_after(v, k, i + 1, j, e);
            }
        }
    }
}

proof fn lemma_var_find_set_after<V>(v: Seq<(String, V)>, k: Seq<char>, i: int, j: int, e: (String, V))
    requires
        0 <= j < i,
        j < v.len(),
    ensures
        var_find(v.update(j, e), k, i) == var_find(v, k, i),
    decreases v.len() - i,
{
    if i < v.len() {
        assert(v.update(j, e)[i] == v[i]);
        lemma_var_find_set_after(v, k, i + 1, j, e);
    }
}

proof fn lemma_var_find_push<V>(v: Seq<(String, V)>, k: Seq<char>, i: int, e: (String, V))
    requires
        0 <= i <= v.len(),
        forall|m: int| 0 <= m < v.len() ==> (#[trigger] v[m]).0@ != e.0@,
    ensures
        var_find(v.push(e), k, i) == if k == e.0@ { Some(e.1) } else { var_find(v, k, i) },
    decreases v.len() - i,
{
    assert(v.push(e)[v.len() as int] == e);
    if i < v.len() {
        assert(v.push(e)[i] == v[i]);
        lemma_var_find_push(v, k, i + 1, e);
    }
}

proof fn lemma_boundary_prefix<V>(f1: Seq<Frame<V>>, n: int)
    requires
        0 <= n < f1.len(),
        !f1[n].is_blocking(),
    ensures
        boundary_of(f1, n + 1) == boundary_of(f1.subrange(0, n), n),
{
    lemma_boundary_same(f1, f1.subrange(0, n), n);
}

proof fn lemma_boundary_same<V>(a: Seq<Frame<V>>, b: Seq<Frame<V>>, n: int)
    requires
        0 <= n <= a.len(),
        n <= b.len(),
        forall|m: int| 0 <= m < n ==> a[m] == b[m],
    ensures
        boundary_of(a, n) == boundary_of(b, n),
    decreases n,
{
    if n > 0 {
        lemma_boundary_same(a, b, n - 1);
    }
}

proof fn lemma_boundary_bounds<V>(f: Seq<Frame<V>>, n: int)
    requires
        0 <= n <= f.len(),
    ensures
        0 <= boundary_of(f, n),
        n > 0 ==> boundary_of(f, n) < n,
        n == 0 ==> boundary_of(f, n) == 0,
        forall|m: int| boundary_of(f, n) < m < n ==> !(#[trigger] f[m]).is_blocking(),
        boundary_of(f, n) > 0 ==> f[boundary_of(f, n)].is_blocking(),
    decreases n,
{
    if n > 0 && !f[n - 1].is_blocking() {
        lemma_boundary_bounds(f, n - 1);
    }
}

proof fn lemma_find_down_same<V>(a: Seq<Frame<V>>, b: Seq<Frame<V>>, k: Seq<char>, lo: int, hi: int)
    requires
        0 <= lo,
        hi <= a.len(),
        hi <= b.len(),
        forall|m: int| lo <= m < hi ==> a[m] == b[m],
    ensures
        find_down(a, k, lo, hi) == find_down(b, k, lo, hi),
    decreases hi - lo,
{
    if lo < hi {
        lemma_find_down_same(a, b, k, lo, hi - 1);
    }
}

proof fn lemma_find_down_prefix<V>(f1: Seq<Frame<V>>, f0: Seq<Frame<V>>, k: Seq<char>, lo: int, hi: int)
    requires
        0 <= lo <= hi,
        hi == f0.len(),
        f1.len() == hi + 1,
        f1.drop_last() == f0,
        f1.last().get_spec(k) is None,
    ensures
        find_down(f1, k, lo, hi + 1) == find_down(f0, k, lo, hi),
{
    assert forall|m: int| lo <= m < hi implies f1[m] == f0[m] by {
        assert(f1.drop_last()[m] == f1[m]);
    }
    lemma_find_down_same(f1, f0, k, lo, hi);
}

/// Where `k` is found between `lo` and `hi`, no frame above answers it.
proof fn lemma_find_down_spec<V>(f: Seq<Frame<V>>, k: Seq<char>, lo: int, hi: int)
    requires
        0 <= lo,
        hi <= f.len(),
    ensures
        find_down(f, k, lo, hi) is None <==> forall|m: int| lo <= m < hi ==> (#[trigger] f[m]).get_spec(k) is None,
        find_down(f, k, lo, hi) is Some ==> exists|m: int| lo <= m < hi && (#[trigger] f[m]).get_spec(k) == find_down(f, k, lo, hi)
            && forall|j: int| m < j < hi ==> (#[trigger] f[j]).get_spec(k) is None,
    decreases hi - lo,
{
    if lo < hi {
        lemma_find_down_spec(f, k, lo, hi - 1);
        if f[hi - 1].get_spec(k) is Some {
            assert(f[hi - 1].get_spec(k) == find_down(f, k, lo, hi));
        } else {
            if find_down(f, k, lo, hi) is Some {
                let m = choose|m: int| lo <= m < hi - 1 && (#[trigger] f[m]).get_spec(k) == find_down(f, k, lo, hi - 1)
                    && forall|j: int| m < j < hi - 1 ==> (#[trigger] f[j]).get_spec(k) is None;
                assert(forall|j: int| m < j < hi ==> (#[trigger] f[j]).get_spec(k) is None);
            }
        }
    }
}

/// Changing only the top frame by giving `k` the value `v` makes `k` look up
/// to `v` and leaves every other name's lookup as it was.
proof fn lemma_frame_update_lookup<V>(f0: Seq<Frame<V>>, top: int, fr: Frame<V>, k: Seq<char>, v: V)
    requires
        f0.len() >= 1,
        top == f0.len() - 1,
        fr.is_blocking() == f0[top].is_blocking(),
        fr.get_spec(k) == Some(v),
        forall|j: Seq<char>| j != k ==> #[trigger] fr.get_spec(j) == f0[top].get_spec(j),
    ensures
        lookup_in(f0.update(top, fr), k) == Some(v),
        forall|j: Seq<char>| j != k ==> #[trigger] lookup_in(f0.update(top, fr), j) == lookup_in(f0, j),
        f0.update(top, fr).drop_last() == f0.drop_last(),
        f0.update(top, fr).len() == f0.len(),
        f0.update(top, fr).last() == fr,
{
    let f1 = f0.update(top, fr);
    assert(f1.drop_last() =~= f0.drop_last());
    assert forall|m: int| 0 <= m < f1.len() implies (#[trigger] f1[m]).is_blocking() == f0[m].is_blocking() by {}
    lemma_boundary_blocking_same(f1, f0, f1.len() as int);
    let b = boundary_of(f0, f0.len() as int);
    lemma_boundary_bounds(f0, f0.len() as int);
    assert(find_down(f1, k, b, f1.len() as int) == Some(v));
    assert forall|j: Seq<char>| j != k implies #[trigger] lookup_in(f1, j) == lookup_in(f0, j) by {
        lemma_find_down_same(f1, f0, j, b, top);
        assert(find_down(f1, j, b, f1.len() as int) == find_down(f0, j, b, f0.len() as int));
        if b > 0 {
            assert(f1[0] == f0[0]);
        } else if top == 0 {
            assert(f1[0] == fr);
        }
        if top == 0 {
            assert(b == 0);
        }
    }
}

proof fn lemma_boundary_blocking_same<V>(a: Seq<Frame<V>>, b: Seq<Frame<V>>, n: int)
    requires
        0 <= n <= a.len(),
        n <= b.len(),
        forall|m: int| 0 <= m < n ==> (#[trigger] a[m]).is_blocking() == b[m].is_blocking(),
    ensures
        boundary_of(a, n) == boundary_of(b, n),
    decreases n,
{
    if n > 0 {
        lemma_boundary_blocking_same(a, b, n - 1);
    }
}

/// Changing the frame that answers `k`'s lookup so it gives `k` the value
/// `v` makes `k` look up to `v` and leaves every other name as it was.
proof fn lemma_frame_update_visible<V>(f0: Seq<Frame<V>>, fi: int, fr: Frame<V>, k: Seq<char>, v: V)
    requires
        visible_at(f0, k, fi),
        fr.is_blocking() == f0[fi].is_blocking(),
        fr.get_spec(k) == Some(v),
        forall|j: Seq<char>| j != k ==> #[trigger] fr.get_spec(j) == f0[fi].get_spec(j),
    ensures
        lookup_in(f0.update(fi, fr), k) == Some(v),
        forall|j: Seq<char>| j != k ==> #[trigger] lookup_in(f0.update(fi, fr), j) == lookup_in(f0, j),
        f0.update(fi, fr).len() >= 1,
{
    let f1 = f0.update(fi, fr);
    let n = f0.len() as int;
    assert forall|m: int| 0 <= m < n implies (#[trigger] f1[m]).is_blocking() == f0[m].is_blocking() by {}
    lemma_boundary_blocking_same(f1, f0, n);
    let b = boundary_of(f0, n);
    lemma_boundary_bounds(f0, n);
    assert forall|j: Seq<char>| #[trigger] lookup_in(f1, j) == if j == k { Some(v) } else { lookup_in(f0, j) } by {
        lemma_find_down_spec(f0, j, b, n);
        lemma_find_down_spec(f1, j, b, n);
        if j != k {
            assert forall|m: int| 0 <= m < n implies (#[trigger] f1[m]).get_spec(j) == f0[m].get_spec(j) by {}
            assert(find_down(f1, j, b, n) == find_down(f0, j, b, n)) by {
                lemma_find_down_pointwise(f1, f0, j, b, n);
            }
        } else {
            if b <= fi {
                lemma_find_down_hit(f1, j, b, n, fi);
            } else {
                assert(find_down(f1, j, b, n) is None) by {
                    assert forall|m: int| b <= m < n implies (#[trigger] f1[m]).get_spec(j) is None by {}
                }
            }
        }
    }
}

proof fn lemma_find_down_pointwise<V>(a: Seq<Frame<V>>, b: Seq<Frame<V>>, k: Seq<char>, lo: int, hi: int)
    requires
        0 <= lo,
        hi <= a.len(),
        hi <= b.len(),
        forall|m: int| lo <= m < hi ==> (#[trigger] a[m]).get_spec(k) == b[m].get_spec(k),
    ensures
        find_down(a, k, lo, hi) == find_down(b, k, lo, hi),
    decreases hi - lo,
{
    if lo < hi {
        lemma_find_down_pointwise(a, b, k, lo, hi - 1);
    }
}

proof fn lemma_find_down_hit<V>(f: Seq<Frame<V>>, k: Seq<char>, lo: int, hi: int, at: int)
    requires
        0 <= lo <= at < hi <= f.len(),
        f[at].get_spec(k) is Some,
        forall|m: int| at < m < hi ==> (#[trigger] f[m]).get_spec(k) is None,
    ensures
        find_down(f, k, lo, hi) == f[at].get_spec(k),
    decreases hi - lo,
{
    if hi - 1 > at {
        lemma_find_down_hit(f, k, lo, hi - 1, at);
    }
}

} // verus!
