//! The table from operator spellings to the functions that implement them.
use vstd::prelude::*;
use crate::text::{str_eq, str_to_chars};

verus! {

/// A binary operator: its spelling, the function it calls, and how tightly it binds.
#[derive(Clone, Debug)]
pub struct BinaryOp {
    pub op: String,
    pub func: String,
    pub precedence: u16,
}

/// A unary operator: its spelling and the function it calls.
#[derive(Clone, Debug)]
pub struct UnaryOp {
    pub op: String,
    pub func: String,
}

/// A map from operators to function names
#[derive(Clone, Debug)]
pub struct OpRegistry {
    binary_ops: Vec<BinaryOp>,
    unary_ops: Vec<UnaryOp>,
}

/// The binary entry for `k` among `v[i..]`: the first one spelled `k`.
pub open spec fn find_binary(v: Seq<BinaryOp>, k: Seq<char>, i: int) -> Option<(Seq<char>, u16)>
    decreases v.len() - i,
{
    if i < 0 || i >= v.len() {
        None
    } else if v[i].op@ == k {
        Some((v[i].func@, v[i].precedence))
    } else {
        find_binary(v, k, i + 1)
    }
}

/// The unary entry for `k` among `v[i..]`: the first one spelled `k`.
pub open spec fn find_unary(v: Seq<UnaryOp>, k: Seq<char>, i: int) -> Option<Seq<char>>
    decreases v.len() - i,
{
    if i < 0 || i >= v.len() {
        None
    } else if v[i].op@ == k {
        Some(v[i].func@)
    } else {
        find_unary(v, k, i + 1)
    }
}

proof fn lemma_find_binary_update(v: Seq<BinaryOp>, k: Seq<char>, i: int, j: int, e: BinaryOp)
    requires
        0 <= j < v.len(),
        v[j].op@ != k,
        e.op@ != k,
    ensures
        find_binary(v.update(j, e), k, i) == find_binary(v, k, i),
    decreases v.len() - i,
{
    if 0 <= i < v.len() {
        lemma_find_binary_update(v, k, i + 1, j, e);
    }
}

proof fn lemma_find_binary_first(v: Seq<BinaryOp>, k: Seq<char>, i: int, j: int, e: BinaryOp)
    requires
        0 <= i <= j < v.len(),
        forall|m: int| i <= m < j ==> v[m].op@ != k,
        e.op@ == k,
    ensures
        find_binary(v.update(j, e), k, i) == Some((e.func@, e.precedence)),
    decreases j - i,
{
    if i < j {
        lemma_find_binary_first(v, k, i + 1, j, e);
    }
}

proof fn lemma_find_binary_push(v: Seq<BinaryOp>, k: Seq<char>, i: int, e: BinaryOp)
    requires
        0 <= i <= v.len(),
    ensures
        find_binary(v.push(e), k, i) == if find_binary(v, k, i) is Some {
            find_binary(v, k, i)
        } else if e.op@ == k {
            Some((e.func@, e.precedence))
        } else {
            None
        },
    decreases v.len() - i,
{
    assert(v.push(e)[v.len() as int] == e);
    if i < v.len() {
        assert(v.push(e)[i] == v[i]);
        lemma_find_binary_push(v, k, i + 1, e);
    }
}

proof fn lemma_find_binary_absent(v: Seq<BinaryOp>, k: Seq<char>, i: int)
    requires
        0 <= i,
        forall|m: int| i <= m < v.len() ==> v[m].op@ != k,
    ensures
        find_binary(v, k, i) is None,
    decreases v.len() - i,
{
    if i < v.len() {
        lemma_find_binary_absent(v, k, i + 1);
    }
}

proof fn lemma_find_binary_found(v: Seq<BinaryOp>, k: Seq<char>, i: int, j: int)
    requires
        0 <= i <= j < v.len(),
        forall|m: int| i <= m < j ==> v[m].op@ != k,
        v[j].op@ == k,
    ensures
        find_binary(v, k, i) == Some((v[j].func@, v[j].precedence)),
    decreases j - i,
{
    if i < j {
        lemma_find_binary_found(v, k, i + 1, j);
    }
}

proof fn lemma_find_unary_update(v: Seq<UnaryOp>, k: Seq<char>, i: int, j: int, e: UnaryOp)
    requires
        0 <= j < v.len(),
        v[j].op@ != k,
        e.op@ != k,
    ensures
        find_unary(v.update(j, e), k, i) == find_unary(v, k, i),
    decreases v.len() - i,
{
    if 0 <= i < v.len() {
        lemma_find_unary_update(v, k, i + 1, j, e);
    }
}

proof fn lemma_find_unary_first(v: Seq<UnaryOp>, k: Seq<char>, i: int, j: int, e: UnaryOp)
    requires
        0 <= i <= j < v.len(),
        forall|m: int| i <= m < j ==> v[m].op@ != k,
        e.op@ == k,
    ensures
        find_unary(v.update(j, e), k, i) == Some(e.func@),
    decreases j - i,
{
    if i < j {
        lemma_find_unary_first(v, k, i + 1, j, e);
    }
}

proof fn lemma_find_unary_push(v: Seq<UnaryOp>, k: Seq<char>, i: int, e: UnaryOp)
    requires
        0 <= i <= v.len(),
    ensures
        find_unary(v.push(e), k, i) == if find_unary(v, k, i) is Some {
            find_unary(v, k, i)
        } else if e.op@ == k {
            Some(e.func@)
        } else {
            None
        },
    decreases v.len() - i,
{
    assert(v.push(e)[v.len() as int] == e);
    if i < v.len() {
        assert(v.push(e)[i] == v[i]);
        lemma_find_unary_push(v, k, i + 1, e);
    }
}

proof fn lemma_find_unary_absent(v: Seq<UnaryOp>, k: Seq<char>, i: int)
    requires
        0 <= i,
        forall|m: int| i <= m < v.len() ==> v[m].op@ != k,
    ensures
        find_unary(v, k, i) is None,
    decreases v.len() - i,
{
    if i < v.len() {
        lemma_find_unary_absent(v, k, i + 1);
    }
}

proof fn lemma_find_unary_found(v: Seq<UnaryOp>, k: Seq<char>, i: int, j: int)
    requires
        0 <= i <= j < v.len(),
        forall|m: int| i <= m < j ==> v[m].op@ != k,
        v[j].op@ == k,
    ensures
        find_unary(v, k, i) == Some(v[j].func@),
    decreases j - i,
{
    if i < j {
        lemma_find_unary_found(v, k, i + 1, j);
    }
}

impl OpRegistry {
    /// The function and precedence registered for the binary operator `k`
    pub closed spec fn binary_spec(&self, k: Seq<char>) -> Option<(Seq<char>, u16)> {
        find_binary(self.binary_ops@, k, 0)
    }

    /// The function registered for the unary operator `k`
    pub closed spec fn unary_spec(&self, k: Seq<char>) -> Option<Seq<char>> {
        find_unary(self.unary_ops@, k, 0)
    }

    /// The spellings of the binary operators, in the order they are kept
    pub closed spec fn binary_keys(&self) -> Seq<Seq<char>> {
        self.binary_ops@.map_values(|b: BinaryOp| b.op@)
    }

    /// The spellings of the unary operators, in the order they are kept
    pub closed spec fn unary_keys(&self) -> Seq<Seq<char>> {
        self.unary_ops@.map_values(|u: UnaryOp| u.op@)
    }

    /// No spelling is kept twice among the binary operators, nor among the unary ones
    pub open spec fn keys_distinct(&self) -> bool {
        self.binary_keys().no_duplicates() && self.unary_keys().no_duplicates()
    }

    /// Whether `k` is the spelling of a registered operator
    pub open spec fn is_op(&self, k: Seq<char>) -> bool {
        self.binary_spec(k) is Some || self.unary_spec(k) is Some
    }

    /// An empty registry
    pub fn new() -> (r: Self)
        ensures
            forall|k: Seq<char>| r.binary_spec(k) is None && r.unary_spec(k) is None,
            r.binary_keys().len() == 0,
            r.unary_keys().len() == 0,
            r.keys_distinct(),
    {
        let r = OpRegistry { binary_ops: Vec::new(), unary_ops: Vec::new() };
        assert(r.binary_keys() =~= Seq::<Seq<char>>::empty());
        assert(r.unary_keys() =~= Seq::<Seq<char>>::empty());
        r
    }

    /// Registers (or replaces) the binary operator `op`, calling `func` with the given precedence
    pub fn insert_binary(&mut self, op: &str, func: &str, precedence: u16)
        ensures
            forall|k: Seq<char>| #[trigger] final(self).binary_spec(k) == if k == op@ {
                Some((func@, precedence))
            } else {
                old(self).binary_spec(k)
            },
            forall|k: Seq<char>| #[trigger] final(self).unary_spec(k) == old(self).unary_spec(k),
            final(self).unary_keys() == old(self).unary_keys(),
            old(self).keys_distinct() ==> final(self).keys_distinct(),
    {
        let e = BinaryOp { op: op.to_owned(), func: func.to_owned(), precedence };
        assert(e.op@ == op@ && e.func@ == func@);
        let mut i: usize = 0;
        while i < self.binary_ops.len()
            invariant
                i <= self.binary_ops.len(),
                self.binary_ops == old(self).binary_ops,
                self.unary_ops == old(self).unary_ops,
                forall|m: int| 0 <= m < i ==> self.binary_ops@[m].op@ != op@,
                e.op@ == op@ && e.func@ == func@ && e.precedence == precedence,
            decreases self.binary_ops.len() - i,
        {
            if str_eq(self.binary_ops[i].op.as_str(), op) {
                let ghost v = self.binary_ops@;
                self.binary_ops.set(i, e);
                proof {
                    assert forall|k: Seq<char>| #[trigger] self.binary_spec(k) == if k == op@ {
                        Some((func@, precedence))
                    } else {
                        old(self).binary_spec(k)
                    } by {
                        if k == op@ {
                            lemma_find_binary_first(v, k, 0, i as int, e);
                        } else {
                            lemma_find_binary_update(v, k, 0, i as int, e);
                        }
                    }
                    assert(self.binary_keys() =~= old(self).binary_keys());
                    assert(self.unary_keys() =~= old(self).unary_keys());
                }
                return;
            }
            i = i + 1;
        }
        let ghost v = self.binary_ops@;
        self.binary_ops.push(e);
        proof {
            assert forall|k: Seq<char>| #[trigger] self.binary_spec(k) == if k == op@ {
                Some((func@, precedence))
            } else {
                old(self).binary_spec(k)
            } by {
                lemma_find_binary_push(v, k, 0, e);
                if k == op@ {
                    lemma_find_binary_absent(v, k, 0);
                }
            }
            let ks0 = old(self).binary_keys();
            assert(self.binary_keys() =~= ks0.push(op@));
            assert(self.unary_keys() =~= old(self).unary_keys());
            if old(self).keys_distinct() {
                assert forall|a: int, b: int| 0 <= a < b < ks0.len() + 1 implies
                    #[trigger] ks0.push(op@)[a] != #[trigger] ks0.push(op@)[b] by {
                    if b == ks0.len() {
                        assert(v[a].op@ != op@);
                    }
                }
            }
        }
    }

    /// Registers (or replaces) the unary operator `op`, calling `func`
    pub fn insert_unary(&mut self, op: &str, func: &str)
        ensures
            forall|k: Seq<char>| #[trigger] final(self).unary_spec(k) == if k == op@ {
                Some(func@)
            } else {
                old(self).unary_spec(k)
            },
            forall|k: Seq<char>| #[trigger] final(self).binary_spec(k) == old(self).binary_spec(k),
            final(self).binary_keys() == old(self).binary_keys(),
            old(self).keys_distinct() ==> final(self).keys_distinct(),
    {
        let e = UnaryOp { op: op.to_owned(), func: func.to_owned() };
        assert(e.op@ == op@ && e.func@ == func@);
        let mut i: usize = 0;
        while i < self.unary_ops.len()
            invariant
                i <= self.unary_ops.len(),
                self.binary_ops == old(self).binary_ops,
                self.unary_ops == old(self).unary_ops,
                forall|m: int| 0 <= m < i ==> self.unary_ops@[m].op@ != op@,
                e.op@ == op@ && e.func@ == func@,
            decreases self.unary_ops.len() - i,
        {
            if str_eq(self.unary_ops[i].op.as_str(), op) {
                let ghost v = self.unary_ops@;
                self.unary_ops.set(i, e);
                proof {
                    assert forall|k: Seq<char>| #[trigger] self.unary_spec(k) == if k == op@ {
                        Some(func@)
                    } else {
                        old(self).unary_spec(k)
                    } by {
                        if k == op@ {
                            lemma_find_unary_first(v, k, 0, i as int, e);
                        } else {
                            lemma_find_unary_update(v, k, 0, i as int, e);
                        }
                    }
                    assert(self.binary_keys() =~= old(self).binary_keys());
                    assert(self.unary_keys() =~= old(self).unary_keys());
                }
                return;
            }
            i = i + 1;
        }
        let ghost v = self.unary_ops@;
        self.unary_ops.push(e);
        proof {
            assert forall|k: Seq<char>| #[trigger] self.unary_spec(k) == if k == op@ {
                Some(func@)
            } else {
                old(self).unary_spec(k)
            } by {
                lemma_find_unary_push(v, k, 0, e);
                if k == op@ {
                    lemma_find_unary_absent(v, k, 0);
                }
            }
            let ks0 = old(self).unary_keys();
            assert(self.unary_keys() =~= ks0.push(op@));
            assert(self.binary_keys() =~= old(self).binary_keys());
            if old(self).keys_distinct() {
                assert forall|a: int, b: int| 0 <= a < b < ks0.len() + 1 implies
                    #[trigger] ks0.push(op@)[a] != #[trigger] ks0.push(op@)[b] by {
                    if b == ks0.len() {
                        assert(v[a].op@ != op@);
                    }
                }
            }
        }
    }

    /// The function and precedence of the binary operator `op`, if registered
    pub fn binary(&self, op: &str) -> (r: Option<(String, u16)>)
        ensures
            match r {
                Some((f, p)) => self.binary_spec(op@) == Some((f@, p)),
                None => self.binary_spec(op@) is None,
            },
    {
        let mut i: usize = 0;
        while i < self.binary_ops.len()
            invariant
                i <= self.binary_ops.len(),
                forall|m: int| 0 <= m < i ==> self.binary_ops@[m].op@ != op@,
            decreases self.binary_ops.len() - i,
        {
            if str_eq(self.binary_ops[i].op.as_str(), op) {
                proof {
                    lemma_find_binary_found(self.binary_ops@, op@, 0, i as int);
                }
                return Some((self.binary_ops[i].func.clone(), self.binary_ops[i].precedence));
            }
            i = i + 1;
        }
        proof {
            lemma_find_binary_absent(self.binary_ops@, op@, 0);
        }
        None
    }

    /// The function of the unary operator `op`, if registered
    pub fn unary(&self, op: &str) -> (r: Option<String>)
        ensures
            match r {
                Some(f) => self.unary_spec(op@) == Some(f@),
                None => self.unary_spec(op@) is None,
            },
    {
        let mut i: usize = 0;
        while i < self.unary_ops.len()
            invariant
                i <= self.unary_ops.len(),
                forall|m: int| 0 <= m < i ==> self.unary_ops@[m].op@ != op@,
            decreases self.unary_ops.len() - i,
        {
            if str_eq(self.unary_ops[i].op.as_str(), op) {
                proof {
                    lemma_find_unary_found(self.unary_ops@, op@, 0, i as int);
                }
                return Some(self.unary_ops[i].func.clone());
            }
            i = i + 1;
        }
        proof {
            lemma_find_unary_absent(self.unary_ops@, op@, 0);
        }
        None
    }

    /// All operators this registry recognizes
    pub fn op_strings(&self) -> (r: Vec<String>)
        ensures
            r@.map_values(|s: String| s@) == self.binary_keys() + self.unary_keys(),
            forall|k: Seq<char>| #[trigger] self.binary_keys().contains(k) <==> self.binary_spec(k) is Some,
            forall|k: Seq<char>| #[trigger] self.unary_keys().contains(k) <==> self.unary_spec(k) is Some,
            forall|k: Seq<char>| (exists|i: int| 0 <= i < r@.len() && #[trigger] r@[i]@ == k) <==> self.is_op(k),
    {
        let mut r: Vec<String> = Vec::new();
        let mut i: usize = 0;
        while i < self.binary_ops.len()
            invariant
                i <= self.binary_ops.len(),
                r@.len() == i,
                forall|m: int| 0 <= m < i ==> #[trigger] r@[m]@ == self.binary_ops@[m].op@,
            decreases self.binary_ops.len() - i,
        {
            r.push(self.binary_ops[i].op.clone());
            i = i + 1;
        }
        let nb = self.binary_ops.len();
        let mut j: usize = 0;
        while j < self.unary_ops.len()
            invariant
                nb == self.binary_ops.len(),
                j <= self.unary_ops.len(),
                r@.len() == nb + j,
                forall|m: int| 0 <= m < nb ==> #[trigger] r@[m]@ == self.binary_ops@[m].op@,
                forall|m: int| nb <= m < nb + j ==> #[trigger] r@[m]@ == self.unary_ops@[m - nb].op@,
            decreases self.unary_ops.len() - j,
        {
            r.push(self.unary_ops[j].op.clone());
            j = j + 1;
        }
        proof {
            assert forall|k: Seq<char>| (exists|i: int| 0 <= i < r@.len() && #[trigger] r@[i]@ == k) <==> self.is_op(k) by {
                if exists|i: int| 0 <= i < r@.len() && #[trigger] r@[i]@ == k {
                    let i = choose|i: int| 0 <= i < r@.len() && #[trigger] r@[i]@ == k;
                    if i < nb {
                        let first = self.first_binary(k, i);
                        lemma_find_binary_found(self.binary_ops@, k, 0, first);
                    } else {
                        let first = self.first_unary(k, i - nb);
                        lemma_find_unary_found(self.unary_ops@, k, 0, first);
                    }
                }
                if self.binary_spec(k) is Some {
                    if forall|m: int| 0 <= m < nb ==> self.binary_ops@[m].op@ != k {
                        lemma_find_binary_absent(self.binary_ops@, k, 0);
                    }
                    let m = choose|m: int| 0 <= m < nb && self.binary_ops@[m].op@ == k;
                    assert(r@[m]@ == k);
                } else if self.unary_spec(k) is Some {
                    if forall|m: int| 0 <= m < self.unary_ops@.len() ==> self.unary_ops@[m].op@ != k {
                        lemma_find_unary_absent(self.unary_ops@, k, 0);
                    }
                    let m = choose|m: int| 0 <= m < self.unary_ops@.len() && self.unary_ops@[m].op@ == k;
                    assert(r@[nb + m]@ == k);
                }
            }
        }
        proof {
            assert(r@.map_values(|s: String| s@) =~= self.binary_keys() + self.unary_keys());
            assert forall|k: Seq<char>| #[trigger] self.binary_keys().contains(k) <==> self.binary_spec(k) is Some by {
                if self.binary_keys().contains(k) {
                    let m = choose|m: int| 0 <= m < self.binary_keys().len() && self.binary_keys()[m] == k;
                    let first = self.first_binary(k, m);
                    lemma_find_binary_found(self.binary_ops@, k, 0, first);
                }
                if self.binary_spec(k) is Some {
                    if forall|m: int| 0 <= m < nb ==> self.binary_ops@[m].op@ != k {
                        lemma_find_binary_absent(self.binary_ops@, k, 0);
                    }
                    let m = choose|m: int| 0 <= m < nb && self.binary_ops@[m].op@ == k;
                    assert(self.binary_keys()[m] == k);
                }
            }
            assert forall|k: Seq<char>| #[trigger] self.unary_keys().contains(k) <==> self.unary_spec(k) is Some by {
                if self.unary_keys().contains(k) {
                    let m = choose|m: int| 0 <= m < self.unary_keys().len() && self.unary_keys()[m] == k;
                    let first = self.first_unary(k, m);
                    lemma_find_unary_found(self.unary_ops@, k, 0, first);
                }
                if self.unary_spec(k) is Some {
                    if forall|m: int| 0 <= m < self.unary_ops@.len() ==> self.unary_ops@[m].op@ != k {
                        lemma_find_unary_absent(self.unary_ops@, k, 0);
                    }
                    let m = choose|m: int| 0 <= m < self.unary_ops@.len() && self.unary_ops@[m].op@ == k;
                    assert(self.unary_keys()[m] == k);
                }
            }
        }
        r
    }

    /// The first index at or before `j` whose binary entry is spelled `k`
    proof fn first_binary(&self, k: Seq<char>, j: int) -> (f: int)
        requires
            0 <= j < self.binary_ops@.len(),
            self.binary_ops@[j].op@ == k,
        ensures
            0 <= f <= j,
            self.binary_ops@[f].op@ == k,
            forall|m: int| 0 <= m < f ==> self.binary_ops@[m].op@ != k,
        decreases j,
    {
        if exists|m: int| 0 <= m < j && self.binary_ops@[m].op@ == k {
            let m = choose|m: int| 0 <= m < j && self.binary_ops@[m].op@ == k;
            self.first_binary(k, m)
        } else {
            j
        }
    }

    /// The first index at or before `j` whose unary entry is spelled `k`
    proof fn first_unary(&self, k: Seq<char>, j: int) -> (f: int)
        requires
            0 <= j < self.unary_ops@.len(),
            self.unary_ops@[j].op@ == k,
        ensures
            0 <= f <= j,
            self.unary_ops@[f].op@ == k,
            forall|m: int| 0 <= m < f ==> self.unary_ops@[m].op@ != k,
        decreases j,
    {
        if exists|m: int| 0 <= m < j && self.unary_ops@[m].op@ == k {
            let m = choose|m: int| 0 <= m < j && self.unary_ops@[m].op@ == k;
            self.first_unary(k, m)
        } else {
            j
        }
    }
}

} // verus!
