//! A text buffer with versions, undo and redo, kept in a `ropey::Rope`.
use vstd::prelude::*;
use crate::ropes::{
    rope_chars, line_count, line_start, line_len, breaks_before, lemma_line_start_bounds, lemma_line_start_le,
    rope_new, rope_from_str, rope_len_chars, rope_len_lines, rope_try_line_to_char, rope_line_len,
    rope_char_to_line, rope_try_insert, rope_try_remove, rope_get_slice, char_index_error,
};
use crate::text::str_to_chars;

verus! {

/// Why a buffer operation failed
#[derive(Debug)]
pub enum BufferError {
    OutdatedVersion,
    RopeyError(ropey::Error),
}

/// What an edit of a text comes to: the new text, a refusal, or a panic.
pub enum EditOutcome {
    Done(Seq<char>),
    Failed,
    Panics,
}

/// Inserting `t` at `line`, `col` (0-indexed chars): refused past the line
/// after the last, and where the column is not inside the line unless it
/// lands at the very end of the text.
pub open spec fn insert_outcome(s: Seq<char>, line: int, col: int, t: Seq<char>) -> EditOutcome {
    let lc = line_count(s) as int;
    if line > lc {
        EditOutcome::Failed
    } else {
        let idx = line_start(s, line as nat) + col;
        if idx > usize::MAX {
            EditOutcome::Panics
        } else if line == lc {
            EditOutcome::Panics
        } else if line_len(s, line as nat) <= col && idx != s.len() {
            EditOutcome::Failed
        } else if idx > s.len() {
            EditOutcome::Failed
        } else {
            EditOutcome::Done(s.subrange(0, idx) + t + s.subrange(idx, s.len() as int))
        }
    }
}

/// Applying a recorded deletion of `n` chars at `line`, `col`.
pub open spec fn apply_delete_outcome(s: Seq<char>, line: int, col: int, n: int) -> EditOutcome {
    let lc = line_count(s) as int;
    if line > lc {
        EditOutcome::Failed
    } else {
        let idx = line_start(s, line as nat) + col;
        if idx > usize::MAX {
            EditOutcome::Panics
        } else if line == lc {
            EditOutcome::Panics
        } else if line_len(s, line as nat) <= col && idx != s.len() {
            EditOutcome::Failed
        } else if idx + n > usize::MAX {
            EditOutcome::Panics
        } else if idx + n > s.len() {
            EditOutcome::Failed
        } else {
            EditOutcome::Done(s.subrange(0, idx) + s.subrange(idx + n, s.len() as int))
        }
    }
}

/// Deleting `n` chars at `line`, `col` through [`Buffer::delete`], which
/// first reads the text it removes.
pub open spec fn delete_outcome(s: Seq<char>, line: int, col: int, n: int) -> EditOutcome {
    let lc = line_count(s) as int;
    if line > lc {
        EditOutcome::Failed
    } else {
        let idx = line_start(s, line as nat) + col;
        if idx > usize::MAX || idx + n > usize::MAX {
            EditOutcome::Panics
        } else if idx + n > s.len() {
            EditOutcome::Failed
        } else {
            apply_delete_outcome(s, line, col, n)
        }
    }
}

/// A reversable operation, as plain values
pub enum OpView {
    Insert(int, int, Seq<char>),
    Delete(int, int, int),
}

/// A reversable operation that can be applied to a [`Buffer`]
pub enum Operation {
    /// Inserts the given text at the given position
    Insert { line: usize, col: usize, text: String },
    /// Deletes the given count of characters at the given position
    Delete { line: usize, col: usize, len: usize },
}

impl View for Operation {
    type V = OpView;

    open spec fn view(&self) -> OpView {
        match self {
            Operation::Insert { line, col, text } => OpView::Insert(*line as int, *col as int, text@),
            Operation::Delete { line, col, len } => OpView::Delete(*line as int, *col as int, *len as int),
        }
    }
}

/// What applying an operation to a text comes to.
pub open spec fn apply_outcome(op: OpView, s: Seq<char>) -> EditOutcome {
    match op {
        OpView::Insert(l, c, t) => insert_outcome(s, l, c, t),
        OpView::Delete(l, c, n) => apply_delete_outcome(s, l, c, n),
    }
}

/// What the inverse of an operation on a text is: the operation that puts
/// back what it changes, where that can be read.
pub enum InverseOutcome {
    Op(OpView),
    Failed,
    Panics,
}

pub open spec fn inverse_outcome(op: OpView, s: Seq<char>) -> InverseOutcome {
    match op {
        OpView::Insert(l, c, t) => InverseOutcome::Op(OpView::Delete(l, c, t.len() as int)),
        OpView::Delete(l, c, n) => {
            if l > line_count(s) {
                InverseOutcome::Failed
            } else {
                let idx = line_start(s, l as nat) + c;
                if idx > usize::MAX || idx + n > usize::MAX {
                    InverseOutcome::Panics
                } else if idx + n > s.len() {
                    InverseOutcome::Failed
                } else {
                    InverseOutcome::Op(OpView::Insert(l, c, s.subrange(idx, idx + n)))
                }
            }
        },
    }
}

/// A set of changes that can be applied to a buffer to invert a change
pub struct OpSet(pub Vec<Operation>);

/// A general text-buffer implementation that handles
/// version, undo, redo, etc for you
pub struct Buffer {
    rope: ropey::Rope,

    version: u128,

    change: OpSet,

    undo_stack: Vec<OpSet>,
    redo_stack: Vec<OpSet>,
}

/// A line's part of a viewport: where it starts and ends, and its text
pub struct Span {
    pub start_char: usize,
    pub end_char: usize,

    pub text: String,
}

impl Operation {
    /// Applies the given operation to the buffer
    pub fn apply(&self, buf: &mut Buffer) -> (r: Result<(), BufferError>)
        requires
            apply_outcome(self@, old(buf).text()) !is Panics,
            old(buf).current_version() < u128::MAX,
        ensures
            final(buf).change_ops() == old(buf).change_ops(),
            final(buf).undo_sets() == old(buf).undo_sets(),
            final(buf).redo_sets() == old(buf).redo_sets(),
            match apply_outcome(self@, old(buf).text()) {
                EditOutcome::Done(t) => r is Ok && final(buf).text() == t && final(buf).current_version() == old(buf).current_version() + 1,
                _ => r is Err && final(buf).text() == old(buf).text() && final(buf).current_version() == old(buf).current_version(),
            },
    {
        let ghost s = buf.text();
        proof {
            lemma_line_start_bounds(s, 0);
        }
        match self {
            Operation::Insert { line, col, text } => {
                let start = match rope_try_line_to_char(&buf.rope, *line) {
                    Ok(v) => v,
                    Err(e) => { return Err(BufferError::RopeyError(e)); },
                };
                proof {
                    lemma_line_start_bounds(s, *line as nat);
                }
                let idx = start + *col;
                let line_len = rope_line_len(&buf.rope, *line);
                if line_len <= *col && idx != rope_len_chars(&buf.rope) {
                    return Err(BufferError::RopeyError(char_index_error(*col, line_len)));
                }
                match rope_try_insert(&mut buf.rope, idx, text.as_str()) {
                    Ok(()) => {},
                    Err(e) => { return Err(BufferError::RopeyError(e)); },
                }
            },
            Operation::Delete { line, col, len } => {
                let start = match rope_try_line_to_char(&buf.rope, *line) {
                    Ok(v) => v,
                    Err(e) => { return Err(BufferError::RopeyError(e)); },
                };
                proof {
                    lemma_line_start_bounds(s, *line as nat);
                }
                let idx = start + *col;
                let line_len = rope_line_len(&buf.rope, *line);
                if line_len <= *col && idx != rope_len_chars(&buf.rope) {
                    return Err(BufferError::RopeyError(char_index_error(*col, line_len)));
                }
                match rope_try_remove(&mut buf.rope, idx, idx + *len) {
                    Ok(()) => {},
                    Err(e) => { return Err(BufferError::RopeyError(e)); },
                }
            },
        }
        buf.version += 1;
        Ok(())
    }

    /// Given the buffer, reverses an operation
    pub fn inverse(&self, buf: &Buffer) -> (r: Result<Operation, BufferError>)
        requires
            inverse_outcome(self@, buf.text()) !is Panics,
        ensures
            match inverse_outcome(self@, buf.text()) {
                InverseOutcome::Op(o) => r is Ok && r->Ok_0@ == o,
                _ => r is Err,
            },
    {
        match self {
            Operation::Insert { line, col, text } => {
                let n = str_to_chars(text.as_str()).len();
                Ok(Operation::Delete { line: *line, col: *col, len: n })
            },
            Operation::Delete { line, col, len } => {
                let start = match rope_try_line_to_char(&buf.rope, *line) {
                    Ok(v) => v,
                    Err(e) => { return Err(BufferError::RopeyError(e)); },
                };
                let idx = start + *col;
                match rope_get_slice(&buf.rope, idx, idx + *len) {
                    Some(text) => Ok(Operation::Insert { line: *line, col: *col, text }),
                    None => Err(BufferError::RopeyError(char_index_error(idx, rope_len_chars(&buf.rope)))),
                }
            },
        }
    }
}

/// The operations of a set, as plain values.
pub open spec fn ops_view(v: Seq<Operation>) -> Seq<OpView> {
    v.map_values(|o: Operation| o@)
}

impl Buffer {
    /// The chars the buffer holds
    pub closed spec fn text(&self) -> Seq<char> {
        rope_chars(self.rope)
    }

    /// How many edits have been applied
    pub closed spec fn current_version(&self) -> u128 {
        self.version
    }

    /// The inverses of the edits since the last commit, in the order they were made
    pub closed spec fn change_ops(&self) -> Seq<OpView> {
        ops_view(self.change.0@)
    }

    /// The committed changes that undo can take back, oldest first
    pub closed spec fn undo_sets(&self) -> Seq<Seq<OpView>> {
        self.undo_stack@.map_values(|s: OpSet| ops_view(s.0@))
    }

    /// The undone changes that redo can put back, oldest first
    pub closed spec fn redo_sets(&self) -> Seq<Seq<OpView>> {
        self.redo_stack@.map_values(|s: OpSet| ops_view(s.0@))
    }

    /// The undo and redo stacks can be replayed: the current change and every
    /// committed change round-trip from where they apply, undone changes are
    /// only kept while nothing new has been edited, and they round-trip too
    pub open spec fn history_ok(&self) -> bool {
        &&& round_trips(self.change_ops(), self.text())
        &&& chain_ok(self.undo_sets(), run(self.change_ops(), self.text()).unwrap().0)
        &&& self.redo_sets().len() > 0 ==> self.change_ops().len() == 0
        &&& chain_ok(self.redo_sets(), self.text())
    }

    /// The text `undo` goes back to
    pub open spec fn undo_target(&self) -> Seq<char> {
        if self.change_ops().len() > 0 {
            run(self.change_ops(), self.text()).unwrap().0
        } else if self.undo_sets().len() > 0 {
            run(self.undo_sets().last(), self.text()).unwrap().0
        } else {
            self.text()
        }
    }

    /// The text `redo` goes forward to
    pub open spec fn redo_target(&self) -> Seq<char> {
        if self.change_ops().len() == 0 && self.redo_sets().len() > 0 {
            run(self.redo_sets().last(), self.text()).unwrap().0
        } else {
            self.text()
        }
    }

    /// How many edits `undo` applies
    pub open spec fn undo_cost(&self) -> nat {
        if self.change_ops().len() > 0 {
            self.change_ops().len()
        } else if self.undo_sets().len() > 0 {
            self.undo_sets().last().len()
        } else {
            0
        }
    }

    /// How many edits `redo` applies
    pub open spec fn redo_cost(&self) -> nat {
        if self.change_ops().len() == 0 && self.redo_sets().len() > 0 {
            self.redo_sets().last().len()
        } else {
            0
        }
    }

    /// Whether `undo` has something to take back
    pub open spec fn can_undo(&self) -> bool {
        self.change_ops().len() > 0 || self.undo_sets().len() > 0
    }

    /// Whether `redo` has something to bring back
    pub open spec fn can_redo(&self) -> bool {
        self.change_ops().len() == 0 && self.redo_sets().len() > 0
    }

    /// The set of edits `undo` takes back: the pending change, else the
    /// latest committed one, else none
    pub open spec fn undo_top(&self) -> Seq<OpView> {
        if self.change_ops().len() > 0 {
            self.change_ops()
        } else if self.undo_sets().len() > 0 {
            self.undo_sets().last()
        } else {
            Seq::empty()
        }
    }

    /// The set of edits `redo` brings back, if any
    pub open spec fn redo_top(&self) -> Seq<OpView> {
        if self.can_redo() { self.redo_sets().last() } else { Seq::empty() }
    }

    /// An empty buffer at version 0, with nothing to undo or redo
    pub fn new() -> (r: Buffer)
        ensures
            r.text() == Seq::<char>::empty(),
            r.history_ok(),
            r.current_version() == 0,
            r.change_ops() == Seq::<OpView>::empty(),
            r.undo_sets() == Seq::<Seq<OpView>>::empty(),
            r.redo_sets() == Seq::<Seq<OpView>>::empty(),
    {
        let r = Buffer {
            rope: rope_new(),
            version: 0,
            change: OpSet(Vec::new()),
            undo_stack: Vec::new(),
            redo_stack: Vec::new(),
        };
        assert(r.change_ops() =~= Seq::<OpView>::empty());
        assert(r.undo_sets() =~= Seq::<Seq<OpView>>::empty());
        assert(r.redo_sets() =~= Seq::<Seq<OpView>>::empty());
        r
    }

    /// A buffer holding `text`, at version 0, with nothing to undo or redo
    pub fn from_str(text: &str) -> (r: Buffer)
        ensures
            r.text() == text@,
            r.history_ok(),
            r.current_version() == 0,
            r.change_ops() == Seq::<OpView>::empty(),
            r.undo_sets() == Seq::<Seq<OpView>>::empty(),
            r.redo_sets() == Seq::<Seq<OpView>>::empty(),
    {
        let r = Buffer {
            rope: rope_from_str(text),
            version: 0,
            change: OpSet(Vec::new()),
            undo_stack: Vec::new(),
            redo_stack: Vec::new(),
        };
        assert(r.change_ops() =~= Seq::<OpView>::empty());
        assert(r.undo_sets() =~= Seq::<Seq<OpView>>::empty());
        assert(r.redo_sets() =~= Seq::<Seq<OpView>>::empty());
        r
    }
}


/// What `undo` leaves of `b0`: the text it goes back to, one version per
/// edit taken back, nothing pending, a sound history kept sound, and, where
/// the set taken back round-trips, a redo that brings back `b0`'s text at
/// the same cost.
pub open spec fn undone(b0: Buffer, b1: Buffer) -> bool {
    &&& b1.text() == b0.undo_target()
    &&& b1.current_version() == b0.current_version() + b0.undo_cost()
    &&& b1.change_ops().len() == 0
    &&& b0.history_ok() ==> b1.history_ok()
    &&& b0.can_undo() && round_trips(b0.undo_top(), b0.text()) ==> {
        &&& b1.can_redo()
        &&& b1.redo_target() == b0.text()
        &&& b1.redo_cost() == b0.undo_cost()
        &&& round_trips(b1.redo_top(), b1.text())
    }
}

/// What `redo` leaves of `b0`: the text it goes forward to, one version per
/// edit brought back, nothing pending, a sound history kept sound, and,
/// where the set brought back round-trips, an undo that goes back to
/// `b0`'s text at the same cost.
pub open spec fn redone(b0: Buffer, b1: Buffer) -> bool {
    &&& b1.text() == b0.redo_target()
    &&& b1.current_version() == b0.current_version() + b0.redo_cost()
    &&& b1.change_ops().len() == 0
    &&& b0.history_ok() ==> b1.history_ok()
    &&& b0.can_redo() && round_trips(b0.redo_top(), b0.text()) ==> {
        &&& b1.can_undo()
        &&& b1.undo_target() == b0.text()
        &&& b1.undo_cost() == b0.redo_cost()
        &&& round_trips(b1.undo_top(), b1.text())
    }
}

/// A sound history can always be undone and redone: the sets on top apply.
pub proof fn lemma_history_applies(b: Buffer)
    requires
        b.history_ok(),
    ensures
        round_trips(b.undo_top(), b.text()),
        round_trips(b.redo_top(), b.text()),
{
    assert(run(Seq::<OpView>::empty(), b.text()) == Some((b.text(), Seq::<OpView>::empty())));
    if b.change_ops().len() == 0 {
        assert(b.change_ops() =~= Seq::<OpView>::empty());
    }
}

/// Undo then redo: where the set taken back round-trips, the redo can be
/// made (its set applies, and it fits whenever the version leaves room for
/// both) and brings back the text from before the undo.
pub proof fn law_undo_then_redo(b0: Buffer, b1: Buffer, b2: Buffer)
    requires
        b0.can_undo(),
        round_trips(b0.undo_top(), b0.text()),
        undone(b0, b1),
    ensures
        run(b1.redo_top(), b1.text()) is Some,
        b0.current_version() + 2 * b0.undo_cost() <= u128::MAX
            ==> b1.current_version() + b1.redo_cost() <= u128::MAX,
        redone(b1, b2) ==> b2.text() == b0.text(),
        redone(b1, b2) ==> b2.current_version() == b0.current_version() + 2 * b0.undo_cost(),
{
}

/// Redo then undo: where the set brought back round-trips, the undo can be
/// made (its set applies, and it fits whenever the version leaves room for
/// both) and goes back to the text from before the redo.
pub proof fn law_redo_then_undo(b0: Buffer, b1: Buffer, b2: Buffer)
    requires
        b0.can_redo(),
        round_trips(b0.redo_top(), b0.text()),
        redone(b0, b1),
    ensures
        run(b1.undo_top(), b1.text()) is Some,
        b0.current_version() + 2 * b0.redo_cost() <= u128::MAX
            ==> b1.current_version() + b1.undo_cost() <= u128::MAX,
        undone(b1, b2) ==> b2.text() == b0.text(),
        undone(b1, b2) ==> b2.current_version() == b0.current_version() + 2 * b0.redo_cost(),
{
}

/// Taking back a list of recorded operations, last first, from the text `s`:
/// each must have an inverse and apply cleanly. Gives the text reached and
/// the inverses, in the order they were taken.
pub open spec fn run(ops: Seq<OpView>, s: Seq<char>) -> Option<(Seq<char>, Seq<OpView>)>
    decreases ops.len(),
{
    if ops.len() == 0 {
        Some((s, Seq::empty()))
    } else {
        match (inverse_outcome(ops.last(), s), apply_outcome(ops.last(), s)) {
            (InverseOutcome::Op(i), EditOutcome::Done(t)) => match run(ops.drop_last(), t) {
                Some((u, is)) => Some((u, seq![i] + is)),
                None => None,
            },
            _ => None,
        }
    }
}

/// Whether running `ops` from `s` works and running its inverses from where
/// that lands comes back to `s` with `ops` again.
pub open spec fn round_trips(ops: Seq<OpView>, s: Seq<char>) -> bool {
    match run(ops, s) {
        Some((b, is)) => run(is, b) == Some((s, ops)),
        None => false,
    }
}

/// Whether every set of a stack, taken from the top down starting at `s`, round-trips.
pub open spec fn chain_ok(sets: Seq<Seq<OpView>>, s: Seq<char>) -> bool
    decreases sets.len(),
{
    if sets.len() == 0 {
        true
    } else {
        round_trips(sets.last(), s) && chain_ok(sets.drop_last(), run(sets.last(), s).unwrap().0)
    }
}

/// Whether an edit can be taken back: its inverse, applied to the text the
/// edit gives, brings back the text before it, and has the edit as its own inverse.
pub open spec fn undoable(op: OpView, s: Seq<char>) -> bool {
    match (inverse_outcome(op, s), apply_outcome(op, s)) {
        (InverseOutcome::Op(i), EditOutcome::Done(t)) => inverse_outcome(i, t) == InverseOutcome::Op(op)
            && apply_outcome(i, t) == EditOutcome::Done(s),
        _ => true,
    }
}

/// Running `b` from `s` and then `a` from where it lands.
pub open spec fn run_then(a: Seq<OpView>, b: Seq<OpView>, s: Seq<char>) -> Option<(Seq<char>, Seq<OpView>)> {
    match run(b, s) {
        Some((t, ib)) => match run(a, t) {
            Some((u, ia)) => Some((u, ib + ia)),
            None => None,
        },
        None => None,
    }
}

/// Running `b` and then `a` from `s` is running `a + b` from `s`.
pub proof fn lemma_run_concat(a: Seq<OpView>, b: Seq<OpView>, s: Seq<char>)
    ensures
        run(a + b, s) == run_then(a, b, s),
    decreases b.len(),
{
    if b.len() == 0 {
        assert(a + b =~= a);
        assert(run(b, s) == Some((s, Seq::<OpView>::empty())));
        if let Some((u, ia)) = run(a, s) {
            assert(Seq::<OpView>::empty() + ia =~= ia);
        }
    } else {
        assert((a + b).last() == b.last());
        assert((a + b).drop_last() =~= a + b.drop_last());
        lemma_run_concat(a, b.drop_last(), s);
        match (inverse_outcome(b.last(), s), apply_outcome(b.last(), s)) {
            (InverseOutcome::Op(i), EditOutcome::Done(t)) => {
                lemma_run_concat(a, b.drop_last(), t);
                assert(run(a + b, s) == match run(a + b.drop_last(), t) {
                    Some((u, is)) => Some((u, seq![i] + is)),
                    None => None,
                });
                assert(run(b, s) == match run(b.drop_last(), t) {
                    Some((u, is)) => Some((u, seq![i] + is)),
                    None => None,
                });
                if let Some((t2, ib)) = run(b.drop_last(), t) {
                    if let Some((u, ia)) = run(a, t2) {
                        assert(seq![i] + (ib + ia) =~= (seq![i] + ib) + ia);
                    }
                }
            },
            _ => {
                assert(run(a + b, s) is None);
                assert(run(b, s) is None);
            },
        }
    }
}

/// Round-tripping is symmetric: the inverses round-trip from where the set lands.
pub proof fn lemma_round_trips_symmetric(ops: Seq<OpView>, s: Seq<char>)
    requires
        round_trips(ops, s),
    ensures
        round_trips(run(ops, s).unwrap().1, run(ops, s).unwrap().0),
{
}

/// Recording one more undoable edit keeps the current change round-tripping.
pub proof fn lemma_round_trips_push(c: Seq<OpView>, t0: Seq<char>, op: OpView)
    requires
        round_trips(c, t0),
        undoable(op, t0),
        inverse_outcome(op, t0) is Op,
        apply_outcome(op, t0) is Done,
    ensures
        round_trips(c.push(inverse_outcome(op, t0)->Op_0), apply_outcome(op, t0)->Done_0),
        run(c.push(inverse_outcome(op, t0)->Op_0), apply_outcome(op, t0)->Done_0).unwrap().0 == run(c, t0).unwrap().0,
{
    let inv = inverse_outcome(op, t0)->Op_0;
    let t1 = apply_outcome(op, t0)->Done_0;
    let c2 = c.push(inv);
    assert(c2.last() == inv);
    assert(c2.drop_last() == c);
    let (b, is) = run(c, t0).unwrap();
    assert(run(c2, t1) == Some((b, seq![op] + is)));
    lemma_run_concat(seq![op], is, b);
    assert(run_then(seq![op], is, b) == run(seq![op] + is, b));
    assert(run(seq![op], t0) == Some((t1, seq![inv]))) by {
        let one = seq![op];
        assert(one.len() == 1);
        assert(one.last() == op);
        assert(one.drop_last() =~= Seq::<OpView>::empty());
        assert(run(Seq::<OpView>::empty(), t1) == Some((t1, Seq::<OpView>::empty())));
        assert(seq![inv] + Seq::<OpView>::empty() =~= seq![inv]);
    }
    assert(c + seq![inv] == c2);
}

/// Line `start.0 + i` of a viewport from `start` to `end` over the text `s`:
/// the columns from `start.1` to `end.1` of that line, each cut to the
/// line's length.
pub open spec fn viewport_line(s: Seq<char>, start: (usize, usize), end: (usize, usize), i: int, span: Span) -> bool {
    let l = (start.0 + i) as nat;
    let ls = line_start(s, l);
    let ll = line_len(s, l);
    let a = ls + if start.1 < ll { start.1 as int } else { ll };
    let b = ls + if end.1 < ll { end.1 as int } else { ll };
    &&& span.start_char == a
    &&& span.end_char == b
    &&& span.text@ == s.subrange(a, b)
}

impl Buffer {
    /// Applies an operation and records its inverse in the current change
    fn apply_op(&mut self, op: Operation) -> (r: Result<(), BufferError>)
        requires
            inverse_outcome(op@, old(self).text()) !is Panics,
            inverse_outcome(op@, old(self).text()) is Op ==> apply_outcome(op@, old(self).text()) !is Panics,
            old(self).current_version() < u128::MAX,
        ensures
            match (inverse_outcome(op@, old(self).text()), apply_outcome(op@, old(self).text())) {
                (InverseOutcome::Op(inv), EditOutcome::Done(t)) => {
                    &&& r is Ok
                    &&& final(self).text() == t
                    &&& final(self).current_version() == old(self).current_version() + 1
                    &&& final(self).change_ops() == old(self).change_ops().push(inv)
                    &&& final(self).undo_sets() == old(self).undo_sets()
                    &&& final(self).redo_sets() == Seq::<Seq<OpView>>::empty()
                    &&& (old(self).history_ok() && undoable(op@, old(self).text()) ==> final(self).history_ok())
                },
                _ => {
                    &&& r is Err
                    &&& final(self).text() == old(self).text()
                    &&& final(self).current_version() == old(self).current_version()
                    &&& final(self).change_ops() == old(self).change_ops()
                    &&& final(self).undo_sets() == old(self).undo_sets()
                    &&& final(self).redo_sets() == old(self).redo_sets()
                },
            },
    {
        let inverse = match op.inverse(self) {
            Ok(i) => i,
            Err(e) => { return Err(e); },
        };

        match op.apply(self) {
            Ok(()) => {},
            Err(e) => { return Err(e); },
        }

        self.redo_stack.clear();
        self.change.0.push(inverse);
        proof {
            assert(self.change_ops() =~= old(self).change_ops().push(inverse@));
            assert(self.redo_sets() =~= Seq::<Seq<OpView>>::empty());
            if old(self).history_ok() && undoable(op@, old(self).text()) {
                lemma_round_trips_push(old(self).change_ops(), old(self).text(), op@);
            }
        }

        Ok(())
    }

    /// Inserts text at the given line and col (0-indexed char indices)
    pub fn insert(&mut self, line: usize, col: usize, text: &str) -> (r: Result<(), BufferError>)
        requires
            insert_outcome(old(self).text(), line as int, col as int, text@) !is Panics,
            old(self).current_version() < u128::MAX,
        ensures
            match insert_outcome(old(self).text(), line as int, col as int, text@) {
                EditOutcome::Done(t) => {
                    &&& r is Ok
                    &&& final(self).text() == t
                    &&& final(self).current_version() == old(self).current_version() + 1
                    &&& final(self).change_ops() == old(self).change_ops().push(OpView::Delete(line as int, col as int, text@.len() as int))
                    &&& final(self).undo_sets() == old(self).undo_sets()
                    &&& final(self).redo_sets() == Seq::<Seq<OpView>>::empty()
                    &&& (old(self).history_ok() && undoable(OpView::Insert(line as int, col as int, text@), old(self).text())
                        ==> final(self).history_ok())
                },
                _ => {
                    &&& r is Err
                    &&& final(self).text() == old(self).text()
                    &&& final(self).current_version() == old(self).current_version()
                    &&& final(self).change_ops() == old(self).change_ops()
                    &&& final(self).undo_sets() == old(self).undo_sets()
                    &&& final(self).redo_sets() == old(self).redo_sets()
                },
            },
    {
        self.apply_op(Operation::Insert { line, col, text: text.to_owned() })
    }

    /// Deletes count characters starting at the given line and col (0-indexed char indices)
    pub fn delete(&mut self, line: usize, col: usize, count: usize) -> (r: Result<(), BufferError>)
        requires
            delete_outcome(old(self).text(), line as int, col as int, count as int) !is Panics,
            old(self).current_version() < u128::MAX,
        ensures
            match delete_outcome(old(self).text(), line as int, col as int, count as int) {
                EditOutcome::Done(t) => {
                    let idx = line_start(old(self).text(), line as nat) + col;
                    &&& r is Ok
                    &&& final(self).text() == t
                    &&& final(self).current_version() == old(self).current_version() + 1
                    &&& final(self).change_ops() == old(self).change_ops().push(
                        OpView::Insert(line as int, col as int, old(self).text().subrange(idx, idx + count)))
                    &&& final(self).undo_sets() == old(self).undo_sets()
                    &&& final(self).redo_sets() == Seq::<Seq<OpView>>::empty()
                    &&& (old(self).history_ok() && undoable(OpView::Delete(line as int, col as int, count as int), old(self).text())
                        ==> final(self).history_ok())
                },
                _ => {
                    &&& r is Err
                    &&& final(self).text() == old(self).text()
                    &&& final(self).current_version() == old(self).current_version()
                    &&& final(self).change_ops() == old(self).change_ops()
                    &&& final(self).undo_sets() == old(self).undo_sets()
                    &&& final(self).redo_sets() == old(self).redo_sets()
                },
            },
    {
        self.apply_op(Operation::Delete { line, col, len: count })
    }

    /// Commits the current change on the buffer to the undo stack
    ///
    /// Returns whether a change was actually committed
    pub fn commit_change(&mut self) -> (r: bool)
        ensures
            r == (old(self).change_ops().len() > 0),
            final(self).text() == old(self).text(),
            final(self).current_version() == old(self).current_version(),
            final(self).change_ops() == Seq::<OpView>::empty(),
            r ==> final(self).undo_sets() == old(self).undo_sets().push(old(self).change_ops()),
            r ==> final(self).redo_sets() == Seq::<Seq<OpView>>::empty(),
            !r ==> final(self).undo_sets() == old(self).undo_sets(),
            !r ==> final(self).redo_sets() == old(self).redo_sets(),
            old(self).history_ok() ==> final(self).history_ok(),
            old(self).history_ok() ==> final(self).undo_target() == old(self).undo_target(),
            old(self).history_ok() ==> final(self).undo_cost() == old(self).undo_cost(),
    {
        if self.change.0.len() == 0 {
            assert(self.change_ops() =~= Seq::<OpView>::empty());
            return false;
        }
        proof {
            let t = self.text();
            let c = self.change_ops();
            assert(run(Seq::<OpView>::empty(), t) == Some((t, Seq::<OpView>::empty())));
        }

        let mut taken: Vec<Operation> = Vec::new();
        std::mem::swap(&mut taken, &mut self.change.0);
        let ops = OpSet(taken);

        self.redo_stack.clear();

        self.undo_stack.push(ops);
        proof {
            assert(self.change_ops() =~= Seq::<OpView>::empty());
            assert(self.redo_sets() =~= Seq::<Seq<OpView>>::empty());
            assert(self.undo_sets() =~= old(self).undo_sets().push(old(self).change_ops()));
            let u = self.undo_sets();
            assert(u.last() == old(self).change_ops());
            assert(u.drop_last() == old(self).undo_sets());
        }

        true
    }

    /// Returns a reference to the inner buffer for retrieving text
    pub fn rope(&self) -> (r: &ropey::Rope)
        ensures
            rope_chars(*r) == self.text(),
    {
        &self.rope
    }

    /// Returns the current version of the buffer
    pub fn version(&self) -> (r: u128)
        ensures
            r == self.current_version(),
    {
        self.version
    }

    /// Checks that the version matches the buffer's version
    ///
    /// Returns [`BufferError::OutdatedVersion`] if versions aren't the same
    pub fn validate_version(&self, version: u128) -> (r: Result<(), BufferError>)
        ensures
            r is Ok <==> version == self.current_version(),
            r matches Err(e) ==> e is OutdatedVersion,
    {
        if self.version != version {
            return Err(BufferError::OutdatedVersion);
        }

        Ok(())
    }

    /// The number of chars in the buffer
    pub fn len_chars(&self) -> (r: usize)
        ensures
            r == self.text().len(),
    {
        rope_len_chars(&self.rope)
    }

    /// The number of lines in the buffer (one more than its line breaks)
    pub fn len_lines(&self) -> (r: usize)
        ensures
            r == line_count(self.text()),
    {
        rope_len_lines(&self.rope)
    }

    /// The number of chars on a line, its line break included
    pub fn line_len(&self, line: usize) -> (r: usize)
        requires
            line < line_count(self.text()),
        ensures
            r == line_len(self.text(), line as nat),
    {
        rope_line_len(&self.rope, line)
    }

    /// Clamp a character position into the length of the buffer
    pub fn clamp(&self, chr: usize) -> (r: usize)
        requires
            self.text().len() > 0,
        ensures
            r == if chr >= self.text().len() { (self.text().len() - 1) as usize } else { chr },
    {
        let len = rope_len_chars(&self.rope);
        if chr >= len {
            len - 1
        } else {
            chr
        }
    }

    /// The line and column of a character position, after clamping it into the buffer
    pub fn char_to_line_col(&self, chr: usize) -> (r: (usize, usize))
        requires
            self.text().len() > 0,
        ensures
            ({
                let c = if chr >= self.text().len() { self.text().len() - 1 } else { chr as int };
                let l = breaks_before(self.text(), c);
                r.0 == l && r.1 == c - line_start(self.text(), l)
            }),
    {
        let chr = self.clamp(chr);

        let line = rope_char_to_line(&self.rope, chr);
        proof {
            lemma_line_start_le(self.text(), chr as int);
            crate::ropes::lemma_breaks_before_mono(self.text(), chr as int, self.text().len() as int);
        }
        let start_pos = match rope_try_line_to_char(&self.rope, line) {
            Ok(v) => v,
            Err(_) => 0,
        };

        (line, chr - start_pos)
    }

    /// Converts a line, column pair into a resulting character index
    ///
    /// Clamps line and col to be valid within the text
    pub fn line_col_to_char(&self, line: usize, col: usize) -> (r: usize)
        requires
            line_len(self.text(), if line >= line_count(self.text()) { (line_count(self.text()) - 1) as nat } else { line as nat }) > 0,
        ensures
            ({
                let l = if line >= line_count(self.text()) { (line_count(self.text()) - 1) as nat } else { line as nat };
                let ll = line_len(self.text(), l);
                r == line_start(self.text(), l) + if col >= ll { ll - 1 } else { col as int }
            }),
    {
        let len_lines = rope_len_lines(&self.rope);
        let line = if line >= len_lines { len_lines - 1 } else { line };

        proof {
            lemma_line_start_bounds(self.text(), line as nat);
        }
        let line_char = match rope_try_line_to_char(&self.rope, line) {
            Ok(v) => v,
            Err(_) => 0,
        };

        let ll = rope_line_len(&self.rope, line);
        let col = if col >= ll { ll - 1 } else { col };
        let _len = rope_len_chars(&self.rope);

        line_char + col
    }

    /// Returns a list of [`Span`]s based on a start and end (line, col) pair
    pub fn viewport(&self, start: (usize, usize), end: (usize, usize)) -> (r: Vec<Span>)
        ensures
            ({
                let s = self.text();
                let lines = if start.0 > end.0 || start.1 > end.1 {
                    0
                } else if end.0 <= line_count(s) {
                    end.0 - start.0
                } else if start.0 <= line_count(s) {
                    line_count(s) - start.0
                } else {
                    0
                };
                &&& r@.len() == lines
                &&& forall|i: int| 0 <= i < lines ==> viewport_line(s, start, end, i, #[trigger] r@[i])
            }),
    {
        let ghost s = self.text();
        let mut lines: Vec<Span> = Vec::new();
        if start.0 > end.0 || start.1 > end.1 {
            return lines;
        }

        let len_lines = rope_len_lines(&self.rope);
        let mut line = start.0;
        while line < end.0
            invariant
                start.0 <= line <= end.0,
                start.1 <= end.1,
                s == self.text(),
                len_lines == line_count(s),
                lines@.len() == line - start.0,
                line > start.0 ==> line <= line_count(s),
                forall|i: int| 0 <= i < lines@.len() ==> viewport_line(s, start, end, i, #[trigger] lines@[i]),
            ensures
                lines@.len() == line - start.0,
                line < end.0 ==> line >= line_count(s),
                forall|i: int| 0 <= i < lines@.len() ==> viewport_line(s, start, end, i, #[trigger] lines@[i]),
            decreases end.0 - line,
        {
            if line >= len_lines {
                break;
            }

            proof {
                lemma_line_start_bounds(s, line as nat);
            }
            let ll = rope_line_len(&self.rope, line);
            let line_char = match rope_try_line_to_char(&self.rope, line) {
                Ok(v) => v,
                Err(_) => 0,
            };
            let _n = rope_len_chars(&self.rope);
            let span_start = line_char + if start.1 < ll { start.1 } else { ll };
            let span_end = line_char + if end.1 < ll { end.1 } else { ll };
            let text = match rope_get_slice(&self.rope, span_start, span_end) {
                Some(t) => t,
                None => String::new(),
            };

            lines.push(Span { start_char: span_start, end_char: span_end, text });
            line = line + 1;
        }

        proof {
            let lc = line_count(s);
            if line < end.0 {
                assert(line >= lc);
                if line > start.0 {
                    assert(line == lc);
                }
            }
            let n = if end.0 <= lc {
                end.0 - start.0
            } else if start.0 <= lc {
                lc - start.0
            } else {
                0
            };
            assert(lines@.len() == n);
        }
        lines
    }
}

impl Buffer {
    /// Takes back the operations of a set, last first, recording the inverse of each
    fn take_back(&mut self, ops: &OpSet) -> (r: OpSet)
        requires
            run(ops_view(ops.0@), old(self).text()) is Some,
            old(self).current_version() + ops.0@.len() <= u128::MAX,
        ensures
            final(self).text() == run(ops_view(ops.0@), old(self).text()).unwrap().0,
            ops_view(r.0@) == run(ops_view(ops.0@), old(self).text()).unwrap().1,
            final(self).current_version() == old(self).current_version() + ops.0@.len(),
            final(self).change_ops() == old(self).change_ops(),
            final(self).undo_sets() == old(self).undo_sets(),
            final(self).redo_sets() == old(self).redo_sets(),
    {
        let ghost opsv = ops_view(ops.0@);
        let ghost t0 = self.text();
        let ghost b = run(opsv, t0).unwrap().0;
        let ghost is = run(opsv, t0).unwrap().1;
        let n = ops.0.len();
        proof {
            assert(opsv.subrange(0, n as int) == opsv);
            assert(is.subrange(0, is.len() as int) == is);
            lemma_run_len(opsv, t0);
        }
        let mut redo: Vec<Operation> = Vec::new();
        let mut i = n;
        while i > 0
            invariant
                i <= n == ops.0@.len(),
                opsv == ops_view(ops.0@),
                is.len() == n,
                run(opsv.subrange(0, i as int), self.text()) == Some((b, is.subrange(n - i, n as int))),
                ops_view(redo@) == is.subrange(0, n - i),
                self.current_version() == old(self).current_version() + (n - i),
                old(self).current_version() + n <= u128::MAX,
                self.change_ops() == old(self).change_ops(),
                self.undo_sets() == old(self).undo_sets(),
                self.redo_sets() == old(self).redo_sets(),
            decreases i,
        {
            let ghost pre = opsv.subrange(0, i as int);
            i = i - 1;
            let op = &ops.0[i];
            proof {
                assert(pre.last() == op@);
                assert(pre.drop_last() == opsv.subrange(0, i as int));
            }
            let inv = match op.inverse(self) {
                Ok(x) => x,
                Err(_) => {
                    proof {
                        assert(false);
                    }
                    return OpSet(redo);
                },
            };
            let ghost before = self.text();
            match op.apply(self) {
                Ok(()) => {},
                Err(_) => {
                    proof {
                        assert(false);
                    }
                    return OpSet(redo);
                },
            }
            proof {
                let rest = run(opsv.subrange(0, i as int), self.text()).unwrap().1;
                assert(is.subrange(n - i - 1, n as int) == seq![inv@] + rest);
                assert(is.subrange(n - i - 1, n as int)[0] == is[n - i - 1]);
                assert(rest =~= is.subrange(n - i, n as int)) by {
                    assert forall|k: int| 0 <= k < rest.len() implies rest[k] == is.subrange(n - i, n as int)[k] by {
                        assert(is.subrange(n - i - 1, n as int)[k + 1] == rest[k]);
                    }
                }
            }
            proof {
                assert((seq![inv@] + run(opsv.subrange(0, i as int), self.text()).unwrap().1)[0] == inv@);
                assert(inv@ == is[n - i - 1]);
            }
            let ghost r0 = redo@;
            redo.push(inv);
            proof {
                assert(ops_view(redo@) =~= ops_view(r0).push(inv@));
                assert(ops_view(redo@) =~= is.subrange(0, n - i));
            }
        }
        proof {
            assert(opsv.subrange(0, 0) =~= Seq::<OpView>::empty());
            assert(is.subrange(n as int, n as int) =~= Seq::<OpView>::empty());
            assert(is.subrange(0, n as int) =~= is);
        }
        OpSet(redo)
    }

    /// Commits changes and undoes
    pub fn undo(&mut self)
        requires
            run(old(self).undo_top(), old(self).text()) is Some,
            old(self).current_version() + old(self).undo_cost() <= u128::MAX,
        ensures
            undone(*old(self), *final(self)),
    {
        self.commit_change();
        let ghost t = self.text();
        let ghost committed = *self;
        let ops = match self.undo_stack.pop() {
            Some(o) => o,
            None => {
                proof {
                    assert(committed.undo_sets().len() == 0);
                    assert(old(self).change_ops().len() == 0);
                    assert(old(self).undo_sets().len() == 0);
                    assert(old(self).undo_target() == old(self).text());
                }
                return;
            },
        };
        proof {
            assert(committed.undo_sets().last() == ops_view(ops.0@));
            assert(committed.undo_sets().drop_last() =~= self.undo_sets());
            assert(ops_view(ops.0@) == old(self).undo_top());
            if old(self).history_ok() {
                lemma_chain_unfold(old(self).undo_sets(), old(self).change_ops(), old(self).text(), committed.undo_sets(), ops_view(ops.0@));
            }
        }
        let redo = self.take_back(&ops);
        let ghost mid = *self;
        self.redo_stack.push(redo);
        proof {
            if round_trips(ops_view(ops.0@), t) {
                lemma_round_trips_symmetric(ops_view(ops.0@), t);
            }
            lemma_run_len(ops_view(ops.0@), t);
            assert(self.redo_sets() =~= mid.redo_sets().push(ops_view(redo.0@)));
            let r = self.redo_sets();
            assert(r.last() == ops_view(redo.0@));
            assert(r.drop_last() == mid.redo_sets());
            assert(run(Seq::<OpView>::empty(), self.text()) == Some((self.text(), Seq::<OpView>::empty())));
        }
    }

    /// Redoes a change off of the redo stack
    pub fn redo(&mut self)
        requires
            run(old(self).redo_top(), old(self).text()) is Some,
            old(self).current_version() + old(self).redo_cost() <= u128::MAX,
        ensures
            redone(*old(self), *final(self)),
    {
        self.commit_change();
        let ghost t = self.text();
        let ghost committed = *self;
        let ops = match self.redo_stack.pop() {
            Some(o) => o,
            None => {
                return;
            },
        };
        proof {
            assert(run(Seq::<OpView>::empty(), t) == Some((t, Seq::<OpView>::empty())));
            let r = committed.redo_sets();
            assert(r.last() == ops_view(ops.0@));
            assert(r.drop_last() =~= self.redo_sets());
            assert(committed.change_ops().len() == 0);
            assert(ops_view(ops.0@) == old(self).redo_top());
        }
        let undo = self.take_back(&ops);
        let ghost mid = *self;
        self.undo_stack.push(undo);
        proof {
            if round_trips(ops_view(ops.0@), t) {
                lemma_round_trips_symmetric(ops_view(ops.0@), t);
            }
            lemma_run_len(ops_view(ops.0@), t);
            assert(self.undo_sets() =~= mid.undo_sets().push(ops_view(undo.0@)));
            let u = self.undo_sets();
            assert(u.last() == ops_view(undo.0@));
            assert(u.drop_last() == mid.undo_sets());
            assert(run(Seq::<OpView>::empty(), self.text()) == Some((self.text(), Seq::<OpView>::empty())));
        }
    }
}

/// Running a set gives back one inverse per operation.
proof fn lemma_run_len(ops: Seq<OpView>, s: Seq<char>)
    ensures
        run(ops, s) matches Some((_, is)) ==> is.len() == ops.len(),
    decreases ops.len(),
{
    if ops.len() > 0 {
        if let (InverseOutcome::Op(i), EditOutcome::Done(t)) = (inverse_outcome(ops.last(), s), apply_outcome(ops.last(), s)) {
            lemma_run_len(ops.drop_last(), t);
        }
    }
}

/// After a commit that leaves no current change, the top undo set round-trips
/// from the text and the rest of the stack from where it lands.
proof fn lemma_chain_unfold(u0: Seq<Seq<OpView>>, c0: Seq<OpView>, t: Seq<char>, u1: Seq<Seq<OpView>>, top: Seq<OpView>)
    requires
        round_trips(c0, t),
        chain_ok(u0, run(c0, t).unwrap().0),
        c0.len() > 0 ==> u1 == u0.push(c0),
        c0.len() == 0 ==> u1 == u0,
        u1.len() > 0,
        u1.last() == top,
    ensures
        round_trips(top, t),
        chain_ok(u1.drop_last(), run(top, t).unwrap().0),
{
    if c0.len() > 0 {
        assert(u1.drop_last() == u0);
    } else {
        assert(c0 == Seq::<OpView>::empty());
        assert(run(c0, t) == Some((t, Seq::<OpView>::empty())));
    }
}
} // verus!
