//! Multiple cursors over a buffer: each a selection between an anchor and a caret.
use vstd::prelude::*;
use crate::buffer::{Buffer, EditOutcome, insert_outcome, delete_outcome};
use crate::ropes::{breaks_before, line_count, line_len, line_start, lemma_char_on_line, lemma_line_start_bounds, lemma_breaks_before_le, rope_get_slice};

verus! {

/// A set of options that, when interacting with a cursor, should activate
#[derive(Default, Copy, Clone, Debug)]
pub struct CursorOptions {
    /// Whether, when the cursor moves, to extend the selection
    pub extend: bool,

    /// Whether, when the cursor's column goes past the end of line, to move it to the beginning of the next line
    pub wrap: bool,

    /// Whether or not to apply this to all cursors in the set
    pub all: bool,
}

impl CursorOptions {
    /// Creates a new set of cursor move options
    pub fn new() -> (r: Self)
        ensures
            !r.extend && !r.wrap && !r.all,
    {
        CursorOptions { extend: false, wrap: false, all: false }
    }

    /// Sets whether, when the cursor moves, to extend the selection or not
    pub fn extend(self, extend: bool) -> (r: Self)
        ensures
            r == (CursorOptions { extend, ..self }),
    {
        CursorOptions { extend, ..self }
    }

    /// Sets whether, when the cursor's column goes past the end of line, to move it to the beginning of the next line or not
    pub fn wrap(self, wrap: bool) -> (r: Self)
        ensures
            r == (CursorOptions { wrap, ..self }),
    {
        CursorOptions { wrap, ..self }
    }

    /// Sets whether or not to apply this to all cursors in the set
    pub fn all(self, all: bool) -> (r: Self)
        ensures
            r == (CursorOptions { all, ..self }),
    {
        CursorOptions { all, ..self }
    }
}

/// A basic Cursor type that holds data needed to handle cursors
#[derive(Clone, Copy, Debug)]
pub struct Cursor {
    pub anchor: usize,
    pub caret: usize,

    pub desired_col: usize,
}

impl Cursor {
    /// The first char of the selection
    pub open spec fn start_spec(self) -> usize {
        if self.anchor <= self.caret { self.anchor } else { self.caret }
    }

    /// The last char of the selection
    pub open spec fn end_spec(self) -> usize {
        if self.anchor >= self.caret { self.anchor } else { self.caret }
    }

    fn start(&self) -> (r: usize)
        ensures
            r == self.start_spec(),
    {
        if self.anchor <= self.caret { self.anchor } else { self.caret }
    }

    fn end(&self) -> (r: usize)
        ensures
            r == self.end_spec(),
    {
        if self.anchor >= self.caret { self.anchor } else { self.caret }
    }
}

/// The cursor that covers both `last` and `c`, pointing the way `last` does
fn join_cursors(last: Cursor, c: Cursor) -> (r: Cursor)
    ensures
        r == join(last, c),
{
    let forward = last.caret >= last.anchor;
    let ls = last.start();
    let cs = c.start();
    let le = last.end();
    let ce = c.end();
    let start = if ls <= cs { ls } else { cs };
    let end = if le >= ce { le } else { ce };
    if forward {
        Cursor { anchor: start, caret: end, desired_col: last.desired_col }
    } else {
        Cursor { anchor: end, caret: start, desired_col: last.desired_col }
    }
}

/// Where a position after the pivot goes when the text after the pivot
/// moves by `distance`: never before the pivot, and kept inside a text of
/// `len` chars.
pub open spec fn shifted_pos(len: int, pivot: int, pos: int, distance: int) -> int {
    let shifted = if pos + distance >= pivot { pos + distance } else { pivot };
    if shifted >= len { len - 1 } else { shifted }
}

/// A position, its shifted value and the pivot all fit in an `isize`.
pub open spec fn shift_fits(pivot: int, pos: int, distance: int) -> bool {
    &&& pivot <= isize::MAX
    &&& pos <= isize::MAX
    &&& isize::MIN <= pos + distance <= isize::MAX
}

/// Every end of another cursor that lies after the pivot cursor's caret can
/// be shifted: the text is not empty and the positions fit in an `isize`.
pub open spec fn shifts_ok(cs: Seq<Cursor>, cursor: int, len: int, distance: int) -> bool {
    forall|i: int| 0 <= i < cs.len() && i != cursor ==> {
        &&& (#[trigger] cs[i]).caret > cs[cursor].caret ==> len > 0 && shift_fits(cs[cursor].caret as int, cs[i].caret as int, distance)
        &&& cs[i].anchor > cs[cursor].caret ==> len > 0 && shift_fits(cs[cursor].caret as int, cs[i].anchor as int, distance)
    }
}

/// A cursor after the text behind `pivot` has moved by `distance`: each end
/// of it that lies after the pivot is shifted.
pub open spec fn moved_cursor(c: Cursor, len: int, pivot: int, distance: int) -> Cursor {
    Cursor {
        anchor: if c.anchor > pivot { shifted_pos(len, pivot, c.anchor as int, distance) as usize } else { c.anchor },
        caret: if c.caret > pivot { shifted_pos(len, pivot, c.caret as int, distance) as usize } else { c.caret },
        desired_col: c.desired_col,
    }
}

fn shift_clamped(buffer: &Buffer, pivot: usize, pos: usize, distance: isize) -> (r: usize)
    requires
        buffer.text().len() > 0,
        shift_fits(pivot as int, pos as int, distance as int),
    ensures
        r == shifted_pos(buffer.text().len() as int, pivot as int, pos as int, distance as int),
{
    let moved: isize = pos as isize + distance;
    let shifted: isize = if moved >= pivot as isize { moved } else { pivot as isize };
    buffer.clamp(shifted as usize)
}

/// Where `c` goes among the cursors `acc`, which are in order of their
/// starts: before the first one that starts after it.
pub open spec fn insert_pos(acc: Seq<Cursor>, c: Cursor, i: int) -> int
    decreases acc.len() - i,
{
    if i >= acc.len() || i < 0 {
        acc.len() as int
    } else if acc[i].start_spec() > c.start_spec() {
        i
    } else {
        insert_pos(acc, c, i + 1)
    }
}

/// The cursors in order of their starts, cursors that start together kept
/// in the order they had (a stable sort).
pub open spec fn sorted_by_start(s: Seq<Cursor>) -> Seq<Cursor>
    decreases s.len(),
{
    if s.len() == 0 {
        Seq::empty()
    } else {
        let acc = sorted_by_start(s.drop_last());
        let p = insert_pos(acc, s.last(), 0);
        acc.subrange(0, p) + seq![s.last()] + acc.subrange(p, acc.len() as int)
    }
}

/// The cursor that covers both `last` and `c`, pointing the way `last` does.
pub open spec fn join(last: Cursor, c: Cursor) -> Cursor {
    let st = if last.start_spec() <= c.start_spec() { last.start_spec() } else { c.start_spec() };
    let en = if last.end_spec() >= c.end_spec() { last.end_spec() } else { c.end_spec() };
    if last.caret >= last.anchor {
        Cursor { anchor: st, caret: en, desired_col: last.desired_col }
    } else {
        Cursor { anchor: en, caret: st, desired_col: last.desired_col }
    }
}

/// Adding the next cursor to merged ones: joined with the last if they
/// touch or overlap, else added after it.
pub open spec fn merge_step(acc: Seq<Cursor>, c: Cursor) -> Seq<Cursor> {
    if acc.len() > 0 && c.start_spec() <= acc.last().end_spec() {
        acc.drop_last().push(join(acc.last(), c))
    } else {
        acc.push(c)
    }
}

/// The cursors of `s`, in order, with every run of touching or overlapping ones joined.
pub open spec fn merge_all(s: Seq<Cursor>) -> Seq<Cursor>
    decreases s.len(),
{
    if s.len() == 0 {
        Seq::empty()
    } else {
        merge_step(merge_all(s.drop_last()), s.last())
    }
}

/// The index of the first cursor whose caret is at `caret`, or 0.
pub open spec fn find_caret(s: Seq<Cursor>, caret: usize, i: int) -> int
    decreases s.len() - i,
{
    if i >= s.len() || i < 0 {
        0
    } else if s[i].caret == caret {
        i
    } else {
        find_caret(s, caret, i + 1)
    }
}

/// Cursors that are in order and apart: each ends before the next starts.
pub open spec fn separated(s: Seq<Cursor>) -> bool {
    forall|i: int, j: int| #![trigger s[i], s[j]] 0 <= i < j < s.len() ==> s[i].end_spec() < s[j].start_spec()
}

/// Cursors in order of their starts.
pub open spec fn starts_ordered(s: Seq<Cursor>) -> bool {
    forall|i: int, j: int| #![trigger s[i], s[j]] 0 <= i <= j < s.len() ==> s[i].start_spec() <= s[j].start_spec()
}


/// Where `insert_pos` stops: every cursor before it starts no later than
/// `c`, and the one at it, if any, starts after `c`.
proof fn lemma_insert_pos(acc: Seq<Cursor>, c: Cursor, i: int)
    requires
        0 <= i <= acc.len(),
    ensures
        i <= insert_pos(acc, c, i) <= acc.len(),
        forall|j: int| i <= j < insert_pos(acc, c, i) ==> #[trigger] acc[j].start_spec() <= c.start_spec(),
        insert_pos(acc, c, i) < acc.len() ==> acc[insert_pos(acc, c, i)].start_spec() > c.start_spec(),
    decreases acc.len() - i,
{
    if i < acc.len() && acc[i].start_spec() <= c.start_spec() {
        lemma_insert_pos(acc, c, i + 1);
    }
}

/// Sorting by start keeps the number of cursors and puts them in order of their starts.
pub proof fn lemma_sorted_by_start(s: Seq<Cursor>)
    ensures
        sorted_by_start(s).len() == s.len(),
        starts_ordered(sorted_by_start(s)),
    decreases s.len(),
{
    if s.len() > 0 {
        let acc = sorted_by_start(s.drop_last());
        let c = s.last();
        lemma_sorted_by_start(s.drop_last());
        lemma_insert_pos(acc, c, 0);
        let p = insert_pos(acc, c, 0);
        let r = acc.subrange(0, p) + seq![c] + acc.subrange(p, acc.len() as int);
        assert(r == sorted_by_start(s));
        assert forall|i: int, j: int| #![trigger r[i], r[j]] 0 <= i <= j < r.len() implies r[i].start_spec() <= r[j].start_spec() by {
            if j < p {
                assert(r[i] == acc[i] && r[j] == acc[j]);
            } else if j == p {
                if i < p {
                    assert(r[i] == acc[i]);
                }
            } else {
                assert(r[j] == acc[j - 1]);
                assert(acc[p].start_spec() <= acc[j - 1].start_spec());
                if i < p {
                    assert(r[i] == acc[i]);
                    assert(acc[i].start_spec() <= acc[p].start_spec());
                } else if i > p {
                    assert(r[i] == acc[i - 1]);
                }
            }
        }
    }
}

/// Merging cursors that are in order of their starts leaves them apart
/// from each other, keeps at least one when there was one, and starts none
/// of them later than the last cursor that went in.
pub proof fn lemma_merge_all(s: Seq<Cursor>)
    requires
        starts_ordered(s),
    ensures
        separated(merge_all(s)),
        merge_all(s).len() <= s.len(),
        s.len() > 0 ==> merge_all(s).len() > 0,
        s.len() > 0 ==> forall|k: int| 0 <= k < merge_all(s).len() ==>
            #[trigger] merge_all(s)[k].start_spec() <= s.last().start_spec(),
    decreases s.len(),
{
    if s.len() > 0 {
        let t = s.drop_last();
        let c = s.last();
        assert(starts_ordered(t)) by {
            assert forall|i: int, j: int| #![trigger t[i], t[j]] 0 <= i <= j < t.len() implies t[i].start_spec() <= t[j].start_spec() by {
                assert(t[i] == s[i] && t[j] == s[j]);
            }
        }
        lemma_merge_all(t);
        let m = merge_all(t);
        if t.len() > 0 {
            assert(t.last() == s[s.len() - 2]);
            assert(s[s.len() - 2].start_spec() <= s[s.len() - 1].start_spec());
        }
        let r = merge_all(s);
        assert(r == merge_step(m, c));
        if m.len() > 0 && c.start_spec() <= m.last().end_spec() {
            let n = join(m.last(), c);
            assert(m.last().start_spec() <= c.start_spec());
            assert(n.start_spec() == m.last().start_spec());
            assert(r == m.drop_last().push(n));
            assert forall|i: int, j: int| #![trigger r[i], r[j]] 0 <= i < j < r.len() implies r[i].end_spec() < r[j].start_spec() by {
                assert(r[i] == m[i]);
                if j < r.len() - 1 {
                    assert(r[j] == m[j]);
                } else {
                    assert(m[i].end_spec() < m[m.len() - 1].start_spec());
                }
            }
            assert forall|k: int| 0 <= k < r.len() implies #[trigger] r[k].start_spec() <= c.start_spec() by {
                if k < r.len() - 1 {
                    assert(r[k] == m[k]);
                }
            }
        } else {
            assert(r == m.push(c));
            assert forall|i: int, j: int| #![trigger r[i], r[j]] 0 <= i < j < r.len() implies r[i].end_spec() < r[j].start_spec() by {
                assert(r[i] == m[i]);
                if j < r.len() - 1 {
                    assert(r[j] == m[j]);
                } else {
                    assert(m[m.len() - 1].start_spec() <= m[m.len() - 1].end_spec());
                    if i < m.len() - 1 {
                        assert(m[i].end_spec() < m[m.len() - 1].start_spec());
                    }
                }
            }
            assert forall|k: int| 0 <= k < r.len() implies #[trigger] r[k].start_spec() <= c.start_spec() by {
                if k < r.len() - 1 {
                    assert(r[k] == m[k]);
                }
            }
        }
    }
}

/// `find_caret` gives an index of a cursor when there is one.
proof fn lemma_find_caret(s: Seq<Cursor>, caret: usize, i: int)
    requires
        s.len() > 0,
        0 <= i,
    ensures
        0 <= find_caret(s, caret, i) < s.len(),
    decreases s.len() - i,
{
    if i < s.len() && s[i].caret != caret {
        lemma_find_caret(s, caret, i + 1);
    }
}


/// Inserting keeps the number of cursors.
proof fn lemma_insert_fold_len(cs: Seq<Cursor>, s: Seq<char>, k: int, t: Seq<char>, extend: bool)
    requires
        0 <= k,
    ensures
        insert_fold(cs, s, k, t, extend).0.len() == cs.len(),
    decreases k,
{
    if k > 0 {
        lemma_insert_fold_len(cs, s, k - 1, t, extend);
    }
}

/// Deleting keeps the number of cursors.
proof fn lemma_delete_fold_len(cs: Seq<Cursor>, s: Seq<char>, k: int)
    requires
        0 <= k,
    ensures
        delete_fold(cs, s, k).0.len() == cs.len(),
    decreases k,
{
    if k > 0 {
        lemma_delete_fold_len(cs, s, k - 1);
    }
}

/// Whatever cursors a set holds, merging them (in order of their starts)
/// leaves cursors that do not touch or overlap, at least one of them and no
/// more than there were, covering exactly the positions the cursors covered.
pub proof fn law_merge_keeps_coverage(s: Seq<Cursor>)
    requires
        s.len() > 0,
    ensures
        separated(merge_all(sorted_by_start(s))),
        merge_all(sorted_by_start(s)).len() > 0,
        merge_all(sorted_by_start(s)).len() <= s.len(),
        forall|p: int| #[trigger] covers(merge_all(sorted_by_start(s)), p) <==> covers(s, p),
{
    lemma_sorted_by_start(s);
    lemma_merge_all(sorted_by_start(s));
    assert forall|p: int| #[trigger] covers(merge_all(sorted_by_start(s)), p) <==> covers(s, p) by {
        lemma_sorted_covers(s, p);
        lemma_merge_covers(sorted_by_start(s), p);
    }
}

/// Whether the selection of `c` reaches position `p`, both ends included.
pub open spec fn cursor_covers(c: Cursor, p: int) -> bool {
    c.start_spec() <= p <= c.end_spec()
}

/// Whether one of the cursors' selections reaches position `p`.
pub open spec fn covers(s: Seq<Cursor>, p: int) -> bool {
    exists|i: int| 0 <= i < s.len() && #[trigger] cursor_covers(s[i], p)
}

/// A cursor added at the end covers what it covers, beside the others.
proof fn lemma_covers_push(x: Seq<Cursor>, y: Cursor, p: int)
    ensures
        covers(x.push(y), p) <==> (covers(x, p) || cursor_covers(y, p)),
{
    let r = x.push(y);
    if covers(r, p) {
        let i = choose|i: int| 0 <= i < r.len() && #[trigger] cursor_covers(r[i], p);
        if i < x.len() {
            assert(r[i] == x[i]);
        }
    }
    if covers(x, p) {
        let i = choose|i: int| 0 <= i < x.len() && #[trigger] cursor_covers(x[i], p);
        assert(r[i] == x[i]);
    }
    if cursor_covers(y, p) {
        assert(r[x.len() as int] == y);
    }
}

/// Sorting keeps the positions the cursors cover.
proof fn lemma_sorted_covers(s: Seq<Cursor>, p: int)
    ensures
        covers(sorted_by_start(s), p) <==> covers(s, p),
    decreases s.len(),
{
    if s.len() > 0 {
        let t = s.drop_last();
        let c = s.last();
        lemma_sorted_covers(t, p);
        lemma_sorted_by_start(t);
        let acc = sorted_by_start(t);
        lemma_insert_pos(acc, c, 0);
        let q = insert_pos(acc, c, 0);
        let r = acc.subrange(0, q) + seq![c] + acc.subrange(q, acc.len() as int);
        assert(r == sorted_by_start(s));
        assert(s == t.push(c));
        lemma_covers_push(t, c, p);
        if covers(r, p) {
            let i = choose|i: int| 0 <= i < r.len() && #[trigger] cursor_covers(r[i], p);
            if i < q {
                assert(r[i] == acc[i]);
            } else if i > q {
                assert(r[i] == acc[i - 1]);
            } else {
                assert(r[i] == c);
            }
        }
        if covers(acc, p) {
            let j = choose|j: int| 0 <= j < acc.len() && #[trigger] cursor_covers(acc[j], p);
            if j < q {
                assert(r[j] == acc[j]);
            } else {
                assert(r[j + 1] == acc[j]);
            }
        }
        if cursor_covers(c, p) {
            assert(r[q] == c);
        }
    }
}

/// Merging cursors in order of their starts keeps the positions they cover.
proof fn lemma_merge_covers(t: Seq<Cursor>, p: int)
    requires
        starts_ordered(t),
    ensures
        covers(merge_all(t), p) <==> covers(t, p),
    decreases t.len(),
{
    if t.len() > 0 {
        let u = t.drop_last();
        let c = t.last();
        assert(starts_ordered(u)) by {
            assert forall|i: int, j: int| #![trigger u[i], u[j]] 0 <= i <= j < u.len() implies u[i].start_spec() <= u[j].start_spec() by {
                assert(u[i] == t[i] && u[j] == t[j]);
            }
        }
        lemma_merge_covers(u, p);
        lemma_merge_all(u);
        let m = merge_all(u);
        assert(t == u.push(c));
        lemma_covers_push(u, c, p);
        if m.len() > 0 && c.start_spec() <= m.last().end_spec() {
            assert(u.last() == t[t.len() - 2]);
            assert(t[t.len() - 2].start_spec() <= t[t.len() - 1].start_spec());
            assert(m.last().start_spec() <= c.start_spec());
            let n = join(m.last(), c);
            let d = m.drop_last();
            assert(m == d.push(m.last()));
            lemma_covers_push(d, m.last(), p);
            lemma_covers_push(d, n, p);
            assert(cursor_covers(n, p) <==> (cursor_covers(m.last(), p) || cursor_covers(c, p)));
        } else {
            lemma_covers_push(m, c, p);
        }
    }
}

/// The line that `line_col_to_char` goes to: the given one, or the last one.
pub open spec fn clamp_line(text: Seq<char>, line: usize) -> nat {
    if line >= line_count(text) { (line_count(text) - 1) as nat } else { line as nat }
}


/// `x` kept between `lo` and `hi`.
pub open spec fn clamp_int(x: int, lo: int, hi: int) -> int {
    if x < lo { lo } else if x > hi { hi } else { x }
}

/// The line and column of position `p` of `text`, `p` first clamped into the text.
pub open spec fn line_col(text: Seq<char>, p: int) -> (nat, int) {
    let c = if p >= text.len() { text.len() - 1 } else { p };
    let l = breaks_before(text, c);
    (l, c - line_start(text, l))
}

/// The position at `col` of line `l`, the column clamped to the line's last char.
pub open spec fn pos_at(text: Seq<char>, l: nat, col: int) -> int {
    let ll = line_len(text, l);
    line_start(text, l) + if col >= ll { ll - 1 } else { col }
}

/// The line a cursor moves to by `lines`: kept among the text's lines.
pub open spec fn target_line(text: Seq<char>, c: Cursor, lines: int) -> nat {
    clamp_int(line_col(text, c.caret as int).0 + lines, 0, line_count(text) - 1) as nat
}

/// A cursor moved by `lines`, then `columns`: on the target line at its
/// desired column (or the line's end); then along the line, or, with
/// `wrap`, along the text. The anchor follows unless the selection is extended.
pub open spec fn moved_by(c: Cursor, text: Seq<char>, lines: int, columns: int, wrap: bool, extend: bool) -> Cursor {
    let t = target_line(text, c, lines);
    let ll = line_len(text, t);
    let ll1 = if ll >= 1 { ll } else { 1 };
    let display = if c.desired_col <= ll1 - 1 { c.desired_col as int } else { ll1 - 1 };
    let caret0 = pos_at(text, t, display);
    let last = if text.len() >= 1 { text.len() - 1 } else { 0 };
    let shifted = clamp_int(caret0 + columns, 0, last);
    let col = clamp_int(display + columns, 0, ll1 - 1);
    let caret = if columns == 0 { caret0 } else if wrap { shifted } else { pos_at(text, t, col) };
    let desired = if columns == 0 { c.desired_col as int } else if wrap { line_col(text, shifted).1 } else { col };
    Cursor {
        anchor: if extend { c.anchor } else { caret as usize },
        caret: caret as usize,
        desired_col: desired as usize,
    }
}

/// A move by lines alone keeps the cursor's desired column, and puts the
/// caret on the target line at that column, or at the line's last char when
/// the line is shorter; the anchor follows unless the selection is extended.
pub proof fn law_vertical_move_keeps_column(c: Cursor, text: Seq<char>, lines: int, wrap: bool, extend: bool)
    requires
        move_fits(text, lines, 0),
        line_len(text, target_line(text, c, lines)) > 0,
    ensures
        moved_by(c, text, lines, 0, wrap, extend).desired_col == c.desired_col,
        moved_by(c, text, lines, 0, wrap, extend).caret as int == line_start(text, target_line(text, c, lines))
            + if (c.desired_col as int) < line_len(text, target_line(text, c, lines)) {
                c.desired_col as int
            } else {
                line_len(text, target_line(text, c, lines)) - 1
            },
        extend ==> moved_by(c, text, lines, 0, wrap, extend).anchor == c.anchor,
        !extend ==> moved_by(c, text, lines, 0, wrap, extend).anchor == moved_by(c, text, lines, 0, wrap, extend).caret,
{
    let t = target_line(text, c, lines);
    lemma_line_start_bounds(text, t);
}

/// Two moves by lines alone: the second puts the caret at the column the
/// cursor had before the first, wherever the line between was shorter, or
/// at the end of its own line when that one is shorter.
pub proof fn law_vertical_moves_return_to_column(c: Cursor, text: Seq<char>, l1: int, l2: int, wrap: bool, extend: bool)
    requires
        move_fits(text, l1, 0),
        move_fits(text, l2, 0),
        line_len(text, target_line(text, c, l1)) > 0,
        line_len(text, target_line(text, moved_by(c, text, l1, 0, wrap, extend), l2)) > 0,
    ensures
        ({
            let m1 = moved_by(c, text, l1, 0, wrap, extend);
            let t2 = target_line(text, m1, l2);
            let ll2 = line_len(text, t2);
            &&& moved_by(m1, text, l2, 0, wrap, extend).desired_col == c.desired_col
            &&& moved_by(m1, text, l2, 0, wrap, extend).caret as int == line_start(text, t2)
                + if (c.desired_col as int) < ll2 { c.desired_col as int } else { ll2 - 1 }
        }),
{
    law_vertical_move_keeps_column(c, text, l1, wrap, extend);
    law_vertical_move_keeps_column(moved_by(c, text, l1, 0, wrap, extend), text, l2, wrap, extend);
}

/// Moving by `lines` and `columns` stays within `isize` arithmetic on a non-empty text.
pub open spec fn move_fits(text: Seq<char>, lines: int, columns: int) -> bool {
    &&& text.len() > 0
    &&& text.len() + (if lines < 0 { -lines } else { lines }) < isize::MAX
    &&& text.len() + (if columns < 0 { -columns } else { columns }) < isize::MAX
}

/// The cursors after moving those that `all` or the primary index select.
pub open spec fn moved_all(cs: Seq<Cursor>, primary: int, all: bool, text: Seq<char>, lines: int, columns: int,
    wrap: bool, extend: bool) -> Seq<Cursor> {
    Seq::new(cs.len(), |i: int| if all || i == primary { moved_by(cs[i], text, lines, columns, wrap, extend) } else { cs[i] })
}

/// Inserting `t` at the caret of cursor `idx`: the text gets `t` at the
/// (clamped) caret, the other cursors after the caret shift by its length,
/// and cursor `idx` moves past it.
pub open spec fn insert_step(cs: Seq<Cursor>, s: Seq<char>, idx: int, t: Seq<char>, extend: bool) -> (Seq<Cursor>, Seq<char>) {
    let c = cs[idx];
    let lc = line_col(s, c.caret as int);
    let cl = line_start(s, lc.0) + lc.1;
    let s2 = s.subrange(0, cl) + t + s.subrange(cl, s.len() as int);
    let caret = (c.caret + t.len()) as usize;
    let nc = Cursor {
        anchor: if extend { c.anchor } else { caret },
        caret,
        desired_col: (lc.1 + t.len()) as usize,
    };
    let moved = Seq::new(cs.len(), |j: int| if j == idx { nc } else { moved_cursor(cs[j], s2.len() as int, c.caret as int, t.len() as int) });
    (moved, s2)
}

/// Inserting at a caret inside the text puts the inserted text at the caret
/// and nowhere else, moves that caret past it (its anchor along unless the
/// selection is extended), leaves the cursors before the caret where they
/// were, and shifts those after it by the inserted length.
pub proof fn law_insert_at_caret(cs: Seq<Cursor>, s: Seq<char>, idx: int, t: Seq<char>, extend: bool)
    requires
        0 <= idx < cs.len(),
        cs[idx].caret < s.len(),
        s.len() + t.len() <= usize::MAX,
    ensures
        insert_step(cs, s, idx, t, extend).1 == s.subrange(0, cs[idx].caret as int) + t + s.subrange(cs[idx].caret as int, s.len() as int),
        insert_step(cs, s, idx, t, extend).0.len() == cs.len(),
        insert_step(cs, s, idx, t, extend).0[idx].caret == cs[idx].caret + t.len(),
        extend ==> insert_step(cs, s, idx, t, extend).0[idx].anchor == cs[idx].anchor,
        !extend ==> insert_step(cs, s, idx, t, extend).0[idx].anchor == cs[idx].caret + t.len(),
        forall|j: int| 0 <= j < cs.len() && j != idx && #[trigger] cs[j].caret <= cs[idx].caret ==>
            insert_step(cs, s, idx, t, extend).0[j].caret == cs[j].caret,
        forall|j: int| 0 <= j < cs.len() && j != idx && cs[idx].caret < #[trigger] cs[j].caret < s.len() ==>
            insert_step(cs, s, idx, t, extend).0[j].caret == cs[j].caret + t.len(),
{
    let c = cs[idx].caret as int;
    lemma_char_on_line(s, c);
}

/// Deleting a selection that lies in the text removes exactly its chars and
/// collapses the cursor onto where the selection started.
pub proof fn law_delete_selection(cs: Seq<Cursor>, s: Seq<char>, idx: int)
    requires
        0 <= idx < cs.len(),
        cs[idx].end_spec() <= s.len(),
    ensures
        delete_step(cs, s, idx).1 == s.subrange(0, cs[idx].start_spec() as int) + s.subrange(cs[idx].end_spec() as int, s.len() as int),
        delete_step(cs, s, idx).0.len() == cs.len(),
        delete_step(cs, s, idx).0[idx].caret == cs[idx].start_spec(),
        delete_step(cs, s, idx).0[idx].anchor == cs[idx].start_spec(),
{
    let c = cs[idx];
    if c.start_spec() < c.end_spec() {
        lemma_char_on_line(s, c.start_spec() as int);
    } else {
        assert(s.subrange(0, c.start_spec() as int) + s.subrange(c.end_spec() as int, s.len() as int) =~= s);
    }
}

/// A move by columns without wrapping stays on the target line: the caret
/// goes to the column reached from the displayed one, kept within the line,
/// and that column becomes the desired one. With wrapping, the caret goes
/// that many chars along the text, kept within it.
pub proof fn law_horizontal_move(c: Cursor, text: Seq<char>, lines: int, columns: int, wrap: bool, extend: bool)
    requires
        move_fits(text, lines, columns),
        columns != 0,
        line_len(text, target_line(text, c, lines)) > 0,
    ensures
        ({
            let t = target_line(text, c, lines);
            let ll = line_len(text, t);
            let display = if (c.desired_col as int) < ll { c.desired_col as int } else { ll - 1 };
            let m = moved_by(c, text, lines, columns, wrap, extend);
            &&& !wrap ==> m.caret as int == line_start(text, t) + clamp_int(display + columns, 0, ll - 1)
            &&& !wrap ==> m.desired_col as int == clamp_int(display + columns, 0, ll - 1)
            &&& wrap ==> m.caret as int == clamp_int(line_start(text, t) + display + columns, 0, text.len() - 1)
            &&& line_start(text, t) <= line_start(text, t) + display < text.len()
        }),
{
    let t = target_line(text, c, lines);
    lemma_line_start_bounds(text, t);
}

/// Inserting at cursor `idx` neither fails nor overflows.
pub open spec fn insert_ok(cs: Seq<Cursor>, s: Seq<char>, idx: int, t: Seq<char>) -> bool {
    let c = cs[idx];
    let lc = line_col(s, c.caret as int);
    &&& 0 <= idx < cs.len()
    &&& s.len() > 0
    &&& t.len() <= isize::MAX
    &&& c.caret + t.len() <= usize::MAX
    &&& lc.1 + t.len() <= usize::MAX
    &&& s.len() + t.len() <= usize::MAX
    &&& shifts_ok(cs, idx, (s.len() + t.len()) as int, t.len() as int)
}

/// Inserting at the cursors `0..k` one after another.
pub open spec fn insert_fold(cs: Seq<Cursor>, s: Seq<char>, k: int, t: Seq<char>, extend: bool) -> (Seq<Cursor>, Seq<char>)
    decreases k,
{
    if k <= 0 {
        (cs, s)
    } else {
        let p = insert_fold(cs, s, k - 1, t, extend);
        insert_step(p.0, p.1, k - 1, t, extend)
    }
}

/// Every insertion of the fold neither fails nor overflows.
pub open spec fn insert_all_ok(cs: Seq<Cursor>, s: Seq<char>, t: Seq<char>, extend: bool) -> bool {
    forall|k: int| 0 <= k < cs.len() ==> #[trigger] insert_ok(insert_fold(cs, s, k, t, extend).0, insert_fold(cs, s, k, t, extend).1, k, t)
}

/// Deleting the selection of cursor `idx`: nothing when it is empty; else
/// the selected chars go (from the clamped start), the cursor collapses to
/// the start, and the other cursors after it shift back by the count.
pub open spec fn delete_step(cs: Seq<Cursor>, s: Seq<char>, idx: int) -> (Seq<Cursor>, Seq<char>) {
    let c = cs[idx];
    let st = c.start_spec() as int;
    let n = c.end_spec() - c.start_spec();
    if n == 0 {
        (cs, s)
    } else {
        let lc = line_col(s, st);
        let cl = line_start(s, lc.0) + lc.1;
        let s2 = s.subrange(0, cl) + s.subrange(cl + n, s.len() as int);
        let nc = Cursor { anchor: st as usize, caret: st as usize, desired_col: lc.1 as usize };
        let cs1 = cs.update(idx, nc);
        let moved = Seq::new(cs.len(), |j: int| if j == idx { nc } else { moved_cursor(cs1[j], s2.len() as int, st, -n) });
        (moved, s2)
    }
}

/// Deleting at cursor `idx` neither fails nor overflows.
pub open spec fn delete_ok(cs: Seq<Cursor>, s: Seq<char>, idx: int) -> bool {
    let c = cs[idx];
    let st = c.start_spec() as int;
    let n = c.end_spec() - c.start_spec();
    let lc = line_col(s, st);
    let cl = line_start(s, lc.0) + lc.1;
    let nc = Cursor { anchor: st as usize, caret: st as usize, desired_col: lc.1 as usize };
    &&& 0 <= idx < cs.len()
    &&& n > 0 ==> {
        &&& s.len() > 0
        &&& cl + n <= s.len()
        &&& n <= isize::MAX
        &&& shifts_ok(cs.update(idx, nc), idx, s.len() - n, -n)
    }
}

/// Deleting at the cursors `0..k` one after another.
pub open spec fn delete_fold(cs: Seq<Cursor>, s: Seq<char>, k: int) -> (Seq<Cursor>, Seq<char>)
    decreases k,
{
    if k <= 0 {
        (cs, s)
    } else {
        let p = delete_fold(cs, s, k - 1);
        delete_step(p.0, p.1, k - 1)
    }
}

/// Every deletion of the fold neither fails nor overflows.
pub open spec fn delete_all_ok(cs: Seq<Cursor>, s: Seq<char>) -> bool {
    forall|k: int| 0 <= k < cs.len() ==> #[trigger] delete_ok(delete_fold(cs, s, k).0, delete_fold(cs, s, k).1, k)
}

fn clamp_isize(x: isize, lo: isize, hi: isize) -> (r: isize)
    requires
        lo <= hi,
    ensures
        r == clamp_int(x as int, lo as int, hi as int),
{
    if x < lo {
        lo
    } else if x > hi {
        hi
    } else {
        x
    }
}

/// The line that `c` moves to by `lines`
fn line_target(buf: &Buffer, c: Cursor, lines: isize) -> (r: usize)
    requires
        move_fits(buf.text(), lines as int, 0),
    ensures
        r == target_line(buf.text(), c, lines as int),
        r < line_count(buf.text()),
{
    let ghost text = buf.text();
    let (line, _) = buf.char_to_line_col(c.caret);
    let len_lines = buf.len_lines();
    proof {
        let p = if c.caret >= text.len() { text.len() - 1 } else { c.caret as int };
        lemma_char_on_line(text, p);
        lemma_breaks_before_le(text, text.len() as int);
    }
    let target: isize = clamp_isize(line as isize + lines, 0, len_lines as isize - 1);
    target as usize
}

/// A full set of multiple cursors that we can interact with using simple options
pub struct CursorSet {
    cursors: Vec<Cursor>,
    primary: usize,
}

impl CursorSet {
    /// The cursors, in order
    pub closed spec fn cursors(&self) -> Seq<Cursor> {
        self.cursors@
    }

    /// The index of the primary cursor
    pub closed spec fn primary(&self) -> usize {
        self.primary
    }

    /// The primary cursor is one of the cursors
    pub open spec fn wf(&self) -> bool {
        self.primary() < self.cursors().len()
    }

    /// One cursor at the start of the text, which is the primary one
    pub fn new() -> (r: Self)
        ensures
            r.wf(),
            r.cursors() == seq![Cursor { anchor: 0, caret: 0, desired_col: 0 }],
            r.primary() == 0,
    {
        let mut cursors = Vec::new();
        cursors.push(Cursor { anchor: 0, caret: 0, desired_col: 0 });
        let r = CursorSet { cursors, primary: 0 };
        assert(r.cursors() =~= seq![Cursor { anchor: 0, caret: 0, desired_col: 0 }]);
        r
    }

    /// Deletes all cursors other than the primary, which is then the only one
    pub fn remove_other(&mut self)
        requires
            old(self).wf(),
        ensures
            final(self).cursors() == seq![old(self).cursors()[old(self).primary() as int]],
            final(self).primary() == 0,
            final(self).wf(),
    {
        let primary = self.cursors.remove(self.primary);
        self.cursors.clear();
        self.cursors.push(primary);
        self.primary = 0;
        assert(self.cursors() =~= seq![old(self).cursors()[old(self).primary() as int]]);
    }

    /// Deletes the primary cursor; the one after it (or, for the last, the
    /// one before it) becomes the primary
    ///
    /// Does nothing if it's the last cursor
    pub fn remove(&mut self)
        requires
            old(self).wf(),
        ensures
            final(self).wf(),
            old(self).cursors().len() == 1 ==> *final(self) == *old(self),
            old(self).cursors().len() > 1 ==> {
                &&& final(self).cursors() == old(self).cursors().remove(old(self).primary() as int)
                &&& final(self).primary() == if old(self).primary() + 1 < old(self).cursors().len() {
                    old(self).primary()
                } else {
                    (old(self).primary() - 1) as usize
                }
            },
    {
        if self.cursors.len() == 1 {
            // No-op when moving down to 0 cursors
            return;
        }

        self.cursors.remove(self.primary);
        if self.primary >= self.cursors.len() {
            self.primary = self.cursors.len() - 1;
        }
    }


    /// Merges all cursors together that are overlapping
    fn merge(&mut self)
        requires
            old(self).wf(),
        ensures
            final(self).cursors() == merge_all(sorted_by_start(old(self).cursors())),
            final(self).primary() == find_caret(
                final(self).cursors(), old(self).cursors()[old(self).primary() as int].caret, 0),
            final(self).wf(),
            separated(final(self).cursors()),
    {
        let primary_caret = self.cursors[self.primary].caret;
        let n = self.cursors.len();

        // Order the cursors by their starts, keeping the order of equal starts
        let mut sorted: Vec<Cursor> = Vec::new();
        let mut k: usize = 0;
        while k < n
            invariant
                n == self.cursors@.len(),
                self.cursors@ == old(self).cursors@,
                k <= n,
                sorted@ == sorted_by_start(self.cursors@.take(k as int)),
            decreases n - k,
        {
            let c = self.cursors[k];
            let ghost acc = sorted@;
            let mut p: usize = 0;
            loop
                invariant
                    sorted@ == acc,
                    p <= sorted.len(),
                    insert_pos(acc, c, p as int) == insert_pos(acc, c, 0),
                ensures
                    p <= sorted.len(),
                    p == insert_pos(acc, c, 0),
                decreases sorted.len() - p,
            {
                if p >= sorted.len() {
                    break;
                }
                if sorted[p].start() > c.start() {
                    break;
                }
                p = p + 1;
            }
            sorted.insert(p, c);
            proof {
                let s = self.cursors@.take(k as int + 1);
                assert(s.drop_last() =~= self.cursors@.take(k as int));
                assert(s.last() == c);
                assert(sorted@ =~= acc.subrange(0, p as int) + seq![c] + acc.subrange(p as int, acc.len() as int));
            }
            k = k + 1;
        }
        assert(self.cursors@.take(n as int) =~= self.cursors@);
        proof {
            lemma_sorted_by_start(self.cursors@);
        }

        // Join every run of touching or overlapping cursors
        let mut merged: Vec<Cursor> = Vec::new();
        let mut k: usize = 0;
        while k < n
            invariant
                n == sorted@.len(),
                k <= n,
                merged@ == merge_all(sorted@.take(k as int)),
            decreases n - k,
        {
            let c = sorted[k];
            let len = merged.len();
            if len > 0 && c.start() <= merged[len - 1].end() {
                let j = join_cursors(merged[len - 1], c);
                merged.set(len - 1, j);
            } else {
                merged.push(c);
            }
            proof {
                let s = sorted@.take(k as int + 1);
                assert(s.drop_last() =~= sorted@.take(k as int));
                assert(s.last() == c);
                assert(merged@ =~= merge_step(merge_all(sorted@.take(k as int)), c));
            }
            k = k + 1;
        }
        assert(sorted@.take(n as int) =~= sorted@);
        proof {
            law_merge_keeps_coverage(self.cursors@);
        }

        // The primary cursor is the first one whose caret stayed where it was
        let mut i: usize = 0;
        let mut primary: usize = 0;
        while i < merged.len()
            invariant_except_break
                primary == 0,
            invariant
                i <= merged@.len(),
                find_caret(merged@, primary_caret, i as int) == find_caret(merged@, primary_caret, 0),
            ensures
                primary == find_caret(merged@, primary_caret, 0),
            decreases merged.len() - i,
        {
            if merged[i].caret == primary_caret {
                primary = i;
                break;
            }
            i = i + 1;
        }
        proof {
            lemma_find_caret(merged@, primary_caret, 0);
        }
        self.primary = primary;
        self.cursors = merged;
    }

    /// Moves all cursors a distance (negative or positive) that exist after the cursor. This allows for things like auto-moving on insert/delete
    fn move_after(&mut self, buffer: &Buffer, cursor: usize, distance: isize)
        requires
            cursor < old(self).cursors().len(),
            shifts_ok(old(self).cursors(), cursor as int, buffer.text().len() as int, distance as int),
        ensures
            final(self).primary() == old(self).primary(),
            final(self).cursors().len() == old(self).cursors().len(),
            forall|i: int| 0 <= i < final(self).cursors().len() ==> #[trigger] final(self).cursors()[i] == if i == cursor {
                old(self).cursors()[i]
            } else {
                moved_cursor(old(self).cursors()[i], buffer.text().len() as int,
                    old(self).cursors()[cursor as int].caret as int, distance as int)
            },
    {
        let pivot = self.cursors[cursor].caret;
        let n = self.cursors.len();
        let mut i: usize = 0;
        while i < n
            invariant
                n == self.cursors@.len() == old(self).cursors@.len(),
                self.primary == old(self).primary,
                i <= n,
                cursor < n,
                pivot == old(self).cursors@[cursor as int].caret,
                shifts_ok(old(self).cursors@, cursor as int, buffer.text().len() as int, distance as int),
                forall|j: int| 0 <= j < n ==> #[trigger] self.cursors@[j] == if j == cursor || j >= i {
                    old(self).cursors@[j]
                } else {
                    moved_cursor(old(self).cursors@[j], buffer.text().len() as int, pivot as int, distance as int)
                },
            decreases n - i,
        {
            if i != cursor {
                let mut c = self.cursors[i];
                assert(c == old(self).cursors@[i as int]);
                if c.caret > pivot {
                    c.caret = shift_clamped(buffer, pivot, c.caret, distance);
                }
                if c.anchor > pivot {
                    c.anchor = shift_clamped(buffer, pivot, c.anchor, distance);
                }
                self.cursors.set(i, c);
            }
            i = i + 1;
        }
    }

    /// Sets **only** the primary cursor's position to the given line/col, clamping line then column.
    /// Ignores the value set in [`CursorOptions::all`]; the anchor follows
    /// the caret unless the selection is extended
    pub fn set(&mut self, buf: &Buffer, line: usize, col: usize, options: &CursorOptions)
        requires
            old(self).wf(),
            line_len(buf.text(), clamp_line(buf.text(), line)) > 0,
        ensures
            ({
                let l = clamp_line(buf.text(), line);
                let ll = line_len(buf.text(), l);
                let pos = (line_start(buf.text(), l) + if col >= ll { ll - 1 } else { col as int }) as usize;
                let p = old(self).primary() as int;
                let placed = Cursor {
                    anchor: if options.extend { old(self).cursors()[p].anchor } else { pos },
                    caret: pos,
                    desired_col: col,
                };
                &&& final(self).cursors() == merge_all(sorted_by_start(old(self).cursors().update(p, placed)))
                &&& final(self).primary() == find_caret(final(self).cursors(), pos, 0)
            }),
            final(self).wf(),
            separated(final(self).cursors()),
    {
        let ghost kept = self.cursors@;
        let pos = buf.line_col_to_char(line, col);
        let mut c = self.cursors[self.primary];
        c.caret = pos;

        if !options.extend {
            c.anchor = pos;
        }

        c.desired_col = col;
        self.cursors.set(self.primary, c);
        assert(self.cursors@ =~= kept.update(old(self).primary() as int, c));

        self.merge();
    }


    /// Moves cursor `idx` by lines, then columns
    fn move_one(&mut self, buf: &Buffer, idx: usize, lines: isize, columns: isize, options: &CursorOptions)
        requires
            idx < old(self).cursors().len(),
            move_fits(buf.text(), lines as int, columns as int),
            line_len(buf.text(), target_line(buf.text(), old(self).cursors()[idx as int], lines as int)) > 0,
        ensures
            final(self).primary() == old(self).primary(),
            final(self).cursors() == old(self).cursors().update(idx as int,
                moved_by(old(self).cursors()[idx as int], buf.text(), lines as int, columns as int, options.wrap, options.extend)),
    {
        let ghost text = buf.text();
        let cursor = self.cursors[idx];

        let target_line = line_target(buf, cursor, lines);
        proof {
            lemma_line_start_bounds(text, target_line as nat);
        }
        let ll = buf.line_len(target_line);
        let line_len = if ll >= 1 { ll } else { 1 };

        let mut desired_col = cursor.desired_col;
        let display_col = if desired_col <= line_len - 1 { desired_col } else { line_len - 1 };

        let caret = buf.line_col_to_char(target_line, display_col);

        let caret = if columns != 0 {
            if options.wrap {
                let len = buf.len_chars();
                let last = if len >= 1 { len - 1 } else { 0 };
                let shifted = clamp_isize(caret as isize + columns, 0, last as isize) as usize;
                desired_col = buf.char_to_line_col(shifted).1;
                shifted
            } else {
                let col = clamp_isize(display_col as isize + columns, 0, (line_len - 1) as isize) as usize;
                desired_col = col;
                buf.line_col_to_char(target_line, col)
            }
        } else {
            caret
        };

        let mut c = cursor;
        c.caret = caret;

        if !options.extend {
            c.anchor = caret;
        }

        c.desired_col = desired_col;
        self.cursors.set(idx, c);
    }

    /// Whether `set` runs with this line: the line it clamps to holds a char
    pub fn can_set(&self, buf: &Buffer, line: usize) -> (r: bool)
        requires
            self.wf(),
        ensures
            r == (line_len(buf.text(), clamp_line(buf.text(), line)) > 0),
    {
        let len_lines = buf.len_lines();
        let l = if line >= len_lines { len_lines - 1 } else { line };
        buf.line_len(l) > 0
    }

    /// Whether `move_` runs with these arguments: the text is not empty,
    /// the distances fit, and each cursor that moves lands on a line that
    /// holds a char
    pub fn can_move(&self, buf: &Buffer, lines: isize, columns: isize, options: &CursorOptions) -> (r: bool)
        requires
            self.wf(),
        ensures
            r == (move_fits(buf.text(), lines as int, columns as int)
                && forall|i: int| 0 <= i < self.cursors().len() && (options.all || i == self.primary()) ==>
                    line_len(buf.text(), target_line(buf.text(), #[trigger] self.cursors()[i], lines as int)) > 0),
    {
        let len = buf.len_chars();
        if len == 0 {
            return false;
        }
        let l: i128 = lines as i128;
        let c: i128 = columns as i128;
        let la: i128 = if l < 0 { -l } else { l };
        let ca: i128 = if c < 0 { -c } else { c };
        let max: i128 = isize::MAX as i128;
        if !(len as i128 + la < max && len as i128 + ca < max) {
            return false;
        }
        let mut i: usize = 0;
        while i < self.cursors.len()
            invariant
                i <= self.cursors@.len(),
                move_fits(buf.text(), lines as int, columns as int),
                forall|k: int| 0 <= k < i && (options.all || k == self.primary()) ==>
                    line_len(buf.text(), target_line(buf.text(), #[trigger] self.cursors()[k], lines as int)) > 0,
            decreases self.cursors.len() - i,
        {
            if options.all || i == self.primary {
                let t = line_target(buf, self.cursors[i], lines);
                if buf.line_len(t) == 0 {
                    assert(self.cursors()[i as int] == self.cursors@[i as int]);
                    return false;
                }
            }
            i = i + 1;
        }
        true
    }

    /// Moves the cursor by lines, then columns, if wrap is true, columns will allow you to move to other lines
    pub fn move_(&mut self, buf: &Buffer, lines: isize, columns: isize, options: &CursorOptions)
        requires
            old(self).wf(),
            move_fits(buf.text(), lines as int, columns as int),
            forall|i: int| 0 <= i < old(self).cursors().len() && (options.all || i == old(self).primary()) ==>
                line_len(buf.text(), target_line(buf.text(), #[trigger] old(self).cursors()[i], lines as int)) > 0,
        ensures
            ({
                let moved = moved_all(old(self).cursors(), old(self).primary() as int, options.all, buf.text(),
                    lines as int, columns as int, options.wrap, options.extend);
                &&& final(self).cursors() == merge_all(sorted_by_start(moved))
                &&& final(self).primary() == find_caret(final(self).cursors(), moved[old(self).primary() as int].caret, 0)
            }),
            final(self).wf(),
            separated(final(self).cursors()),
    {
        let ghost moved = moved_all(self.cursors@, self.primary as int, options.all, buf.text(),
            lines as int, columns as int, options.wrap, options.extend);
        if options.all {
            let n = self.cursors.len();
            let mut i: usize = 0;
            while i < n
                invariant
                    n == self.cursors@.len() == old(self).cursors@.len(),
                    i <= n,
                    self.primary == old(self).primary,
                    options.all,
                    move_fits(buf.text(), lines as int, columns as int),
                    forall|j: int| 0 <= j < n ==>
                        line_len(buf.text(), target_line(buf.text(), #[trigger] old(self).cursors@[j], lines as int)) > 0,
                    moved == moved_all(old(self).cursors@, old(self).primary as int, options.all, buf.text(),
                        lines as int, columns as int, options.wrap, options.extend),
                    forall|j: int| 0 <= j < n ==> #[trigger] self.cursors@[j] == if j < i { moved[j] } else { old(self).cursors@[j] },
                decreases n - i,
            {
                self.move_one(buf, i, lines, columns, options);
                i = i + 1;
            }
            assert(self.cursors@ =~= moved);
        } else {
            let p = self.primary;
            self.move_one(buf, p, lines, columns, options);
            assert(self.cursors@ =~= moved);
        }

        self.merge();
    }

    /// Inserts `text` (of `len` chars) at the caret of cursor `idx`
    fn insert_one(&mut self, buf: &mut Buffer, idx: usize, text: &str, len: usize, extend: bool)
        requires
            insert_ok(old(self).cursors(), old(buf).text(), idx as int, text@),
            len == text@.len(),
            old(buf).current_version() < u128::MAX,
        ensures
            final(self).primary() == old(self).primary(),
            (final(self).cursors(), final(buf).text()) == insert_step(old(self).cursors(), old(buf).text(), idx as int, text@, extend),
            final(buf).current_version() == old(buf).current_version() + 1,
    {
        let ghost s = buf.text();
        let ghost cs = self.cursors@;
        let caret = self.cursors[idx].caret;
        let (line, col) = buf.char_to_line_col(caret);
        proof {
            let c = if caret >= s.len() { s.len() - 1 } else { caret as int };
            lemma_char_on_line(s, c);
            lemma_line_start_bounds(s, line as nat);
            assert(insert_outcome(s, line as int, col as int, text@) is Done);
        }

        let _ = buf.insert(line, col, text);

        self.move_after(buf, idx, len as isize);

        let mut c = self.cursors[idx];
        c.caret = c.caret + len;

        if !extend {
            c.anchor = c.caret;
        }

        c.desired_col = col + len;
        self.cursors.set(idx, c);
        proof {
            let st = insert_step(cs, s, idx as int, text@, extend);
            assert(self.cursors@ =~= st.0);
            assert(buf.text() =~= st.1);
        }
    }

    /// Inserts text into the buffer at the cursor's current position
    pub fn insert(&mut self, buffer: &mut Buffer, text: &str, options: &CursorOptions)
        requires
            old(self).wf(),
            old(buffer).current_version() + old(self).cursors().len() < u128::MAX,
            options.all ==> insert_all_ok(old(self).cursors(), old(buffer).text(), text@, options.extend),
            !options.all ==> insert_ok(old(self).cursors(), old(buffer).text(), old(self).primary() as int, text@),
        ensures
            ({
                let done = if options.all {
                    insert_fold(old(self).cursors(), old(buffer).text(), old(self).cursors().len() as int, text@, options.extend)
                } else {
                    insert_step(old(self).cursors(), old(buffer).text(), old(self).primary() as int, text@, options.extend)
                };
                &&& final(buffer).text() == done.1
                &&& final(self).cursors() == merge_all(sorted_by_start(done.0))
                &&& final(self).primary() == find_caret(final(self).cursors(), done.0[old(self).primary() as int].caret, 0)
            }),
            final(self).wf(),
            separated(final(self).cursors()),
    {
        let len = crate::text::str_to_chars(text).len();
        if options.all {
            let n = self.cursors.len();
            let mut i: usize = 0;
            while i < n
                invariant
                    n == old(self).cursors@.len(),
                    i <= n,
                    self.primary == old(self).primary,
                    len == text@.len(),
                    insert_all_ok(old(self).cursors@, old(buffer).text(), text@, options.extend),
                    (self.cursors@, buffer.text()) == insert_fold(old(self).cursors@, old(buffer).text(), i as int, text@, options.extend),
                    buffer.current_version() == old(buffer).current_version() + i,
                    old(buffer).current_version() + n < u128::MAX,
                decreases n - i,
            {
                proof {
                    lemma_insert_fold_len(old(self).cursors@, old(buffer).text(), i as int, text@, options.extend);
                    assert(insert_ok(insert_fold(old(self).cursors@, old(buffer).text(), i as int, text@, options.extend).0,
                        insert_fold(old(self).cursors@, old(buffer).text(), i as int, text@, options.extend).1, i as int, text@));
                }
                self.insert_one(buffer, i, text, len, options.extend);
                i = i + 1;
            }
            proof {
                lemma_insert_fold_len(old(self).cursors@, old(buffer).text(), n as int, text@, options.extend);
            }
        } else {
            let p = self.primary;
            self.insert_one(buffer, p, text, len, options.extend);
        }

        self.merge();
    }

    /// Deletes the selection of cursor `idx`
    fn delete_one(&mut self, buf: &mut Buffer, idx: usize)
        requires
            delete_ok(old(self).cursors(), old(buf).text(), idx as int),
            old(buf).current_version() < u128::MAX,
        ensures
            final(self).primary() == old(self).primary(),
            (final(self).cursors(), final(buf).text()) == delete_step(old(self).cursors(), old(buf).text(), idx as int),
            final(buf).current_version() <= old(buf).current_version() + 1,
    {
        let ghost s = buf.text();
        let ghost cs = self.cursors@;
        let cursor = self.cursors[idx];
        let start = cursor.start();
        let end = cursor.end();

        if start == end {
            return;
        }

        let (line, col) = buf.char_to_line_col(start);
        let len = end - start;
        proof {
            let c = if start >= s.len() { s.len() - 1 } else { start as int };
            lemma_char_on_line(s, c);
            lemma_line_start_bounds(s, line as nat);
            assert(delete_outcome(s, line as int, col as int, len as int) is Done);
        }

        let _ = buf.delete(line, col, len);

        let mut c = cursor;
        c.caret = start;
        c.anchor = start;
        c.desired_col = col;
        self.cursors.set(idx, c);

        self.move_after(buf, idx, -(len as isize));
        proof {
            let st = delete_step(cs, s, idx as int);
            assert(self.cursors@ =~= st.0);
            assert(buf.text() =~= st.1);
        }
    }

    /// Whether deleting the selection of cursor `idx` neither fails nor overflows
    fn delete_ok_at(&self, buf: &Buffer, idx: usize) -> (r: bool)
        requires
            idx < self.cursors().len(),
        ensures
            r == delete_ok(self.cursors(), buf.text(), idx as int),
    {
        let ghost s = buf.text();
        let ghost cs = self.cursors@;
        let c = self.cursors[idx];
        let st = c.start();
        let en = c.end();
        if st == en {
            return true;
        }
        let n = en - st;
        let len = buf.len_chars();
        if len == 0 {
            return false;
        }
        let cl = if st >= len { len - 1 } else { st };
        proof {
            let lc = line_col(s, st as int);
            assert(line_start(s, lc.0) + lc.1 == cl);
        }
        if n > len - cl {
            return false;
        }
        let imax: usize = isize::MAX as usize;
        if n > imax {
            return false;
        }
        let rest = len - n;
        let ghost lc = line_col(s, st as int);
        let ghost nc = Cursor { anchor: st, caret: st, desired_col: lc.1 as usize };
        let ghost cs1 = cs.update(idx as int, nc);
        let mut i: usize = 0;
        while i < self.cursors.len()
            invariant
                i <= self.cursors@.len(),
                cs == self.cursors@,
                cs1 == cs.update(idx as int, nc),
                idx < cs.len(),
                nc.caret == st,
                nc == (Cursor { anchor: st, caret: st, desired_col: line_col(s, st as int).1 as usize }),
                cs[idx as int].start_spec() == st,
                cs[idx as int].end_spec() == en,
                st < en,
                n == en - st,
                s == buf.text(),
                s.len() > 0,
                (if st >= s.len() { s.len() - 1 } else { st as int }) + n <= s.len(),
                rest == s.len() - n,
                n <= imax,
                imax == isize::MAX,
                forall|j: int| 0 <= j < i && j != idx ==> {
                    &&& (#[trigger] cs1[j]).caret > cs1[idx as int].caret ==> rest > 0 && shift_fits(cs1[idx as int].caret as int, cs1[j].caret as int, -n)
                    &&& cs1[j].anchor > cs1[idx as int].caret ==> rest > 0 && shift_fits(cs1[idx as int].caret as int, cs1[j].anchor as int, -n)
                },
            decreases self.cursors.len() - i,
        {
            if i != idx {
                let o = self.cursors[i];
                assert(cs1[i as int] == o);
                assert(cs1[idx as int] == nc);
                if o.caret > st && !(rest > 0 && st <= imax && o.caret <= imax) {
                    assert(!shifts_ok(cs1, idx as int, s.len() - n, -(n as int)));
                    return false;
                }
                if o.anchor > st && !(rest > 0 && st <= imax && o.anchor <= imax) {
                    assert(!shifts_ok(cs1, idx as int, s.len() - n, -(n as int)));
                    return false;
                }
            }
            i = i + 1;
        }
        true
    }

    /// Whether `delete` runs with these options without failing: every
    /// selection it deletes lies within the text as it stands then, and the
    /// positions fit the machine's integers
    pub fn can_delete(&self, buffer: &Buffer, options: &CursorOptions) -> (r: bool)
        requires
            self.wf(),
        ensures
            r == (if options.all {
                delete_all_ok(self.cursors(), buffer.text())
            } else {
                delete_ok(self.cursors(), buffer.text(), self.primary() as int)
            }),
    {
        if !options.all {
            return self.delete_ok_at(buffer, self.primary);
        }
        let ghost cs0 = self.cursors@;
        let ghost s0 = buffer.text();
        let len = buffer.len_chars();
        let text = match rope_get_slice(buffer.rope(), 0, len) {
            Some(t) => t,
            None => {
                return false;
            },
        };
        proof {
            assert(text@ =~= s0);
        }
        let mut copy_buf = Buffer::from_str(text.as_str());
        let mut cursors: Vec<Cursor> = Vec::new();
        let mut j: usize = 0;
        while j < self.cursors.len()
            invariant
                j <= self.cursors@.len(),
                cursors@ =~= self.cursors@.take(j as int),
            decreases self.cursors.len() - j,
        {
            cursors.push(self.cursors[j]);
            j = j + 1;
        }
        assert(cursors@ =~= cs0);
        let mut copy = CursorSet { cursors, primary: self.primary };
        let n = self.cursors.len();
        let mut k: usize = 0;
        while k < n
            invariant
                n == cs0.len(),
                cs0 == self.cursors(),
                s0 == buffer.text(),
                options.all,
                k <= n,
                (copy.cursors@, copy_buf.text()) == delete_fold(cs0, s0, k as int),
                copy_buf.current_version() <= k,
                forall|m: int| 0 <= m < k ==> #[trigger] delete_ok(delete_fold(cs0, s0, m).0, delete_fold(cs0, s0, m).1, m),
            decreases n - k,
        {
            proof {
                lemma_delete_fold_len(cs0, s0, k as int);
            }
            if !copy.delete_ok_at(&copy_buf, k) {
                proof {
                    let f = delete_fold(cs0, s0, k as int);
                    assert(copy.cursors() == f.0 && copy_buf.text() == f.1);
                    assert(!delete_ok(f.0, f.1, k as int));
                }
                return false;
            }
            copy.delete_one(&mut copy_buf, k);
            k = k + 1;
        }
        true
    }

    /// Deletes the currently selected text for the cursor
    pub fn delete(&mut self, buffer: &mut Buffer, options: &CursorOptions)
        requires
            old(self).wf(),
            old(buffer).current_version() + old(self).cursors().len() < u128::MAX,
            options.all ==> delete_all_ok(old(self).cursors(), old(buffer).text()),
            !options.all ==> delete_ok(old(self).cursors(), old(buffer).text(), old(self).primary() as int),
        ensures
            ({
                let done = if options.all {
                    delete_fold(old(self).cursors(), old(buffer).text(), old(self).cursors().len() as int)
                } else {
                    delete_step(old(self).cursors(), old(buffer).text(), old(self).primary() as int)
                };
                &&& final(buffer).text() == done.1
                &&& final(self).cursors() == merge_all(sorted_by_start(done.0))
                &&& final(self).primary() == find_caret(final(self).cursors(), done.0[old(self).primary() as int].caret, 0)
            }),
            final(self).wf(),
            separated(final(self).cursors()),
    {
        if options.all {
            let n = self.cursors.len();
            let mut i: usize = 0;
            while i < n
                invariant
                    n == old(self).cursors@.len(),
                    i <= n,
                    self.primary == old(self).primary,
                    delete_all_ok(old(self).cursors@, old(buffer).text()),
                    (self.cursors@, buffer.text()) == delete_fold(old(self).cursors@, old(buffer).text(), i as int),
                    buffer.current_version() <= old(buffer).current_version() + i,
                    old(buffer).current_version() + n < u128::MAX,
                decreases n - i,
            {
                proof {
                    lemma_delete_fold_len(old(self).cursors@, old(buffer).text(), i as int);
                    assert(delete_ok(delete_fold(old(self).cursors@, old(buffer).text(), i as int).0,
                        delete_fold(old(self).cursors@, old(buffer).text(), i as int).1, i as int));
                }
                self.delete_one(buffer, i);
                i = i + 1;
            }
            proof {
                lemma_delete_fold_len(old(self).cursors@, old(buffer).text(), n as int);
            }
        } else {
            let p = self.primary;
            self.delete_one(buffer, p);
        }

        self.merge();
    }

    /// Swaps the head and tail (anchor and caret) of the cursor
    pub fn swap(&mut self, options: &CursorOptions)
        requires
            old(self).wf(),
        ensures
            final(self).primary() == old(self).primary(),
            final(self).cursors().len() == old(self).cursors().len(),
            forall|i: int| 0 <= i < final(self).cursors().len() ==> {
                let c = #[trigger] old(self).cursors()[i];
                final(self).cursors()[i] == if options.all || i == old(self).primary() {
                    Cursor { anchor: c.caret, caret: c.anchor, desired_col: c.desired_col }
                } else {
                    c
                }
            },
    {
        if options.all {
            let mut i: usize = 0;
            while i < self.cursors.len()
                invariant
                    i <= self.cursors@.len() == old(self).cursors@.len(),
                    self.primary == old(self).primary,
                    options.all,
                    forall|j: int| 0 <= j < self.cursors@.len() ==> {
                        let c = #[trigger] old(self).cursors@[j];
                        self.cursors@[j] == if j < i {
                            Cursor { anchor: c.caret, caret: c.anchor, desired_col: c.desired_col }
                        } else {
                            c
                        }
                    },
                decreases self.cursors.len() - i,
            {
                let c = self.cursors[i];
                self.cursors.set(i, Cursor { anchor: c.caret, caret: c.anchor, desired_col: c.desired_col });
                i = i + 1;
            }
        } else {
            let c = self.cursors[self.primary];
            self.cursors.set(self.primary, Cursor { anchor: c.caret, caret: c.anchor, desired_col: c.desired_col });
        }
    }
}

} // verus!
