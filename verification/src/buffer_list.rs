//! The buffers an editor holds, each found by an id and by what it is
//! (a named scratch buffer or a file).
use vstd::prelude::*;
use crate::buffer::Buffer;
use crate::text::str_eq;

verus! {

/// What a buffer is: a named scratch buffer, or the contents of a file
/// (by its path, as text)
#[derive(Debug)]
pub enum BufferKind {
    Scratch(String),
    File(String),
}

/// A buffer kind with its strings as char sequences
pub enum KindView {
    Scratch(Seq<char>),
    File(Seq<char>),
}

impl View for BufferKind {
    type V = KindView;

    open spec fn view(&self) -> KindView {
        match self {
            BufferKind::Scratch(s) => KindView::Scratch(s@),
            BufferKind::File(s) => KindView::File(s@),
        }
    }
}

impl BufferKind {
    /// Whether two kinds are the same
    pub fn same(&self, other: &BufferKind) -> (r: bool)
        ensures
            r == (self@ == other@),
    {
        match (self, other) {
            (BufferKind::Scratch(a), BufferKind::Scratch(b)) => str_eq(a.as_str(), b.as_str()),
            (BufferKind::File(a), BufferKind::File(b)) => str_eq(a.as_str(), b.as_str()),
            _ => false,
        }
    }

    /// How the kind is shown: the scratch buffer's name or the file's path
    pub fn describe(&self) -> (r: String)
        ensures
            r@ == match self@ {
                KindView::Scratch(s) => s,
                KindView::File(s) => s,
            },
    {
        match self {
            BufferKind::Scratch(s) => s.clone(),
            BufferKind::File(s) => s.clone(),
        }
    }
}

/// A buffer with what it is
pub struct BufferEntry {
    pub buffer: Buffer,
    kind: BufferKind,
}

impl BufferEntry {
    /// An empty scratch buffer with the given name
    pub fn new_scratch(name: String) -> (r: Self)
        ensures
            r.buffer_spec().text() == Seq::<char>::empty(),
            r.kind_spec() == KindView::Scratch(name@),
    {
        BufferEntry {
            buffer: Buffer::new(),
            kind: BufferKind::Scratch(name),
        }
    }

    /// A loaded buffer with what it is
    pub fn with_kind(buffer: Buffer, kind: BufferKind) -> (r: Self)
        ensures
            r.buffer_spec() == buffer,
            r.kind_spec() == kind@,
    {
        BufferEntry { buffer, kind }
    }

    /// The buffer
    pub closed spec fn buffer_spec(&self) -> Buffer {
        self.buffer
    }

    /// This entry with its buffer replaced by `b`
    pub closed spec fn with_buffer(&self, b: Buffer) -> BufferEntry {
        BufferEntry { buffer: b, kind: self.kind }
    }

    /// An entry with its buffer replaced holds that buffer and is of the same kind
    pub proof fn lemma_with_buffer(&self, b: Buffer)
        ensures
            self.with_buffer(b).buffer_spec() == b,
            self.with_buffer(b).kind_spec() == self.kind_spec(),
    {
    }

    /// What the buffer is
    pub closed spec fn kind_spec(&self) -> KindView {
        self.kind@
    }

    /// Retrieves the kind of the buffer from it's entry
    pub fn kind(&self) -> (r: &BufferKind)
        ensures
            r@ == self.kind_spec(),
    {
        &self.kind
    }
}

/// An index that can index into a buffer-list
pub type BufferID = u32;

/// The index of the first entry with id `id`.
pub open spec fn id_index(es: Seq<(BufferID, BufferEntry)>, id: BufferID, i: int) -> Option<int>
    decreases es.len() - i,
{
    if i < 0 || i >= es.len() {
        None
    } else if es[i].0 == id {
        Some(i)
    } else {
        id_index(es, id, i + 1)
    }
}

/// The index of the first entry of kind `k`.
pub open spec fn kind_index(es: Seq<(BufferID, BufferEntry)>, k: KindView, i: int) -> Option<int>
    decreases es.len() - i,
{
    if i < 0 || i >= es.len() {
        None
    } else if es[i].1.kind_spec() == k {
        Some(i)
    } else {
        kind_index(es, k, i + 1)
    }
}

/// A list of buffers to handle storage and data for the buffers
pub struct BufferList {
    buffers: Vec<(BufferID, BufferEntry)>,
    next_id: BufferID,
}

impl BufferList {
    /// The entries with their ids, in the order they came
    pub closed spec fn entries_spec(&self) -> Seq<(BufferID, BufferEntry)> {
        self.buffers@
    }

    /// The id the next new buffer gets
    pub closed spec fn next_id_spec(&self) -> BufferID {
        self.next_id
    }

    /// Ids are below the next one, and no two entries share one.
    pub open spec fn wf(&self) -> bool {
        &&& forall|i: int| 0 <= i < self.entries_spec().len() ==> (#[trigger] self.entries_spec()[i]).0 < self.next_id_spec()
        &&& forall|i: int, j: int| 0 <= i < j < self.entries_spec().len() ==>
            (#[trigger] self.entries_spec()[i]).0 != (#[trigger] self.entries_spec()[j]).0
    }

    /// An empty list
    pub fn new() -> (r: Self)
        ensures
            r.wf(),
            r.entries_spec().len() == 0,
            r.next_id_spec() == 0,
    {
        BufferList { buffers: Vec::new(), next_id: 0 }
    }

    /// The id the next new buffer gets
    pub fn next_id(&self) -> (r: BufferID)
        ensures
            r == self.next_id_spec(),
    {
        self.next_id
    }

    /// The id of the buffer of kind `kind`, if there is one
    pub fn find_kind(&self, kind: &BufferKind) -> (r: Option<BufferID>)
        ensures
            match kind_index(self.entries_spec(), kind@, 0) {
                Some(i) => r == Some(self.entries_spec()[i].0),
                None => r is None,
            },
    {
        let mut i: usize = 0;
        while i < self.buffers.len()
            invariant
                i <= self.buffers@.len(),
                kind_index(self.buffers@, kind@, i as int) == kind_index(self.buffers@, kind@, 0),
            decreases self.buffers.len() - i,
        {
            if self.buffers[i].1.kind.same(kind) {
                return Some(self.buffers[i].0);
            }
            i = i + 1;
        }
        None
    }

    /// Adds an entry under the next id, which it returns
    pub fn add(&mut self, entry: BufferEntry) -> (r: BufferID)
        requires
            old(self).wf(),
            old(self).next_id_spec() < u32::MAX,
        ensures
            final(self).wf(),
            r == old(self).next_id_spec(),
            final(self).next_id_spec() == old(self).next_id_spec() + 1,
            final(self).entries_spec() == old(self).entries_spec().push((r, entry)),
    {
        let id = self.next_id;
        self.buffers.push((id, entry));
        self.next_id = self.next_id + 1;
        proof {
            let o = old(self).buffers@;
            let n = self.buffers@;
            assert(old(self).entries_spec() == o);
            assert forall|a: int, b: int| 0 <= a < b < n.len() implies (#[trigger] n[a]).0 != (#[trigger] n[b]).0 by {
                assert(n[a] == o[a]);
                assert(old(self).entries_spec()[a].0 < old(self).next_id);
                if b < o.len() {
                    assert(n[b] == o[b]);
                    assert(old(self).entries_spec()[b].0 < old(self).next_id);
                }
            }
            assert forall|a: int| 0 <= a < n.len() implies (#[trigger] n[a]).0 < self.next_id by {
                if a < o.len() {
                    assert(n[a] == o[a]);
                    assert(old(self).entries_spec()[a].0 < old(self).next_id);
                }
            }
        }
        id
    }

    /// Create a new buffer with the given name, initializing it as empty;
    /// the scratch buffer of that name where there is one
    pub fn scratch(&mut self, name: String) -> (r: BufferID)
        requires
            old(self).wf(),
            kind_index(old(self).entries_spec(), KindView::Scratch(name@), 0) is None ==> old(self).next_id_spec() < u32::MAX,
        ensures
            final(self).wf(),
            match kind_index(old(self).entries_spec(), KindView::Scratch(name@), 0) {
                Some(i) => r == old(self).entries_spec()[i].0 && *final(self) == *old(self),
                None => {
                    &&& r == old(self).next_id_spec()
                    &&& final(self).next_id_spec() == old(self).next_id_spec() + 1
                    &&& final(self).entries_spec().drop_last() == old(self).entries_spec()
                    &&& final(self).entries_spec().last().0 == r
                    &&& final(self).entries_spec().last().1.kind_spec() == KindView::Scratch(name@)
                    &&& final(self).entries_spec().last().1.buffer_spec().text() == Seq::<char>::empty()
                },
            },
    {
        let kind = BufferKind::Scratch(name.clone());

        match self.find_kind(&kind) {
            Some(id) => {
                return id;
            },
            None => {},
        }

        let buf = BufferEntry::new_scratch(name);
        let id = self.add(buf);
        proof {
            assert(self.buffers@.drop_last() =~= old(self).buffers@);
        }
        id
    }

    /// Remove a buffer by id from the list
    pub fn delete(&mut self, id: BufferID) -> (r: bool)
        requires
            old(self).wf(),
        ensures
            final(self).wf(),
            final(self).next_id_spec() == old(self).next_id_spec(),
            match id_index(old(self).entries_spec(), id, 0) {
                Some(i) => r && final(self).entries_spec() == old(self).entries_spec().remove(i),
                None => !r && final(self).entries_spec() == old(self).entries_spec(),
            },
    {
        let mut i: usize = 0;
        while i < self.buffers.len()
            invariant
                i <= self.buffers@.len(),
                self.buffers@ == old(self).buffers@,
                self.next_id == old(self).next_id,
                old(self).wf(),
                id_index(self.buffers@, id, i as int) == id_index(self.buffers@, id, 0),
            decreases self.buffers.len() - i,
        {
            if self.buffers[i].0 == id {
                let _ = self.buffers.remove(i);
                proof {
                    let o = old(self).buffers@;
                    let n = self.buffers@;
                    assert forall|a: int, b: int| 0 <= a < b < n.len() implies (#[trigger] n[a]).0 != (#[trigger] n[b]).0 by {
                        let oa = if a < i { a } else { a + 1 };
                        let ob = if b < i { b } else { b + 1 };
                        assert(n[a] == o[oa] && n[b] == o[ob]);
                    }
                    assert forall|a: int| 0 <= a < n.len() implies (#[trigger] n[a]).0 < self.next_id by {
                        let oa = if a < i { a } else { a + 1 };
                        assert(n[a] == o[oa]);
                    }
                }
                return true;
            }
            i = i + 1;
        }
        false
    }

    /// The entries with their ids
    pub fn iter(&self) -> (r: &[(BufferID, BufferEntry)])
        ensures
            r@ == self.entries_spec(),
    {
        self.buffers.as_slice()
    }

    /// Retrieves the buffer by ID
    pub fn get(&mut self, id: BufferID) -> (r: Option<&mut Buffer>)
        ensures
            r is Some <==> id_index(old(self).entries_spec(), id, 0) is Some,
            final(self).next_id_spec() == old(self).next_id_spec(),
            old(self).wf() ==> final(self).wf(),
            match id_index(old(self).entries_spec(), id, 0) {
                Some(i) => r matches Some(b) && *b == old(self).entries_spec()[i].1.buffer_spec()
                    && final(self).entries_spec() == old(self).entries_spec().update(i,
                        (id, old(self).entries_spec()[i].1.with_buffer(*final(b)))),
                None => final(self).entries_spec() == old(self).entries_spec(),
            },
    {
        match self.get_raw(id) {
            Some(entry) => Some(&mut entry.buffer),
            None => None,
        }
    }

    /// Retrieves the entry by ID
    pub fn get_raw(&mut self, id: BufferID) -> (r: Option<&mut BufferEntry>)
        ensures
            r is Some <==> id_index(old(self).entries_spec(), id, 0) is Some,
            final(self).next_id_spec() == old(self).next_id_spec(),
            old(self).wf() ==> final(self).wf(),
            match id_index(old(self).entries_spec(), id, 0) {
                Some(i) => r matches Some(e) && *e == old(self).entries_spec()[i].1
                    && final(self).entries_spec() == old(self).entries_spec().update(i, (id, *final(e))),
                None => final(self).entries_spec() == old(self).entries_spec(),
            },
    {
        let mut i: usize = 0;
        while i < self.buffers.len()
            invariant
                i <= self.buffers@.len(),
                self.buffers@ == old(self).buffers@,
                self.next_id == old(self).next_id,
                id_index(self.buffers@, id, i as int) == id_index(self.buffers@, id, 0),
            decreases self.buffers.len() - i,
        {
            if self.buffers[i].0 == id {
                return Some(&mut self.buffers[i].1);
            }
            i = i + 1;
        }
        None
    }
}

} // verus!
