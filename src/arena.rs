//! A bump allocator for short-lived byte and text payloads.
//!
//! An [`Arena`] owns a list of fixed-capacity chunks. Small payloads are
//! copied one after another into the current chunk; a payload that does not
//! fit opens a fresh chunk, and a payload larger than the chunk size gets a
//! dedicated chunk of its own without moving the cursor. Every allocation
//! hands back a [`Span`], a handle that names where the copy lives; the bytes
//! are read back through the arena, so a handle can never outlive the memory
//! it points into.
use vstd::prelude::*;
use vstd::slice::slice_subrange;
use vstd::string::StringSliceAdditionalSpecFns;
use vstd::utf8::valid_utf8;

use crate::text::utf8_str;

verus! {

/// Chunk size used by [`Arena::new`]: 64 KiB.
pub const DEFAULT_CHUNK_SIZE: usize = 65536;

/// Where one allocation lives: `len` bytes starting at `start` in chunk `chunk`.
#[derive(Clone, Copy, Debug, PartialEq, Eq)]
pub struct Span {
    pub chunk: usize,
    pub start: usize,
    pub len: usize,
}

/// The abstract state of one chunk: the capacity it reserved when it was
/// created and the bytes written into it so far.
pub struct ChunkView {
    pub capacity: nat,
    pub data: Seq<u8>,
}

/// The abstract state of an arena.
pub struct ArenaView {
    pub chunks: Seq<ChunkView>,
    /// Index of the chunk that receives small allocations.
    pub current: nat,
    /// Bump offset inside the current chunk.
    pub offset: nat,
    pub chunk_size: nat,
}

/// Sum of the reserved capacities of `cs`.
pub open spec fn capacity_sum(cs: Seq<ChunkView>) -> nat
    decreases cs.len(),
{
    if cs.len() == 0 {
        0
    } else {
        capacity_sum(cs.drop_last()) + cs.last().capacity
    }
}

/// Sum of the written lengths of `cs`.
pub open spec fn length_sum(cs: Seq<ChunkView>) -> nat
    decreases cs.len(),
{
    if cs.len() == 0 {
        0
    } else {
        length_sum(cs.drop_last()) + cs.last().data.len()
    }
}

impl ArenaView {
    /// Structural well-formedness: there is always a first chunk of the
    /// configured size, the cursor points at a regular chunk whose written
    /// length is the bump offset, and no chunk holds more than it reserved.
    pub open spec fn wf(self) -> bool {
        &&& self.chunks.len() >= 1
        &&& self.current < self.chunks.len()
        &&& self.chunks[0].capacity == self.chunk_size
        &&& self.chunks[self.current as int].capacity == self.chunk_size
        &&& self.chunks[self.current as int].data.len() == self.offset
        &&& forall|i: int|
            0 <= i < self.chunks.len() ==> #[trigger] self.chunks[i].data.len()
                <= self.chunks[i].capacity
    }

    /// Every count and position in the arena fits in a machine word.
    pub open spec fn addressable(self) -> bool {
        &&& self.chunks.len() <= usize::MAX
        &&& self.chunk_size <= usize::MAX
        &&& forall|i: int| 0 <= i < self.chunks.len() ==> #[trigger] self.chunks[i].capacity <= usize::MAX
    }

    /// Reserved bytes over all chunks.
    pub open spec fn footprint(self) -> nat {
        capacity_sum(self.chunks)
    }

    /// Written bytes over all chunks.
    pub open spec fn used(self) -> nat {
        length_sum(self.chunks)
    }

    /// `sp` names bytes that have been written into this arena.
    pub open spec fn holds(self, sp: Span) -> bool {
        &&& sp.chunk < self.chunks.len()
        &&& sp.start + sp.len <= self.chunks[sp.chunk as int].data.len()
    }

    /// The bytes that `sp` names.
    pub open spec fn content(self, sp: Span) -> Seq<u8> {
        self.chunks[sp.chunk as int].data.subrange(sp.start as int, sp.start + sp.len)
    }

    /// The arena after copying `b` into it, and the span of the copy.
    pub open spec fn allocate(self, b: Seq<u8>) -> (ArenaView, Span) {
        let n = self.chunks.len();
        if b.len() == 0 {
            (self, Span { chunk: 0, start: 0, len: 0 })
        } else if b.len() > self.chunk_size {
            // dedicated chunk; the cursor stays where it was
            (
                ArenaView { chunks: self.chunks.push(ChunkView { capacity: b.len(), data: b }), ..self },
                Span { chunk: n as usize, start: 0, len: b.len() as usize },
            )
        } else if self.offset + b.len() <= self.chunk_size {
            let cur = self.chunks[self.current as int];
            (
                ArenaView {
                    chunks: self.chunks.update(
                        self.current as int,
                        ChunkView { capacity: cur.capacity, data: cur.data + b },
                    ),
                    offset: self.offset + b.len(),
                    ..self
                },
                Span { chunk: self.current as usize, start: self.offset as usize, len: b.len() as usize },
            )
        } else {
            (
                ArenaView {
                    chunks: self.chunks.push(ChunkView { capacity: self.chunk_size, data: b }),
                    current: n,
                    offset: b.len(),
                    ..self
                },
                Span { chunk: n as usize, start: 0, len: b.len() as usize },
            )
        }
    }

    /// How many bytes an allocation of `len` bytes adds to the reservation.
    pub open spec fn growth(self, len: nat) -> nat {
        if len == 0 {
            0
        } else if len > self.chunk_size {
            len
        } else if self.offset + len <= self.chunk_size {
            0
        } else {
            self.chunk_size
        }
    }

    /// The arena after a reset: only the first chunk is left, emptied.
    pub open spec fn reset(self) -> ArenaView {
        ArenaView {
            chunks: seq![ChunkView { capacity: self.chunks[0].capacity, data: Seq::empty() }],
            current: 0,
            offset: 0,
            chunk_size: self.chunk_size,
        }
    }

    /// `self` grew out of `earlier` by allocation alone: no chunk went away,
    /// none changed its capacity, and every written byte is still in place.
    pub open spec fn extends(self, earlier: ArenaView) -> bool {
        &&& self.chunk_size == earlier.chunk_size
        &&& earlier.chunks.len() <= self.chunks.len()
        &&& forall|i: int|
            0 <= i < earlier.chunks.len() ==> {
                &&& #[trigger] self.chunks[i].capacity == earlier.chunks[i].capacity
                &&& earlier.chunks[i].data.is_prefix_of(self.chunks[i].data)
            }
    }
}

/// Appending a chunk adds its capacity and its written length to the totals.
pub proof fn lemma_sums_push(cs: Seq<ChunkView>, c: ChunkView)
    ensures
        capacity_sum(cs.push(c)) == capacity_sum(cs) + c.capacity,
        length_sum(cs.push(c)) == length_sum(cs) + c.data.len(),
{
    assert(cs.push(c).drop_last() =~= cs);
}

/// What an allocation adds to the two totals: the written total grows by the
/// payload's length, the reservation by the size of the chunk it opened.
pub proof fn lemma_allocate_sums(a: ArenaView, b: Seq<u8>)
    requires
        a.wf(),
    ensures
        a.allocate(b).0.used() == a.used() + b.len(),
        a.allocate(b).0.footprint() == a.footprint() + a.growth(b.len()),
{
    if b.len() == 0 {
    } else if b.len() > a.chunk_size {
        lemma_sums_push(a.chunks, ChunkView { capacity: b.len(), data: b });
    } else if a.offset + b.len() <= a.chunk_size {
        let cur = a.chunks[a.current as int];
        lemma_sums_update(a.chunks, a.current as int, ChunkView { capacity: cur.capacity, data: cur.data + b });
    } else {
        lemma_sums_push(a.chunks, ChunkView { capacity: a.chunk_size, data: b });
    }
}

/// Allocation keeps the arena well formed, only ever adds to it, and the span
/// it returns reads back exactly the bytes that were copied in, whatever their
/// length.
pub proof fn lemma_allocate_reads_back(a: ArenaView, b: Seq<u8>)
    requires
        a.wf(),
        a.allocate(b).0.addressable(),
    ensures
        a.allocate(b).0.wf(),
        a.allocate(b).0.extends(a),
        a.allocate(b).0.holds(a.allocate(b).1),
        a.allocate(b).0.content(a.allocate(b).1) == b,
{
    let (post, sp) = a.allocate(b);
    if b.len() == 0 {
        assert(post.content(sp) =~= b);
    } else if b.len() > a.chunk_size {
        assert(post.chunks[a.chunks.len() as int].capacity <= usize::MAX);
        assert(post.chunks[sp.chunk as int].data == b);
        assert(post.content(sp) =~= b);
    } else if a.offset + b.len() <= a.chunk_size {
        let cur = a.chunks[a.current as int];
        assert(post.chunks[sp.chunk as int].data == cur.data + b);
        assert(post.content(sp) =~= b);
        assert forall|i: int| 0 <= i < a.chunks.len() implies a.chunks[i].data.is_prefix_of(
            #[trigger] post.chunks[i].data,
        ) by {
            if i == a.current {
                assert(post.chunks[i].data.subrange(0, a.chunks[i].data.len() as int) =~= a.chunks[i].data);
            }
        }
    } else {
        assert(post.chunks[sp.chunk as int].data == b);
        assert(post.content(sp) =~= b);
    }
}

/// A reset leaves one empty chunk of the configured size and nothing written,
/// and an allocation right after it reads back what was copied in.
pub proof fn lemma_reset_then_allocate(a: ArenaView, b: Seq<u8>)
    requires
        a.wf(),
        a.reset().allocate(b).0.addressable(),
    ensures
        a.reset().wf(),
        a.reset().chunks.len() == 1,
        a.reset().used() == 0,
        a.reset().footprint() == a.chunk_size,
        a.reset().allocate(b).0.holds(a.reset().allocate(b).1),
        a.reset().allocate(b).0.content(a.reset().allocate(b).1) == b,
{
    let r = a.reset();
    lemma_sums_push(Seq::empty(), r.chunks[0]);
    assert(Seq::<ChunkView>::empty().push(r.chunks[0]) =~= r.chunks);
    lemma_allocate_reads_back(r, b);
}

/// An allocation larger than the chunk size opens a chunk of exactly its
/// length and leaves the cursor where it was, so the next small allocation
/// that fits still lands in the chunk that was current before.
pub proof fn lemma_large_allocation_keeps_cursor(a: ArenaView, big: Seq<u8>, small: Seq<u8>)
    requires
        a.wf(),
        a.addressable(),
        big.len() > a.chunk_size,
        small.len() > 0,
        a.offset + small.len() <= a.chunk_size,
    ensures
        a.allocate(big).0.chunks.len() == a.chunks.len() + 1,
        a.allocate(big).0.chunks.last().capacity == big.len(),
        a.allocate(big).0.current == a.current,
        a.allocate(big).0.offset == a.offset,
        a.allocate(big).0.allocate(small).1.chunk == a.current,
        a.allocate(big).0.allocate(small).1.start == a.offset,
{
    let a1 = a.allocate(big).0;
    assert(a1.chunks[a.current as int] == a.chunks[a.current as int]);
}

/// A span held by an arena is still held, with the same bytes, by any arena
/// that grew out of it by allocation.
pub proof fn lemma_extends_keeps_spans(earlier: ArenaView, later: ArenaView, sp: Span)
    requires
        later.extends(earlier),
        earlier.holds(sp),
    ensures
        later.holds(sp),
        later.content(sp) == earlier.content(sp),
{
    let c = sp.chunk as int;
    assert(later.chunks[c].capacity == earlier.chunks[c].capacity);
    assert(earlier.chunks[c].data.is_prefix_of(later.chunks[c].data));
    assert(later.content(sp) =~= earlier.content(sp));
}

/// Replacing one chunk swaps its share of the totals for the new chunk's.
pub proof fn lemma_sums_update(cs: Seq<ChunkView>, i: int, c: ChunkView)
    requires
        0 <= i < cs.len(),
    ensures
        capacity_sum(cs.update(i, c)) == capacity_sum(cs) - cs[i].capacity + c.capacity,
        length_sum(cs.update(i, c)) == length_sum(cs) - cs[i].data.len() + c.data.len(),
    decreases cs.len(),
{
    let u = cs.update(i, c);
    if i == cs.len() - 1 {
        assert(u.drop_last() =~= cs.drop_last());
    } else {
        lemma_sums_update(cs.drop_last(), i, c);
        assert(u.drop_last() =~= cs.drop_last().update(i, c));
    }
}

/// The totals of a prefix never exceed the totals of the whole.
pub proof fn lemma_sums_prefix(cs: Seq<ChunkView>, i: int)
    requires
        0 <= i <= cs.len(),
    ensures
        capacity_sum(cs.take(i)) <= capacity_sum(cs),
        length_sum(cs.take(i)) <= length_sum(cs),
    decreases cs.len(),
{
    if i < cs.len() {
        lemma_sums_prefix(cs.drop_last(), i);
        assert(cs.drop_last().take(i) =~= cs.take(i));
    } else {
        assert(cs.take(i) =~= cs);
    }
}

struct Chunk {
    data: Vec<u8>,
    capacity: usize,
}

impl Chunk {
    spec fn view(&self) -> ChunkView {
        ChunkView { capacity: self.capacity as nat, data: self.data@ }
    }
}

/// A bump allocator for byte and text payloads.
pub struct Arena {
    chunks: Vec<Chunk>,
    current_chunk_idx: usize,
    current_offset: usize,
    chunk_size: usize,
}

impl View for Arena {
    type V = ArenaView;

    closed spec fn view(&self) -> ArenaView {
        ArenaView {
            chunks: self.chunks@.map_values(|c: Chunk| c.view()),
            current: self.current_chunk_idx as nat,
            offset: self.current_offset as nat,
            chunk_size: self.chunk_size as nat,
        }
    }
}

impl Arena {
    /// The arena is well formed.
    pub open spec fn inv(&self) -> bool {
        &&& self@.wf()
        &&& self@.addressable()
    }

    /// Creates an arena whose chunks reserve [`DEFAULT_CHUNK_SIZE`] bytes.
    pub fn new() -> (r: Self)
        ensures
            r.inv(),
            r@ == Arena::fresh_view(DEFAULT_CHUNK_SIZE as nat),
            r@.footprint() == DEFAULT_CHUNK_SIZE,
            r@.used() == 0,
    {
        Self::with_chunk_size(DEFAULT_CHUNK_SIZE)
    }

    /// A new arena: one empty chunk of `chunk_size` bytes, cursor at its start.
    pub open spec fn fresh_view(chunk_size: nat) -> ArenaView {
        ArenaView {
            chunks: seq![ChunkView { capacity: chunk_size, data: Seq::empty() }],
            current: 0,
            offset: 0,
            chunk_size,
        }
    }

    /// Creates an arena whose chunks reserve `chunk_size` bytes.
    pub fn with_chunk_size(chunk_size: usize) -> (r: Self)
        ensures
            r.inv(),
            r@ == Arena::fresh_view(chunk_size as nat),
            r@.footprint() == chunk_size,
            r@.used() == 0,
    {
        let mut chunks: Vec<Chunk> = Vec::new();
        chunks.push(Chunk { data: Vec::with_capacity(chunk_size), capacity: chunk_size });
        let r = Arena { chunks, current_chunk_idx: 0, current_offset: 0, chunk_size };
        proof {
            assert(r@.chunks =~= Arena::fresh_view(chunk_size as nat).chunks);
            lemma_sums_push(Seq::empty(), r@.chunks[0]);
            assert(Seq::<ChunkView>::empty().push(r@.chunks[0]) =~= r@.chunks);
        }
        r
    }

    /// Number of chunks.
    pub fn chunk_count(&self) -> (r: usize)
        ensures
            r == self@.chunks.len(),
    {
        self.chunks.len()
    }
    /// Copies `bytes` into the arena and returns the span of the copy.
    ///
    /// Empty input touches nothing. Input longer than the chunk size gets a
    /// dedicated chunk of exactly its length and leaves the cursor alone.
    /// Otherwise the copy goes at the bump offset of the current chunk when it
    /// fits there, and at the start of a fresh chunk, which becomes current,
    /// when it does not.
    pub fn alloc_bytes(&mut self, bytes: &[u8]) -> (r: Span)
        requires
            old(self).inv(),
        ensures
            final(self).inv(),
            (final(self)@, r) == old(self)@.allocate(bytes@),
            final(self)@.extends(old(self)@),
            final(self)@.holds(r),
            final(self)@.content(r) == bytes@,
            final(self)@.used() == old(self)@.used() + bytes@.len(),
            final(self)@.footprint() == old(self)@.footprint() + old(self)@.growth(bytes@.len()),
    {
        let ghost pre = self@;
        let len = bytes.len();
        let r = if len == 0 {
            Span { chunk: 0, start: 0, len: 0 }
        } else if len > self.chunk_size {
            self.alloc_large(bytes)
        } else {
            let current_idx = self.current_chunk_idx;
            let current_offset = self.current_offset;
            let available = self.chunks[current_idx].capacity - current_offset;
            if available >= len {
                self.alloc_in_current_chunk(bytes, current_idx, current_offset)
            } else {
                self.alloc_new_chunk(bytes)
            }
        };
        proof {
            lemma_allocate_reads_back(pre, bytes@);
            lemma_allocate_sums(pre, bytes@);
        }
        r
    }

    /// Copies text into the arena; the copy is the text's UTF-8 encoding.
    pub fn alloc_str(&mut self, s: &str) -> (r: Span)
        requires
            old(self).inv(),
        ensures
            final(self).inv(),
            (final(self)@, r) == old(self)@.allocate(s.spec_bytes()),
            final(self)@.extends(old(self)@),
            final(self)@.holds(r),
            final(self)@.content(r) == s.spec_bytes(),
    {
        self.alloc_bytes(s.as_bytes())
    }

    fn alloc_in_current_chunk(&mut self, bytes: &[u8], chunk_idx: usize, offset: usize) -> (r: Span)
        requires
            old(self).inv(),
            0 < bytes@.len() <= old(self)@.chunk_size,
            chunk_idx == old(self)@.current,
            offset == old(self)@.offset,
            offset + bytes@.len() <= old(self)@.chunk_size,
        ensures
            final(self).inv(),
            (final(self)@, r) == old(self)@.allocate(bytes@),
    {
        let ghost pre = self@;
        let end = offset + bytes.len();
        self.chunks[chunk_idx].data.extend_from_slice(bytes);
        self.current_offset = end;
        proof {
            let (post, sp) = pre.allocate(bytes@);
            let cur = pre.chunks[chunk_idx as int];
            assert(self.chunks@[chunk_idx as int].data@ =~= cur.data + bytes@);
            assert(self@.chunks =~= post.chunks);
        }
        Span { chunk: chunk_idx, start: offset, len: bytes.len() }
    }

    fn alloc_new_chunk(&mut self, bytes: &[u8]) -> (r: Span)
        requires
            old(self).inv(),
            0 < bytes@.len() <= old(self)@.chunk_size,
        ensures
            final(self).inv(),
            final(self)@ == (ArenaView {
                chunks: old(self)@.chunks.push(ChunkView { capacity: old(self)@.chunk_size, data: bytes@ }),
                current: old(self)@.chunks.len(),
                offset: bytes@.len(),
                chunk_size: old(self)@.chunk_size,
            }),
            r == (Span { chunk: old(self)@.chunks.len() as usize, start: 0, len: bytes@.len() as usize }),
    {
        let ghost pre = self@;
        let mut new_chunk: Vec<u8> = Vec::with_capacity(self.chunk_size);
        new_chunk.extend_from_slice(bytes);
        self.chunks.push(Chunk { data: new_chunk, capacity: self.chunk_size });
        let new_idx = self.chunks.len() - 1;
        self.current_chunk_idx = new_idx;
        self.current_offset = bytes.len();
        proof {
            assert(new_chunk@ =~= bytes@);
            assert(self@.chunks =~= pre.chunks.push(ChunkView { capacity: pre.chunk_size, data: bytes@ }));
        }
        Span { chunk: new_idx, start: 0, len: bytes.len() }
    }

    fn alloc_large(&mut self, bytes: &[u8]) -> (r: Span)
        requires
            old(self).inv(),
        ensures
            final(self).inv(),
            final(self)@ == (ArenaView {
                chunks: old(self)@.chunks.push(ChunkView { capacity: bytes@.len(), data: bytes@ }),
                ..old(self)@
            }),
            r == (Span { chunk: old(self)@.chunks.len() as usize, start: 0, len: bytes@.len() as usize }),
    {
        let ghost pre = self@;
        let mut large_chunk: Vec<u8> = Vec::with_capacity(bytes.len());
        large_chunk.extend_from_slice(bytes);
        self.chunks.push(Chunk { data: large_chunk, capacity: bytes.len() });
        let idx = self.chunks.len() - 1;
        proof {
            assert(large_chunk@ =~= bytes@);
            assert(self@.chunks =~= pre.chunks.push(ChunkView { capacity: bytes@.len(), data: bytes@ }));
        }
        Span { chunk: idx, start: 0, len: bytes.len() }
    }

    /// Drops every chunk but the first and empties that one, keeping its
    /// reservation; the cursor goes back to its start. Spans issued before
    /// are no longer held by the arena afterwards.
    pub fn reset(&mut self)
        requires
            old(self).inv(),
        ensures
            final(self).inv(),
            final(self)@ == old(self)@.reset(),
    {
        let ghost pre = self@;
        self.chunks.truncate(1);
        self.chunks[0].data.clear();
        self.current_chunk_idx = 0;
        self.current_offset = 0;
        proof {
            assert(self@.chunks =~= pre.reset().chunks);
            lemma_sums_push(Seq::empty(), self@.chunks[0]);
            assert(Seq::<ChunkView>::empty().push(self@.chunks[0]) =~= self@.chunks);
        }
    }

    /// Reserved bytes over all chunks; the total must fit in a `usize`.
    pub fn bytes_allocated(&self) -> (r: usize)
        requires
            self.inv(),
            self@.footprint() <= usize::MAX,
        ensures
            r == self@.footprint(),
    {
        let mut total: usize = 0;
        let mut i: usize = 0;
        while i < self.chunks.len()
            invariant
                self.inv(),
                self@.footprint() <= usize::MAX,
                i <= self.chunks@.len(),
                total == capacity_sum(self@.chunks.take(i as int)),
            decreases self.chunks@.len() - i,
        {
            proof {
                assert(self@.chunks.take(i + 1).drop_last() =~= self@.chunks.take(i as int));
                lemma_sums_prefix(self@.chunks, i + 1);
            }
            total = total + self.chunks[i].capacity;
            i = i + 1;
        }
        proof {
            assert(self@.chunks.take(i as int) =~= self@.chunks);
        }
        total
    }

    /// Written bytes over all chunks; the total must fit in a `usize`.
    pub fn bytes_used(&self) -> (r: usize)
        requires
            self.inv(),
            self@.used() <= usize::MAX,
        ensures
            r == self@.used(),
    {
        let mut total: usize = 0;
        let mut i: usize = 0;
        while i < self.chunks.len()
            invariant
                self.inv(),
                self@.used() <= usize::MAX,
                i <= self.chunks@.len(),
                total == length_sum(self@.chunks.take(i as int)),
            decreases self.chunks@.len() - i,
        {
            proof {
                assert(self@.chunks.take(i + 1).drop_last() =~= self@.chunks.take(i as int));
                lemma_sums_prefix(self@.chunks, i + 1);
            }
            total = total + self.chunks[i].data.len();
            i = i + 1;
        }
        proof {
            assert(self@.chunks.take(i as int) =~= self@.chunks);
        }
        total
    }

    /// The bytes that `sp` names.
    pub fn bytes_at(&self, sp: Span) -> (r: &[u8])
        requires
            self@.holds(sp),
        ensures
            r@ == self@.content(sp),
    {
        let written = self.chunks[sp.chunk].data.len();
        let data = self.chunks[sp.chunk].data.as_slice();
        assert(data@ == self@.chunks[sp.chunk as int].data);
        assert(sp.start + sp.len <= written);
        slice_subrange(data, sp.start, sp.start + sp.len)
    }

    /// The text that `sp` names, where those bytes are valid UTF-8.
    pub fn str_at(&self, sp: Span) -> (r: Option<&str>)
        requires
            self@.holds(sp),
        ensures
            valid_utf8(self@.content(sp)) <==> r.is_some(),
            r matches Some(t) ==> t.spec_bytes() == self@.content(sp),
    {
        utf8_str(self.bytes_at(sp))
    }
}

impl Default for Arena {
    fn default() -> (r: Self)
        ensures
            r.inv(),
            r@ == Arena::fresh_view(DEFAULT_CHUNK_SIZE as nat),
    {
        Arena::new()
    }
}

} // verus!
