//! A buffer that gathers text fragments in an arena and joins them on demand.
//!
//! Each non-empty fragment is copied into the arena once; the buffer keeps
//! only the span of the copy. Joining walks the spans in push order and builds
//! one new `String`.
use vstd::prelude::*;
use vstd::string::StringSliceAdditionalSpecFns;
use vstd::utf8::*;

use crate::arena::{lemma_allocate_reads_back, lemma_extends_keeps_spans};
use crate::arena::{Arena, ArenaView, Span};
use crate::text::{joined, joined_utf8, string_from_utf8, utf8_str};
use crate::text::{lemma_joined_utf8, lemma_joined_utf8_prefix, lemma_joined_utf8_push};

verus! {

broadcast use group_utf8_lib;

/// Why a fragment was refused.
#[derive(Clone, Copy, Debug, PartialEq, Eq)]
pub enum BufferError {
    /// The bytes handed in are not valid UTF-8.
    InvalidEncoding,
}

/// The fragment list after pushing `s`: empty text adds no fragment.
pub open spec fn pushed(frags: Seq<Seq<char>>, s: Seq<char>) -> Seq<Seq<char>> {
    if s.len() == 0 {
        frags
    } else {
        frags.push(s)
    }
}

/// The fragment list after pushing each text of `ss` in turn.
pub open spec fn pushed_all(frags: Seq<Seq<char>>, ss: Seq<Seq<char>>) -> Seq<Seq<char>>
    decreases ss.len(),
{
    if ss.len() == 0 {
        frags
    } else {
        pushed(pushed_all(frags, ss.drop_last()), ss.last())
    }
}

/// Pushing only non-empty texts onto an empty buffer leaves exactly one
/// fragment per push, and the joined fragments are the texts joined in push
/// order.
pub proof fn lemma_nonempty_pushes(ss: Seq<Seq<char>>)
    requires
        forall|i: int| 0 <= i < ss.len() ==> (#[trigger] ss[i]).len() > 0,
    ensures
        pushed_all(Seq::empty(), ss) == ss,
        pushed_all(Seq::empty(), ss).len() == ss.len(),
        joined(pushed_all(Seq::empty(), ss)) == joined(ss),
    decreases ss.len(),
{
    if ss.len() > 0 {
        let init = ss.drop_last();
        assert forall|i: int| 0 <= i < init.len() implies (#[trigger] init[i]).len() > 0 by {
            assert(init[i] == ss[i]);
        }
        lemma_nonempty_pushes(init);
        assert(ss.last() == ss[ss.len() - 1]);
        assert(init.push(ss.last()) =~= ss);
    }
}

/// Pushing empty text changes neither the number of fragments nor what they
/// join to.
pub proof fn lemma_empty_push_is_noop(frags: Seq<Seq<char>>)
    ensures
        pushed(frags, Seq::empty()).len() == frags.len(),
        joined(pushed(frags, Seq::empty())) == joined(frags),
{
}

/// Accumulates text fragments in an arena that it borrows for its lifetime.
pub struct ResponseBuffer<'a> {
    arena: &'a mut Arena,
    parts: Vec<Span>,
    texts: Ghost<Seq<Seq<char>>>,
}

impl<'a> View for ResponseBuffer<'a> {
    type V = Seq<Seq<char>>;

    /// The fragments, in push order.
    closed spec fn view(&self) -> Seq<Seq<char>> {
        self.texts@
    }
}

impl<'a> ResponseBuffer<'a> {
    /// The borrowed arena.
    pub closed spec fn handle(&self) -> &'a mut Arena {
        self.arena
    }

    /// The current state of the borrowed arena.
    pub closed spec fn arena_view(&self) -> ArenaView {
        (*self.arena)@
    }

    /// Every fragment is non-empty and is held by the arena as its UTF-8
    /// encoding.
    pub closed spec fn inv(&self) -> bool {
        &&& self.arena.inv()
        &&& self.parts@.len() == self.texts@.len()
        &&& forall|i: int|
            0 <= i < self.parts@.len() ==> {
                &&& (*self.arena)@.holds(#[trigger] self.parts@[i])
                &&& (*self.arena)@.content(self.parts@[i]) == encode_utf8(self.texts@[i])
                &&& self.texts@[i].len() > 0
            }
    }

    /// A well-formed buffer sits on a well-formed arena, and none of its
    /// fragments is empty.
    pub proof fn lemma_inv(&self)
        requires
            self.inv(),
        ensures
            self.arena_view().wf(),
            self.arena_view().addressable(),
            forall|i: int| 0 <= i < self@.len() ==> (#[trigger] self@[i]).len() > 0,
    {
        assert forall|i: int| 0 <= i < self@.len() implies (#[trigger] self@[i]).len() > 0 by {
            assert(self@ == self.texts@);
            assert(0 <= i < self.parts@.len());
            assert((*self.arena)@.holds(self.parts@[i]));
        }
    }

    /// An empty buffer over `arena`.
    pub fn new(arena: &'a mut Arena) -> (r: Self)
        requires
            old(arena).inv(),
        ensures
            r.inv(),
            r@ == Seq::<Seq<char>>::empty(),
            r.arena_view() == old(arena)@,
            *final(r.handle()) == *final(arena),
    {
        ResponseBuffer { arena, parts: Vec::new(), texts: Ghost(Seq::empty()) }
    }

    /// An empty buffer over `arena` with room for `capacity` fragments
    /// reserved up front; the arena is not touched.
    pub fn with_capacity(arena: &'a mut Arena, capacity: usize) -> (r: Self)
        requires
            old(arena).inv(),
        ensures
            r.inv(),
            r@ == Seq::<Seq<char>>::empty(),
            r.arena_view() == old(arena)@,
            *final(r.handle()) == *final(arena),
    {
        ResponseBuffer { arena, parts: Vec::with_capacity(capacity), texts: Ghost(Seq::empty()) }
    }

    /// Copies `s` into the arena and appends it as the last fragment; empty
    /// text is ignored.
    pub fn push_str(&mut self, s: &str)
        requires
            old(self).inv(),
        ensures
            final(self).inv(),
            final(self)@ == pushed(old(self)@, s@),
            final(self).arena_view() == old(self).arena_view().allocate(s.spec_bytes()).0,
            *final(final(self).handle()) == *final(old(self).handle()),
    {
        if !s.is_empty() {
            let ghost pre = (*self.arena)@;
            let allocated = self.arena.alloc_str(s);
            self.parts.push(allocated);
            proof {
                let b = s.spec_bytes();
                let old_texts = self.texts@;
                lemma_allocate_reads_back(pre, b);
                self.texts@ = old_texts.push(s@);
                assert forall|i: int| 0 <= i < self.parts@.len() implies {
                    &&& (*self.arena)@.holds(#[trigger] self.parts@[i])
                    &&& (*self.arena)@.content(self.parts@[i]) == encode_utf8(self.texts@[i])
                    &&& self.texts@[i].len() > 0
                } by {
                    if i < old_texts.len() {
                        lemma_extends_keeps_spans(pre, (*self.arena)@, self.parts@[i]);
                    }
                }
            }
        } else {
            assert(s.spec_bytes() =~= Seq::<u8>::empty());
        }
    }

    /// Decodes `bytes` as UTF-8 and pushes the text as [`Self::push_str`]
    /// does; bytes that are not valid UTF-8 are refused and change nothing.
    pub fn push_bytes(&mut self, bytes: &[u8]) -> (r: Result<(), BufferError>)
        requires
            old(self).inv(),
        ensures
            final(self).inv(),
            *final(final(self).handle()) == *final(old(self).handle()),
            valid_utf8(bytes@) ==> {
                &&& r == Ok::<(), BufferError>(())
                &&& final(self)@ == pushed(old(self)@, decode_utf8(bytes@))
                &&& final(self).arena_view() == old(self).arena_view().allocate(bytes@).0
            },
            !valid_utf8(bytes@) ==> {
                &&& r == Err::<(), BufferError>(BufferError::InvalidEncoding)
                &&& final(self)@ == old(self)@
                &&& final(self).arena_view() == old(self).arena_view()
            },
    {
        match utf8_str(bytes) {
            Some(s) => {
                self.push_str(s);
                Ok(())
            },
            None => Err(BufferError::InvalidEncoding),
        }
    }

    /// All fragments joined in push order, as one new string.
    pub fn as_str(&self) -> (r: String)
        requires
            self.inv(),
        ensures
            r@ == joined(self@),
    {
        let mut out: Vec<u8> = Vec::new();
        let mut i: usize = 0;
        while i < self.parts.len()
            invariant
                self.inv(),
                i <= self.parts@.len(),
                out@ == joined_utf8(self.texts@.take(i as int)),
            decreases self.parts@.len() - i,
        {
            let part = self.arena.bytes_at(self.parts[i]);
            out.extend_from_slice(part);
            proof {
                let ts = self.texts@;
                assert(ts.take(i + 1) =~= ts.take(i as int).push(ts[i as int]));
                lemma_joined_utf8_push(ts.take(i as int), ts[i as int]);
            }
            i = i + 1;
        }
        proof {
            assert(self.texts@.take(i as int) =~= self.texts@);
            lemma_joined_utf8(self.texts@);
        }
        match string_from_utf8(out) {
            Some(text) => {
                assert(decode_utf8(encode_utf8(text@)) == decode_utf8(encode_utf8(joined(self@))));
                text
            },
            None => String::new(),
        }
    }

    /// Total UTF-8 length in bytes of all fragments; the total must fit in a
    /// `usize`.
    pub fn len(&self) -> (r: usize)
        requires
            self.inv(),
            encode_utf8(joined(self@)).len() <= usize::MAX,
        ensures
            r == encode_utf8(joined(self@)).len(),
    {
        proof {
            lemma_joined_utf8(self.texts@);
        }
        let mut total: usize = 0;
        let mut i: usize = 0;
        while i < self.parts.len()
            invariant
                self.inv(),
                joined_utf8(self.texts@).len() <= usize::MAX,
                i <= self.parts@.len(),
                total == joined_utf8(self.texts@.take(i as int)).len(),
            decreases self.parts@.len() - i,
        {
            proof {
                let ts = self.texts@;
                assert(ts.take(i + 1) =~= ts.take(i as int).push(ts[i as int]));
                lemma_joined_utf8_push(ts.take(i as int), ts[i as int]);
                lemma_joined_utf8_prefix(ts, i + 1);
            }
            total = total + self.parts[i].len;
            i = i + 1;
        }
        proof {
            assert(self.texts@.take(i as int) =~= self.texts@);
        }
        total
    }

    /// No fragment has been pushed since creation or the last clear; as no
    /// fragment is empty, that is when the joined text is empty.
    pub fn is_empty(&self) -> (r: bool)
        requires
            self.inv(),
        ensures
            r == (self@.len() == 0),
            r == (encode_utf8(joined(self@)).len() == 0),
    {
        proof {
            let ts = self@;
            if ts.len() > 0 {
                self.lemma_inv();
                let j = joined(ts);
                assert(ts.last() == ts[ts.len() - 1]);
                assert(j.len() > 0);
                assert(encode_utf8(j) == encode_scalar(j[0] as u32) + encode_utf8(j.drop_first()));
                assert(encode_scalar(j[0] as u32).len() > 0);
            }
        }
        self.parts.is_empty()
    }

    /// Number of fragments.
    pub fn part_count(&self) -> (r: usize)
        requires
            self.inv(),
        ensures
            r == self@.len(),
    {
        self.parts.len()
    }

    /// Forgets every fragment; what they took in the arena stays there until
    /// the arena is reset.
    pub fn clear(&mut self)
        requires
            old(self).inv(),
        ensures
            final(self).inv(),
            final(self)@ == Seq::<Seq<char>>::empty(),
            final(self).arena_view() == old(self).arena_view(),
            *final(final(self).handle()) == *final(old(self).handle()),
    {
        self.parts.clear();
        proof {
            self.texts@ = Seq::empty();
        }
    }
}

} // verus!
