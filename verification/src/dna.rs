//! The chunked sequence buffer backing the rewriter.
//!
//! A sequence is stored as an append-only vector of immutable storage
//! chunks plus a live view: an ordered list of storage slices whose
//! concatenation is the current sequence. The live view supports cheap
//! front truncation and front extension by a mix of owned chunks and
//! references into existing storage, so captured substrings survive
//! later edits without being copied.

use vstd::pervasive::VecAdditionalExecFns;
use vstd::prelude::*;

use crate::base::Base;

verus! {

/// A contiguous run of one storage chunk: part of a live view.
#[derive(Debug, PartialEq, Eq, Copy, Clone, Structural)]
pub struct DNAStorageSlice {
    /// Index of the chunk in the storage vector.
    pub idx: usize,
    /// Start offset within the chunk.
    pub start: usize,
    /// Number of bases covered; always nonzero in a well-formed view.
    pub length: usize,
}

/// A storage slice references an in-range, nonempty region of an
/// existing chunk.
pub open spec fn part_wf(storage: Seq<Seq<Base>>, p: DNAStorageSlice) -> bool {
    &&& p.idx < storage.len()
    &&& p.start + p.length <= storage[p.idx as int].len()
    &&& p.start + p.length <= usize::MAX
    &&& p.length >= 1
}

/// The bases a storage slice stands for.
pub open spec fn part_view(storage: Seq<Seq<Base>>, p: DNAStorageSlice) -> Seq<Base> {
    storage[p.idx as int].subrange(p.start as int, p.start + p.length)
}

pub open spec fn parts_wf(storage: Seq<Seq<Base>>, parts: Seq<DNAStorageSlice>) -> bool {
    forall|i: int| 0 <= i < parts.len() ==> part_wf(storage, #[trigger] parts[i])
}

/// Concatenation of a list of storage slices. The list is kept in
/// reverse: its last element is the front of the sequence.
pub open spec fn parts_view(storage: Seq<Seq<Base>>, parts: Seq<DNAStorageSlice>) -> Seq<Base>
    decreases parts.len(),
{
    if parts.len() == 0 {
        Seq::empty()
    } else {
        part_view(storage, parts.last()) + parts_view(storage, parts.drop_last())
    }
}

/// One storage holds all the chunks of another, in the same places.
/// Storage only ever grows, so views taken earlier stay valid.
pub open spec fn storage_extends(st1: Seq<Seq<Base>>, st2: Seq<Seq<Base>>) -> bool {
    &&& st1.len() <= st2.len()
    &&& forall|i: int| 0 <= i < st1.len() ==> st2[i] == st1[i]
}

/// Appending a slice to the list prepends its bases to the view.
pub proof fn lemma_parts_view_push(
    storage: Seq<Seq<Base>>,
    parts: Seq<DNAStorageSlice>,
    p: DNAStorageSlice,
)
    ensures
        parts_view(storage, parts.push(p)) == part_view(storage, p) + parts_view(storage, parts),
{
    assert(parts.push(p).drop_last() =~= parts);
}

/// A view is unchanged when the storage grows.
pub proof fn lemma_parts_view_extend(
    st1: Seq<Seq<Base>>,
    st2: Seq<Seq<Base>>,
    parts: Seq<DNAStorageSlice>,
)
    requires
        parts_wf(st1, parts),
        storage_extends(st1, st2),
    ensures
        parts_wf(st2, parts),
        parts_view(st2, parts) == parts_view(st1, parts),
    decreases parts.len(),
{
    if parts.len() > 0 {
        lemma_parts_view_extend(st1, st2, parts.drop_last());
        assert(part_view(st2, parts.last()) == part_view(st1, parts.last()));
    }
}

/// Concatenation of a list of storage slices given front first, as a
/// walk from the front of the sequence collects them.
pub open spec fn fwd_view(storage: Seq<Seq<Base>>, parts: Seq<DNAStorageSlice>) -> Seq<Base>
    decreases parts.len(),
{
    if parts.len() == 0 {
        Seq::empty()
    } else {
        part_view(storage, parts.first()) + fwd_view(storage, parts.drop_first())
    }
}

pub proof fn lemma_fwd_view_push(
    storage: Seq<Seq<Base>>,
    parts: Seq<DNAStorageSlice>,
    p: DNAStorageSlice,
)
    ensures
        fwd_view(storage, parts.push(p)) == fwd_view(storage, parts) + part_view(storage, p),
    decreases parts.len(),
{
    if parts.len() == 0 {
        let e = Seq::<DNAStorageSlice>::empty();
        assert(parts.push(p).drop_first() =~= e);
        assert(parts.push(p).first() == p);
        assert(fwd_view(storage, parts.push(p)) == part_view(storage, p) + fwd_view(storage, e));
        assert(fwd_view(storage, e).len() == 0);
        assert(fwd_view(storage, parts).len() == 0);
        assert(fwd_view(storage, parts.push(p)) =~= fwd_view(storage, parts) + part_view(
            storage,
            p,
        ));
    } else {
        assert(parts.push(p).drop_first() =~= parts.drop_first().push(p));
        lemma_fwd_view_push(storage, parts.drop_first(), p);
        assert(fwd_view(storage, parts.push(p)) =~= fwd_view(storage, parts) + part_view(
            storage,
            p,
        ));
    }
}

/// Reversing a front-first list gives the stored (reverse) order.
pub proof fn lemma_parts_view_reverse(storage: Seq<Seq<Base>>, parts: Seq<DNAStorageSlice>)
    ensures
        parts_view(storage, parts.reverse()) == fwd_view(storage, parts),
    decreases parts.len(),
{
    if parts.len() > 0 {
        assert(parts.reverse().last() == parts.first());
        assert(parts.reverse().drop_last() =~= parts.drop_first().reverse());
        lemma_parts_view_reverse(storage, parts.drop_first());
    }
}

/// The sum of the recorded lengths of a list of storage slices.
pub open spec fn parts_len_sum(parts: Seq<DNAStorageSlice>) -> int
    decreases parts.len(),
{
    if parts.len() == 0 {
        0
    } else {
        parts_len_sum(parts.drop_last()) + parts.last().length
    }
}

/// The concatenated view is exactly as long as the slice lengths say.
pub proof fn lemma_view_len_is_sum(storage: Seq<Seq<Base>>, parts: Seq<DNAStorageSlice>)
    requires
        parts_wf(storage, parts),
    ensures
        parts_view(storage, parts).len() == parts_len_sum(parts),
    decreases parts.len(),
{
    if parts.len() > 0 {
        lemma_view_len_is_sum(storage, parts.drop_last());
    }
}

/// An immutable snapshot of a contiguous region of the sequence,
/// expressed as its own list of storage slices. Captured groups are
/// held this way, by reference into the append-only storage.
#[derive(Debug)]
pub struct DNASlice {
    /// Stored in reverse: the last part is the front of the region.
    pub parts: Vec<DNAStorageSlice>,
    pub total_len: usize,
}

/// A live view is well formed relative to a storage: each part is in
/// range and the recorded length is the length of the concatenation.
pub open spec fn slice_wf(storage: Seq<Seq<Base>>, s: DNASlice) -> bool {
    &&& parts_wf(storage, s.parts@)
    &&& s.total_len == parts_view(storage, s.parts@).len()
}

/// The bases a snapshot stands for, relative to a storage.
pub open spec fn slice_view(storage: Seq<Seq<Base>>, s: DNASlice) -> Seq<Base> {
    parts_view(storage, s.parts@)
}

impl Clone for DNASlice {
    fn clone(&self) -> (r: Self)
        ensures
            r.parts@ == self.parts@,
            r.total_len == self.total_len,
    {
        let mut parts: Vec<DNAStorageSlice> = Vec::new();
        let mut i: usize = 0;
        while i < self.parts.len()
            invariant
                i <= self.parts@.len(),
                parts@ == self.parts@.take(i as int),
            decreases self.parts@.len() - i,
        {
            parts.push(self.parts[i]);
            i = i + 1;
        }
        proof {
            assert(self.parts@.take(self.parts@.len() as int) =~= self.parts@);
        }
        DNASlice { parts, total_len: self.total_len }
    }
}

impl DNASlice {
    /// The number of bases covered.
    pub fn len(&self) -> (r: usize)
        ensures
            r == self.total_len,
    {
        self.total_len
    }

    pub fn new() -> (r: Self)
        ensures
            r.parts@.len() == 0,
            r.total_len == 0,
            forall|storage: Seq<Seq<Base>>| slice_wf(storage, r) && slice_view(storage, r).len()
                == 0,
    {
        let r = DNASlice { parts: Vec::new(), total_len: 0 };
        proof {
            assert(forall|storage: Seq<Seq<Base>>|
                parts_view(storage, r.parts@).len() == 0 && parts_wf(storage, r.parts@));
        }
        r
    }

    /// Emits storage slices covering `range` of this region, without
    /// copying bases: a snapshot of `range` that shares storage.
    #[verifier::spinoff_prover]
    #[verifier::rlimit(60)]
    pub fn slice(
        &self,
        range: core::ops::Range<usize>,
        Ghost(storage): Ghost<Seq<Seq<Base>>>,
    ) -> (r: DNASlice)
        requires
            slice_wf(storage, *self),
            range.start <= range.end,
            range.end <= self.total_len,
        ensures
            slice_wf(storage, r),
            r.total_len == range.end - range.start,
            slice_view(storage, r) == slice_view(storage, *self).subrange(
                range.start as int,
                range.end as int,
            ),
    {
        let ghost full = slice_view(storage, *self);
        let ghost target = full.subrange(range.start as int, range.end as int);
        let mut fwd: Vec<DNAStorageSlice> = Vec::new();
        let mut start = range.start;
        let mut length = range.end - range.start;
        let total = length;
        if length > 0 {
            let mut k = self.parts.len();
            proof {
                assert(self.parts@.take(k as int) =~= self.parts@);
                assert(target =~= fwd_view(storage, fwd@) + parts_view(
                    storage,
                    self.parts@.take(k as int),
                ).subrange(start as int, start + length));
            }
            while length > 0
                invariant
                    slice_wf(storage, *self),
                    k <= self.parts@.len(),
                    length <= total,
                    total == range.end - range.start,
                    parts_wf(storage, fwd@),
                    start + length <= parts_view(storage, self.parts@.take(k as int)).len(),
                    target == fwd_view(storage, fwd@) + parts_view(
                        storage,
                        self.parts@.take(k as int),
                    ).subrange(start as int, start + length),
                decreases k,
            {
                proof {
                    if k == 0 {
                        assert(self.parts@.take(0) =~= Seq::<DNAStorageSlice>::empty());
                        assert(parts_view(storage, self.parts@.take(0)).len() == 0);
                        assert(false);
                    }
                }
                let p = self.parts[k - 1];
                let ghost take_k = self.parts@.take(k as int);
                let ghost rest = self.parts@.take(k - 1);
                let ghost pv = part_view(storage, p);
                let ghost rv = parts_view(storage, rest);
                proof {
                    assert(take_k.last() == p);
                    assert(take_k.drop_last() =~= rest);
                    assert(parts_view(storage, take_k) == pv + rv);
                }
                if start >= p.length {
                    proof {
                        assert((pv + rv).subrange(start as int, start + length) =~= rv.subrange(
                            start - p.length,
                            start - p.length + length,
                        ));
                    }
                    start = start - p.length;
                } else {
                    let piece_len = if p.length - start < length {
                        p.length - start
                    } else {
                        length
                    };
                    let piece = DNAStorageSlice {
                        idx: p.idx,
                        start: p.start + start,
                        length: piece_len,
                    };
                    proof {
                        assert(part_wf(storage, piece));
                        assert(part_view(storage, piece) =~= (pv + rv).subrange(
                            start as int,
                            start + piece_len,
                        ));
                        assert((pv + rv).subrange(start as int, start + length) =~= (pv
                            + rv).subrange(start as int, start + piece_len) + (pv + rv).subrange(
                            start + piece_len,
                            start + length,
                        ));
                        lemma_fwd_view_push(storage, fwd@, piece);
                        if piece_len < length {
                            assert(start + piece_len == p.length);
                            assert((pv + rv).subrange(start + piece_len, start + length)
                                =~= rv.subrange(0, length - piece_len));
                        }
                        assert((fwd_view(storage, fwd@) + part_view(storage, piece)) + (pv
                            + rv).subrange(start + piece_len, start + length) =~= fwd_view(
                            storage,
                            fwd@,
                        ) + ((pv + rv).subrange(start as int, start + piece_len) + (pv
                            + rv).subrange(start + piece_len, start + length)));
                    }
                    fwd.push(piece);
                    length = length - piece_len;
                    start = 0;
                    proof {
                        if length == 0 {
                            assert((pv + rv).subrange(p.length as int, p.length as int) =~= Seq::<
                                Base,
                            >::empty());
                        }
                        assert(rv.subrange(0, length as int) == parts_view(
                            storage,
                            rest,
                        ).subrange(0, length as int));
                    }
                }
                k = k - 1;
                proof {
                    assert(self.parts@.take(k as int) =~= rest);
                    if length == 0 {
                        assert(parts_view(storage, rest).subrange(0, 0) =~= Seq::<Base>::empty());
                        assert(target =~= fwd_view(storage, fwd@) + parts_view(
                            storage,
                            self.parts@.take(k as int),
                        ).subrange(0, 0));
                    }
                }
            }
        }
        proof {
            if total > 0 {
                assert(target =~= fwd_view(storage, fwd@));
            } else {
                assert(target =~= fwd_view(storage, fwd@));
            }
        }
        let ghost fwd0 = fwd@;
        let mut parts: Vec<DNAStorageSlice> = Vec::new();
        let mut j = fwd.len();
        proof {
            assert(parts@ =~= fwd0.skip(j as int).reverse());
        }
        while j > 0
            invariant
                j <= fwd0.len(),
                fwd@ == fwd0,
                parts_wf(storage, fwd0),
                parts@ == fwd0.skip(j as int).reverse(),
            decreases j,
        {
            j = j - 1;
            let p = fwd[j];
            parts.push(p);
            proof {
                assert(parts@ =~= fwd0.skip(j as int).reverse());
            }
        }
        proof {
            assert(fwd0.skip(0).reverse() =~= fwd0.reverse());
            lemma_parts_view_reverse(storage, fwd0);
            assert(parts_wf(storage, parts@)) by {
                assert(forall|i: int|
                    0 <= i < parts@.len() ==> #[trigger] parts@[i] == fwd0[parts@.len() - 1 - i]);
            }
        }
        DNASlice { parts, total_len: total }
    }

    /// Prepends one storage slice; a zero-length slice is dropped.
    pub fn push_front(&mut self, s: DNAStorageSlice, Ghost(storage): Ghost<Seq<Seq<Base>>>)
        requires
            slice_wf(storage, *old(self)),
            s.length > 0 ==> part_wf(storage, s),
            old(self).total_len + s.length <= usize::MAX,
        ensures
            slice_wf(storage, *final(self)),
            slice_view(storage, *final(self)) == if s.length == 0 {
                slice_view(storage, *old(self))
            } else {
                part_view(storage, s) + slice_view(storage, *old(self))
            },
            final(self).total_len == old(self).total_len + s.length,
    {
        if s.length == 0 {
            return ;
        }
        let length = s.length;
        proof {
            lemma_parts_view_push(storage, self.parts@, s);
        }
        self.parts.push(s);
        self.total_len = self.total_len + length;
    }

    /// Removes the front base, returning where it lives in storage:
    /// the chunk index and the offset within the chunk.
    pub fn pop_front(&mut self, Ghost(storage): Ghost<Seq<Seq<Base>>>) -> (r: Option<
        (usize, usize),
    >)
        requires
            slice_wf(storage, *old(self)),
        ensures
            slice_wf(storage, *final(self)),
            match r {
                None => {
                    &&& slice_view(storage, *old(self)).len() == 0
                    &&& slice_view(storage, *final(self)) == slice_view(storage, *old(self))
                    &&& final(self).total_len == old(self).total_len
                },
                Some((ci, off)) => {
                    &&& slice_view(storage, *old(self)).len() > 0
                    &&& ci < storage.len()
                    &&& off < storage[ci as int].len()
                    &&& storage[ci as int][off as int] == slice_view(storage, *old(self))[0]
                    &&& slice_view(storage, *final(self)) == slice_view(
                        storage,
                        *old(self),
                    ).drop_first()
                    &&& final(self).total_len == old(self).total_len - 1
                },
            },
    {
        if self.parts.len() == 0 {
            return None;
        }
        let last_idx = self.parts.len() - 1;
        let p = self.parts[last_idx];
        let ghost rest = self.parts@.drop_last();
        proof {
            assert(self.parts@ == rest.push(p));
            lemma_parts_view_push(storage, rest, p);
        }
        if p.length > 1 {
            let q = DNAStorageSlice { idx: p.idx, start: p.start + 1, length: p.length - 1 };
            self.parts.set(last_idx, q);
            proof {
                assert(self.parts@ =~= rest.push(q));
                lemma_parts_view_push(storage, rest, q);
                assert(part_view(storage, q) =~= part_view(storage, p).drop_first());
                assert((part_view(storage, q) + parts_view(storage, rest)) =~= (part_view(
                    storage,
                    p,
                ) + parts_view(storage, rest)).drop_first());
            }
        } else {
            self.parts.pop();
            proof {
                assert(self.parts@ =~= rest);
                assert(part_view(storage, p).len() == 1);
                assert(parts_view(storage, rest) =~= (part_view(storage, p) + parts_view(
                    storage,
                    rest,
                )).drop_first());
            }
        }
        self.total_len = self.total_len - 1;
        Some((p.idx, p.start))
    }

    /// Discards the first `count` bases, consuming whole slices and
    /// trimming the last partial one.
    pub fn truncate_front(&mut self, count: usize, Ghost(storage): Ghost<Seq<Seq<Base>>>)
        requires
            slice_wf(storage, *old(self)),
            count <= old(self).total_len,
        ensures
            slice_wf(storage, *final(self)),
            slice_view(storage, *final(self)) == slice_view(storage, *old(self)).skip(
                count as int,
            ),
            final(self).total_len == old(self).total_len - count,
    {
        let ghost orig = slice_view(storage, *old(self));
        let ghost count0: int = count as int;
        let mut count = count;
        let ghost mut dropped: int = 0;
        while count > 0
            invariant
                slice_wf(storage, *self),
                count <= self.total_len,
                slice_view(storage, *self) == orig.skip(dropped),
                0 <= dropped,
                dropped + count == count0,
                dropped + count <= orig.len(),
                self.total_len == orig.len() - dropped,
            decreases count,
        {
            proof {
                if self.parts@.len() == 0 {
                    assert(slice_view(storage, *self).len() == 0);
                }
            }
            let last_idx = self.parts.len() - 1;
            let p = self.parts[last_idx];
            let ghost rest = self.parts@.drop_last();
            proof {
                assert(self.parts@ == rest.push(p));
                lemma_parts_view_push(storage, rest, p);
            }
            if p.length <= count {
                self.parts.pop();
                proof {
                    assert(self.parts@ =~= rest);
                    assert(parts_view(storage, rest) =~= (part_view(storage, p) + parts_view(
                        storage,
                        rest,
                    )).skip(p.length as int));
                }
                count = count - p.length;
                self.total_len = self.total_len - p.length;
                proof {
                    dropped = dropped + p.length;
                    assert(slice_view(storage, *self) =~= orig.skip(dropped));
                }
            } else {
                let q = DNAStorageSlice {
                    idx: p.idx,
                    start: p.start + count,
                    length: p.length - count,
                };
                self.parts.set(last_idx, q);
                proof {
                    assert(self.parts@ =~= rest.push(q));
                    lemma_parts_view_push(storage, rest, q);
                    assert((part_view(storage, q) + parts_view(storage, rest)) =~= (part_view(
                        storage,
                        p,
                    ) + parts_view(storage, rest)).skip(count as int));
                }
                self.total_len = self.total_len - count;
                proof {
                    dropped = dropped + count;
                    assert(slice_view(storage, *self) =~= orig.skip(dropped));
                }
                count = 0;
            }
        }
        proof {
            assert(slice_view(storage, *self) == orig.skip(dropped));
        }
    }
}

/// Splitting a list of storage slices splits its view: the elements
/// past `i` are the front of the sequence.
pub proof fn lemma_parts_view_split(storage: Seq<Seq<Base>>, parts: Seq<DNAStorageSlice>, i: int)
    requires
        0 <= i <= parts.len(),
    ensures
        parts_view(storage, parts) == parts_view(storage, parts.skip(i)) + parts_view(
            storage,
            parts.take(i),
        ),
    decreases parts.len() - i,
{
    if i == parts.len() {
        assert(parts.skip(i) =~= Seq::<DNAStorageSlice>::empty());
        assert(parts.take(i) =~= parts);
        assert(parts_view(storage, parts.skip(i)) + parts_view(storage, parts.take(i))
            =~= parts_view(storage, parts));
    } else {
        let dl = parts.drop_last();
        lemma_parts_view_split(storage, dl, i);
        assert(parts.skip(i).last() == parts.last());
        assert(parts.skip(i).drop_last() =~= dl.skip(i));
        assert(parts.take(i) =~= dl.take(i));
        assert(part_view(storage, parts.last()) + (parts_view(storage, dl.skip(i)) + parts_view(
            storage,
            dl.take(i),
        )) =~= (part_view(storage, parts.last()) + parts_view(storage, dl.skip(i))) + parts_view(
            storage,
            dl.take(i),
        ));
    }
}

/// A chunk handed to a front extension: either freshly owned bases or
/// a snapshot that reuses existing storage.
pub enum DNAChunk {
    Owned(Vec<Base>),
    Slice(DNASlice),
}

pub open spec fn chunk_wf(storage: Seq<Seq<Base>>, c: DNAChunk) -> bool {
    match c {
        DNAChunk::Owned(_) => true,
        DNAChunk::Slice(s) => slice_wf(storage, s),
    }
}

pub open spec fn chunk_view(storage: Seq<Seq<Base>>, c: DNAChunk) -> Seq<Base> {
    match c {
        DNAChunk::Owned(v) => v@,
        DNAChunk::Slice(s) => slice_view(storage, s),
    }
}

pub open spec fn chunks_wf(storage: Seq<Seq<Base>>, cs: Seq<DNAChunk>) -> bool {
    forall|i: int| 0 <= i < cs.len() ==> chunk_wf(storage, #[trigger] cs[i])
}

/// Concatenation of a list of chunks, given front first.
pub open spec fn chunks_view(storage: Seq<Seq<Base>>, cs: Seq<DNAChunk>) -> Seq<Base>
    decreases cs.len(),
{
    if cs.len() == 0 {
        Seq::empty()
    } else {
        chunk_view(storage, cs.first()) + chunks_view(storage, cs.drop_first())
    }
}

pub proof fn lemma_chunks_view_split(storage: Seq<Seq<Base>>, cs: Seq<DNAChunk>, j: int)
    requires
        0 <= j <= cs.len(),
    ensures
        chunks_view(storage, cs) == chunks_view(storage, cs.take(j)) + chunks_view(
            storage,
            cs.skip(j),
        ),
    decreases j,
{
    if j == 0 {
        assert(cs.take(0) =~= Seq::<DNAChunk>::empty());
        assert(cs.skip(0) =~= cs);
        assert(chunks_view(storage, cs.take(0)) + chunks_view(storage, cs.skip(0)) =~= chunks_view(
            storage,
            cs,
        ));
    } else {
        let df = cs.drop_first();
        lemma_chunks_view_split(storage, df, j - 1);
        assert(cs.take(j).first() == cs.first());
        assert(cs.take(j).drop_first() =~= df.take(j - 1));
        assert(cs.skip(j) =~= df.skip(j - 1));
        assert((chunk_view(storage, cs.first()) + chunks_view(storage, df.take(j - 1)))
            + chunks_view(storage, df.skip(j - 1)) =~= chunk_view(storage, cs.first())
            + (chunks_view(storage, df.take(j - 1)) + chunks_view(storage, df.skip(j - 1))));
    }
}

/// Concatenation of a list of snapshots given back first, as the
/// front-extension loop walks them: a later element lies nearer the
/// front of the sequence.
pub open spec fn slices_rev_view(storage: Seq<Seq<Base>>, ss: Seq<DNASlice>) -> Seq<Base>
    decreases ss.len(),
{
    if ss.len() == 0 {
        Seq::empty()
    } else {
        slices_rev_view(storage, ss.drop_first()) + slice_view(storage, ss.first())
    }
}

pub open spec fn slices_wf(storage: Seq<Seq<Base>>, ss: Seq<DNASlice>) -> bool {
    forall|i: int| 0 <= i < ss.len() ==> slice_wf(storage, #[trigger] ss[i])
}

pub proof fn lemma_slices_rev_view_push(storage: Seq<Seq<Base>>, ss: Seq<DNASlice>, s: DNASlice)
    ensures
        slices_rev_view(storage, ss.push(s)) == slice_view(storage, s) + slices_rev_view(
            storage,
            ss,
        ),
    decreases ss.len(),
{
    if ss.len() == 0 {
        let e = Seq::<DNASlice>::empty();
        assert(ss.push(s).drop_first() =~= e);
        assert(ss.push(s).first() == s);
        assert(slices_rev_view(storage, ss.push(s)) == slices_rev_view(storage, e) + slice_view(
            storage,
            s,
        ));
        assert(slices_rev_view(storage, e).len() == 0);
        assert(slices_rev_view(storage, ss).len() == 0);
        assert(slices_rev_view(storage, ss.push(s)) =~= slice_view(storage, s) + slices_rev_view(
            storage,
            ss,
        ));
    } else {
        assert(ss.push(s).drop_first() =~= ss.drop_first().push(s));
        assert(ss.push(s).first() == ss.first());
        lemma_slices_rev_view_push(storage, ss.drop_first(), s);
        assert((slice_view(storage, s) + slices_rev_view(storage, ss.drop_first())) + slice_view(
            storage,
            ss.first(),
        ) =~= slice_view(storage, s) + (slices_rev_view(storage, ss.drop_first()) + slice_view(
            storage,
            ss.first(),
        )));
    }
}

pub proof fn lemma_slices_rev_view_extend(
    st1: Seq<Seq<Base>>,
    st2: Seq<Seq<Base>>,
    ss: Seq<DNASlice>,
)
    requires
        slices_wf(st1, ss),
        storage_extends(st1, st2),
    ensures
        slices_wf(st2, ss),
        slices_rev_view(st2, ss) == slices_rev_view(st1, ss),
    decreases ss.len(),
{
    if ss.len() > 0 {
        assert(slices_wf(st1, ss.drop_first())) by {
            assert(forall|i: int|
                0 <= i < ss.drop_first().len() ==> #[trigger] ss.drop_first()[i] == ss[i + 1]);
        }
        lemma_slices_rev_view_extend(st1, st2, ss.drop_first());
        lemma_parts_view_extend(st1, st2, ss[0].parts@);
        assert(slice_wf(st2, ss[0]));
        assert(forall|i: int| 0 <= i < ss.len() ==> slice_wf(st2, #[trigger] ss[i])) by {
            assert(forall|i: int|
                1 <= i < ss.len() ==> #[trigger] ss[i] == ss.drop_first()[i - 1]);
        }
    }
}

pub proof fn lemma_slices_rev_view_split(storage: Seq<Seq<Base>>, ss: Seq<DNASlice>, i: int)
    requires
        0 <= i <= ss.len(),
    ensures
        slices_rev_view(storage, ss) == slices_rev_view(storage, ss.skip(i)) + slices_rev_view(
            storage,
            ss.take(i),
        ),
    decreases i,
{
    if i == 0 {
        assert(ss.skip(0) =~= ss);
        assert(ss.take(0) =~= Seq::<DNASlice>::empty());
        assert(slices_rev_view(storage, ss.skip(0)) + slices_rev_view(storage, ss.take(0))
            =~= slices_rev_view(storage, ss));
    } else {
        let df = ss.drop_first();
        lemma_slices_rev_view_split(storage, df, i - 1);
        assert(ss.skip(i) =~= df.skip(i - 1));
        assert(ss.take(i).first() == ss.first());
        assert(ss.take(i).drop_first() =~= df.take(i - 1));
        assert((slices_rev_view(storage, df.skip(i - 1)) + slices_rev_view(storage, df.take(i - 1)))
            + slice_view(storage, ss.first()) =~= slices_rev_view(storage, df.skip(i - 1))
            + (slices_rev_view(storage, df.take(i - 1)) + slice_view(storage, ss.first())));
    }
}

/// Concatenation of a list of whole chunks, used to state what a new
/// sequence is built from.
pub open spec fn concat_seqs(s: Seq<Seq<Base>>) -> Seq<Base>
    decreases s.len(),
{
    if s.len() == 0 {
        Seq::empty()
    } else {
        concat_seqs(s.drop_last()) + s.last()
    }
}

/// In every well-formed sequence state — the constructors establish
/// well-formedness and every operation preserves it — the sum of the
/// live slice lengths equals the reported length, and every live
/// slice references an in-range region of an existing chunk.
pub proof fn lemma_sequence_length_invariant(d: DNA)
    requires
        d.wf(),
    ensures
        parts_len_sum(d.dna.parts@) == d.dna.total_len,
        parts_wf(d.storage(), d.dna.parts@),
        d.dna.total_len == d@.len(),
{
    lemma_view_len_is_sum(d.storage(), d.dna.parts@);
}

/// The rewriter working set: an append-only chunk arena plus a live
/// view. Chunks are never mutated or freed during a run, so snapshots
/// taken earlier remain valid as the live view is edited.
pub struct DNA {
    pub dna_storage: Vec<Vec<Base>>,
    pub dna: DNASlice,
}

impl View for DNA {
    type V = Seq<Base>;

    open spec fn view(&self) -> Seq<Base> {
        slice_view(self.storage(), self.dna)
    }
}

impl DNA {
    /// The chunk arena as a mathematical sequence of chunks.
    pub open spec fn storage(self) -> Seq<Seq<Base>> {
        self.dna_storage@.map_values(|v: Vec<Base>| v@)
    }

    /// Every live part points into the arena and the recorded length
    /// is the length of the concatenation.
    pub open spec fn wf(self) -> bool {
        slice_wf(self.storage(), self.dna)
    }

    /// Builds a sequence whose bases are the concatenation of `data`,
    /// stored as a single chunk.
    pub fn new(data: &[Vec<Base>]) -> (r: Self)
        ensures
            r.wf(),
            r@ == concat_seqs(data@.map_values(|v: Vec<Base>| v@)),
    {
        let ghost goal = data@.map_values(|v: Vec<Base>| v@);
        let mut storage_chunk: Vec<Base> = Vec::new();
        let mut i: usize = 0;
        while i < data.len()
            invariant
                i <= data@.len(),
                goal == data@.map_values(|v: Vec<Base>| v@),
                storage_chunk@ == concat_seqs(goal.take(i as int)),
            decreases data@.len() - i,
        {
            let v = &data[i];
            let mut j: usize = 0;
            let ghost pre = storage_chunk@;
            while j < v.len()
                invariant
                    j <= v@.len(),
                    storage_chunk@ == pre + v@.take(j as int),
                decreases v@.len() - j,
            {
                storage_chunk.push(v[j]);
                proof {
                    assert(pre + v@.take(j + 1) =~= (pre + v@.take(j as int)).push(v@[j as int]));
                }
                j = j + 1;
            }
            proof {
                assert(v@.take(v@.len() as int) =~= v@);
                assert(goal.take(i + 1).drop_last() =~= goal.take(i as int));
                assert(goal.take(i + 1).last() == goal[i as int]);
                assert(goal[i as int] == v@);
            }
            i = i + 1;
        }
        proof {
            assert(goal.take(goal.len() as int) =~= goal);
        }
        let length = storage_chunk.len();
        let mut dna_storage: Vec<Vec<Base>> = Vec::new();
        dna_storage.push(storage_chunk);
        let mut parts: Vec<DNAStorageSlice> = Vec::new();
        if length > 0 {
            parts.push(DNAStorageSlice { idx: 0, start: 0, length });
        }
        let r = DNA { dna_storage, dna: DNASlice { parts, total_len: length } };
        proof {
            let st = r.storage();
            if length > 0 {
                let p = r.dna.parts@[0];
                assert(st[0] == r.dna_storage@[0]@);
                assert(part_wf(st, p));
                assert(r.dna.parts@.drop_last() =~= Seq::<DNAStorageSlice>::empty());
                assert(part_view(st, p) + parts_view(st, r.dna.parts@.drop_last()) =~= part_view(
                    st,
                    p,
                ));
                assert(parts_view(st, r.dna.parts@) =~= st[0]);
            } else {
                assert(parts_view(st, r.dna.parts@) =~= Seq::<Base>::empty());
                assert(r@.len() == 0);
                assert(r@ =~= concat_seqs(goal));
            }
        }
        r
    }

    /// The current number of live bases.
    pub fn len(&self) -> (r: usize)
        requires
            self.wf(),
        ensures
            r == self@.len(),
    {
        self.dna.len()
    }

    pub fn is_empty(&self) -> (r: bool)
        requires
            self.wf(),
        ensures
            r == (self@.len() == 0),
    {
        self.dna.len() == 0
    }

    /// The base at position `idx`, found by scanning the live view
    /// from the front.
    pub fn index(&self, idx: usize) -> (r: Base)
        requires
            self.wf(),
            idx < self@.len(),
        ensures
            r == self@[idx as int],
    {
        let ghost st = self.storage();
        let ghost idx0 = idx as int;
        let mut cur = idx;
        let mut k = self.dna.parts.len();
        proof {
            assert(self.dna.parts@.take(k as int) =~= self.dna.parts@);
        }
        loop
            invariant
                self.wf(),
                k <= self.dna.parts@.len(),
                st == self.storage(),
                idx0 == idx as int,
                idx0 < self@.len(),
                cur < parts_view(st, self.dna.parts@.take(k as int)).len(),
                parts_view(st, self.dna.parts@.take(k as int))[cur as int] == self@[idx0],
            decreases k,
        {
            proof {
                if k == 0 {
                    assert(self.dna.parts@.take(0) =~= Seq::<DNAStorageSlice>::empty());
                    assert(false);
                }
            }
            let p = self.dna.parts[k - 1];
            let ghost take_k = self.dna.parts@.take(k as int);
            let ghost rest = self.dna.parts@.take(k - 1);
            proof {
                assert(take_k.last() == p);
                assert(take_k.drop_last() =~= rest);
            }
            if cur >= p.length {
                cur = cur - p.length;
                k = k - 1;
            } else {
                let b = self.dna_storage[p.idx][p.start + cur];
                proof {
                    assert(parts_view(st, take_k) == part_view(st, p) + parts_view(st, rest));
                    assert(part_view(st, p).len() == p.length);
                    assert((part_view(st, p) + parts_view(st, rest))[cur as int] == part_view(
                        st,
                        p,
                    )[cur as int]);
                    assert(part_view(st, p)[cur as int] == st[p.idx as int][p.start + cur]);
                    assert(st[p.idx as int] == self.dna_storage@[p.idx as int]@);
                    assert(b == st[p.idx as int][p.start + cur]);
                    assert(b == parts_view(st, take_k)[cur as int]);
                    assert(b == self@[idx0]);
                }
                return b;
            }
        }
    }

    /// Copies the bases a snapshot stands for into a fresh vector.
    pub fn render(&self, slice: &DNASlice) -> (r: Vec<Base>)
        requires
            self.wf(),
            slice_wf(self.storage(), *slice),
        ensures
            r@ == slice_view(self.storage(), *slice),
    {
        let ghost st = self.storage();
        let ghost goal = slice_view(st, *slice);
        let mut r: Vec<Base> = Vec::new();
        let mut k = slice.parts.len();
        proof {
            assert(slice.parts@.take(k as int) =~= slice.parts@);
            assert(r@ + parts_view(st, slice.parts@.take(k as int)) =~= goal);
        }
        while k > 0
            invariant
                self.wf(),
                st == self.storage(),
                slice_wf(st, *slice),
                k <= slice.parts@.len(),
                goal == slice_view(st, *slice),
                goal == r@ + parts_view(st, slice.parts@.take(k as int)),
            decreases k,
        {
            let p = slice.parts[k - 1];
            let ghost take_k = slice.parts@.take(k as int);
            let ghost rest = slice.parts@.take(k - 1);
            let ghost pv = part_view(st, p);
            proof {
                assert(take_k.last() == p);
                assert(take_k.drop_last() =~= rest);
                assert(parts_view(st, take_k) == pv + parts_view(st, rest));
                assert(part_wf(st, p));
            }
            let mut j: usize = 0;
            let ghost r0 = r@;
            while j < p.length
                invariant
                    self.wf(),
                    st == self.storage(),
                    j <= p.length,
                    part_wf(st, p),
                    pv == part_view(st, p),
                    r@ == r0 + pv.take(j as int),
                decreases p.length - j,
            {
                let b = self.dna_storage[p.idx][p.start + j];
                proof {
                    assert(st[p.idx as int] == self.dna_storage@[p.idx as int]@);
                    assert(pv[j as int] == st[p.idx as int][p.start + j]);
                    assert(r0 + pv.take(j + 1) =~= (r0 + pv.take(j as int)).push(pv[j as int]));
                }
                r.push(b);
                j = j + 1;
            }
            proof {
                assert(pv.take(p.length as int) =~= pv);
                assert((r0 + pv) + parts_view(st, rest) =~= r0 + (pv + parts_view(st, rest)));
            }
            k = k - 1;
        }
        proof {
            assert(slice.parts@.take(0) =~= Seq::<DNAStorageSlice>::empty());
            assert(r@ + parts_view(st, slice.parts@.take(0)) =~= r@);
        }
        r
    }

    /// A snapshot of `range` of the current sequence, sharing storage.
    pub fn slice(&self, range: core::ops::Range<usize>) -> (r: DNASlice)
        requires
            self.wf(),
            range.start <= range.end,
            range.end <= self@.len(),
        ensures
            slice_wf(self.storage(), r),
            r.total_len == range.end - range.start,
            slice_view(self.storage(), r) == self@.subrange(range.start as int, range.end as int),
    {
        self.dna.slice(range, Ghost(self.storage()))
    }

    /// Discards the first `count` bases.
    pub fn truncate_front(&mut self, count: usize)
        requires
            old(self).wf(),
            count <= old(self)@.len(),
        ensures
            final(self).wf(),
            final(self).storage() == old(self).storage(),
            final(self)@ == old(self)@.skip(count as int),
    {
        let ghost st = self.storage();
        self.dna.truncate_front(count, Ghost(st));
    }

    /// Removes and returns the front base.
    pub fn pop_front(&mut self) -> (r: Option<Base>)
        requires
            old(self).wf(),
        ensures
            final(self).wf(),
            final(self).storage() == old(self).storage(),
            match r {
                None => final(self)@ == old(self)@ && old(self)@.len() == 0,
                Some(b) => {
                    &&& old(self)@.len() > 0
                    &&& b == old(self)@[0]
                    &&& final(self)@ == old(self)@.drop_first()
                },
            },
    {
        let ghost st = self.storage();
        match self.dna.pop_front(Ghost(st)) {
            None => None,
            Some((storage_idx, idx)) => Some(self.dna_storage[storage_idx][idx]),
        }
    }

    fn extend_front_owned(&mut self, data: Vec<Base>)
        requires
            old(self).wf(),
            old(self)@.len() + data@.len() <= usize::MAX,
        ensures
            final(self).wf(),
            storage_extends(old(self).storage(), final(self).storage()),
            final(self)@ == data@ + old(self)@,
    {
        if data.len() == 0 {
            proof {
                assert(data@ + self@ =~= self@);
            }
            return ;
        }
        let length = data.len();
        let ghost st0 = self.storage();
        let ghost dv = data@;
        self.dna_storage.push(data);
        proof {
            assert(self.storage() =~= st0.push(dv));
            assert(storage_extends(st0, self.storage()));
            lemma_parts_view_extend(st0, self.storage(), self.dna.parts@);
        }
        let idx = self.dna_storage.len() - 1;
        let ghost st1 = self.storage();
        let p = DNAStorageSlice { idx, start: 0, length };
        proof {
            assert(st1[idx as int] == dv);
            assert(part_wf(st1, p));
            assert(part_view(st1, p) =~= dv);
        }
        self.dna.push_front(p, Ghost(st1));
    }

    fn extend_from_slice(&mut self, slice: DNASlice)
        requires
            old(self).wf(),
            slice_wf(old(self).storage(), slice),
            old(self)@.len() + slice_view(old(self).storage(), slice).len() <= usize::MAX,
        ensures
            final(self).wf(),
            storage_extends(old(self).storage(), final(self).storage()),
            final(self)@ == slice_view(old(self).storage(), slice) + old(self)@,
    {
        if slice.parts.len() == 1 {
            let p = slice.parts[0];
            let ghost st = self.storage();
            proof {
                assert(slice.parts@.drop_last() =~= Seq::<DNAStorageSlice>::empty());
                assert(slice.parts@.last() == p);
                assert(part_view(st, p) + parts_view(st, slice.parts@.drop_last()) =~= part_view(
                    st,
                    p,
                ));
                assert(slice_view(st, slice) == part_view(st, p));
            }
            self.dna.push_front(p, Ghost(st));
        } else {
            let data = self.render(&slice);
            self.extend_front_owned(data);
        }
    }

    /// Prepends a batch of chunks so that the first chunk becomes the
    /// new head. Small referenced pieces are coalesced into fresh
    /// owned chunks to bound the number of live view entries; large
    /// pieces pass through as references.
    #[verifier::spinoff_prover]
    #[verifier::rlimit(60)]
    pub fn extend_front(&mut self, data: Vec<DNAChunk>)
        requires
            old(self).wf(),
            chunks_wf(old(self).storage(), data@),
            old(self)@.len() + chunks_view(old(self).storage(), data@).len() <= usize::MAX,
        ensures
            final(self).wf(),
            storage_extends(old(self).storage(), final(self).storage()),
            final(self)@ == chunks_view(old(self).storage(), data@) + old(self)@,
    {
        let ghost st0 = self.storage();
        let ghost cs0 = data@;
        let ghost v0 = self@;
        let mut data = data;
        let mut current_slices: Vec<DNASlice> = Vec::new();
        proof {
            assert(data@ =~= cs0.take(cs0.len() as int));
            assert(cs0.skip(cs0.len() as int) =~= Seq::<DNAChunk>::empty());
            assert(slices_rev_view(st0, current_slices@) + self@ =~= chunks_view(
                st0,
                cs0.skip(cs0.len() as int),
            ) + v0);
        }
        loop
            invariant
                self.wf(),
                storage_extends(st0, self.storage()),
                chunks_wf(st0, cs0),
                chunks_view(st0, cs0).len() + v0.len() <= usize::MAX,
                data@.len() <= cs0.len(),
                data@ == cs0.take(data@.len() as int),
                slices_wf(st0, current_slices@),
                slices_rev_view(st0, current_slices@) + self@ == chunks_view(
                    st0,
                    cs0.skip(data@.len() as int),
                ) + v0,
            ensures
                data@.len() == 0,
            decreases data@.len(),
        {
            let ghost j = data@.len() as int;
            match data.pop() {
                None => {
                    break ;
                },
                Some(c) => {
                    proof {
                        assert(cs0.take(j)[j - 1] == cs0[j - 1]);
                        assert(c == cs0[j - 1]);
                        assert(data@ =~= cs0.take(j - 1));
                        assert(cs0.skip(j - 1).first() == cs0[j - 1]);
                        assert(cs0.skip(j - 1).drop_first() =~= cs0.skip(j));
                        assert(chunks_view(st0, cs0.skip(j - 1)) == chunk_view(st0, cs0[j - 1])
                            + chunks_view(st0, cs0.skip(j)));
                        lemma_chunks_view_split(st0, cs0, j - 1);
                    }
                    match c {
                        DNAChunk::Owned(d) => {
                            let ghost pv = slices_rev_view(st0, current_slices@);
                            let ghost selfpre = self@;
                            proof {
                                lemma_chunks_view_split(st0, cs0, j);
                                assert((chunks_view(st0, cs0.take(j)) + chunks_view(
                                    st0,
                                    cs0.skip(j),
                                )).len() == chunks_view(st0, cs0).len());
                                assert((pv + selfpre).len() == (chunks_view(st0, cs0.skip(j))
                                    + v0).len());
                                assert(pv.len() + selfpre.len() <= chunks_view(st0, cs0).len()
                                    + v0.len());
                            }
                            if current_slices.len() > 0 {
                                let cs = current_slices;
                                current_slices = Vec::new();
                                let ghost stc = self.storage();
                                proof {
                                    lemma_slices_rev_view_extend(st0, stc, cs@);
                                }
                                self.extend_front_slices(cs);
                                proof {
                                    lemma_slices_rev_view_extend(st0, stc, cs@);
                                    assert(self@ == pv + selfpre);
                                }
                            } else {
                                proof {
                                    assert(pv.len() == 0);
                                    assert(pv + selfpre =~= selfpre);
                                }
                            }
                            proof {
                                assert(self@ == chunks_view(st0, cs0.skip(j)) + v0);
                                assert(self@.len() + chunk_view(st0, cs0[j - 1]).len()
                                    <= chunks_view(st0, cs0).len() + v0.len());
                            }
                            let ghost dv = d@;
                            self.extend_front_owned(d);
                            proof {
                                assert(slices_rev_view(st0, current_slices@).len() == 0);
                                assert(slices_rev_view(st0, current_slices@) + self@ =~= self@);
                                assert(dv + (chunks_view(st0, cs0.skip(j)) + v0) =~= (dv
                                    + chunks_view(st0, cs0.skip(j))) + v0);
                            }
                        },
                        DNAChunk::Slice(s) => {
                            proof {
                                lemma_slices_rev_view_push(st0, current_slices@, s);
                                assert((slice_view(st0, s) + slices_rev_view(
                                    st0,
                                    current_slices@,
                                )) + self@ =~= slice_view(st0, s) + (slices_rev_view(
                                    st0,
                                    current_slices@,
                                ) + self@));
                            }
                            current_slices.push(s);
                        },
                    }
                },
            }
        }
        proof {
            assert(cs0.skip(0) =~= cs0);
        }
        if current_slices.len() > 0 {
            let cs = current_slices;
            let ghost stc = self.storage();
            let ghost pv = slices_rev_view(st0, cs@);
            let ghost selfpre = self@;
            proof {
                lemma_slices_rev_view_extend(st0, stc, cs@);
                assert(data@.len() == 0);
                assert(pv + selfpre == chunks_view(st0, cs0) + v0);
                assert((pv + selfpre).len() == (chunks_view(st0, cs0) + v0).len());
                assert(pv.len() + selfpre.len() <= chunks_view(st0, cs0).len() + v0.len());
            }
            self.extend_front_slices(cs);
            proof {
                lemma_slices_rev_view_extend(st0, stc, cs@);
                assert(self@ == pv + selfpre);
                assert(self@ == chunks_view(st0, cs0) + v0);
            }
        } else {
            proof {
                assert(slices_rev_view(st0, current_slices@) + self@ =~= self@);
            }
        }
    }

    /// Prepends a batch of snapshots given back first: each snapshot
    /// ends up in front of the previously prepended ones. Pieces below
    /// the consolidation threshold are gathered into owned chunks.
    #[verifier::spinoff_prover]
    #[verifier::rlimit(60)]
    fn extend_front_slices(&mut self, slices: Vec<DNASlice>)
        requires
            old(self).wf(),
            slices_wf(old(self).storage(), slices@),
            old(self)@.len() + slices_rev_view(old(self).storage(), slices@).len() <= usize::MAX,
        ensures
            final(self).wf(),
            storage_extends(old(self).storage(), final(self).storage()),
            final(self)@ == slices_rev_view(old(self).storage(), slices@) + old(self)@,
    {
        let ghost st0 = self.storage();
        let ghost ss0 = slices@;
        let ghost v0 = self@;
        let ghost goal = slices_rev_view(st0, ss0);
        if slices.len() == 1 {
            let s = &slices[0];
            if s.parts.len() == 1 {
                let p = s.parts[0];
                proof {
                    assert(ss0[0] == *s);
                    assert(slice_wf(st0, *s));
                    assert(s.parts@.drop_last() =~= Seq::<DNAStorageSlice>::empty());
                    assert(s.parts@.last() == p);
                    assert(part_view(st0, p) + parts_view(st0, s.parts@.drop_last()) =~= part_view(
                        st0,
                        p,
                    ));
                    assert(ss0.drop_first() =~= Seq::<DNASlice>::empty());
                    assert(ss0.first() == *s);
                    assert(slices_rev_view(st0, ss0.drop_first()) + slice_view(st0, ss0.first())
                        =~= slice_view(st0, *s));
                    assert(goal == part_view(st0, p));
                }
                self.dna.push_front(p, Ghost(st0));
                return ;
            }
        }
        let mut new_slice = DNASlice::new();
        let mut si: usize = 0;
        proof {
            assert(ss0.take(0) =~= Seq::<DNASlice>::empty());
            assert(parts_view(st0, new_slice.parts@) + self@ =~= slices_rev_view(
                st0,
                ss0.take(0),
            ) + v0);
        }
        while si < slices.len()
            invariant
                self.wf(),
                storage_extends(st0, self.storage()),
                slices_wf(st0, ss0),
                ss0 == slices@,
                si <= ss0.len(),
                goal == slices_rev_view(st0, ss0),
                goal.len() + v0.len() <= usize::MAX,
                slice_wf(st0, new_slice),
                new_slice.total_len <= CONSOLIDATION_TARGET_SIZE,
                parts_view(st0, new_slice.parts@) + self@ == slices_rev_view(st0, ss0.take(
                    si as int,
                )) + v0,
            decreases ss0.len() - si,
        {
            let s = &slices[si];
            let ghost sv = slice_view(st0, *s);
            proof {
                assert(ss0[si as int] == *s);
                assert(slice_wf(st0, *s));
                assert(s.parts@.take(0) =~= Seq::<DNAStorageSlice>::empty());
                assert(parts_view(st0, s.parts@.take(0)).len() == 0);
                assert(parts_view(st0, s.parts@.take(0)) + slices_rev_view(st0, ss0.take(si as int))
                    =~= slices_rev_view(st0, ss0.take(si as int)));
                assert(parts_view(st0, new_slice.parts@) + self@ == (parts_view(
                    st0,
                    s.parts@.take(0),
                ) + slices_rev_view(st0, ss0.take(si as int))) + v0) by {
                    assert((parts_view(st0, s.parts@.take(0)) + slices_rev_view(
                        st0,
                        ss0.take(si as int),
                    )) + v0 =~= slices_rev_view(st0, ss0.take(si as int)) + v0);
                }
            }
            let mut pi: usize = 0;
            while pi < s.parts.len()
                invariant
                    self.wf(),
                    storage_extends(st0, self.storage()),
                    slices_wf(st0, ss0),
                    ss0 == slices@,
                    si < ss0.len(),
                    s == &slices[si as int],
                    slice_wf(st0, *s),
                    sv == slice_view(st0, *s),
                    pi <= s.parts@.len(),
                    goal == slices_rev_view(st0, ss0),
                    goal.len() + v0.len() <= usize::MAX,
                    slice_wf(st0, new_slice),
                    new_slice.total_len <= CONSOLIDATION_TARGET_SIZE,
                    parts_view(st0, new_slice.parts@) + self@ == (parts_view(
                        st0,
                        s.parts@.take(pi as int),
                    ) + slices_rev_view(st0, ss0.take(si as int))) + v0,
                decreases s.parts@.len() - pi,
            {
                let p = s.parts[pi];
                let ghost pa = part_view(st0, p);
                let ghost pb = parts_view(st0, s.parts@.take(pi as int));
                let ghost pc = slices_rev_view(st0, ss0.take(si as int));
                proof {
                    assert(part_wf(st0, p));
                    // the assembled views so far are a prefix of the goal,
                    // which bounds every length that is about to grow
                    lemma_parts_view_split(st0, s.parts@, pi as int);
                    lemma_slices_rev_view_split(st0, ss0, si as int + 1);
                    assert(ss0.take(si as int + 1) =~= ss0.take(si as int).push(*s));
                    lemma_slices_rev_view_push(st0, ss0.take(si as int), *s);
                    assert(pb.len() <= sv.len());
                    assert(sv.len() + pc.len() <= goal.len());
                    assert((parts_view(st0, new_slice.parts@) + self@).len() == ((pb + pc)
                        + v0).len());
                    assert(parts_view(st0, new_slice.parts@).len() + self@.len() <= goal.len()
                        + v0.len());
                    lemma_parts_view_split(st0, s.parts@, pi as int + 1);
                    assert(s.parts@.take(pi as int + 1) =~= s.parts@.take(pi as int).push(p));
                    lemma_parts_view_push(st0, s.parts@.take(pi as int), p);
                    assert(pa.len() + pb.len() <= sv.len());
                }
                if p.length > CONSOLIDATION_TARGET_SIZE - new_slice.total_len {
                    if new_slice.total_len != 0 {
                        let ns = new_slice;
                        new_slice = DNASlice::new();
                        let ghost stc = self.storage();
                        proof {
                            lemma_parts_view_extend(st0, stc, ns.parts@);
                        }
                        self.extend_front_slices_flush(ns, Ghost(st0));
                    }
                }
                let ghost pend = parts_view(st0, new_slice.parts@);
                let ghost selfmid = self@;
                proof {
                    assert(pend + selfmid == (pb + pc) + v0);
                    assert(pend.len() + selfmid.len() <= goal.len() + v0.len());
                }
                if p.length > CONSOLIDATION_TARGET_SIZE {
                    proof {
                        assert(pend.len() == 0);
                    }
                    let ghost stc = self.storage();
                    proof {
                        assert(part_wf(stc, p));
                        assert(part_view(stc, p) == pa);
                    }
                    self.dna.push_front(p, Ghost(stc));
                    proof {
                        assert(self@ == pa + selfmid);
                        assert(parts_view(st0, new_slice.parts@) + self@ =~= pa + (pend
                            + selfmid));
                    }
                } else {
                    new_slice.push_front(p, Ghost(st0));
                    proof {
                        assert(parts_view(st0, new_slice.parts@) == pa + pend);
                        assert((pa + pend) + selfmid =~= pa + (pend + selfmid));
                    }
                }
                proof {
                    assert(pa + ((pb + pc) + v0) =~= ((pa + pb) + pc) + v0);
                    assert(parts_view(st0, new_slice.parts@) + self@ == (parts_view(
                        st0,
                        s.parts@.take(pi as int + 1),
                    ) + pc) + v0);
                }
                pi = pi + 1;
            }
            proof {
                assert(s.parts@.take(s.parts@.len() as int) =~= s.parts@);
                assert(ss0.take(si as int + 1) =~= ss0.take(si as int).push(*s));
                lemma_slices_rev_view_push(st0, ss0.take(si as int), *s);
                assert((parts_view(st0, s.parts@) + slices_rev_view(st0, ss0.take(si as int))) + v0
                    =~= (slice_view(st0, *s) + slices_rev_view(st0, ss0.take(si as int))) + v0);
            }
            si = si + 1;
        }
        if new_slice.len() > 0 {
            let ghost stc = self.storage();
            proof {
                assert(ss0.take(ss0.len() as int) =~= ss0);
                lemma_parts_view_extend(st0, stc, new_slice.parts@);
            }
            self.extend_front_slices_flush(new_slice, Ghost(st0));
        } else {
            proof {
                assert(ss0.take(ss0.len() as int) =~= ss0);
                assert(parts_view(st0, new_slice.parts@) + self@ =~= self@);
            }
        }
    }

    /// Flushes one gathered run of small pieces: a single piece is
    /// prepended as a reference, several are copied into one owned
    /// chunk.
    fn extend_front_slices_flush(&mut self, slice: DNASlice, Ghost(st0): Ghost<Seq<Seq<Base>>>)
        requires
            old(self).wf(),
            storage_extends(st0, old(self).storage()),
            slice_wf(st0, slice),
            old(self)@.len() + slice_view(st0, slice).len() <= usize::MAX,
        ensures
            final(self).wf(),
            storage_extends(old(self).storage(), final(self).storage()),
            final(self)@ == slice_view(st0, slice) + old(self)@,
    {
        let ghost stc = self.storage();
        proof {
            lemma_parts_view_extend(st0, stc, slice.parts@);
        }
        self.extend_from_slice(slice);
    }
}

const CONSOLIDATION_TARGET_SIZE: usize = 4096;

/// A scanner over a fixed-width window of the sequence, used by the
/// pattern's literal search: it holds the bases under the window and
/// the rest of the sequence after it.
pub struct DNASlidingWindow {
    pub window: std::collections::VecDeque<Base>,
    pub slice: DNASlice,
    pub offset: usize,
    pub start: Ghost<usize>,
}

impl DNASlidingWindow {
    /// The window sits `start + offset` bases into the sequence and
    /// mirrors exactly the bases under it.
    pub open spec fn wf(self, dna: DNA) -> bool {
        &&& dna.wf()
        &&& slice_wf(dna.storage(), self.slice)
        &&& self.window@.len() >= 1
        &&& self.start@ + self.offset + self.window@.len() <= dna@.len()
        &&& self.window@ == dna@.subrange(
            self.start@ + self.offset,
            self.start@ + self.offset + self.window@.len(),
        )
        &&& slice_view(dna.storage(), self.slice) == dna@.skip(
            self.start@ + self.offset + self.window@.len(),
        )
    }

    pub open spec fn spec_offset(self) -> nat {
        self.offset as nat
    }

    pub open spec fn spec_start(self) -> nat {
        self.start@ as nat
    }

    pub open spec fn width(self) -> nat {
        self.window@.len()
    }

    /// How many bases the window has advanced since it was made.
    pub fn offset(&self) -> (r: usize)
        ensures
            r == self.spec_offset(),
    {
        self.offset
    }

    /// Advances the window one base; reports whether there was room.
    pub fn next(&mut self, dna: &DNA) -> (r: bool)
        requires
            old(self).wf(*dna),
        ensures
            final(self).wf(*dna),
            final(self).width() == old(self).width(),
            final(self).spec_start() == old(self).spec_start(),
            r == (old(self).spec_start() + old(self).spec_offset() + old(self).width()
                < dna@.len()),
            final(self).spec_offset() == if r {
                old(self).spec_offset() + 1
            } else {
                old(self).spec_offset()
            },
    {
        let ghost st = dna.storage();
        let ghost s = self.start@ as int;
        let ghost o = self.offset as int;
        let ghost w = self.window@.len() as int;
        match self.slice.pop_front(Ghost(st)) {
            Some((storage_idx, idx)) => {
                let b = dna.dna_storage[storage_idx][idx];
                proof {
                    assert(st[storage_idx as int] == dna.dna_storage@[storage_idx as int]@);
                    assert(b == dna@.skip(s + o + w)[0]);
                    assert(b == dna@[s + o + w]);
                }
                self.window.pop_front();
                self.window.push_back(b);
                self.offset = self.offset + 1;
                proof {
                    assert(self.window@ =~= dna@.subrange(s + o + 1, s + o + 1 + w));
                    assert(slice_view(st, self.slice) =~= dna@.skip(s + o + 1 + w)) by {
                        assert(slice_view(st, self.slice) == dna@.skip(s + o + w).drop_first());
                        assert(dna@.skip(s + o + w).drop_first() =~= dna@.skip(s + o + w + 1));
                    }
                }
                true
            },
            None => {
                proof {
                    assert(dna@.skip(s + o + w).len() == 0);
                }
                false
            },
        }
    }

    /// Whether the bases under the window equal `data`.
    pub fn is_match(&self, data: &[Base]) -> (r: bool)
        requires
            data@.len() == self.window@.len(),
        ensures
            r == (self.window@ == data@),
    {
        let mut i: usize = 0;
        while i < self.window.len()
            invariant
                data@.len() == self.window@.len(),
                i <= self.window@.len(),
                forall|j: int| 0 <= j < i ==> self.window@[j] == data@[j],
            decreases self.window@.len() - i,
        {
            if self.window[i] != data[i] {
                proof {
                    assert(self.window@[i as int] != data@[i as int]);
                }
                return false;
            }
            i = i + 1;
        }
        proof {
            assert(self.window@ =~= data@);
        }
        true
    }
}

impl DNA {
    /// A sliding-window scanner of width `window_size` starting
    /// `start` bases into the sequence.
    pub fn window(&self, start: usize, window_size: usize) -> (r: DNASlidingWindow)
        requires
            self.wf(),
            window_size >= 1,
            start + window_size <= self@.len(),
        ensures
            r.wf(*self),
            r.spec_offset() == 0,
            r.spec_start() == start,
            r.width() == window_size,
    {
        let ghost st = self.storage();
        let mut slice = self.dna.clone();
        proof {
            assert(slice_wf(st, slice));
            assert(slice_view(st, slice) == self@);
        }
        slice.truncate_front(start, Ghost(st));
        let mut window: std::collections::VecDeque<Base> = std::collections::VecDeque::new();
        let mut i: usize = 0;
        proof {
            assert(window@ =~= self@.subrange(start as int, start as int));
        }
        while i < window_size
            invariant
                self.wf(),
                st == self.storage(),
                i <= window_size,
                start + window_size <= self@.len(),
                slice_wf(st, slice),
                slice_view(st, slice) == self@.skip(start + i),
                window@ == self@.subrange(start as int, start + i),
            decreases window_size - i,
        {
            let popped = slice.pop_front(Ghost(st));
            let (storage_idx, idx) = match popped {
                Some(x) => x,
                None => {
                    proof {
                        assert(self@.skip(start + i).len() == 0);
                        assert(false);
                    }
                    vstd::pervasive::unreached()
                },
            };
            let b = self.dna_storage[storage_idx][idx];
            proof {
                assert(st[storage_idx as int] == self.dna_storage@[storage_idx as int]@);
                assert(b == self@.skip(start + i)[0]);
            }
            window.push_back(b);
            proof {
                assert(window@ =~= self@.subrange(start as int, start + i + 1));
                assert(slice_view(st, slice) =~= self@.skip(start + i + 1)) by {
                    assert(slice_view(st, slice) == self@.skip(start + i).drop_first());
                    assert(self@.skip(start + i).drop_first() =~= self@.skip(start + i + 1));
                }
            }
            i = i + 1;
        }
        DNASlidingWindow { window, slice, offset: 0, start: Ghost(start) }
    }
}

} // verus!
