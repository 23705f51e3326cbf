//! Iterators over the blocks of a vector, or over the parts of them that lie in a range.

use crate::block;
use crate::block::Block;
use crate::model;
use crate::model::Extent;
use crate::seeker::Seeker;
use std::ops::Bound;
use vstd::prelude::*;

verus! {

/// The bytes of each of the blocks.
pub open spec fn views(blocks: Seq<Block>) -> Seq<Seq<u8>> {
    Seq::new(blocks.len(), |i: int| blocks[i]@)
}

/// Declares `std::ops::Bound`, where a range begins or ends, with its variants.
#[verifier::external_type_specification]
#[verifier::reject_recursive_types(T)]
pub struct ExBound<T>(Bound<T>);

/// The first position in a range that begins with `start`.
pub open spec fn first(start: Bound<usize>) -> int {
    match start {
        Bound::Included(bound) => bound as int,
        Bound::Excluded(bound) => bound + 1,
        Bound::Unbounded => 0,
    }
}

/// The position behind the last one in a range of `len` bytes that ends with `end`.
pub open spec fn behind(end: Bound<usize>, len: int) -> int {
    match end {
        Bound::Included(bound) => bound + 1,
        Bound::Excluded(bound) => bound as int,
        Bound::Unbounded => len,
    }
}

/// An iterator over the blocks, as byte slices.
#[derive(Debug, Clone, Copy)]
pub struct BlockIter<'a> {
    blocks: &'a [Block],
}

impl<'a> BlockIter<'a> {
    /// What holds of every iterator.
    pub closed spec fn wf(&self) -> bool {
        block::sound(self.blocks@)
    }

    /// The slices that are still to come.
    pub closed spec fn remaining(&self) -> Seq<Seq<u8>> {
        views(self.blocks@)
    }

    pub(crate) fn new(blocks: &'a [Block]) -> (r: Self)
        requires
            block::sound(blocks@),
        ensures
            r.wf(),
            r.remaining() == views(blocks@),
    {
        BlockIter { blocks }
    }

    /// The next slice.
    pub fn next(&mut self) -> (r: Option<&'a [u8]>)
        requires
            old(self).wf(),
        ensures
            final(self).wf(),
            match r {
                Some(slice) => {
                    &&& old(self).remaining().len() > 0
                    &&& slice@ == old(self).remaining()[0]
                    &&& final(self).remaining() == old(self).remaining().skip(1)
                },
                None => {
                    &&& old(self).remaining().len() == 0
                    &&& final(self).remaining().len() == 0
                },
            },
    {
        let blocks: &'a [Block] = self.blocks;
        if blocks.len() == 0 {
            return None;
        }
        self.blocks = vstd::slice::slice_subrange(blocks, 1, blocks.len());
        assert(self.remaining() =~= old(self).remaining().skip(1));
        Some(blocks[0].as_slice())
    }

    /// How many slices are still to come, as a lower and an upper bound.
    pub fn size_hint(&self) -> (r: (usize, Option<usize>))
        ensures
            r.0 == self.remaining().len(),
            r.1 == Some(r.0),
    {
        (self.blocks.len(), Some(self.blocks.len()))
    }
}

/// An iterator over the blocks, as byte slices to be changed in place.
#[derive(Debug)]
pub struct BlockIterMut<'a> {
    /// The blocks that are still to come.
    pub blocks: &'a mut [Block],
}

impl<'a> BlockIterMut<'a> {
    /// The next slice.
    ///
    /// What is written into the slice is what the block holds afterwards.
    pub fn next(&mut self) -> (r: Option<&'a mut [u8]>)
        requires
            block::sound(old(self).blocks@),
        ensures
            block::sound(final(self).blocks@),
            match r {
                Some(slice) => {
                    &&& old(self).blocks@.len() > 0
                    &&& slice@ == old(self).blocks@[0]@
                    &&& final(self).blocks@ == old(self).blocks@.skip(1)
                    &&& final(old(self).blocks)@.len() == 1 + final(final(self).blocks)@.len()
                    &&& final(old(self).blocks)@.skip(1) == final(final(self).blocks)@
                    &&& final(old(self).blocks)@[0].capacity() == old(self).blocks@[0].capacity()
                    &&& final(slice)@.len() == slice@.len() ==> {
                        &&& final(old(self).blocks)@[0].wf()
                        &&& final(old(self).blocks)@[0]@ == final(slice)@
                    }
                },
                None => {
                    &&& old(self).blocks@.len() == 0
                    &&& final(self).blocks@.len() == 0
                    &&& final(old(self).blocks)@ == final(final(self).blocks)@
                },
            },
    {
        if self.blocks.len() == 0 {
            return None;
        }
        let mut blocks: &'a mut [Block] = &mut [];
        std::mem::swap(&mut blocks, &mut self.blocks);
        let (head, tail) = blocks.split_at_mut(1);
        self.blocks = tail;
        let block: &'a mut Block = &mut head[0];
        Some(block.as_mut_slice())
    }
}

/// Whether `after` is `before` with each of `slices` stored in one block after another: the first
/// one from position `from` of its block on, all others from the start of theirs.
pub open spec fn stored(
    before: Seq<Block>,
    from: int,
    slices: Seq<Seq<u8>>,
    after: Seq<Block>,
) -> bool
    decreases slices.len(),
{
    if slices.len() == 0 {
        after == before
    } else {
        &&& before.len() > 0
        &&& after.len() > 0
        &&& after[0].wf()
        &&& after[0].capacity() == before[0].capacity()
        &&& after[0]@ == model::overlay(before[0]@, from, slices[0])
        &&& stored(before.skip(1), 0, slices.skip(1), after.skip(1))
    }
}

/// How far a range that ends in block `end_block`, with the byte at `end_offset` there, reaches,
/// counted from the start of block `start_block`; the extents are those of that block and of all
/// behind it.
pub open spec fn limit(
    start_block: int,
    end_block: int,
    end_offset: int,
    extents: Seq<Extent>,
) -> int {
    if start_block > end_block {
        0
    } else if end_block - start_block >= extents.len() {
        model::total(extents) as int
    } else {
        model::offset(extents, end_block - start_block) + end_offset + 1
    }
}

/// What holds of the state of every range iterator: it begins in the first block and ends in one of
/// the blocks, or behind them all.
pub open spec fn range_wf(
    start_block: int,
    start_offset: int,
    end_block: int,
    end_offset: int,
    blocks: Seq<Block>,
) -> bool {
    &&& block::sound(blocks)
    &&& 0 <= start_block
    &&& 0 <= start_offset
    &&& 0 <= end_offset
    &&& start_block + blocks.len() <= usize::MAX
    &&& end_block <= start_block + blocks.len()
    &&& blocks.len() > 0 ==> start_offset < blocks[0]@.len()
    &&& start_block <= end_block < start_block + blocks.len() ==> end_offset < blocks[end_block
        - start_block]@.len()
}

/// The slices that are still to come of a range.
pub open spec fn range_parts(
    start_block: int,
    start_offset: int,
    end_block: int,
    end_offset: int,
    blocks: Seq<Block>,
) -> Seq<Seq<u8>> {
    model::parts(
        views(blocks),
        start_offset,
        limit(start_block, end_block, end_offset, block::extents(blocks)),
    )
}

/// Whether nothing is to come any more of a range.
pub open spec fn range_over(
    start_block: int,
    start_offset: int,
    end_block: int,
    end_offset: int,
    blocks: Seq<Block>,
) -> bool {
    ||| start_block > end_block
    ||| start_block == end_block && start_offset > end_offset
    ||| blocks.len() == 0
}

/// What the next step of a range iterator does.
proof fn lemma_range_next(
    start_block: int,
    start_offset: int,
    end_block: int,
    end_offset: int,
    blocks: Seq<Block>,
)
    requires
        range_wf(start_block, start_offset, end_block, end_offset, blocks),
    ensures
        range_over(start_block, start_offset, end_block, end_offset, blocks) ==> range_parts(
            start_block,
            start_offset,
            end_block,
            end_offset,
            blocks,
        ).len() == 0,
        !range_over(start_block, start_offset, end_block, end_offset, blocks) ==> {
            let to = if start_block < end_block {
                blocks[0]@.len() as int
            } else {
                end_offset + 1
            };
            &&& range_wf(start_block + 1, 0, end_block, end_offset, blocks.skip(1))
            &&& start_offset < to <= blocks[0]@.len()
            &&& range_parts(start_block, start_offset, end_block, end_offset, blocks) == seq![
                blocks[0]@.subrange(start_offset, to),
            ] + range_parts(start_block + 1, 0, end_block, end_offset, blocks.skip(1))
        },
{
    let extents = block::extents(blocks);
    let hi = limit(start_block, end_block, end_offset, extents);
    if range_over(start_block, start_offset, end_block, end_offset, blocks) {
        if blocks.len() > 0 {
            model::lemma_parts_empty(views(blocks), start_offset, hi);
        }
    } else {
        let n = blocks[0]@.len() as int;
        let rest = blocks.skip(1);
        let hi2 = limit(start_block + 1, end_block, end_offset, extents.skip(1));
        assert(block::extents(rest) =~= extents.skip(1));
        assert(views(rest) =~= views(blocks).skip(1));
        assert(extents[0].len == n);
        assert(model::offset(extents, 1) == n) by {
            reveal_with_fuel(model::offset, 2);
        }
        assert forall|i: int| 0 <= i < rest.len() implies (#[trigger] rest[i]).wf()
            && rest[i]@.len() > 0 by {
            assert(rest[i] == blocks[i + 1]);
        }
        if start_block < end_block {
            let k = model::min(end_block - start_block, extents.len() as int);
            model::lemma_offset_skip(extents, 1, k);
            model::lemma_offset_monotonic(extents, 1, k);
            assert(hi - n == hi2);
        } else {
            model::lemma_parts_empty(views(rest), start_offset - n, hi - n);
            model::lemma_parts_empty(views(rest), 0, hi2);
        }
        model::lemma_parts_front(views(rest), start_offset - n, hi - n);
    }
}

/// How many slices are still to come of a range that has not come to the block it ends in: one for
/// each block up to that one, and one more if it has a part in the range.
proof fn lemma_range_count(
    start_block: int,
    start_offset: int,
    end_block: int,
    end_offset: int,
    blocks: Seq<Block>,
)
    requires
        range_wf(start_block, start_offset, end_block, end_offset, blocks),
        start_block <= end_block,
    ensures
        end_block - start_block <= range_parts(
            start_block,
            start_offset,
            end_block,
            end_offset,
            blocks,
        ).len() <= end_block - start_block + 1,
    decreases blocks.len(),
{
    lemma_range_next(start_block, start_offset, end_block, end_offset, blocks);
    if !range_over(start_block, start_offset, end_block, end_offset, blocks) {
        if start_block < end_block {
            lemma_range_count(start_block + 1, 0, end_block, end_offset, blocks.skip(1));
        } else {
            lemma_range_next(start_block + 1, 0, end_block, end_offset, blocks.skip(1));
        }
    }
}

/// The range between two positions, both included, as the state of an iterator.
proof fn lemma_between(start: Seeker, end: Seeker, blocks: Seq<Block>)
    requires
        block::sound(blocks),
        blocks.len() <= usize::MAX,
        start.located(block::extents(blocks)),
        end.located(block::extents(blocks)),
    ensures
        range_wf(
            start.current_block as int,
            start.current_pos_in_block as int,
            end.current_block as int,
            end.current_pos_in_block as int,
            blocks.skip(start.current_block as int),
        ),
        range_parts(
            start.current_block as int,
            start.current_pos_in_block as int,
            end.current_block as int,
            end.current_pos_in_block as int,
            blocks.skip(start.current_block as int),
        ) == model::parts(views(blocks), start.current_pos as int, end.current_pos + 1),
{
    let extents = block::extents(blocks);
    let k = start.current_block as int;
    let rest = blocks.skip(k);
    let base = model::offset(extents, k) as int;
    let lo = start.current_pos as int;
    let hi = end.current_pos + 1;
    let to = limit(
        k,
        end.current_block as int,
        end.current_pos_in_block as int,
        block::extents(rest),
    );
    assert(block::extents(rest) =~= extents.skip(k));
    assert(views(rest) =~= views(blocks).skip(k));
    assert forall|i: int| 0 <= i < rest.len() implies (#[trigger] rest[i]).wf()
        && rest[i]@.len() > 0 by {
        assert(rest[i] == blocks[i + k]);
    }
    assert forall|i: int| 0 <= i < blocks.len() implies (#[trigger] views(blocks)[i]).len()
        == extents[i].len by {}
    if lo >= start.end_pos {
        model::lemma_parts_skip(views(blocks), extents, lo, hi, k);
    } else {
        model::lemma_parts_skip(views(blocks), extents, lo, hi, k);
        model::lemma_offset_skip(extents, k, extents.len() as int);
        if end.current_block < k {
            model::lemma_offset_monotonic(extents, end.current_block + 1, k);
            model::lemma_parts_empty(views(rest), lo - base, hi - base);
            model::lemma_parts_empty(views(rest), lo - base, to);
        } else if end.current_pos < end.end_pos {
            model::lemma_offset_skip(extents, k, end.current_block as int);
            assert(rest[end.current_block - k] == blocks[end.current_block as int]);
            assert(to == hi - base);
        } else {
            assert forall|i: int| 0 <= i < rest.len() implies (#[trigger] views(rest)[i]).len()
                == extents.skip(k)[i].len by {}
            model::lemma_parts_end(views(rest), extents.skip(k), lo - base, hi - base);
        }
    }
}

/// An iterator over the parts of the blocks that lie in a range, as byte slices.
#[derive(Debug, Clone, Copy)]
pub struct RangeIter<'a> {
    start_block: usize,
    start_offset: usize,
    end_block: usize,
    end_offset: usize,
    blocks: &'a [Block],
}

impl<'a> RangeIter<'a> {
    /// What holds of every iterator.
    pub closed spec fn wf(&self) -> bool {
        range_wf(
            self.start_block as int,
            self.start_offset as int,
            self.end_block as int,
            self.end_offset as int,
            self.blocks@,
        )
    }

    /// The slices that are still to come.
    pub closed spec fn remaining(&self) -> Seq<Seq<u8>> {
        range_parts(
            self.start_block as int,
            self.start_offset as int,
            self.end_block as int,
            self.end_offset as int,
            self.blocks@,
        )
    }

    /// The number of the block that comes next.
    pub closed spec fn next_block(&self) -> int {
        self.start_block as int
    }

    /// The number of the block that the range ends in.
    pub closed spec fn last_block(&self) -> int {
        self.end_block as int
    }

    /// An iterator over the range from the position `start` to the position `end`, both included.
    pub(crate) fn between(start: &Seeker, end: &Seeker, blocks: &'a [Block]) -> (r: Self)
        requires
            block::sound(blocks@),
            start.located(block::extents(blocks@)),
            end.located(block::extents(blocks@)),
        ensures
            r.wf(),
            r.remaining() == model::parts(
                views(blocks@),
                start.current_pos as int,
                end.current_pos + 1,
            ),
            r.next_block() == start.current_block,
            r.last_block() == end.current_block,
    {
        let rest: &'a [Block] = vstd::slice::slice_subrange(
            blocks,
            start.current_block,
            blocks.len(),
        );
        proof {
            assert(rest@ =~= blocks@.skip(start.current_block as int));
            lemma_between(*start, *end, blocks@);
        }
        RangeIter {
            start_block: start.current_block,
            start_offset: start.current_pos_in_block,
            end_block: end.current_block,
            end_offset: end.current_pos_in_block,
            blocks: rest,
        }
    }

    /// How many blocks lie from the next one up to the one that the range ends in, as the second
    /// number, and one less, as the first. At least that many slices are still to come, and at most
    /// one more: the part of the block that the range ends in.
    pub fn size_hint(&self) -> (r: (usize, Option<usize>))
        requires
            self.wf(),
            self.next_block() <= self.last_block(),
        ensures
            r.0 <= self.remaining().len(),
            r.1 matches Some(n) && n <= self.remaining().len() <= n + 1,
            ({
                let n = self.last_block() - self.next_block();
                &&& r.0 == (if n == 0 {
                    0
                } else {
                    n - 1
                })
                &&& r.1 == Some(n as usize)
            }),
    {
        proof {
            lemma_range_count(
                self.start_block as int,
                self.start_offset as int,
                self.end_block as int,
                self.end_offset as int,
                self.blocks@,
            );
        }
        let n: usize = self.end_block - self.start_block;
        (n.saturating_sub(1), Some(n))
    }

    /// An iterator over nothing.
    pub(crate) fn end() -> (r: Self)
        ensures
            r.wf(),
            r.remaining().len() == 0,
            r.next_block() == 0,
            r.last_block() == 0,
    {
        RangeIter { start_block: 0, start_offset: 0, end_block: 0, end_offset: 0, blocks: &[] }
    }

    /// The next slice.
    pub fn next(&mut self) -> (r: Option<&'a [u8]>)
        requires
            old(self).wf(),
        ensures
            final(self).wf(),
            match r {
                Some(slice) => {
                    &&& old(self).remaining().len() > 0
                    &&& slice@ == old(self).remaining()[0]
                    &&& final(self).remaining() == old(self).remaining().skip(1)
                    &&& final(self).next_block() == old(self).next_block() + 1
                },
                None => {
                    &&& old(self).remaining().len() == 0
                    &&& final(self).remaining().len() == 0
                    &&& final(self).next_block() == old(self).next_block()
                },
            },
            final(self).last_block() == old(self).last_block(),
    {
        proof {
            lemma_range_next(
                self.start_block as int,
                self.start_offset as int,
                self.end_block as int,
                self.end_offset as int,
                self.blocks@,
            );
        }
        if self.start_block > self.end_block || (self.start_block == self.end_block
            && self.start_offset > self.end_offset) {
            return None;
        }
        let blocks: &'a [Block] = self.blocks;
        if blocks.len() == 0 {
            return None;
        }
        let bytes: &'a [u8] = blocks[0].as_slice();
        let end: usize = if self.start_block < self.end_block {
            bytes.len()
        } else {
            assert(self.end_offset < bytes.len());
            self.end_offset + 1
        };
        let ret: &'a [u8] = vstd::slice::slice_subrange(bytes, self.start_offset, end);
        self.blocks = vstd::slice::slice_subrange(blocks, 1, blocks.len());
        self.start_block = self.start_block + 1;
        self.start_offset = 0;
        assert(self.blocks@ =~= old(self).blocks@.skip(1));
        assert(self.remaining() =~= old(self).remaining().skip(1));
        Some(ret)
    }
}

/// An iterator over the parts of the blocks that lie in a range, as byte slices to be changed in
/// place.
#[derive(Debug)]
pub struct RangeIterMut<'a> {
    /// The number of the block that comes next.
    pub start_block: usize,
    /// Where the range begins in that block.
    pub start_offset: usize,
    /// The number of the block that the range ends in.
    pub end_block: usize,
    /// Where the last byte of the range lies in that block.
    pub end_offset: usize,
    /// The blocks that are still to come.
    pub blocks: &'a mut [Block],
}

impl<'a> RangeIterMut<'a> {
    /// What holds of every iterator.
    pub open spec fn wf(&self) -> bool {
        range_wf(
            self.start_block as int,
            self.start_offset as int,
            self.end_block as int,
            self.end_offset as int,
            self.blocks@,
        )
    }

    /// The slices that are still to come.
    pub open spec fn remaining(&self) -> Seq<Seq<u8>> {
        range_parts(
            self.start_block as int,
            self.start_offset as int,
            self.end_block as int,
            self.end_offset as int,
            self.blocks@,
        )
    }

    /// An iterator over nothing.
    pub(crate) fn end() -> (r: Self)
        ensures
            r.wf(),
            r.remaining().len() == 0,
            r.blocks@.len() == 0,
            r.start_block == 0,
            r.start_offset == 0,
            r.end_block == 0,
            r.end_offset == 0,
    {
        RangeIterMut {
            start_block: 0,
            start_offset: 0,
            end_block: 0,
            end_offset: 0,
            blocks: &mut [],
        }
    }

    /// An iterator over the range from the position `start` to the position `end`, both included.
    pub(crate) fn between(start: &Seeker, end: &Seeker, blocks: &'a mut [Block]) -> (r: Self)
        requires
            block::sound(old(blocks)@),
            start.located(block::extents(old(blocks)@)),
            end.located(block::extents(old(blocks)@)),
        ensures
            r.wf(),
            r.remaining() == model::parts(
                views(old(blocks)@),
                start.current_pos as int,
                end.current_pos + 1,
            ),
            r.start_block == start.current_block,
            r.start_offset == start.current_pos_in_block,
            r.end_block == end.current_block,
            r.end_offset == end.current_pos_in_block,
            r.blocks@ == old(blocks)@.skip(start.current_block as int),
            final(blocks)@ == old(blocks)@.take(start.current_block as int) + final(r.blocks)@,
    {
        proof {
            assert(blocks@.len() == blocks.len());
            lemma_between(*start, *end, blocks@);
        }
        let (_, rest) = blocks.split_at_mut(start.current_block);
        assert(rest@ =~= old(blocks)@.skip(start.current_block as int));
        RangeIterMut {
            start_block: start.current_block,
            start_offset: start.current_pos_in_block,
            end_block: end.current_block,
            end_offset: end.current_pos_in_block,
            blocks: rest,
        }
    }

    /// The next slice.
    ///
    /// What is written into the slice is what that part of the block holds afterwards.
    pub fn next(&mut self) -> (r: Option<&'a mut [u8]>)
        requires
            old(self).wf(),
        ensures
            final(self).wf(),
            match r {
                Some(slice) => {
                    let block = old(self).blocks@[0];
                    let after = final(old(self).blocks)@;
                    let from = old(self).start_offset as int;
                    &&& old(self).remaining().len() > 0
                    &&& slice@ == old(self).remaining()[0]
                    &&& final(self).remaining() == old(self).remaining().skip(1)
                    &&& final(self).start_block == old(self).start_block + 1
                    &&& final(self).start_offset == 0
                    &&& final(self).blocks@ == old(self).blocks@.skip(1)
                    &&& after.len() == 1 + final(final(self).blocks)@.len()
                    &&& after.skip(1) == final(final(self).blocks)@
                    &&& after[0].capacity() == block.capacity()
                    &&& final(slice)@.len() == slice@.len() ==> {
                        &&& after[0].wf()
                        &&& after[0]@ == model::overlay(block@, from, final(slice)@)
                    }
                },
                None => {
                    &&& old(self).remaining().len() == 0
                    &&& final(self).remaining().len() == 0
                    &&& final(self).start_block == old(self).start_block
                    &&& final(self).start_offset == old(self).start_offset
                    &&& final(self).blocks@ == old(self).blocks@
                    &&& final(final(self).blocks)@ == final(old(self).blocks)@
                },
            },
            final(self).end_block == old(self).end_block,
            final(self).end_offset == old(self).end_offset,
    {
        proof {
            lemma_range_next(
                self.start_block as int,
                self.start_offset as int,
                self.end_block as int,
                self.end_offset as int,
                self.blocks@,
            );
        }
        if self.start_block > self.end_block || (self.start_block == self.end_block
            && self.start_offset > self.end_offset) {
            return None;
        }
        if self.blocks.len() == 0 {
            return None;
        }
        let mut blocks: &'a mut [Block] = &mut [];
        std::mem::swap(&mut blocks, &mut self.blocks);
        let (head, tail) = blocks.split_at_mut(1);
        self.blocks = tail;
        let block: &'a mut Block = &mut head[0];
        let bytes: &'a mut [u8] = block.as_mut_slice();
        let end: usize = if self.start_block < self.end_block {
            bytes.len()
        } else {
            assert(self.end_offset < bytes.len());
            self.end_offset + 1
        };
        let (front, _) = bytes.split_at_mut(end);
        let (_, ret) = front.split_at_mut(self.start_offset);
        self.start_block = self.start_block + 1;
        self.start_offset = 0;
        assert(self.remaining() =~= old(self).remaining().skip(1));
        Some(ret)
    }

    /// How many blocks lie from the next one up to the one that the range ends in, as the second
    /// number, and one less, as the first. At least that many slices are still to come, and at most
    /// one more: the part of the block that the range ends in.
    pub fn size_hint(&self) -> (r: (usize, Option<usize>))
        requires
            self.wf(),
            self.start_block <= self.end_block,
        ensures
            r.0 <= self.remaining().len(),
            r.1 matches Some(n) && n <= self.remaining().len() <= n + 1,
            ({
                let n = self.end_block - self.start_block;
                &&& r.0 == (if n == 0 {
                    0
                } else {
                    n - 1
                })
                &&& r.1 == Some(n as usize)
            }),
    {
        proof {
            lemma_range_count(
                self.start_block as int,
                self.start_offset as int,
                self.end_block as int,
                self.end_offset as int,
                self.blocks@,
            );
        }
        let n: usize = self.end_block - self.start_block;
        (n.saturating_sub(1), Some(n))
    }
}

} // verus!
