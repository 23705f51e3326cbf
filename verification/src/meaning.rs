//! What the words mean that contracts are stated in, in bytes and numbers.
//!
//! Each law here says of one notion of the model, or of one relation between buffers, what it comes
//! to for every input.

use crate::block;
use crate::block::Block;
use crate::io;
use crate::io::{ByteSpan, SeekFrom};
use crate::iter;
use crate::layout;
use crate::layout::Layout;
use crate::model;
use crate::model::{Extent, Model, Seams};
use std::ops::Bound;
use vstd::arithmetic::power2::*;
use vstd::prelude::*;

verus! {

/// Pieces are joined one behind another.
pub proof fn joined_one_by_one<S: View<V = Seq<u8>>>(pieces: Seq<S>, piece: S)
    ensures
        model::joined(Seq::<S>::empty()) == Seq::<u8>::empty(),
        model::joined(pieces.push(piece)) == model::joined(pieces) + piece@,
        model::joined(seq![piece]) == piece@,
{
    model::lemma_joined_push(pieces, piece);
    model::lemma_joined_one(piece);
}

/// Each byte of each piece comes behind all the bytes of the pieces before it.
pub proof fn joined_bytes<S: View<V = Seq<u8>>>(pieces: Seq<S>, i: int, j: int)
    requires
        0 <= i < pieces.len(),
        0 <= j < pieces[i]@.len(),
    ensures
        model::joined(pieces.take(i)).len() + j < model::joined(pieces).len(),
        model::joined(pieces)[model::joined(pieces.take(i)).len() + j] == pieces[i]@[j],
{
    model::lemma_joined_around(pieces, i);
}

/// Zeros are so many bytes, each of them zero.
pub proof fn zeros_are_zero(n: nat)
    ensures
        model::zeros(n).len() == n,
        forall|i: int| 0 <= i < n ==> #[trigger] model::zeros(n)[i] == 0,
{
}

/// The smaller number is one of the two, and neither is smaller.
pub proof fn min_is_the_smaller(a: int, b: int)
    ensures
        model::min(a, b) == a || model::min(a, b) == b,
        model::min(a, b) <= a,
        model::min(a, b) <= b,
{
}

/// Where bytes are laid over others, they stand; everywhere else is what stood there.
pub proof fn overlay_covers(bytes: Seq<u8>, at: int, data: Seq<u8>)
    requires
        0 <= at,
        at + data.len() <= bytes.len(),
    ensures
        model::overlay(bytes, at, data).len() == bytes.len(),
        forall|i: int|
            at <= i < at + data.len() ==> #[trigger] model::overlay(bytes, at, data)[i] == data[i
                - at],
        forall|i: int|
            0 <= i < at || at + data.len() <= i < bytes.len() ==> #[trigger] model::overlay(
                bytes,
                at,
                data,
            )[i] == bytes[i],
{
}

/// Blocks lie one behind another, from position zero on.
pub proof fn offsets_add_up(extents: Seq<Extent>, i: int)
    requires
        0 <= i < extents.len(),
    ensures
        model::offset(extents, 0) == 0,
        model::offset(extents, i + 1) == model::offset(extents, i) + extents[i].len,
        model::total(extents) == model::offset(extents, extents.len() as int),
{
}

/// Without blocks there are no bytes, and there is no room for any.
pub proof fn no_blocks_hold_nothing(extents: Seq<Extent>)
    requires
        extents.len() == 0,
    ensures
        model::total(extents) == 0,
        model::spare(extents) == 0,
{
}

/// What is spare is what the last block has room for and does not hold.
pub proof fn spare_is_in_the_last_block(extents: Seq<Extent>)
    requires
        extents.len() > 0,
        extents.last().len <= extents.last().capacity,
    ensures
        model::spare(extents) == extents.last().capacity - extents.last().len,
{
}

/// Bytes that fit into the last block are counted there, and nothing else changes.
pub proof fn growth_that_fits(extents: Seq<Extent>, page: Layout, n: nat)
    requires
        extents.len() > 0,
        extents.last().len + n <= extents.last().capacity,
    ensures
        ({
            let after = model::grown(extents, page, n);
            let last = extents.len() - 1;
            &&& after.len() == extents.len()
            &&& forall|i: int| 0 <= i < last ==> #[trigger] after[i] == extents[i]
            &&& after[last].len == extents[last].len + n
            &&& after[last].capacity == extents[last].capacity
        }),
{
}

/// Of bytes that do not fit into the last block, as many as do fill it up, and the others make up
/// one new block, of the fewest whole pages that hold them.
pub proof fn growth_that_does_not_fit(extents: Seq<Extent>, page: Layout, n: nat)
    requires
        extents.len() > 0,
        extents.last().len <= extents.last().capacity,
        extents.last().len + n > extents.last().capacity,
    ensures
        ({
            let after = model::grown(extents, page, n);
            let last = extents.len() - 1;
            let rest = (extents[last].len + n - extents[last].capacity) as nat;
            &&& after.len() == extents.len() + 1
            &&& forall|i: int| 0 <= i < last ==> #[trigger] after[i] == extents[i]
            &&& after[last].len == extents[last].capacity
            &&& after[last].capacity == extents[last].capacity
            &&& after[last + 1].len == rest
            &&& after[last + 1].capacity == page.block_size(rest)
        }),
{
}

/// Where there are no blocks, bytes make up the first one, of the fewest whole pages that hold them.
pub proof fn growth_from_nothing(extents: Seq<Extent>, page: Layout, n: nat)
    requires
        extents.len() == 0,
    ensures
        ({
            let after = model::grown(extents, page, n);
            &&& n == 0 ==> after.len() == 0
            &&& n > 0 ==> {
                &&& after.len() == 1
                &&& after[0].len == n
                &&& after[0].capacity == page.block_size(n)
            }
        }),
{
}

/// What is left of a cut are the first blocks: all but the last of them as they were, the last one
/// shortened, and together they hold so many bytes. None of them is empty.
pub proof fn cut_leaves_the_first_blocks(extents: Seq<Extent>, n: nat)
    requires
        n < model::total(extents),
        forall|i: int| 0 <= i < extents.len() ==> (#[trigger] extents[i]).len > 0,
    ensures
        ({
            let after = model::cut(extents, n);
            &&& model::total(after) == n
            &&& after.len() <= extents.len()
            &&& forall|i: int| 0 <= i < after.len() - 1 ==> #[trigger] after[i] == extents[i]
            &&& after.len() > 0 ==> {
                &&& 0 < after.last().len <= extents[after.len() - 1].len
                &&& after.last().capacity == extents[after.len() - 1].capacity
            }
        }),
{
    let i = model::lemma_find_block(extents, n as int);
    model::lemma_cut(extents, n, i);
}

/// A position before the end lies in the block that it is said to lie in, and one at the end or
/// behind it in none.
pub proof fn block_at_is_where_it_lies(extents: Seq<Extent>, pos: int)
    requires
        0 <= pos,
    ensures
        pos < model::total(extents) ==> {
            &&& 0 <= model::block_at(extents, pos) < extents.len()
            &&& model::offset(extents, model::block_at(extents, pos)) <= pos
            &&& pos < model::offset(extents, model::block_at(extents, pos) + 1)
        },
        pos >= model::total(extents) ==> model::block_at(extents, pos) == extents.len(),
{
    if pos < model::total(extents) {
        let i = model::lemma_find_block(extents, pos);
        model::lemma_block_at(extents, pos, i);
    } else {
        model::lemma_block_at(extents, pos, extents.len() as int);
    }
}

/// The last seam before a position lies before it; it is where a block begins or ends, or the old
/// end; and no block begins or ends, nor did the bytes, between it and the position.
pub proof fn last_seam(seams: Seams, pos: int)
    requires
        0 < pos,
    ensures
        0 <= seams.last(pos) < pos,
        seams.last(pos) == seams.end || exists|i: int|
            0 <= i <= seams.extents.len() && seams.last(pos) == #[trigger] model::offset(
                seams.extents,
                i,
            ),
        forall|i: int|
            0 <= i <= seams.extents.len() && model::offset(seams.extents, i) < pos
                ==> #[trigger] model::offset(seams.extents, i) <= seams.last(pos),
        seams.end < pos ==> seams.end <= seams.last(pos),
{
    let b = model::block_at(seams.extents, pos - 1);
    model::lemma_block_start(seams.extents, pos - 1, 0);
    assert(0 <= b <= seams.extents.len());
    assert forall|i: int|
        0 <= i <= seams.extents.len() && model::offset(seams.extents, i) < pos implies
        #[trigger] model::offset(seams.extents, i) <= seams.last(pos) by {
        model::lemma_block_start(seams.extents, pos - 1, i);
    }
}

/// The bytes before the last seam in a run end at a seam inside the run, behind which there is no
/// other inside it; there are none of them if there is no seam inside the run.
pub proof fn before_the_last_seam(seams: Seams, pos: int, len: nat)
    requires
        0 <= pos,
    ensures
        ({
            let n = seams.before(pos, len);
            &&& 0 <= n
            &&& n == 0 || n < len
            &&& n > 0 ==> pos + n == seams.end || exists|i: int|
                0 <= i <= seams.extents.len() && pos + n == #[trigger] model::offset(
                    seams.extents,
                    i,
                )
            &&& forall|i: int|
                0 <= i <= seams.extents.len() && pos < model::offset(seams.extents, i) < pos + len
                    ==> #[trigger] model::offset(seams.extents, i) <= pos + n
            &&& pos < seams.end < pos + len ==> seams.end <= pos + n
        }),
{
    if len > 0 {
        last_seam(seams, pos + len);
    }
}

/// Where bytes are passed on in pieces when they are read.
pub proof fn seams_of_a_vector(m: Model)
    ensures
        m.seams().extents == m.extents,
        m.seams().end == m.bytes.len(),
{
}

/// The blocks hold the bytes of the vector, each of them as many as its extent says, from its
/// position on.
pub proof fn blocks_are_pieces(m: Model, i: int, j: int)
    requires
        m.wf(),
        0 <= i < m.extents.len(),
        0 <= j < m.extents[i].len,
    ensures
        m.blocks().len() == m.extents.len(),
        m.blocks()[i] == m.block(i),
        m.blocks()[i].len() == m.extents[i].len,
        m.blocks()[i][j] == m.bytes[model::offset(m.extents, i) + j],
{
    model::lemma_offset_monotonic(m.extents, i + 1, m.extents.len() as int);
}

/// A vector is well-formed if it has as many bytes as its blocks hold, none of which is empty or
/// over-full, and no blocks before there is a cursor.
pub proof fn vectors_that_are_well_formed(m: Model)
    ensures
        m.wf() <==> {
            &&& model::total(m.extents) == m.bytes.len()
            &&& forall|i: int|
                0 <= i < m.extents.len() ==> 0 < (#[trigger] m.extents[i]).len
                    <= m.extents[i].capacity
            &&& m.cursor is None ==> m.extents.len() == 0
        },
{
}

/// Blocks that have a part in a range follow each other: the first part begins at the first
/// position of the range, the last one ends behind its last position, and all else of these blocks
/// is between.
pub proof fn parts_follow_the_blocks(m: Model, lo: int, hi: int, k: int, l: int)
    requires
        m.wf(),
        0 <= k < m.extents.len(),
        model::offset(m.extents, k) <= lo < model::offset(m.extents, k + 1),
        0 <= l < m.extents.len(),
        lo < hi,
        hi <= m.bytes.len() ==> model::offset(m.extents, l) < hi <= model::offset(
            m.extents,
            l + 1,
        ),
        hi > m.bytes.len() ==> l == m.extents.len() - 1,
    ensures
        ({
            let parts = model::parts(m.blocks(), lo, hi);
            let to = if hi <= m.bytes.len() {
                hi
            } else {
                m.bytes.len() as int
            };
            &&& k <= l
            &&& parts.len() == l - k + 1
            &&& forall|j: int|
                0 <= j <= l - k ==> #[trigger] parts[j] == m.blocks()[k + j].subrange(
                    if j == 0 {
                        lo - model::offset(m.extents, k)
                    } else {
                        0
                    },
                    if j == l - k {
                        to - model::offset(m.extents, l)
                    } else {
                        m.blocks()[k + j].len() as int
                    },
                )
        }),
{
    let start = model::offset(m.extents, k) as int;
    let blocks = m.blocks();
    let rest = m.extents.skip(k);
    let count = m.extents.len() as int;
    assert forall|i: int| 0 <= i < blocks.len() implies (#[trigger] blocks[i]).len()
        == m.extents[i].len by {
        model::lemma_offset_monotonic(m.extents, i + 1, count);
    }
    if l < k {
        model::lemma_offset_monotonic(m.extents, l + 1, k);
    }
    model::lemma_parts_skip(blocks, m.extents, lo, hi, k);
    model::lemma_offset_skip(m.extents, k, l);
    model::lemma_offset_skip(m.extents, k, l + 1);
    model::lemma_offset_skip(m.extents, k, count);
    parts_from_the_first(blocks.skip(k), rest, lo - start, hi - start, l - k);
    let parts = model::parts(blocks, lo, hi);
    assert forall|j: int| 0 <= j <= l - k implies #[trigger] parts[j] == blocks[k + j].subrange(
        if j == 0 {
            lo - start
        } else {
            0
        },
        if j == l - k {
            (if hi <= m.bytes.len() {
                hi
            } else {
                m.bytes.len() as int
            }) - model::offset(m.extents, l)
        } else {
            blocks[k + j].len() as int
        },
    ) by {
        assert(blocks.skip(k)[j] == blocks[k + j]);
    }
}

proof fn parts_from_the_first(
    blocks: Seq<Seq<u8>>,
    extents: Seq<Extent>,
    lo: int,
    hi: int,
    l: int,
)
    requires
        blocks.len() == extents.len(),
        forall|i: int| 0 <= i < blocks.len() ==> (#[trigger] blocks[i]).len() == extents[i].len,
        forall|i: int| 0 <= i < extents.len() ==> (#[trigger] extents[i]).len > 0,
        0 <= l < extents.len(),
        0 <= lo < extents[0].len,
        lo < hi,
        hi <= model::total(extents) ==> model::offset(extents, l) < hi <= model::offset(
            extents,
            l + 1,
        ),
        hi > model::total(extents) ==> l == extents.len() - 1,
    ensures
        model::parts(blocks, lo, hi).len() == l + 1,
        forall|j: int|
            0 <= j <= l ==> #[trigger] model::parts(blocks, lo, hi)[j] == blocks[j].subrange(
                if j == 0 {
                    lo
                } else {
                    0
                },
                if j == l {
                    (if hi <= model::total(extents) {
                        hi
                    } else {
                        model::total(extents) as int
                    }) - model::offset(extents, l)
                } else {
                    blocks[j].len() as int
                },
            ),
    decreases blocks.len(),
{
    let n = blocks[0].len() as int;
    let rest = blocks.skip(1);
    let tail = extents.skip(1);
    let count = extents.len() as int;
    let parts = model::parts(blocks, lo, hi);
    assert(blocks[0].len() == extents[0].len);
    assert(model::offset(extents, 1) == n) by {
        reveal_with_fuel(model::offset, 2);
    }
    model::lemma_offset_monotonic(extents, 1, count);
    model::lemma_offset_skip(extents, 1, count);
    model::lemma_parts_front(rest, lo - n, hi - n);
    assert forall|i: int| 0 <= i < rest.len() implies (#[trigger] rest[i]).len() == tail[i].len by {
        assert(blocks[i + 1].len() == extents[i + 1].len);
    }
    assert forall|i: int| 0 <= i < tail.len() implies (#[trigger] tail[i]).len > 0 by {
        assert(tail[i] == extents[i + 1]);
    }
    if l == 0 {
        if hi <= n {
            model::lemma_parts_empty(rest, lo - n, hi - n);
        } else {
            assert(rest =~= Seq::empty());
        }
        assert(parts.len() == 1);
        assert(parts[0] == blocks[0].subrange(lo, model::min(hi, n)));
    } else {
        model::lemma_offset_monotonic(extents, 1, l);
        model::lemma_offset_skip(extents, 1, l);
        model::lemma_offset_skip(extents, 1, l + 1);
        parts_from_the_first(rest, tail, 0, hi - n, l - 1);
        let others = model::parts(rest, 0, hi - n);
        assert(parts =~= seq![blocks[0].subrange(lo, n)] + others);
        assert forall|j: int| 0 <= j <= l implies #[trigger] parts[j] == blocks[j].subrange(
            if j == 0 {
                lo
            } else {
                0
            },
            if j == l {
                (if hi <= model::total(extents) {
                    hi
                } else {
                    model::total(extents) as int
                }) - model::offset(extents, l)
            } else {
                blocks[j].len() as int
            },
        ) by {
            if j > 0 {
                assert(parts[j] == others[j - 1]);
                assert(rest[j - 1] == blocks[j]);
            }
        }
    }
}

/// The first position of a range is the one that it includes, the one behind the one that it
/// excludes, or the front.
pub proof fn where_a_range_begins(bound: usize)
    ensures
        iter::first(Bound::Included(bound)) == bound,
        iter::first(Bound::Excluded(bound)) == bound + 1,
        iter::first(Bound::Unbounded) == 0,
{
}

/// The position behind the last one of a range is the one behind the one that it includes, the one
/// that it excludes, or the end.
pub proof fn where_a_range_ends(bound: usize, len: int)
    ensures
        iter::behind(Bound::Included(bound), len) == bound + 1,
        iter::behind(Bound::Excluded(bound), len) == bound,
        iter::behind(Bound::Unbounded, len) == len,
{
}

/// What is known of blocks by their bytes and extents, one by one.
pub proof fn blocks_one_by_one(blocks: Seq<Block>)
    ensures
        iter::views(blocks).len() == blocks.len(),
        block::extents(blocks).len() == blocks.len(),
        forall|i: int| 0 <= i < blocks.len() ==> #[trigger] iter::views(blocks)[i] == blocks[i]@,
        forall|i: int|
            0 <= i < blocks.len() ==> {
                &&& (#[trigger] block::extents(blocks)[i]).len == blocks[i]@.len()
                &&& block::extents(blocks)[i].capacity == blocks[i].capacity()
            },
{
}

/// Blocks are sound if each of them is well-formed and holds bytes; no block holds more than it has
/// room for.
pub proof fn blocks_that_are_sound(blocks: Seq<Block>)
    ensures
        block::sound(blocks) <==> forall|i: int|
            0 <= i < blocks.len() ==> (#[trigger] blocks[i]).wf() && blocks[i]@.len() > 0,
        forall|i: int|
            0 <= i < blocks.len() && (#[trigger] blocks[i]).wf() ==> blocks[i]@.len()
                <= blocks[i].capacity(),
{
    assert forall|i: int| 0 <= i < blocks.len() && (#[trigger] blocks[i]).wf() implies blocks[i]@.len()
        <= blocks[i].capacity() by {
        blocks[i].lemma_wf();
    }
}

/// A size and an alignment make a layout if the alignment is a power of two and the size, rounded
/// up to a multiple of it, is at most `isize::MAX`.
pub proof fn layouts_that_are_valid(size: int, align: int)
    ensures
        layout::valid_layout(size, align) <==> is_pow2(align) && 0 <= size <= isize::MAX - (align
            - 1),
{
}

/// Pieces that cover so many bytes are the fewest that do.
pub proof fn div_up_is_the_fewest(n: nat, unit: nat)
    requires
        unit > 0,
    ensures
        n <= layout::div_up(n, unit) * unit < n + unit,
{
    layout::lemma_div_up(n, unit);
}

/// Neighbouring pages lie at the next multiple of the alignment.
pub proof fn stride_is_the_next_multiple(page: Layout)
    requires
        page.align() > 0,
    ensures
        page.size() <= page.stride() < page.size() + page.align(),
        page.stride() % (page.align() as nat) == 0,
{
    let align = page.align() as int;
    let count = layout::div_up(page.size() as nat, page.align() as nat) as int;
    layout::lemma_div_up(page.size() as nat, page.align() as nat);
    vstd::arithmetic::div_mod::lemma_mod_multiples_basic(count, align);
}

/// A block is made of whole pages, and of the fewest that hold its bytes.
pub proof fn blocks_are_whole_pages(page: Layout, len: nat)
    requires
        page.stride() > 0,
    ensures
        len <= page.block_size(len) < len + page.stride(),
        page.block_size(len) % page.stride() == 0,
{
    page.lemma_block_size(len);
    vstd::arithmetic::div_mod::lemma_mod_multiples_basic(
        layout::div_up(len, page.stride()) as int,
        page.stride() as int,
    );
}

/// A block can be laid out if pages have a size and the whole pages make a layout.
pub proof fn pages_that_hold(page: Layout, len: nat)
    ensures
        page.holds(len) <==> page.stride() > 0 && is_pow2(page.align() as int)
            && page.block_size(len) <= isize::MAX - (page.align() - 1),
{
}

/// Buffers that were advanced lost so many bytes from the front: those that stay hold the rest, all
/// but the first of them are as they were, and the first one is not used up.
pub proof fn advanced_buffers<S: View<V = Seq<u8>>>(before: Seq<S>, after: Seq<S>, n: int)
    requires
        io::advanced(before, after, n),
        0 <= n <= model::joined(before).len(),
    ensures
        after.len() <= before.len(),
        model::joined(after) == model::joined(before).skip(n),
        after.len() > 0 ==> {
            let k = before.len() - after.len();
            let used = model::joined(before.take(k)).len();
            &&& used <= n < used + before[k]@.len()
            &&& after[0]@ == before[k]@.skip(n - used)
            &&& forall|i: int| 0 < i < after.len() ==> #[trigger] after[i] == before[k + i]
        },
        after.len() == 0 <==> n == model::joined(before).len(),
{
    io::lemma_advanced_all(before, after, n);
    if after.len() > 0 {
        let k = before.len() - after.len();
        assert forall|i: int| 0 < i < after.len() implies #[trigger] after[i] == before[k + i] by {
            assert(after[i] == after.skip(1)[i - 1]);
            assert(before[k + i] == before.skip(k + 1)[i - 1]);
        }
    }
}

/// The room in buffers is the sum of their lengths.
pub proof fn room_adds_up<S: ByteSpan>(bufs: Seq<S>, buf: S)
    ensures
        io::room(Seq::<S>::empty()) == 0,
        io::room(bufs.push(buf)) == io::room(bufs) + buf.bytes().len(),
{
    assert(bufs.push(buf).drop_last() =~= bufs);
}

/// The bytes of a mutable slice are what it gives access to.
pub proof fn bytes_of_slices(bufs: Seq<&mut [u8]>, i: int)
    ensures
        bufs[i].bytes() == bufs[i]@,
{
}

/// Buffers that bytes are put into and that were advanced lost so many bytes from the front: all but
/// the first of those that stay are as they were, and the first one is not used up.
pub proof fn advanced_mutable_buffers<S: ByteSpan>(before: Seq<S>, after: Seq<S>, n: int)
    requires
        io::advanced_mut(before, after, n),
        0 <= n <= io::room(before),
    ensures
        after.len() <= before.len(),
        io::room(after) == io::room(before) - n,
        after.len() > 0 ==> {
            let k = before.len() - after.len();
            let used = io::room(before.take(k));
            &&& used <= n < used + before[k].bytes().len()
            &&& after[0].bytes() == before[k].bytes().skip(n - used)
            &&& forall|i: int| 0 < i < after.len() ==> #[trigger] after[i] == before[k + i]
        },
{
    if after.len() > 0 {
        let k = before.len() - after.len();
        assert forall|i: int| 0 < i < after.len() implies #[trigger] after[i] == before[k + i] by {
            assert(after[i] == after.skip(1)[i - 1]);
            assert(before[k + i] == before.skip(k + 1)[i - 1]);
        }
    }
}

/// Of a buffer of which all bytes were passed on, what lies behind the last seam in it is left, and
/// all of it if there is none.
pub proof fn spent_buffers<S: View<V = Seq<u8>>>(
    before: Seq<S>,
    after: Seq<S>,
    at: int,
    seams: Seams,
    i: int,
)
    requires
        io::spent(before, after, at, seams),
        0 <= i < before.len(),
    ensures
        after.len() == before.len(),
        after[i]@ == before[i]@.skip(
            seams.before(at + model::joined(before.take(i)).len(), before[i]@.len()),
        ),
{
    assert(after[i]@ == io::left(
        before[i]@,
        at + model::joined(before.take(i)).len(),
        seams,
    ));
}

/// A buffer is filled from the front with what there is of the data from a position on; behind that
/// it is as it was.
pub proof fn filled_buffers(buf: Seq<u8>, data: Seq<u8>, at: int)
    requires
        0 <= at,
    ensures
        io::filled(buf, data, at).len() == buf.len(),
        forall|j: int|
            0 <= j < buf.len() && at + j < data.len() ==> #[trigger] io::filled(buf, data, at)[j]
                == data[at + j],
        forall|j: int|
            0 <= j < buf.len() && at + j >= data.len() ==> #[trigger] io::filled(buf, data, at)[j]
                == buf[j],
{
}

/// The memory of a buffer that has received bytes holds them, from its front on, and what it held
/// before where there were none; the buffer gives access to what lies behind the bytes that it was
/// advanced by, and what becomes of that is up to whoever holds it.
pub proof fn received_buffers(
    before: Seq<u8>,
    end_before: Seq<u8>,
    after: Seq<u8>,
    end_after: Seq<u8>,
    data: Seq<u8>,
    at: int,
    n: int,
)
    requires
        io::received(before, end_before, after, end_after, data, at, n),
        0 <= at,
        0 <= n <= before.len(),
    ensures
        after.len() == before.len() - n,
        end_before.len() == n + end_after.len(),
        forall|j: int|
            0 <= j < n && at + j < data.len() ==> #[trigger] end_before[j] == data[at + j],
        forall|j: int| 0 <= j < n && at + j >= data.len() ==> #[trigger] end_before[j] == before[j],
        forall|j: int|
            0 <= j < after.len() && at + n + j < data.len() ==> #[trigger] after[j] == data[at + n
                + j],
        forall|j: int|
            0 <= j < after.len() && at + n + j >= data.len() ==> #[trigger] after[j] == before[n
                + j],
        forall|j: int| 0 <= j < end_after.len() ==> end_before[n + j] == #[trigger] end_after[j],
{
    filled_buffers(before, data, at);
}

/// A position becomes the standard library's of the same kind and number.
pub proof fn seek_from_to_std(start: usize, delta: isize)
    ensures
        <std::io::SeekFrom as vstd::std_specs::convert::FromSpec<SeekFrom>>::from_spec(
            SeekFrom::Start(start),
        ) == std::io::SeekFrom::Start(start as u64),
        <std::io::SeekFrom as vstd::std_specs::convert::FromSpec<SeekFrom>>::from_spec(
            SeekFrom::Current(delta),
        ) == std::io::SeekFrom::Current(delta as i64),
        <std::io::SeekFrom as vstd::std_specs::convert::FromSpec<SeekFrom>>::from_spec(
            SeekFrom::End(delta),
        ) == std::io::SeekFrom::End(delta as i64),
        <std::io::SeekFrom as vstd::std_specs::convert::FromSpec<SeekFrom>>::obeys_from_spec(),
{
}

/// A position of the standard library becomes one of the same kind and number.
pub proof fn seek_from_of_std(start: u64, delta: i64)
    ensures
        <SeekFrom as vstd::std_specs::convert::FromSpec<std::io::SeekFrom>>::from_spec(
            std::io::SeekFrom::Start(start),
        ) == SeekFrom::Start(start as usize),
        <SeekFrom as vstd::std_specs::convert::FromSpec<std::io::SeekFrom>>::from_spec(
            std::io::SeekFrom::Current(delta),
        ) == SeekFrom::Current(delta as isize),
        <SeekFrom as vstd::std_specs::convert::FromSpec<std::io::SeekFrom>>::from_spec(
            std::io::SeekFrom::End(delta),
        ) == SeekFrom::End(delta as isize),
        <SeekFrom as vstd::std_specs::convert::FromSpec<std::io::SeekFrom>>::obeys_from_spec(),
{
}

} // verus!
