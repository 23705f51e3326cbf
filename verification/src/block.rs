//! Blocks: runs of whole pages that hold some bytes and may have room for more.

use crate::io;
use crate::io::{IoSlice, IoSliceMut};
use crate::layout::Layout;
use crate::model;
use crate::model::Extent;
use vstd::prelude::*;

verus! {

/// A run of whole pages, of which the first `len` bytes are in use; its view is those bytes.
///
/// The memory is as large as the layout says. It is not placed by the alignment of the layout.
#[derive(Debug)]
pub struct Block {
    mem: Vec<u8>,
    layout: Layout,
    len: usize,
}

impl View for Block {
    type V = Seq<u8>;

    closed spec fn view(&self) -> Seq<u8> {
        self.mem@.take(self.len as int)
    }
}

/// The extents of `blocks`.
pub open spec fn extents(blocks: Seq<Block>) -> Seq<Extent> {
    Seq::new(blocks.len(), |i: int| blocks[i].extent())
}

/// Whether all `blocks` are well-formed and none is empty.
pub open spec fn sound(blocks: Seq<Block>) -> bool {
    forall|i: int| 0 <= i < blocks.len() ==> (#[trigger] blocks[i]).wf() && blocks[i]@.len() > 0
}

/// Puts `n` bytes of `src`, from position `from` on, into `dst` at position `at`.
fn copy(dst: &mut [u8], at: usize, src: &[u8], from: usize, n: usize)
    requires
        at + n <= old(dst)@.len(),
        from + n <= src@.len(),
    ensures
        final(dst)@ == model::overlay(old(dst)@, at as int, src@.subrange(from as int, from + n)),
{
    let ghost before = dst@;
    let mut i: usize = 0;
    assert(at + n <= dst.len() && from + n <= src.len());
    while i < n
        invariant
            i <= n,
            dst@.len() == before.len(),
            at + n <= before.len(),
            at + n <= usize::MAX,
            from + n <= src@.len(),
            from + n <= usize::MAX,
            dst@ == model::overlay(before, at as int, src@.subrange(from as int, from + i)),
        decreases n - i,
    {
        dst[at + i] = src[from + i];
        i = i + 1;
        assert(dst@ =~= model::overlay(before, at as int, src@.subrange(from as int, from + i)));
    }
}

/// The blocks before block `i` hold as many bytes as its position tells.
pub proof fn lemma_offset(blocks: Seq<Block>, i: int)
    requires
        0 <= i <= blocks.len(),
    ensures
        model::offset(extents(blocks), i) == model::joined(blocks.take(i)).len(),
        i == blocks.len() ==> model::total(extents(blocks)) == model::joined(blocks).len(),
    decreases i,
{
    if i > 0 {
        lemma_offset(blocks, i - 1);
        model::lemma_joined_around(blocks, i - 1);
    }
    assert(blocks.take(blocks.len() as int) =~= blocks);
}

/// The bytes of block `i` stand at its position.
pub proof fn lemma_block(blocks: Seq<Block>, i: int)
    requires
        0 <= i < blocks.len(),
    ensures
        model::joined(blocks).subrange(
            model::offset(extents(blocks), i) as int,
            model::offset(extents(blocks), i + 1) as int,
        ) == blocks[i]@,
        model::offset(extents(blocks), i + 1) == model::offset(extents(blocks), i)
            + blocks[i]@.len(),
        model::offset(extents(blocks), i + 1) <= model::joined(blocks).len(),
{
    lemma_offset(blocks, i);
    lemma_offset(blocks, i + 1);
    model::lemma_joined_around(blocks, i);
    model::lemma_joined_split(blocks, i + 1);
    assert(model::joined(blocks).subrange(
        model::offset(extents(blocks), i) as int,
        model::offset(extents(blocks), i + 1) as int,
    ) =~= blocks[i]@);
}

/// Writing into one block is writing into the whole.
pub proof fn lemma_write_block(
    blocks: Seq<Block>,
    after: Seq<Block>,
    i: int,
    start: int,
    data: Seq<u8>,
)
    requires
        0 <= i < blocks.len(),
        after == blocks.update(i, after[i]),
        0 <= start,
        start + data.len() <= blocks[i]@.len(),
        after[i]@ == model::overlay(blocks[i]@, start, data),
        after[i].capacity() == blocks[i].capacity(),
    ensures
        extents(after) == extents(blocks),
        model::joined(after) == model::overlay(
            model::joined(blocks),
            model::offset(extents(blocks), i) + start,
            data,
        ),
{
    assert(extents(after) =~= extents(blocks));
    lemma_offset(blocks, i);
    model::lemma_joined_around(blocks, i);
    model::lemma_joined_around(after, i);
    assert(after.take(i) =~= blocks.take(i));
    assert(after.skip(i + 1) =~= blocks.skip(i + 1));
    assert(model::joined(after) =~= model::overlay(
        model::joined(blocks),
        model::offset(extents(blocks), i) + start,
        data,
    ));
}

/// Growing the last block is growing the whole.
pub proof fn lemma_extend_last(blocks: Seq<Block>, after: Seq<Block>, data: Seq<u8>)
    requires
        blocks.len() > 0,
        after == blocks.update(blocks.len() - 1, after.last()),
        after.last()@ == blocks.last()@ + data,
        after.last().capacity() == blocks.last().capacity(),
        after.last().wf(),
        sound(blocks),
    ensures
        sound(after),
        extents(after) == model::widen(extents(blocks), data.len()),
        model::joined(after) == model::joined(blocks) + data,
{
    assert(extents(after) =~= model::widen(extents(blocks), data.len()));
    assert(after.drop_last() =~= blocks.drop_last());
    assert(model::joined(after) =~= model::joined(blocks) + data);
}

/// One more block behind the others.
pub proof fn lemma_push_block(blocks: Seq<Block>, block: Block)
    requires
        block.wf(),
        block@.len() > 0,
        sound(blocks),
    ensures
        sound(blocks.push(block)),
        extents(blocks.push(block)) == extents(blocks).push(block.extent()),
        model::joined(blocks.push(block)) == model::joined(blocks) + block@,
{
    assert(extents(blocks.push(block)) =~= extents(blocks).push(block.extent()));
    model::lemma_joined_push(blocks, block);
}

/// Cutting block `i` off at position `pos`, and all the blocks behind it, is cutting the whole off;
/// where nothing would be left of block `i`, it goes too.
pub proof fn lemma_truncate(blocks: Seq<Block>, after: Seq<Block>, i: int, pos: int)
    requires
        sound(blocks),
        0 <= i < blocks.len(),
        0 <= pos < blocks[i]@.len(),
        after.take(i) == blocks.take(i),
        pos == 0 ==> after.len() == i,
        pos > 0 ==> {
            &&& after.len() == i + 1
            &&& after[i]@ == blocks[i]@.take(pos)
            &&& after[i].wf()
            &&& after[i].capacity() == blocks[i].capacity()
        },
    ensures
        ({
            let n = model::offset(extents(blocks), i) + pos;
            &&& sound(after)
            &&& extents(after) == model::cut(extents(blocks), n as nat)
            &&& model::joined(after) == model::joined(blocks).take(n)
            &&& model::total(extents(after)) == n
        }),
{
    let n = model::offset(extents(blocks), i) + pos;
    lemma_offset(blocks, i);
    model::lemma_joined_around(blocks, i);
    model::lemma_cut(extents(blocks), n as nat, i);
    assert forall|k: int| 0 <= k < i implies #[trigger] after[k] == blocks[k] by {
        assert(after[k] == after.take(i)[k]);
        assert(blocks[k] == blocks.take(i)[k]);
    }
    assert(extents(after) =~= model::cut(extents(blocks), n as nat));
    if pos == 0 {
        assert(after =~= after.take(i));
    } else {
        model::lemma_joined_around(after, i);
        assert(after.take(i + 1) =~= after);
    }
    assert(model::joined(after) =~= model::joined(blocks).take(n));
}

impl Block {
    /// What holds of every block: the memory is as large as its layout says, and no more of it is
    /// in use than there is.
    pub closed spec fn wf(&self) -> bool {
        &&& self.mem@.len() == self.layout.size()
        &&& self.len <= self.layout.size()
    }

    /// A block does not hold more than it has room for.
    pub proof fn lemma_wf(&self)
        requires
            self.wf(),
        ensures
            self@.len() <= self.capacity(),
    {
    }

    pub closed spec fn spec_capacity(&self) -> usize {
        self.layout.size()
    }

    /// The memory behind the bytes in use.
    pub closed spec fn spare(&self) -> Seq<u8> {
        self.mem@.skip(self.len as int)
    }

    /// How many bytes the block holds, and how many it has room for.
    pub open spec fn extent(&self) -> Extent {
        Extent { len: self@.len(), capacity: self.capacity() as nat }
    }

    /// Makes a block of `len` zero bytes out of the fewest whole pages; none if `len` is zero.
    pub fn with_len(layout: Layout, len: usize) -> (r: Option<Self>)
        requires
            len > 0 ==> layout.holds(len as nat),
        ensures
            r is None <==> len == 0,
            r matches Some(block) ==> {
                &&& block.wf()
                &&& block@ == model::zeros(len as nat)
                &&& block.capacity() == layout.block_size(len as nat)
            },
    {
        if len == 0 {
            return None;
        }
        match layout.for_len(len) {
            Ok(layout) => {
                let block = Block { mem: vec![0u8; layout.size()], layout, len };
                assert(block@ =~= model::zeros(len as nat));
                Some(block)
            },
            Err(_) => None,
        }
    }

    /// How many bytes are in use.
    pub fn len(&self) -> (r: usize)
        requires
            self.wf(),
        ensures
            r == self@.len(),
    {
        self.len
    }

    /// Makes a block of `skip` zero bytes and all the bytes of `buf`, and tells how many bytes were
    /// taken from `buf`; no block if there would be nothing in it.
    pub fn from_buf<'a, S: IoSlice<'a>>(layout: Layout, skip: usize, buf: &mut &mut [S]) -> (r:
        Option<(Self, usize)>)
        requires
            skip + model::joined(old(buf)@).len() <= usize::MAX,
            skip + model::joined(old(buf)@).len() > 0 ==> layout.holds(
                (skip + model::joined(old(buf)@).len()) as nat,
            ),
        ensures
            r is None <==> skip + model::joined(old(buf)@).len() == 0,
            r is None ==> final(buf)@ == old(buf)@ && final(*final(buf))@ == final(*old(buf))@,
            r matches Some((block, written)) ==> {
                &&& block.wf()
                &&& block@ == model::zeros(skip as nat) + model::joined(old(buf)@)
                &&& block.capacity() == layout.block_size(block@.len())
                &&& written == model::joined(old(buf)@).len()
                &&& final(buf)@.len() == 0
                &&& final(*old(buf))@ == old(buf)@ + final(*final(buf))@
            },
    {
        let ghost before = buf@;
        let ghost data = model::joined(before);
        let mut len: usize = 0;
        let mut i: usize = 0;
        while i < buf.len()
            invariant
                buf@ == before,
                data == model::joined(before),
                final(*old(buf))@ == final(*buf)@,
                i <= before.len(),
                len == model::joined(before.take(i as int)).len(),
                skip + data.len() <= usize::MAX,
            decreases before.len() - i,
        {
            proof {
                model::lemma_joined_around(before, i as int);
            }
            len = len + buf[i].as_bytes().len();
            i = i + 1;
        }
        assert(before.take(i as int) =~= before);
        match Self::with_len(layout, skip + len) {
            Some(mut block) => {
                let written_len: usize = block.write(skip, buf);
                proof {
                    assert(data.take(data.len() as int) =~= data);
                    assert(block@ =~= model::zeros(skip as nat) + data);
                    assert(before.take(before.len() as int) =~= before);
                    io::lemma_advanced_all(before, buf@, written_len as int);
                }
                Some((block, written_len))
            },
            None => None,
        }
    }

    /// How many bytes the pages have room for.
    #[verifier::when_used_as_spec(spec_capacity)]
    pub fn capacity(&self) -> (r: usize)
        ensures
            r == self.capacity(),
    {
        self.layout.size()
    }

    /// The bytes in use.
    pub fn as_slice(&self) -> (r: &[u8])
        requires
            self.wf(),
        ensures
            r@ == self@,
    {
        vstd::slice::slice_subrange(self.mem.as_slice(), 0, self.len)
    }

    /// The bytes in use, to be changed in place.
    pub fn as_mut_slice(&mut self) -> (r: &mut [u8])
        requires
            old(self).wf(),
        ensures
            r@ == old(self)@,
            final(r)@.len() == r@.len() ==> {
                &&& final(self).wf()
                &&& final(self)@ == final(r)@
            },
            final(self).capacity() == old(self).capacity(),
    {
        let (used, _) = self.mem.as_mut_slice().split_at_mut(self.len);
        used
    }

    /// The memory behind the bytes in use, to be changed in place.
    fn spare_capacity_mut(&mut self) -> (r: &mut [u8])
        requires
            old(self).wf(),
        ensures
            r@ == old(self).spare(),
            final(r)@.len() == r@.len() ==> {
                &&& final(self).wf()
                &&& final(self)@ == old(self)@
                &&& final(self).spare() == final(r)@
            },
            final(self).capacity() == old(self).capacity(),
    {
        let (_, spare) = self.mem.as_mut_slice().split_at_mut(self.len);
        spare
    }

    /// Counts the first `n` bytes behind those in use among them.
    fn take_up(&mut self, n: usize)
        requires
            old(self).wf(),
            n <= old(self).spare().len(),
        ensures
            final(self).wf(),
            final(self)@ == old(self)@ + old(self).spare().take(n as int),
            final(self).capacity() == old(self).capacity(),
    {
        self.len = self.len + n;
        assert(self@ =~= old(self)@ + old(self).spare().take(n as int));
    }

    /// Puts bytes of `buf` over the bytes in use, from position `start` on, until either of them
    /// comes to its end. Returns how many bytes were put there; `buf` is advanced by as many.
    pub fn write<'a, S: IoSlice<'a>>(&mut self, start: usize, buf: &mut &mut [S]) -> (r: usize)
        requires
            old(self).wf(),
        ensures
            final(self).wf(),
            final(self).capacity() == old(self).capacity(),
            start >= old(self)@.len() ==> r == 0 && final(self)@ == old(self)@,
            start < old(self)@.len() ==> {
                &&& r == model::min(
                    old(self)@.len() - start,
                    model::joined(old(buf)@).len() as int,
                )
                &&& final(self)@ == model::overlay(
                    old(self)@,
                    start as int,
                    model::joined(old(buf)@).take(r as int),
                )
            },
            io::advanced(old(buf)@, final(buf)@, r as int),
            final(*old(buf))@ == old(buf)@.take(old(buf)@.len() - final(buf)@.len())
                + final(*final(buf))@,
    {
        let ghost bytes = self@;
        let ghost before = buf@;
        let ghost data = model::joined(before);
        let ghost first = start;
        let mut start: usize = start;
        let mut written_len: usize = 0;
        let mut i: usize = 0;
        proof {
            assert(first < bytes.len() ==> model::overlay(bytes, first as int, data.take(0))
                =~= bytes);
        }
        while i < buf.len() && start < self.len
            invariant
                buf@ == before,
                data == model::joined(before),
                final(*old(buf))@ == final(*buf)@,
                i <= before.len(),
                self.wf(),
                self@.len() == bytes.len(),
                self.capacity() == old(self).capacity(),
                start == first + written_len,
                first >= bytes.len() ==> written_len == 0 && self@ == bytes,
                first < bytes.len() ==> {
                    &&& start <= bytes.len()
                    &&& self@ == model::overlay(bytes, first as int, data.take(written_len as int))
                },
                written_len <= model::joined(before.take(i as int)).len() <= data.len(),
                start < bytes.len() ==> written_len == model::joined(before.take(i as int)).len(),
            decreases before.len() - i,
        {
            proof {
                model::lemma_joined_around(before, i as int);
            }
            let src: &[u8] = buf[i].as_bytes();
            let len: usize = if self.len - start < src.len() {
                self.len - start
            } else {
                src.len()
            };
            let dst: &mut [u8] = self.as_mut_slice();
            copy(dst, start, src, 0, len);
            proof {
                model::lemma_overlay_twice(
                    bytes,
                    first as int,
                    data.take(written_len as int),
                    src@.subrange(0, len as int),
                );
                assert(data.take(written_len as int) + src@.subrange(0, len as int) =~= data.take(
                    written_len + len,
                ));
            }
            start = start + len;
            written_len = written_len + len;
            i = i + 1;
        }
        proof {
            model::lemma_joined_split(before, i as int);
            assert(i == before.len() ==> before.take(i as int) =~= before);
        }
        IoSlice::advance_slices(buf, written_len);
        written_len
    }

    /// Fills `buf` with the bytes in use, from position `start` on, until either of them comes to
    /// its end. Returns how many bytes were put into `buf`, which is advanced by as many.
    pub fn read(&self, start: usize, buf: &mut &mut [&mut [u8]]) -> (r: usize)
        requires
            self.wf(),
        ensures
            ({
                let data = if start < self@.len() {
                    self@.skip(start as int)
                } else {
                    Seq::empty()
                };
                let k = old(buf)@.len() - final(buf)@.len();
                let used = io::room(old(buf)@.take(k));
                &&& r == model::min(data.len() as int, io::room(old(buf)@) as int)
                &&& io::advanced_mut(old(buf)@, final(buf)@, r as int)
                &&& final(buf)@.len() > 0 ==> final(old(buf)@[k])@ == data.subrange(
                    used as int,
                    r as int,
                ) + final(final(buf)@[0])@
                &&& final(*old(buf))@.len() == k + final(*final(buf))@.len()
                &&& final(*old(buf))@.skip(k) == final(*final(buf))@
                &&& forall|i: int|
                    #![trigger final(*old(buf))@[i]]
                    0 <= i < k ==> {
                        let at = io::room(old(buf)@.take(i)) as int;
                        &&& final(*old(buf))@[i]@ == data.subrange(at, at + old(buf)@[i]@.len())
                        &&& final(final(*old(buf))@[i])@ == final(old(buf)@[i])@
                    }
            }),
    {
        let ghost before = buf@;
        let ghost data = if start < self@.len() {
            self@.skip(start as int)
        } else {
            Seq::empty()
        };
        let ghost first = start;
        let mut start: usize = start;
        let mut read_len: usize = 0;
        let mut i: usize = 0;
        while i < buf.len() && start < self.len
            invariant
                self.wf(),
                data == (if first < self@.len() {
                    self@.skip(first as int)
                } else {
                    Seq::empty()
                }),
                buf@.len() == before.len(),
                final(*old(buf))@ == final(*buf)@,
                i <= before.len(),
                start == first + read_len,
                read_len <= data.len(),
                read_len <= io::room(before.take(i as int)),
                start < self@.len() ==> read_len == io::room(before.take(i as int)),
                forall|q: int|
                    #![trigger buf@[q]]
                    0 <= q < before.len() ==> final(buf@[q])@ == final(before[q])@,
                forall|q: int| #![trigger buf@[q]] i <= q < before.len() ==> buf@[q] == before[q],
                forall|q: int|
                    #![trigger buf@[q]]
                    0 <= q < i ==> buf@[q]@ == io::filled(
                        before[q]@,
                        data,
                        io::room(before.take(q)) as int,
                    ),
                forall|q: int|
                    0 <= q < i ==> io::room(#[trigger] before.take(q)) < data.len(),
            decreases before.len() - i,
        {
            let len: usize = if self.len - start < buf[i].len() {
                self.len - start
            } else {
                buf[i].len()
            };
            proof {
                io::lemma_room_around(before, i as int);
                assert(self@.subrange(start as int, start + len) =~= data.subrange(
                    read_len as int,
                    read_len + len,
                ));
            }
            copy(buf[i].as_mut_bytes(), 0, self.as_slice(), start, len);
            proof {
                assert(buf@[i as int]@ =~= io::filled(
                    before[i as int]@,
                    data,
                    read_len as int,
                ));
            }
            start = start + len;
            read_len = read_len + len;
            i = i + 1;
        }
        let ghost mid = buf@;
        proof {
            assert(i == before.len() ==> before.take(i as int) =~= before);
            io::lemma_room_monotonic(before, i as int, before.len() as int);
            assert forall|q: int| #![trigger mid[q]] 0 <= q < before.len() implies mid[q]@.len()
                == before[q]@.len() by {
                assert(buf@[q]@.len() == before[q]@.len());
            }
            assert forall|j: int| 0 <= j <= before.len() implies io::room(
                #[trigger] mid.take(j),
            ) == io::room(before.take(j)) by {
                io::lemma_room_same(mid.take(j), before.take(j));
            }
            io::lemma_room_same(mid, before);
            assert(read_len == model::min(data.len() as int, io::room(before) as int));
        }
        IoSliceMut::advance_slices(buf, read_len);
        proof {
            let k = before.len() - buf@.len();
            assert forall|q: int| #![trigger mid[q]] 0 <= q < k implies {
                let at = io::room(before.take(q)) as int;
                mid[q]@ == data.subrange(at, at + before[q]@.len())
            } by {
                io::lemma_room_around(before, q);
                io::lemma_room_monotonic(before, q + 1, k);
                io::lemma_room_monotonic(before, q, k);
                if q >= i {
                    io::lemma_room_monotonic(before, i as int, q);
                }
                let at = io::room(before.take(q)) as int;
                assert(mid[q]@ =~= data.subrange(at, at + before[q]@.len()));
            }
            if k < before.len() {
                io::lemma_room_around(before, k);
                io::lemma_room_around(mid, k);
                let used = io::room(before.take(k)) as int;
                assert(buf@[0]@ == mid[k]@.skip(read_len - used));
                assert(used + before[k]@.len() > read_len);
                if k >= i {
                    io::lemma_room_monotonic(before, i as int, k);
                    assert(mid[k] == before[k]);
                } else {
                    assert(mid[k]@ == io::filled(before[k]@, data, used));
                }
                assert(mid[k]@.skip(read_len - used) =~= before[k]@.skip(read_len - used));
                assert(mid[k]@.take(read_len - used) =~= data.subrange(used, read_len as int));
                assert forall|q: int| k < q < before.len() implies mid[q] == before[q] by {
                    if q < i {
                        io::lemma_room_monotonic(before, k + 1, q);
                        assert(io::room(before.take(q)) < data.len());
                    }
                }
                assert(mid.skip(k + 1) =~= before.skip(k + 1));
            }
        }
        read_len
    }

    /// Adds `skip` zero bytes and then the bytes of `buf`, as far as the pages have room. Returns
    /// how many bytes were added, as an error if that is not all; `buf` is advanced by as many
    /// bytes as were taken from it.
    pub fn extend<'a, S: IoSlice<'a>>(&mut self, skip: usize, buf: &mut &mut [S]) -> (r: Result<
        usize,
        usize,
    >)
        requires
            old(self).wf(),
        ensures
            final(self).wf(),
            final(self).capacity() == old(self).capacity(),
            ({
                let room = old(self).capacity() - old(self)@.len();
                let all = model::zeros(skip as nat) + model::joined(old(buf)@);
                let added = model::min(room, all.len() as int);
                let taken = if added < skip { 0 } else { added - skip };
                &&& r == (if all.len() <= room {
                    Ok::<usize, usize>(added as usize)
                } else {
                    Err(added as usize)
                })
                &&& final(self)@ == old(self)@ + all.take(added)
                &&& io::advanced(old(buf)@, final(buf)@, taken)
            }),
            final(*old(buf))@ == old(buf)@.take(old(buf)@.len() - final(buf)@.len())
                + final(*final(buf))@,
    {
        let ghost bytes = self@;
        let ghost before = buf@;
        let ghost data = model::joined(before);
        let ghost all = model::zeros(skip as nat) + data;
        let capacity: usize = self.capacity();
        let mut written_len: usize = 0;

        let len: usize = if capacity - self.len < skip {
            capacity - self.len
        } else {
            skip
        };
        let spare: &mut [u8] = self.spare_capacity_mut();
        clear(spare, len);
        self.take_up(len);
        written_len = written_len + len;
        assert(self@ =~= bytes + all.take(written_len as int));

        let mut i: usize = 0;
        while i < buf.len()
            invariant
                buf@ == before,
                data == model::joined(before),
                all == model::zeros(skip as nat) + data,
                final(*old(buf))@ == final(*buf)@,
                i <= before.len(),
                self.wf(),
                capacity == self.capacity() == old(self).capacity(),
                self.len == bytes.len() + written_len,
                self@ == bytes + all.take(written_len as int),
                written_len <= skip + model::joined(before.take(i as int)).len(),
                self.len < capacity ==> written_len == skip + model::joined(
                    before.take(i as int),
                ).len(),
                written_len < skip ==> self.len == capacity,
            decreases before.len() - i,
        {
            proof {
                model::lemma_joined_around(before, i as int);
            }
            let src: &[u8] = buf[i].as_bytes();
            let len: usize = if capacity - self.len < src.len() {
                capacity - self.len
            } else {
                src.len()
            };
            let dst: &mut [u8] = self.spare_capacity_mut();
            copy(dst, 0, src, 0, len);
            self.take_up(len);
            proof {
                assert(len > 0 ==> all.subrange(written_len as int, written_len + len)
                    =~= src@.subrange(0, len as int));
                assert(self@ =~= bytes + all.take(written_len + len));
            }
            written_len = written_len + len;
            i = i + 1;
        }
        assert(before.take(i as int) =~= before);
        let taken: usize = if written_len < skip {
            0
        } else {
            written_len - skip
        };
        IoSlice::advance_slices(buf, taken);
        proof {
            io::lemma_advanced_all(before, buf@, taken as int);
        }
        if written_len < skip || buf.len() > 0 {
            Err(written_len)
        } else {
            Ok(written_len)
        }
    }

    /// Shortens the block to `pos` bytes and tells whether none are left; does nothing if it holds
    /// no more than that.
    pub fn truncate(&mut self, pos: usize) -> (r: Option<bool>)
        requires
            old(self).wf(),
        ensures
            final(self).wf(),
            final(self).capacity() == old(self).capacity(),
            pos >= old(self)@.len() ==> r is None && final(self)@ == old(self)@,
            pos < old(self)@.len() ==> {
                &&& r == Some(pos == 0)
                &&& final(self)@ == old(self)@.take(pos as int)
            },
    {
        if pos >= self.len {
            return None;
        }
        self.len = pos;
        assert(self@ =~= old(self)@.take(pos as int));
        Some(pos == 0)
    }
}

/// Sets the first `n` bytes to zero.
fn clear(dst: &mut [u8], n: usize)
    requires
        n <= old(dst)@.len(),
    ensures
        final(dst)@ == model::zeros(n as nat) + old(dst)@.skip(n as int),
{
    let ghost before = dst@;
    let mut i: usize = 0;
    while i < n
        invariant
            i <= n <= before.len(),
            dst@.len() == before.len(),
            dst@ == model::zeros(i as nat) + before.skip(i as int),
        decreases n - i,
    {
        dst[i] = 0;
        i = i + 1;
        assert(dst@ =~= model::zeros(i as nat) + before.skip(i as int));
    }
    assert(n == 0 ==> dst@ =~= model::zeros(0) + before.skip(0));
}

} // verus!
