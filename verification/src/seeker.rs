//! The cursor of a blocked vector: a position, and the place among the blocks where it lies.

use crate::block;
use crate::block::Block;
use crate::io;
use crate::io::IoSlice;
use crate::model;
use crate::model::{Extent, Seams};
use vstd::prelude::*;

verus! {

/// A position in a blocked vector.
#[derive(Debug, Copy, Clone, PartialEq, Eq, Structural)]
pub struct Seeker {
    /// The block that the position lies in; the number of blocks if it lies behind them all.
    pub current_block: usize,
    /// The distance from the start of that block; from the end if there is no such block.
    pub current_pos_in_block: usize,
    /// The position itself.
    pub current_pos: usize,
    /// The position behind the last byte.
    pub end_pos: usize,
}

impl Seeker {
    /// Whether the position is placed right among blocks of these extents.
    pub open spec fn located(self, extents: Seq<Extent>) -> bool {
        &&& self.end_pos == model::total(extents)
        &&& if self.current_pos < self.end_pos {
            &&& self.current_block < extents.len()
            &&& self.current_pos == model::offset(extents, self.current_block as int)
                + self.current_pos_in_block
            &&& self.current_pos_in_block < extents[self.current_block as int].len
        } else {
            &&& self.current_block == extents.len()
            &&& self.current_pos_in_block == self.current_pos - self.end_pos
        }
    }

    /// A position where a block begins lies at the start of that block.
    proof fn lemma_at_bound(self, extents: Seq<Extent>, i: int)
        requires
            self.located(extents),
            0 <= i <= extents.len(),
            self.current_pos == model::offset(extents, i),
            i < extents.len() ==> extents[i].len > 0,
        ensures
            self.current_block == i,
            self.current_pos_in_block == 0,
    {
        if i < extents.len() {
            model::lemma_offset_monotonic(extents, i + 1, extents.len() as int);
            model::lemma_block_at(extents, self.current_pos as int, i);
            model::lemma_block_at(
                extents,
                self.current_pos as int,
                self.current_block as int,
            );
        }
    }

    /// The front of a vector of `len` bytes.
    pub fn start(len: usize) -> (r: Seeker)
        ensures
            r == (Seeker {
                current_block: 0,
                current_pos_in_block: 0,
                current_pos: 0,
                end_pos: len,
            }),
            forall|extents: Seq<Extent>|
                model::total(extents) == len && (extents.len() > 0 ==> extents[0].len > 0)
                    ==> #[trigger] r.located(extents),
    {
        let r = Seeker {
            current_block: 0,
            current_pos_in_block: 0,
            current_pos: 0,
            end_pos: len,
        };
        proof {
            assert forall|extents: Seq<Extent>|
                model::total(extents) == len && (extents.len() > 0 ==> extents[0].len > 0) implies
                #[trigger] r.located(extents) by {
                if extents.len() > 0 {
                    model::lemma_offset_monotonic(extents, 1, extents.len() as int);
                    reveal_with_fuel(model::offset, 2);
                }
            }
        }
        r
    }

    /// Whether no byte lies at the position.
    pub fn is_at_end(&self) -> (r: bool)
        ensures
            r == (self.current_pos >= self.end_pos),
    {
        self.current_pos >= self.end_pos
    }

    /// Fills `buf` with the bytes at the position, until either of them comes to its end, and moves
    /// the position behind them. Returns how many bytes were put into `buf`, as an error if the
    /// position has come to the end.
    pub fn read(&mut self, buf: &mut [&mut [u8]], blocks: &[Block]) -> (r: Result<usize, usize>)
        requires
            block::sound(blocks@),
            old(self).located(block::extents(blocks@)),
        ensures
            final(self).located(block::extents(blocks@)),
            final(self).end_pos == old(self).end_pos,
            ({
                let bytes = model::joined(blocks@);
                let data = if old(self).current_pos < bytes.len() {
                    bytes.skip(old(self).current_pos as int)
                } else {
                    Seq::empty()
                };
                let room = io::room(old(buf)@);
                let n = model::min(data.len() as int, room as int);
                let seams = Seams { extents: block::extents(blocks@), end: bytes.len() };
                &&& r == (if room < data.len() {
                    Ok::<usize, usize>(n as usize)
                } else {
                    Err(n as usize)
                })
                &&& final(self).current_pos == old(self).current_pos + n
                &&& final(buf)@.len() == old(buf)@.len()
                &&& forall|i: int|
                    #![trigger final(buf)@[i]]
                    0 <= i < old(buf)@.len() ==> io::received(
                        old(buf)@[i]@,
                        final(old(buf)@[i])@,
                        final(buf)@[i]@,
                        final(final(buf)@[i])@,
                        data,
                        io::room(old(buf)@.take(i)) as int,
                        seams.before(
                            old(self).current_pos + io::room(old(buf)@.take(i)),
                            old(buf)@[i]@.len(),
                        ),
                    )
            }),
    {
        let ghost before = buf@;
        let ghost bytes = model::joined(blocks@);
        let ghost at = self.current_pos as int;
        let ghost data = if at < bytes.len() {
            bytes.skip(at)
        } else {
            Seq::empty()
        };
        let ghost extents = block::extents(blocks@);
        let ghost seams = Seams { extents, end: bytes.len() };
        let ghost end = final(old(buf))@;
        let mut rest: &mut [&mut [u8]] = buf;
        let mut read_len: usize = 0;
        proof {
            block::lemma_offset(blocks@, blocks@.len() as int);
            assert(end.skip(0) =~= end);
            if before.len() > 0 {
                assert(before[0]@.skip(0) =~= before[0]@);
                assert(data.subrange(0, 0) + final(before[0])@ =~= final(before[0])@);
            }
        }
        loop
            invariant
                block::sound(blocks@),
                block::extents(blocks@) == extents,
                bytes == model::joined(blocks@),
                data == (if at < bytes.len() {
                    bytes.skip(at)
                } else {
                    Seq::empty()
                }),
                self.located(extents),
                self.end_pos == old(self).end_pos == bytes.len() == model::total(extents),
                self.current_pos == at + read_len,
                at == old(self).current_pos,
                before == old(buf)@,
                end == final(old(buf))@,
                read_len <= data.len(),
                rest@.len() <= before.len(),
                end.len() == before.len() - rest@.len() + final(rest)@.len(),
                end.skip(before.len() - rest@.len()) == final(rest)@,
                io::room(rest@) == io::room(before) - read_len,
                io::room(before.take(before.len() - rest@.len())) <= read_len,
                read_len > 0 ==> self.current_pos_in_block == 0 || io::room(rest@) == 0,
                seams == (Seams { extents, end: bytes.len() }),
                rest@.len() > 0 ==> {
                    let m = before.len() - rest@.len();
                    let used = io::room(before.take(m)) as int;
                    &&& read_len - used <= before[m]@.len()
                    &&& read_len > 0 ==> read_len - used < before[m]@.len()
                    &&& rest@[0]@ == before[m]@.skip(read_len - used)
                    &&& final(before[m])@ == data.subrange(used, read_len as int)
                        + final(rest@[0])@
                    &&& rest@.skip(1) == before.skip(m + 1)
                },
                forall|i: int|
                    #![trigger end[i]]
                    0 <= i < before.len() - rest@.len() ==> io::received(
                        before[i]@,
                        final(before[i])@,
                        end[i]@,
                        final(end[i])@,
                        data,
                        io::room(before.take(i)) as int,
                        seams.before(
                            at + io::room(before.take(i)),
                            before[i]@.len(),
                        ),
                    ),
            decreases data.len() - read_len,
        {
            if self.current_block >= blocks.len() {
                proof {
                    let m = before.len() - rest@.len();
                    assert forall|i: int|
                        #![trigger end[i]]
                        m <= i < before.len() implies io::received(
                        before[i]@,
                        final(before[i])@,
                        rest@[i - m]@,
                        final(rest@[i - m])@,
                        data,
                        io::room(before.take(i)) as int,
                        seams.before(
                            at + io::room(before.take(i)),
                            before[i]@.len(),
                        ),
                    ) by {
                        let from = io::room(before.take(i)) as int;
                        let whole = io::filled(before[i]@, data, from);
                        let n = before[i]@.len() - rest@[i - m]@.len();
                        let behind = at + from + before[i]@.len();
                        if behind > bytes.len() {
                            model::lemma_block_at(extents, behind - 1, extents.len() as int);
                        }
                        if i > m {
                            io::lemma_room_rest(before, rest@, read_len as int, i - m);
                            assert(rest@[i - m] == rest@.skip(1)[i - m - 1]);
                            assert(before[i] == before.skip(m + 1)[i - m - 1]);
                        }
                        assert(whole.skip(n) =~= rest@[i - m]@);
                        assert(whole.take(n) + final(rest@[i - m])@ =~= final(before[i])@);
                    }
                }
                return Err(read_len);
            }
            let ghost mid = rest@;
            let ghost end_mid = final(rest)@;
            let bi: usize = self.current_block;
            let len: usize = blocks[bi].read(self.current_pos_in_block, &mut rest);
            proof {
                model::lemma_seam_in_block(seams, bi as int, self.current_pos as int);
                let part = blocks@[bi as int]@.skip(self.current_pos_in_block as int);
                block::lemma_block(blocks@, bi as int);
                assert(read_len + part.len() <= data.len());
                assert(part =~= data.subrange(read_len as int, read_len + part.len()));
                lemma_read_step(
                    before,
                    end,
                    mid,
                    end_mid,
                    rest@,
                    final(rest)@,
                    data,
                    part,
                    read_len as int,
                    len as int,
                    at,
                    seams,
                );
            }
            if len > 0 {
                read_len = read_len + len;
                self.advance(len, blocks);
                proof {
                    if io::room(rest@) > 0 {
                        self.lemma_at_bound(extents, bi + 1);
                    }
                }
            } else {
                return Ok(read_len);
            }
        }
    }

    /// Puts bytes of `buf` over the bytes at the position, until either of them comes to its end,
    /// and moves the position behind them. Returns how many bytes were put there, as an error if
    /// the position has come to the end; `buf` is advanced by as many.
    pub fn write<'a, S: IoSlice<'a>>(&mut self, buf: &mut &mut [S], blocks: &mut [Block]) -> (r:
        Result<usize, usize>)
        requires
            block::sound(old(blocks)@),
            old(self).located(block::extents(old(blocks)@)),
        ensures
            block::sound(final(blocks)@),
            block::extents(final(blocks)@) == block::extents(old(blocks)@),
            final(self).located(block::extents(final(blocks)@)),
            final(self).end_pos == old(self).end_pos,
            ({
                let data = model::joined(old(buf)@);
                let bytes = model::joined(old(blocks)@);
                let at = old(self).current_pos as int;
                let n = if at < bytes.len() {
                    model::min(bytes.len() - at, data.len() as int)
                } else {
                    0
                };
                &&& r == (if at + data.len() < bytes.len() {
                    Ok::<usize, usize>(n as usize)
                } else {
                    Err(n as usize)
                })
                &&& model::joined(final(blocks)@) == (if at < bytes.len() {
                    model::overlay(bytes, at, data.take(n))
                } else {
                    bytes
                })
                &&& final(self).current_pos == at + n
                &&& r is Ok ==> final(buf)@.len() == 0
                &&& io::drained(
                    old(buf)@,
                    final(*old(buf))@,
                    final(buf)@,
                    final(*final(buf))@,
                    n,
                    at,
                    Seams { extents: block::extents(old(blocks)@), end: bytes.len() },
                )
            }),
    {
        let ghost before = buf@;
        let ghost data = model::joined(before);
        let ghost bytes = model::joined(blocks@);
        let ghost extents = block::extents(blocks@);
        let ghost seams = Seams { extents, end: bytes.len() };
        let ghost at = self.current_pos as int;
        let mut written_len: usize = 0;
        proof {
            block::lemma_offset(blocks@, blocks@.len() as int);
            io::lemma_drained_none(buf@, final(*buf)@, at, seams);
            assert(at < bytes.len() ==> model::overlay(bytes, at, data.take(0)) =~= bytes);
        }
        loop
            invariant
                block::sound(blocks@),
                block::extents(blocks@) == extents,
                self.located(extents),
                self.end_pos == old(self).end_pos == bytes.len() == model::total(extents),
                self.current_pos == at + written_len,
                at == old(self).current_pos,
                data == model::joined(before),
                before == old(buf)@,
                bytes == model::joined(old(blocks)@),
                extents == block::extents(old(blocks)@),
                written_len <= data.len(),
                at < bytes.len() ==> {
                    &&& at + written_len <= bytes.len()
                    &&& model::joined(blocks@) == model::overlay(
                        bytes,
                        at,
                        data.take(written_len as int),
                    )
                },
                at >= bytes.len() ==> written_len == 0 && model::joined(blocks@) == bytes,
                written_len > 0 ==> self.current_pos_in_block == 0 || written_len == data.len(),
                seams == (Seams { extents, end: bytes.len() }),
                io::drained(
                    before,
                    final(*old(buf))@,
                    buf@,
                    final(*buf)@,
                    written_len as int,
                    at,
                    seams,
                ),
            decreases data.len() - written_len,
        {
            if self.current_block >= blocks.len() {
                return Err(written_len);
            }
            let ghost prev = blocks@;
            let ghost mid = buf@;
            let ghost end_mid = final(*buf)@;
            let bi: usize = self.current_block;
            let len: usize = blocks[bi].write(self.current_pos_in_block, buf);
            proof {
                let part = model::joined(mid).take(len as int);
                io::lemma_drained_left(
                    before,
                    final(*old(buf))@,
                    mid,
                    end_mid,
                    written_len as int,
                    at,
                    seams,
                );
                block::lemma_block(prev, bi as int);
                model::lemma_seam_in_block(seams, bi as int, self.current_pos as int);
                io::lemma_drained_advanced(
                    mid,
                    end_mid,
                    buf@,
                    final(*buf)@,
                    len as int,
                    at + written_len,
                    seams,
                );
                assert forall|pos: int|
                    written_len > 0 && at + written_len < pos <= at + data.len() implies at
                    + written_len <= #[trigger] seams.last(pos) by {
                    model::lemma_block_start(extents, pos - 1, bi as int);
                }
                io::lemma_drained_twice(
                    before,
                    final(*old(buf))@,
                    mid,
                    end_mid,
                    buf@,
                    final(*buf)@,
                    written_len as int,
                    len as int,
                    at,
                    seams,
                );
                block::lemma_write_block(
                    prev,
                    blocks@,
                    bi as int,
                    self.current_pos_in_block as int,
                    part,
                );
                model::lemma_overlay_twice(bytes, at, data.take(written_len as int), part);
                assert(data.take(written_len as int) + part =~= data.take(written_len + len));
            }
            if len > 0 {
                written_len = written_len + len;
                self.advance(len, blocks);
                proof {
                    if written_len < data.len() {
                        self.lemma_at_bound(extents, bi + 1);
                    }
                }
            } else {
                proof {
                    io::lemma_advanced_all(mid, buf@, 0);
                }
                return Ok(written_len);
            }
        }
    }

    /// Accounts for `extra` bytes that were put at the end of the last block. A position at the end
    /// moves along.
    pub fn append_end(&mut self, extra: usize, Ghost(extents): Ghost<Seq<Extent>>)
        requires
            extents.len() > 0,
            old(self).located(extents),
            old(self).current_pos <= old(self).end_pos,
            old(self).end_pos + extra <= usize::MAX,
        ensures
            final(self).located(model::widen(extents, extra as nat)),
            final(self).end_pos == old(self).end_pos + extra,
            final(self).current_pos == (if old(self).current_pos == old(self).end_pos {
                old(self).current_pos + extra
            } else {
                old(self).current_pos as int
            }),
    {
        proof {
            model::lemma_widen(extents, extra as nat);
        }
        if self.current_pos >= self.end_pos {
            self.current_pos = self.current_pos + extra;
            self.end_pos = self.current_pos;
        } else {
            self.end_pos = self.end_pos + extra;
        }
    }

    /// Accounts for a block that was put behind all others. A position at the end moves along.
    pub fn append_new(&mut self, block: &Block, Ghost(extents): Ghost<Seq<Extent>>)
        requires
            old(self).located(extents),
            old(self).current_pos <= old(self).end_pos,
            old(self).end_pos + block@.len() <= usize::MAX,
            extents.len() < usize::MAX,
            block.wf(),
        ensures
            final(self).located(extents.push(block.extent())),
            final(self).end_pos == old(self).end_pos + block@.len(),
            final(self).current_pos == (if old(self).current_pos == old(self).end_pos {
                old(self).current_pos + block@.len()
            } else {
                old(self).current_pos as int
            }),
    {
        proof {
            model::lemma_push(extents, block.extent());
        }
        if self.current_pos == self.end_pos {
            self.current_pos = self.current_pos + block.len();
            self.current_block = self.current_block + 1;
            self.current_pos_in_block = 0;
        }
        self.end_pos = self.end_pos + block.len();
    }

    /// Accounts for `extra` bytes that were put at the end of the last block, which is now `last`.
    /// The position stays.
    pub fn extend_end(&mut self, extra: usize, last: &Block, Ghost(extents): Ghost<Seq<Extent>>)
        requires
            extents.len() > 0,
            old(self).located(extents),
            old(self).end_pos + extra <= usize::MAX,
            last.wf(),
            last@.len() == extents.last().len + extra,
        ensures
            final(self).located(model::widen(extents, extra as nat)),
            final(self).end_pos == old(self).end_pos + extra,
            final(self).current_pos == old(self).current_pos,
    {
        proof {
            model::lemma_widen(extents, extra as nat);
        }
        if self.end_pos <= self.current_pos && self.current_pos < self.end_pos + extra {
            self.current_block = self.current_block - 1;
            self.current_pos_in_block = self.current_pos_in_block + (last.len() - extra);
        } else if self.current_pos >= self.end_pos + extra {
            self.current_pos_in_block = self.current_pos_in_block - extra;
        }
        self.end_pos = self.end_pos + extra;
    }

    /// Accounts for a block of `len` bytes that was put behind all others. The position stays.
    pub fn extend_new(&mut self, len: usize, Ghost(extents): Ghost<Seq<Extent>>, Ghost(
        extent,
    ): Ghost<Extent>)
        requires
            old(self).located(extents),
            old(self).end_pos + len <= usize::MAX,
            extents.len() < usize::MAX,
            extent.len == len,
        ensures
            final(self).located(extents.push(extent)),
            final(self).end_pos == old(self).end_pos + len,
            final(self).current_pos == old(self).current_pos,
    {
        proof {
            model::lemma_push(extents, extent);
        }
        if self.is_at_end() && self.current_pos_in_block >= len {
            self.current_block = self.current_block + 1;
            self.current_pos_in_block = self.current_pos_in_block - len;
        }
        self.end_pos = self.end_pos + len;
    }

    /// Accounts for everything from `new_pos` on being cut off, and tells in which block, and where
    /// in it, the cut lies; does nothing if there is nothing to cut off. The position stays.
    pub fn truncate(&mut self, new_pos: usize, blocks: &[Block]) -> (r: Option<(usize, usize)>)
        requires
            block::sound(blocks@),
            old(self).located(block::extents(blocks@)),
        ensures
            new_pos >= old(self).end_pos ==> r is None && *final(self) == *old(self),
            new_pos < old(self).end_pos ==> {
                let extents = block::extents(blocks@);
                &&& r matches Some((bi, pos_in_block))
                &&& bi < blocks@.len()
                &&& new_pos == model::offset(extents, bi as int) + pos_in_block
                &&& pos_in_block < extents[bi as int].len
                &&& final(self).located(model::cut(extents, new_pos as nat))
                &&& final(self).end_pos == new_pos
                &&& final(self).current_pos == old(self).current_pos
            },
    {
        if self.end_pos <= new_pos {
            return None;
        }
        let ghost extents = block::extents(blocks@);
        self.end_pos = new_pos;
        if self.current_pos < new_pos {
            let mut pos: usize = self.current_pos - self.current_pos_in_block;
            let mut bi: usize = self.current_block;
            while bi < blocks.len()
                invariant
                    block::sound(blocks@),
                    extents == block::extents(blocks@),
                    old(self).located(extents),
                    *self == (Seeker { end_pos: new_pos, ..*old(self) }),
                    self.current_pos < new_pos < old(self).end_pos,
                    self.current_block <= bi <= blocks@.len(),
                    pos == model::offset(extents, bi as int),
                    pos <= new_pos,
                decreases blocks@.len() - bi,
            {
                let len: usize = blocks[bi].len();
                if new_pos - pos < len {
                    proof {
                        self.lemma_stays(extents, new_pos as nat, bi as int);
                    }
                    return Some((bi, new_pos - pos));
                }
                pos = pos + len;
                bi = bi + 1;
            }
            None
        } else if self.current_pos == new_pos {
            proof {
                model::lemma_cut(extents, new_pos as nat, self.current_block as int);
                assert(self.current_block < blocks.len());
            }
            if self.current_pos_in_block > 0 {
                let pos_in_block: usize = self.current_pos_in_block;
                self.current_block = self.current_block + 1;
                self.current_pos_in_block = 0;
                Some((self.current_block - 1, pos_in_block))
            } else {
                Some((self.current_block, 0))
            }
        } else {
            let delta: usize = self.current_pos - new_pos;
            // How far the position lies behind the start of block `bi`.
            let mut pos: usize = self.current_pos_in_block;
            let mut bi: usize = self.current_block;
            while bi > 0 && pos < delta
                invariant
                    block::sound(blocks@),
                    extents == block::extents(blocks@),
                    bi <= blocks@.len(),
                    self.current_pos == model::offset(extents, bi as int) + pos,
                    delta == self.current_pos - new_pos,
                    bi < blocks@.len() ==> new_pos < model::offset(extents, bi + 1),
                    bi == blocks@.len() ==> pos < delta,
                    *self == (Seeker { end_pos: new_pos, ..*old(self) }),
                decreases bi,
            {
                bi = bi - 1;
                pos = pos + blocks[bi].len();
            }
            let pos_in_block: usize = pos - delta;
            proof {
                model::lemma_cut(extents, new_pos as nat, bi as int);
                assert(bi < blocks.len());
            }
            self.current_block = if pos_in_block == 0 {
                bi
            } else {
                bi + 1
            };
            self.current_pos_in_block = delta;
            Some((bi, pos_in_block))
        }
    }

    /// A position before a cut in block `i` is placed right also after it.
    proof fn lemma_stays(self, extents: Seq<Extent>, n: nat, i: int)
        requires
            0 <= i < extents.len(),
            model::offset(extents, i) <= n < model::offset(extents, i + 1),
            forall|j: int| 0 <= j < extents.len() ==> (#[trigger] extents[j]).len > 0,
            self.current_pos < n == self.end_pos,
            self.current_block <= i,
            self.current_pos == model::offset(extents, self.current_block as int)
                + self.current_pos_in_block,
            self.current_pos_in_block < extents[self.current_block as int].len,
        ensures
            self.located(model::cut(extents, n)),
    {
        model::lemma_cut(extents, n, i);
        model::lemma_offset_prefix(
            model::cut(extents, n),
            extents,
            self.current_block as int,
        );
    }

    /// Moves the position to `new_pos`, which lies at the end or behind it.
    fn leave(&mut self, new_pos: usize, blocks: &[Block])
        requires
            model::total(block::extents(blocks@)) == old(self).end_pos,
            new_pos >= old(self).end_pos,
        ensures
            final(self).located(block::extents(blocks@)),
            final(self).current_pos == new_pos,
            final(self).end_pos == old(self).end_pos,
    {
        self.current_block = blocks.len();
        self.current_pos_in_block = new_pos - self.end_pos;
        self.current_pos = new_pos;
    }

    /// Moves the position forward by `delta`.
    pub fn advance(&mut self, delta: usize, blocks: &[Block]) -> (r: Option<usize>)
        requires
            block::sound(blocks@),
            old(self).located(block::extents(blocks@)),
            old(self).current_pos + delta <= usize::MAX,
        ensures
            final(self).located(block::extents(blocks@)),
            final(self).current_pos == old(self).current_pos + delta,
            final(self).end_pos == old(self).end_pos,
            r == Some(final(self).current_pos),
    {
        let new_pos: usize = self.current_pos + delta;
        if new_pos >= self.end_pos {
            self.leave(new_pos, blocks);
            return Some(new_pos);
        }
        let ghost extents = block::extents(blocks@);
        let mut pos: usize = self.current_pos_in_block + delta;
        let mut bi: usize = self.current_block;
        while bi < blocks.len()
            invariant
                block::sound(blocks@),
                extents == block::extents(blocks@),
                *self == *old(self),
                bi <= blocks@.len(),
                new_pos == old(self).current_pos + delta,
                new_pos == model::offset(extents, bi as int) + pos,
                new_pos < self.end_pos == model::total(extents),
            decreases blocks@.len() - bi,
        {
            let len: usize = blocks[bi].len();
            if pos < len {
                self.current_block = bi;
                self.current_pos_in_block = pos;
                self.current_pos = new_pos;
                return Some(new_pos);
            }
            pos = pos - len;
            bi = bi + 1;
        }
        None
    }

    /// Moves the position to `start`.
    pub fn seek_from_start(&mut self, start: usize, blocks: &[Block]) -> (r: Option<usize>)
        requires
            block::sound(blocks@),
            model::total(block::extents(blocks@)) == old(self).end_pos,
        ensures
            final(self).located(block::extents(blocks@)),
            final(self).current_pos == start,
            final(self).end_pos == old(self).end_pos,
            r == Some(start),
    {
        let new_pos: usize = start;
        if new_pos >= self.end_pos {
            self.leave(new_pos, blocks);
            return Some(new_pos);
        }
        let ghost extents = block::extents(blocks@);
        let mut pos: usize = start;
        let mut bi: usize = 0;
        while bi < blocks.len()
            invariant
                block::sound(blocks@),
                extents == block::extents(blocks@),
                *self == *old(self),
                bi <= blocks@.len(),
                new_pos == start == model::offset(extents, bi as int) + pos,
                new_pos < self.end_pos == model::total(extents),
            decreases blocks@.len() - bi,
        {
            let len: usize = blocks[bi].len();
            if pos < len {
                self.current_block = bi;
                self.current_pos_in_block = pos;
                self.current_pos = new_pos;
                return Some(new_pos);
            }
            pos = pos - len;
            bi = bi + 1;
        }
        None
    }

    /// Moves the position to `bound`, or to the end if that comes first.
    pub fn seek_bound(&mut self, bound: usize, blocks: &[Block])
        requires
            block::sound(blocks@),
            model::total(block::extents(blocks@)) == old(self).end_pos,
        ensures
            final(self).located(block::extents(blocks@)),
            final(self).current_pos == model::min(bound as int, old(self).end_pos as int),
            final(self).end_pos == old(self).end_pos,
    {
        let mid: usize = self.end_pos / 2;
        if bound < mid {
            self.seek_from_start(bound, blocks);
        } else if bound < self.end_pos {
            self.seek_back_from_end(self.end_pos - bound, blocks);
        } else {
            self.seek_from_end(0, blocks);
        }
    }

    /// Moves the position to `end` bytes behind the end, or before it if that is negative; does
    /// nothing if this lies before the front.
    pub fn seek_from_end(&mut self, end: isize, blocks: &[Block]) -> (r: Option<usize>)
        requires
            block::sound(blocks@),
            model::total(block::extents(blocks@)) == old(self).end_pos,
            old(self).end_pos + end <= usize::MAX,
        ensures
            old(self).end_pos + end < 0 ==> r is None && *final(self) == *old(self),
            old(self).end_pos + end >= 0 ==> {
                &&& final(self).located(block::extents(blocks@))
                &&& final(self).current_pos == old(self).end_pos + end
                &&& final(self).end_pos == old(self).end_pos
                &&& r == Some(final(self).current_pos)
            },
    {
        if end >= 0 {
            let new_pos: usize = self.end_pos + end as usize;
            self.leave(new_pos, blocks);
            return Some(new_pos);
        }
        self.seek_back_from_end(magnitude(end), blocks)
    }

    /// Moves the position to `pos_delta` bytes before the end; does nothing if this lies before the
    /// front.
    fn seek_back_from_end(&mut self, pos_delta: usize, blocks: &[Block]) -> (r: Option<usize>)
        requires
            block::sound(blocks@),
            model::total(block::extents(blocks@)) == old(self).end_pos,
            pos_delta > 0,
        ensures
            old(self).end_pos < pos_delta ==> r is None && *final(self) == *old(self),
            old(self).end_pos >= pos_delta ==> {
                &&& final(self).located(block::extents(blocks@))
                &&& final(self).current_pos == old(self).end_pos - pos_delta
                &&& final(self).end_pos == old(self).end_pos
                &&& r == Some(final(self).current_pos)
            },
    {
        if self.end_pos < pos_delta {
            return None;
        }
        let new_pos: usize = self.end_pos - pos_delta;
        let ghost extents = block::extents(blocks@);
        if new_pos == 0 {
            self.rewind(Ghost(extents));
            return Some(0);
        }
        let mut pos: usize = 0;
        let mut bi: usize = blocks.len();
        while bi > 0
            invariant
                block::sound(blocks@),
                extents == block::extents(blocks@),
                *self == *old(self),
                bi <= blocks@.len(),
                0 < pos_delta <= self.end_pos,
                new_pos == self.end_pos - pos_delta,
                self.end_pos == model::total(extents),
                self.end_pos == model::offset(extents, bi as int) + pos,
                pos < pos_delta,
            decreases bi,
        {
            bi = bi - 1;
            pos = pos + blocks[bi].len();
            if pos >= pos_delta {
                self.current_block = bi;
                self.current_pos_in_block = pos - pos_delta;
                self.current_pos = new_pos;
                return Some(new_pos);
            }
        }
        None
    }

    /// Moves the position to the front.
    fn rewind(&mut self, Ghost(extents): Ghost<Seq<Extent>>)
        requires
            model::total(extents) == old(self).end_pos,
            extents.len() > 0 ==> extents[0].len > 0,
        ensures
            final(self).located(extents),
            final(self).current_pos == 0,
            final(self).end_pos == old(self).end_pos,
    {
        *self = Seeker::start(self.end_pos);
    }

    /// Moves the position by `current` bytes; does nothing if this leads before the front.
    pub fn seek_from_current(&mut self, current: isize, blocks: &[Block]) -> (r: Option<usize>)
        requires
            block::sound(blocks@),
            old(self).located(block::extents(blocks@)),
            old(self).current_pos + current <= usize::MAX,
        ensures
            old(self).current_pos + current < 0 ==> r is None && *final(self) == *old(self),
            old(self).current_pos + current >= 0 ==> {
                &&& final(self).located(block::extents(blocks@))
                &&& final(self).current_pos == old(self).current_pos + current
                &&& final(self).end_pos == old(self).end_pos
                &&& r == Some(final(self).current_pos)
            },
    {
        if current == 0 {
            return Some(self.current_pos);
        }
        if current > 0 {
            return self.advance(current as usize, blocks);
        }
        let pos_delta: usize = magnitude(current);
        if self.current_pos < pos_delta {
            return None;
        }
        let new_pos: usize = self.current_pos - pos_delta;
        let ghost extents = block::extents(blocks@);
        if new_pos == 0 {
            self.rewind(Ghost(extents));
            return Some(0);
        }
        if self.current_pos_in_block >= pos_delta {
            self.current_pos_in_block = self.current_pos_in_block - pos_delta;
            self.current_pos = new_pos;
            return Some(new_pos);
        }
        let mut pos: usize = self.current_pos_in_block;
        let mut bi: usize = self.current_block;
        while bi > 0
            invariant
                block::sound(blocks@),
                extents == block::extents(blocks@),
                *self == *old(self),
                bi <= self.current_block <= blocks@.len(),
                0 < pos_delta <= self.current_pos,
                new_pos == self.current_pos - pos_delta,
                self.end_pos == model::total(extents),
                self.current_pos == model::offset(extents, bi as int) + pos,
                pos < pos_delta,
                pos_delta == -current,
            decreases bi,
        {
            bi = bi - 1;
            pos = pos + blocks[bi].len();
            if pos >= pos_delta {
                self.current_block = bi;
                self.current_pos_in_block = pos - pos_delta;
                self.current_pos = new_pos;
                proof {
                    model::lemma_offset_monotonic(extents, bi + 1, extents.len() as int);
                }
                return Some(new_pos);
            }
        }
        None
    }
}

/// One more buffer has been filled with bytes of a block.
proof fn lemma_read_piece(
    before: Seq<&mut [u8]>,
    mid: Seq<&mut [u8]>,
    data: Seq<u8>,
    part: Seq<u8>,
    read_len: int,
    len: int,
    start: int,
    seams: Seams,
    k: int,
    j: int,
    end_before: Seq<u8>,
    after: Seq<u8>,
    end_after: Seq<u8>,
)
    requires
        0 <= read_len,
        len <= part.len(),
        read_len + part.len() <= data.len(),
        part == data.subrange(read_len, read_len + part.len()),
        mid.len() <= before.len(),
        io::room(before.take(before.len() - mid.len())) <= read_len,
        ({
            let m = before.len() - mid.len();
            let used = io::room(before.take(m)) as int;
            &&& read_len - used <= before[m]@.len()
            &&& read_len > 0 ==> read_len - used < before[m]@.len()
            &&& mid[0]@ == before[m]@.skip(read_len - used)
            &&& mid.skip(1) == before.skip(m + 1)
            &&& end_before == (if j == 0 {
                data.subrange(used, read_len) + end_after
            } else {
                end_after
            })
        }),
        forall|pos: int|
            start + read_len < pos <= start + read_len + len ==> #[trigger] seams.last(pos) <= start
                + read_len && (read_len > 0 ==> seams.last(pos) == start + read_len),
        0 <= j < k <= mid.len(),
        io::room(mid.take(k)) <= len,
        after == part.subrange(
            io::room(mid.take(j)) as int,
            (io::room(mid.take(j)) + mid[j]@.len()) as int,
        ),
    ensures
        ({
            let b = before[before.len() - mid.len() + j]@;
            let at = io::room(before.take(before.len() - mid.len() + j)) as int;
            io::received(
                b,
                end_before,
                after,
                end_after,
                data,
                at,
                seams.before(start + at, b.len()),
            )
        }),
{
    let m = before.len() - mid.len();
    let used = io::room(before.take(m)) as int;
    let from = io::room(mid.take(j)) as int;
    let to = from + mid[j]@.len();
    let at = io::room(before.take(m + j)) as int;
    let b = before[m + j]@;
    let n = if j == 0 {
        read_len - used
    } else {
        0
    };
    io::lemma_room_around(mid, j);
    io::lemma_room_monotonic(mid, j + 1, k);
    io::lemma_room_around(before, m + j);
    io::lemma_room_rest(before, mid, read_len, j + 1);
    assert(part.subrange(from, to) =~= data.subrange(read_len + from, read_len + to));
    if j > 0 {
        assert(mid[j] == mid.skip(1)[j - 1]);
        assert(before[m + j] == before.skip(m + 1)[j - 1]);
        io::lemma_room_rest(before, mid, read_len, j);
        assert(data.subrange(at, at) + end_after =~= end_after);
    } else {
        assert(mid.take(0) =~= Seq::empty());
    }
    if mid[j]@.len() > 0 {
        assert(seams.last(start + at + b.len()) <= start + read_len);
    }
    assert(seams.before(start + at, b.len()) == n);
    io::lemma_received_all(b, end_before, after, end_after, data, at, n);
}

/// One more block has been read.
proof fn lemma_read_step(
    before: Seq<&mut [u8]>,
    end: Seq<&mut [u8]>,
    mid: Seq<&mut [u8]>,
    end_mid: Seq<&mut [u8]>,
    rest: Seq<&mut [u8]>,
    end_rest: Seq<&mut [u8]>,
    data: Seq<u8>,
    part: Seq<u8>,
    read_len: int,
    len: int,
    start: int,
    seams: Seams,
)
    requires
        0 <= read_len,
        read_len + part.len() <= data.len(),
        part == data.subrange(read_len, read_len + part.len()),
        mid.len() <= before.len(),
        end.len() == before.len() - mid.len() + end_mid.len(),
        end.skip(before.len() - mid.len()) == end_mid,
        io::room(mid) == io::room(before) - read_len,
        io::room(before.take(before.len() - mid.len())) <= read_len,
        mid.len() > 0 ==> {
            let m = before.len() - mid.len();
            let used = io::room(before.take(m)) as int;
            &&& read_len - used <= before[m]@.len()
            &&& read_len > 0 ==> read_len - used < before[m]@.len()
            &&& mid[0]@ == before[m]@.skip(read_len - used)
            &&& final(before[m])@ == data.subrange(used, read_len) + final(mid[0])@
            &&& mid.skip(1) == before.skip(m + 1)
        },
        forall|i: int|
            #![trigger end[i]]
            0 <= i < before.len() - mid.len() ==> io::received(
                before[i]@,
                final(before[i])@,
                end[i]@,
                final(end[i])@,
                data,
                io::room(before.take(i)) as int,
                seams.before(start + io::room(before.take(i)), before[i]@.len()),
            ),
        len == model::min(part.len() as int, io::room(mid) as int),
        forall|pos: int|
            start + read_len < pos <= start + read_len + len ==> #[trigger] seams.last(pos) <= start
                + read_len && (read_len > 0 ==> seams.last(pos) == start + read_len),
        io::advanced_mut(mid, rest, len),
        rest.len() > 0 ==> final(mid[mid.len() - rest.len()])@ == part.subrange(
            io::room(mid.take(mid.len() - rest.len())) as int,
            len,
        ) + final(rest[0])@,
        end_mid.len() == mid.len() - rest.len() + end_rest.len(),
        end_mid.skip(mid.len() - rest.len()) == end_rest,
        forall|i: int|
            #![trigger end_mid[i]]
            0 <= i < mid.len() - rest.len() ==> {
                let at = io::room(mid.take(i)) as int;
                &&& end_mid[i]@ == part.subrange(at, at + mid[i]@.len())
                &&& final(end_mid[i])@ == final(mid[i])@
            },
    ensures
        end.len() == before.len() - rest.len() + end_rest.len(),
        end.skip(before.len() - rest.len()) == end_rest,
        io::room(rest) == io::room(before) - read_len - len,
        io::room(before.take(before.len() - rest.len())) <= read_len + len,
        rest.len() > 0 ==> {
            let m = before.len() - rest.len();
            let used = io::room(before.take(m)) as int;
            &&& read_len + len - used < before[m]@.len()
            &&& rest[0]@ == before[m]@.skip(read_len + len - used)
            &&& final(before[m])@ == data.subrange(used, read_len + len) + final(rest[0])@
            &&& rest.skip(1) == before.skip(m + 1)
            &&& io::room(rest) > 0
        },
        forall|i: int|
            #![trigger end[i]]
            0 <= i < before.len() - rest.len() ==> io::received(
                before[i]@,
                final(before[i])@,
                end[i]@,
                final(end[i])@,
                data,
                io::room(before.take(i)) as int,
                seams.before(start + io::room(before.take(i)), before[i]@.len()),
            ),
{
    let m = before.len() - mid.len();
    let k = mid.len() - rest.len();
    let used = io::room(before.take(m)) as int;
    assert forall|j: int| 1 <= j <= mid.len() implies read_len + io::room(
        #[trigger] mid.take(j),
    ) == io::room(before.take(m + j)) by {
        io::lemma_room_rest(before, mid, read_len, j);
    }
    assert forall|j: int| #![trigger end_mid[j]] 0 <= j < k implies io::received(
        before[m + j]@,
        final(before[m + j])@,
        end_mid[j]@,
        final(end_mid[j])@,
        data,
        io::room(before.take(m + j)) as int,
        seams.before(start + io::room(before.take(m + j)), before[m + j]@.len()),
    ) by {
        if j > 0 {
            assert(mid[j] == mid.skip(1)[j - 1]);
            assert(before[m + j] == before.skip(m + 1)[j - 1]);
        }
        lemma_read_piece(
            before,
            mid,
            data,
            part,
            read_len,
            len,
            start,
            seams,
            k,
            j,
            final(before[m + j])@,
            end_mid[j]@,
            final(end_mid[j])@,
        );
    }
    assert forall|i: int| #![trigger end[i]] 0 <= i < m + k implies io::received(
        before[i]@,
        final(before[i])@,
        end[i]@,
        final(end[i])@,
        data,
        io::room(before.take(i)) as int,
        seams.before(start + io::room(before.take(i)), before[i]@.len()),
    ) by {
        if i >= m {
            assert(end[i] == end.skip(m)[i - m]);
        }
    }
    assert(end.skip(m + k) =~= end_mid.skip(k));
    if rest.len() > 0 {
        io::lemma_room_around(mid, k);
        let taken = io::room(mid.take(k)) as int;
        assert(part.subrange(taken, len) =~= data.subrange(
            read_len + taken,
            read_len + len,
        ));
        if k > 0 {
            assert(mid.take(k).len() == k);
            assert(mid[k] == mid.skip(1)[k - 1]);
            assert(before[m + k] == before.skip(m + 1)[k - 1]);
            assert(rest[0]@ =~= before[m + k]@.skip(len - taken));
        } else {
            assert(rest[0]@ =~= before[m]@.skip(read_len + len - used));
            assert(final(before[m])@ =~= data.subrange(used, read_len + len)
                + final(rest[0])@);
        }
        assert forall|i: int| 0 <= i < rest.len() - 1 implies #[trigger] rest.skip(
            1,
        )[i] == before.skip(m + k + 1)[i] by {
            assert(rest.skip(1)[i] == mid.skip(k + 1)[i]);
            assert(mid[k + 1 + i] == mid.skip(1)[k + i]);
            assert(before[m + k + 1 + i] == before.skip(m + 1)[k + i]);
        }
        assert(rest.skip(1) =~= before.skip(m + k + 1));
        io::lemma_room_around(rest, 0);
    }
}

/// The distance that a negative number of bytes stands for.
fn magnitude(n: isize) -> (r: usize)
    requires
        n < 0,
    ensures
        r == -n,
{
    (-(n + 1)) as usize + 1
}

} // verus!
