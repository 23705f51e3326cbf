//! Blocked vectors.

use crate::block;
use crate::block::Block;
use crate::io;
use crate::io::{IoSlice, SeekFrom};
use crate::iter;
use crate::iter::{BlockIter, BlockIterMut, RangeIter, RangeIterMut};
use crate::layout;
use crate::layout::{Layout, LayoutError};
use crate::model;
use crate::model::{Model, Seams};
use crate::page;
use crate::seeker::Seeker;
use std::ops::Bound;
use vstd::prelude::*;

verus! {

/// A vector of blocks.
///
/// It is used like a file that is held in memory: it has a cursor, which reads and writes start
/// from and move, and which may be moved behind the end; a write there fills the gap with zeros.
/// A vector that nothing has been stored in yet has no cursor, and neither reads nor writes do
/// anything to it.
#[derive(Debug)]
pub struct BlockedVec {
    blocks: Vec<Block>,
    layout: Layout,
    len: usize,
    seeker: Option<Seeker>,
}

impl View for BlockedVec {
    type V = Model;

    closed spec fn view(&self) -> Model {
        Model {
            bytes: model::joined(self.blocks@),
            extents: block::extents(self.blocks@),
            cursor: match self.seeker {
                Some(seeker) => Some(seeker.current_pos as nat),
                None => None,
            },
            page: self.layout,
        }
    }
}

impl BlockedVec {
    /// What holds of every blocked vector.
    pub closed spec fn wf(&self) -> bool {
        &&& block::sound(self.blocks@)
        &&& self.len == model::total(block::extents(self.blocks@))
        &&& match self.seeker {
            Some(seeker) => seeker.located(block::extents(self.blocks@)),
            None => self.blocks@.len() == 0,
        }
    }

    /// A vector that is well-formed has a model that is, too.
    pub proof fn lemma_wf(&self)
        requires
            self.wf(),
        ensures
            self@.wf(),
            self@.bytes.len() <= usize::MAX,
            self@.cursor matches Some(at) ==> at <= usize::MAX,
    {
        block::lemma_offset(self.blocks@, self.blocks@.len() as int);
        assert forall|i: int| 0 <= i < self@.extents.len() implies 0 < (
        #[trigger] self@.extents[i]).len <= self@.extents[i].capacity by {
            self.blocks@[i].lemma_wf();
        }
    }

    /// Makes a vector with pages of the machine's page size.
    ///
    /// # Errors
    ///
    /// Fails if the page size cannot be made into a layout.
    pub fn new() -> (r: Result<Self, LayoutError>)
        ensures
            exists|page_size: usize|
                {
                    &&& #[trigger] page::reported(page_size)
                    &&& r is Ok <==> layout::valid_layout(page_size as int, page_size as int)
                    &&& r matches Ok(vec) ==> {
                        &&& vec.wf()
                        &&& vec@ == Model::empty(vec@.page)
                        &&& vec@.page.size() == page_size
                        &&& vec@.page.align() == page_size
                    }
                },
    {
        Self::with_page_size(page::size())
    }

    /// Makes a vector with pages of the given size, aligned to it.
    ///
    /// # Errors
    ///
    /// Fails if the page size cannot be made into a layout.
    pub fn with_page_size(page_size: usize) -> (r: Result<Self, LayoutError>)
        ensures
            r is Ok <==> layout::valid_layout(page_size as int, page_size as int),
            r matches Ok(vec) ==> {
                &&& vec.wf()
                &&& vec@ == Model::empty(vec@.page)
                &&& vec@.page.size() == page_size
                &&& vec@.page.align() == page_size
            },
    {
        match Layout::from_size_align(page_size, page_size) {
            Ok(layout) => Ok(Self::new_paged(layout)),
            Err(e) => Err(e),
        }
    }

    /// Makes a vector with pages of the machine's page size and an initial length, with the cursor
    /// placed at the front.
    ///
    /// # Errors
    ///
    /// Fails if the page size, or the pages that hold the bytes, cannot be made into a layout.
    pub fn with_len(len: usize) -> (r: Result<Self, LayoutError>)
        ensures
            len > isize::MAX ==> r is Err,
            exists|page_size: usize|
                {
                    &&& #[trigger] page::reported(page_size)
                    &&& r is Ok <==> {
                        &&& layout::valid_layout(page_size as int, page_size as int)
                        &&& len > 0 ==> layout::valid_layout(
                            (layout::div_up(len as nat, page_size as nat) * page_size) as int,
                            page_size as int,
                        )
                    }
                    &&& r matches Ok(vec) ==> {
                        &&& vec.wf()
                        &&& vec@ == Model::zeroed(vec@.page, len as nat)
                        &&& vec@.page.size() == page_size
                        &&& vec@.page.align() == page_size
                    }
                },
    {
        Self::with_len_and_page_size(len, page::size())
    }

    /// Makes a vector with pages of the given size, aligned to it, and an initial length, with the
    /// cursor placed at the front.
    ///
    /// # Errors
    ///
    /// Fails if the page size, or the pages that hold the bytes, cannot be made into a layout.
    pub fn with_len_and_page_size(len: usize, page_size: usize) -> (r: Result<Self, LayoutError>)
        ensures
            len > isize::MAX ==> r is Err,
            r is Ok <==> {
                &&& layout::valid_layout(page_size as int, page_size as int)
                &&& len > 0 ==> layout::valid_layout(
                    (layout::div_up(len as nat, page_size as nat) * page_size) as int,
                    page_size as int,
                )
            },
            r matches Ok(vec) ==> {
                &&& vec.wf()
                &&& vec@ == Model::zeroed(vec@.page, len as nat)
                &&& vec@.page.size() == page_size
                &&& vec@.page.align() == page_size
            },
    {
        match Layout::from_size_align(page_size, page_size) {
            Ok(layout) => {
                proof {
                    layout.lemma_square();
                }
                if len > 0 {
                    match layout.for_len(len) {
                        Ok(_) => {},
                        Err(e) => {
                            return Err(e);
                        },
                    }
                }
                Ok(Self::with_len_paged(len, layout))
            },
            Err(e) => Err(e),
        }
    }

    /// Makes a vector with a given page layout.
    pub fn new_paged(page_layout: Layout) -> (r: Self)
        ensures
            r.wf(),
            r@ == Model::empty(page_layout),
    {
        let r = BlockedVec { blocks: Vec::new(), layout: page_layout, len: 0, seeker: None };
        assert(r@.extents =~= Seq::empty());
        r
    }

    /// Makes a vector with a given page layout and an initial length, with the cursor placed at the
    /// front.
    pub fn with_len_paged(len: usize, page_layout: Layout) -> (r: Self)
        requires
            len > 0 ==> page_layout.holds(len as nat),
        ensures
            r.wf(),
            r@ == Model::zeroed(page_layout, len as nat),
    {
        match Block::with_len(page_layout, len) {
            Some(block) => {
                let mut blocks: Vec<Block> = Vec::new();
                proof {
                    block::lemma_push_block(blocks@, block);
                    model::lemma_push(block::extents(blocks@), block.extent());
                    assert(block::extents(blocks@) =~= Seq::empty());
                    assert(Seq::empty().push(block.extent()) =~= seq![block.extent()]);
                    assert(model::joined(blocks@) + block@ =~= model::zeros(len as nat));
                }
                blocks.push(block);
                BlockedVec {
                    blocks,
                    layout: page_layout,
                    len,
                    seeker: Some(Seeker::start(len)),
                }
            },
            None => Self::new_paged(page_layout),
        }
    }

    /// The number of bytes.
    pub fn len(&self) -> (r: usize)
        requires
            self.wf(),
        ensures
            r == self@.bytes.len(),
    {
        proof {
            self.lemma_wf();
        }
        self.len
    }

    /// Whether there are no bytes.
    #[must_use]
    pub fn is_empty(&self) -> (r: bool)
        requires
            self.wf(),
        ensures
            r == (self@.bytes.len() == 0),
    {
        proof {
            self.lemma_wf();
        }
        self.len == 0
    }

    /// Whether the machine can hold `additional` more bytes at the end.
    pub fn can_grow(&self, additional: usize) -> (r: bool)
        requires
            self.wf(),
        ensures
            r == self@.can_grow(additional as nat),
    {
        proof {
            self.lemma_wf();
        }
        let count: usize = self.blocks.len();
        let spare: usize = if count == 0 {
            0
        } else {
            let last: &Block = &self.blocks[count - 1];
            proof {
                last.lemma_wf();
                assert(self@.extents.last() == last.extent());
            }
            last.capacity() - last.len()
        };
        additional <= usize::MAX - self.len && (additional <= spare || self.layout.for_len(
            additional - spare,
        ).is_ok())
    }

    /// Whether the machine can hold what a write of `len` bytes at the cursor adds at the end. That
    /// is nothing if there is no cursor yet.
    pub fn can_write(&self, len: usize) -> (r: bool)
        requires
            self.wf(),
        ensures
            r == (self@.cursor matches Some(at) ==> self@.can_grow(
                self@.excess(at, len as nat),
            )),
    {
        proof {
            self.lemma_wf();
        }
        match self.seeker {
            Some(seeker) => match seeker.current_pos.checked_add(len) {
                Some(end) => end <= self.len || self.can_grow(end - self.len),
                None => false,
            },
            None => true,
        }
    }

    /// Whether the machine can hold what a write of `len` bytes at a given position adds at the
    /// end. That is nothing if there is no cursor yet, or nothing to write.
    pub fn can_write_at(&self, pos: usize, len: usize) -> (r: bool)
        requires
            self.wf(),
        ensures
            r == (self@.cursor is Some && len > 0 ==> self@.can_grow(
                self@.excess(pos as nat, len as nat),
            )),
    {
        proof {
            self.lemma_wf();
        }
        if self.seeker.is_none() || len == 0 {
            return true;
        }
        match pos.checked_add(len) {
            Some(end) => end <= self.len || self.can_grow(end - self.len),
            None => false,
        }
    }

    /// Adds zeros at the end and leaves the cursor where it is. A vector without a cursor gets one,
    /// at the front.
    pub fn extend(&mut self, additional: usize)
        requires
            old(self).wf(),
            old(self)@.can_grow(additional as nat),
        ensures
            final(self).wf(),
            final(self)@ == old(self)@.extend(additional as nat),
    {
        let ghost blocks = self.blocks@;
        let ghost extents = block::extents(blocks);
        let ghost zeros = model::zeros(additional as nat);
        proof {
            self.lemma_wf();
        }
        match self.seeker {
            Some(here) => {
                let mut seeker: Seeker = here;
                let mut none: &mut [&[u8]] = &mut [];
                let count: usize = self.blocks.len();
                let (done, len) = match extend_last(&mut self.blocks, additional, &mut none) {
                    Ok(len) => (true, len),
                    Err(len) => (false, len),
                };
                assert(zeros + Seq::<u8>::empty() =~= zeros);
                if count > 0 {
                    proof {
                        let after = block::extents(self.blocks@);
                        assert(after == model::widen(extents, len as nat));
                        assert(extents.len() == count);
                        assert(after.len() == count);
                        assert(after[count - 1] == self.blocks@[count - 1].extent());
                        assert(after[count - 1].len == extents[count - 1].len + len);
                    }
                    seeker.extend_end(len, &self.blocks[count - 1], Ghost(extents));
                }
                self.len = self.len + len;
                self.seeker = Some(seeker);
                if !done {
                    self.extend_block(additional - len);
                }
            },
            None => {
                assert(extents =~= Seq::empty());
                *self = Self::with_len_paged(additional, self.layout);
            },
        }
    }

    /// Adds a block of `len` zeros, if there are any, and leaves the cursor where it is.
    fn extend_block(&mut self, len: usize)
        requires
            old(self).wf(),
            old(self)@.cursor is Some,
            old(self)@.bytes.len() + len <= usize::MAX,
            len > 0 ==> old(self)@.page.holds(len as nat),
        ensures
            final(self).wf(),
            len == 0 ==> final(self)@ == old(self)@,
            len > 0 ==> final(self)@ == (Model {
                bytes: old(self)@.bytes + model::zeros(len as nat),
                extents: old(self)@.extents.push(
                    model::Extent {
                        len: len as nat,
                        capacity: old(self)@.page.block_size(len as nat),
                    },
                ),
                ..old(self)@
            }),
    {
        proof {
            self.lemma_wf();
        }
        let ghost blocks = self.blocks@;
        let ghost extents = block::extents(blocks);
        let mut none: &mut [&[u8]] = &mut [];
        match (Block::from_buf(self.layout, len, &mut none), self.seeker) {
            (Some((new, _)), Some(here)) => {
                let mut seeker: Seeker = here;
                proof {
                    model::lemma_count(extents, extents.len() as int);
                    block::lemma_push_block(blocks, new);
                    model::lemma_push(extents, new.extent());
                    assert(new@ =~= model::zeros(len as nat));
                }
                seeker.extend_new(len, Ghost(extents), Ghost(new.extent()));
                self.len = self.len + len;
                self.blocks.push(new);
                self.seeker = Some(seeker);
            },
            _ => {},
        }
    }

    /// Shortens the vector to the given length and leaves the cursor where it is. Does nothing if
    /// the vector is no longer than that.
    ///
    /// # Returns
    ///
    /// Whether the vector was shortened.
    pub fn truncate(&mut self, len: usize) -> (r: bool)
        requires
            old(self).wf(),
        ensures
            final(self).wf(),
            final(self)@ == old(self)@.truncate(len as nat),
            r == (len < old(self)@.bytes.len()),
    {
        let ghost blocks = self.blocks@;
        let ghost extents = block::extents(blocks);
        proof {
            self.lemma_wf();
        }
        match &mut self.seeker {
            Some(seeker) => match seeker.truncate(len, self.blocks.as_slice()) {
                Some((bi, pos_in_block)) => {
                    let ghost at = bi as int;
                    assert(bi < self.blocks.len());
                    let bi: usize = match self.blocks[bi].truncate(pos_in_block) {
                        Some(true) => bi,
                        _ => bi + 1,
                    };
                    if bi < self.blocks.len() {
                        self.blocks.truncate(bi);
                    }
                    proof {
                        assert(self.blocks@.take(at) =~= blocks.take(at));
                        block::lemma_truncate(blocks, self.blocks@, at, pos_in_block as int);
                    }
                    self.len = len;
                    true
                },
                None => false,
            },
            None => false,
        }
    }

    /// Shortens the vector, or extends it with zeros, to the given length, and leaves the cursor
    /// where it is. A vector without a cursor that is extended gets one, at the front.
    pub fn resize(&mut self, new_len: usize)
        requires
            old(self).wf(),
            new_len > old(self)@.bytes.len() ==> old(self)@.can_grow(
                (new_len - old(self)@.bytes.len()) as nat,
            ),
        ensures
            final(self).wf(),
            final(self)@ == old(self)@.resize(new_len as nat),
    {
        proof {
            self.lemma_wf();
        }
        if self.len < new_len {
            let extra: usize = new_len - self.len;
            self.extend(extra);
        } else {
            self.truncate(new_len);
        }
    }

    /// Seeks to a position.
    ///
    /// # Returns
    ///
    /// The new position, counted from the front; `None`, with the cursor where it was, if it would
    /// lie before the front. In a vector without a cursor only the end itself can be sought.
    pub fn seek(&mut self, pos: SeekFrom) -> (r: Option<usize>)
        requires
            old(self).wf(),
            old(self)@.cursor is Some ==> old(self)@.target(pos) <= usize::MAX,
        ensures
            final(self).wf(),
            final(self)@ == old(self)@.seek(pos),
            match r {
                Some(at) => old(self)@.sought(pos) == Some(at as nat),
                None => old(self)@.sought(pos) is None,
            },
    {
        proof {
            self.lemma_wf();
        }
        match &mut self.seeker {
            Some(seeker) => match pos {
                SeekFrom::Start(start) => seeker.seek_from_start(start, self.blocks.as_slice()),
                SeekFrom::End(end) => seeker.seek_from_end(end, self.blocks.as_slice()),
                SeekFrom::Current(current) => seeker.seek_from_current(
                    current,
                    self.blocks.as_slice(),
                ),
            },
            None => if pos == SeekFrom::End(0) {
                Some(0)
            } else {
                None
            },
        }
    }

    /// Appends the bytes of all the buffers and places the cursor behind them.
    ///
    /// # Returns
    ///
    /// How many bytes were appended, which is all of them.
    pub fn append_vectored<'a, S: IoSlice<'a>>(&mut self, buf: &mut [S]) -> (r: usize)
        requires
            old(self).wf(),
            old(self)@.can_grow(model::joined(old(buf)@).len()),
        ensures
            final(self).wf(),
            final(self)@ == old(self)@.append(model::joined(old(buf)@)),
            r == model::joined(old(buf)@).len(),
            io::spent(
                old(buf)@,
                final(buf)@,
                old(self)@.bytes.len() as int,
                Seams { extents: final(self)@.extents, end: old(self)@.bytes.len() },
            ),
    {
        proof {
            self.lemma_wf();
        }
        let ghost before = buf@;
        let ghost end_before = final(buf)@;
        self.seek(SeekFrom::End(0));
        let mut rest: &mut [S] = buf;
        let r: usize = self.append_inner(&mut rest);
        proof {
            assert(model::zeros(0) + model::joined(before) =~= model::joined(before));
            io::lemma_drained_spent(
                before,
                end_before,
                rest@,
                r as int,
                old(self)@.bytes.len() as int,
                Seams { extents: self@.extents, end: old(self)@.bytes.len() },
            );
        }
        r
    }

    /// Appends a buffer and places the cursor behind it.
    ///
    /// # Returns
    ///
    /// How many bytes were appended, which is all of them.
    pub fn append(&mut self, buf: &[u8]) -> (r: usize)
        requires
            old(self).wf(),
            old(self)@.can_grow(buf@.len()),
        ensures
            final(self).wf(),
            final(self)@ == old(self)@.append(buf@),
            r == buf@.len(),
    {
        let mut bufs: [&[u8]; 1] = [buf];
        proof {
            model::lemma_joined_one(buf);
            assert(bufs@ =~= seq![buf]);
        }
        self.append_vectored(&mut bufs)
    }

    /// Like [`read`], except that it reads into a slice of buffers.
    ///
    /// [`read`]: BlockedVec::read
    pub fn read_vectored(&mut self, buf: &mut [&mut [u8]]) -> (r: usize)
        requires
            old(self).wf(),
        ensures
            final(self).wf(),
            ({
                let data = old(self)@.read(io::room(old(buf)@));
                &&& r == data.len()
                &&& final(self)@ == old(self)@.skip_ahead(data.len())
                &&& final(buf)@.len() == old(buf)@.len()
                &&& forall|i: int|
                    #![trigger final(buf)@[i]]
                    0 <= i < old(buf)@.len() ==> io::received(
                        old(buf)@[i]@,
                        final(old(buf)@[i])@,
                        final(buf)@[i]@,
                        final(final(buf)@[i])@,
                        data,
                        io::room(old(buf)@.take(i)) as int,
                        old(self)@.seams().before(
                            old(self)@.position() as int + io::room(old(buf)@.take(i)),
                            old(buf)@[i]@.len(),
                        ),
                    )
            }),
    {
        let ghost before = buf@;
        proof {
            self.lemma_wf();
            if self@.cursor is Some {
                lemma_limit(before, self@.bytes, self@.cursor.unwrap() as int);
            }
        }
        match &mut self.seeker {
            Some(seeker) => match seeker.read(buf, self.blocks.as_slice()) {
                Ok(len) => len,
                Err(len) => len,
            },
            None => {
                proof {
                    io::lemma_untouched(before);
                }
                0
            },
        }
    }

    /// Like [`read_at`], except that it reads into a slice of buffers.
    ///
    /// [`read_at`]: BlockedVec::read_at
    pub fn read_at_vectored(&self, pos: usize, buf: &mut [&mut [u8]]) -> (r: usize)
        requires
            self.wf(),
        ensures
            ({
                let data = if self@.cursor is Some {
                    self@.read_at(pos as nat, io::room(old(buf)@))
                } else {
                    Seq::empty()
                };
                &&& r == data.len()
                &&& final(buf)@.len() == old(buf)@.len()
                &&& forall|i: int|
                    #![trigger final(buf)@[i]]
                    0 <= i < old(buf)@.len() ==> io::received(
                        old(buf)@[i]@,
                        final(old(buf)@[i])@,
                        final(buf)@[i]@,
                        final(final(buf)@[i])@,
                        data,
                        io::room(old(buf)@.take(i)) as int,
                        self@.seams().before(
                            pos + io::room(old(buf)@.take(i)),
                            old(buf)@[i]@.len(),
                        ),
                    )
            }),
    {
        let ghost before = buf@;
        proof {
            self.lemma_wf();
            lemma_limit(before, self@.bytes, pos as int);
        }
        match self.seeker {
            Some(here) => {
                let mut seeker: Seeker = here;
                seeker.seek_from_start(pos, self.blocks.as_slice());
                match seeker.read(buf, self.blocks.as_slice()) {
                    Ok(len) => len,
                    Err(len) => len,
                }
            },
            None => {
                proof {
                    io::lemma_untouched(before);
                }
                0
            },
        }
    }

    /// Pulls some bytes at the cursor into the buffer and moves the cursor behind them.
    ///
    /// # Returns
    ///
    /// How many bytes were read: as many as there are and the buffer has room for.
    pub fn read(&mut self, buf: &mut [u8]) -> (r: usize)
        requires
            old(self).wf(),
        ensures
            final(self).wf(),
            ({
                let data = old(self)@.read(old(buf)@.len());
                &&& r == data.len()
                &&& final(self)@ == old(self)@.skip_ahead(data.len())
                &&& final(buf)@ == data + old(buf)@.skip(data.len() as int)
            }),
    {
        let ghost before = buf@;
        let mut bufs: [&mut [u8]; 1] = [buf];
        let ghost data = self@.read(before.len());
        proof {
            reveal_with_fuel(io::room, 2);
        }
        let r: usize = self.read_vectored(&mut bufs);
        proof {
            let filled = io::filled(before, data, 0);
            let n = before.len() - bufs@[0]@.len();
            assert(filled.take(n) + filled.skip(n) =~= filled);
            assert(filled =~= data + before.skip(data.len() as int));
        }
        r
    }

    /// Pulls some bytes at a given position into the buffer and leaves the cursor where it is.
    ///
    /// # Returns
    ///
    /// How many bytes were read: as many as there are and the buffer has room for.
    pub fn read_at(&self, pos: usize, buf: &mut [u8]) -> (r: usize)
        requires
            self.wf(),
        ensures
            ({
                let data = if self@.cursor is Some {
                    self@.read_at(pos as nat, old(buf)@.len())
                } else {
                    Seq::empty()
                };
                &&& r == data.len()
                &&& final(buf)@ == data + old(buf)@.skip(data.len() as int)
            }),
    {
        let ghost before = buf@;
        let mut bufs: [&mut [u8]; 1] = [buf];
        let ghost data = if self@.cursor is Some {
            self@.read_at(pos as nat, before.len())
        } else {
            Seq::empty()
        };
        proof {
            reveal_with_fuel(io::room, 2);
        }
        let r: usize = self.read_at_vectored(pos, &mut bufs);
        proof {
            let filled = io::filled(before, data, 0);
            let n = before.len() - bufs@[0]@.len();
            assert(filled.take(n) + filled.skip(n) =~= filled);
            assert(filled =~= data + before.skip(data.len() as int));
        }
        r
    }

    /// Like [`write`], except that it writes from a slice of buffers.
    ///
    /// [`write`]: BlockedVec::write
    pub fn write_vectored<'a, S: IoSlice<'a>>(&mut self, buf: &mut [S]) -> (r: usize)
        requires
            old(self).wf(),
            old(self)@.cursor matches Some(at) ==> old(self)@.can_grow(
                old(self)@.excess(at, model::joined(old(buf)@).len()),
            ),
        ensures
            final(self).wf(),
            final(self)@ == old(self)@.write(model::joined(old(buf)@)),
            r == (if old(self)@.cursor is Some {
                model::joined(old(buf)@).len()
            } else {
                0
            }),
            io::spent(
                old(buf)@,
                final(buf)@,
                old(self)@.position() as int,
                Seams { extents: final(self)@.extents, end: old(self)@.bytes.len() },
            ),
    {
        let ghost before = buf@;
        let ghost end_before = final(buf)@;
        if self.seeker.is_none() {
            proof {
                io::lemma_spent_none(before);
                assert(self@.extents =~= Seq::empty());
            }
            return 0;
        }
        let mut rest: &mut [S] = buf;
        let r: usize = self.write_inner(&mut rest);
        proof {
            io::lemma_drained_spent(
                before,
                end_before,
                rest@,
                r as int,
                old(self)@.position() as int,
                Seams { extents: self@.extents, end: old(self)@.bytes.len() },
            );
        }
        r
    }

    /// Like [`write_at`], except that it writes from a slice of buffers.
    ///
    /// [`write_at`]: BlockedVec::write_at
    pub fn write_at_vectored<'a, S: IoSlice<'a>>(&mut self, pos: usize, buf: &mut [S]) -> (r: usize)
        requires
            old(self).wf(),
            old(self)@.cursor is Some && model::joined(old(buf)@).len() > 0 ==> old(self)@.can_grow(
                old(self)@.excess(pos as nat, model::joined(old(buf)@).len()),
            ),
        ensures
            final(self).wf(),
            final(self)@ == old(self)@.write_at(pos as nat, model::joined(old(buf)@)),
            r == (if old(self)@.cursor is Some {
                model::joined(old(buf)@).len()
            } else {
                0
            }),
            io::spent(
                old(buf)@,
                final(buf)@,
                pos as int,
                Seams { extents: final(self)@.extents, end: old(self)@.bytes.len() },
            ),
    {
        let ghost before = buf@;
        let ghost end_before = final(buf)@;
        match self.seeker {
            Some(seeker) => {
                if io::all_empty(buf) {
                    proof {
                        io::lemma_spent_empty(
                            before,
                            pos as int,
                            Seams { extents: self@.extents, end: self@.bytes.len() },
                        );
                    }
                    return 0;
                }
                let mut rest: &mut [S] = buf;
                self.seek(SeekFrom::Start(pos));
                let r: usize = self.write_inner(&mut rest);
                self.seek(SeekFrom::Start(seeker.current_pos));
                proof {
                    io::lemma_drained_spent(
                        before,
                        end_before,
                        rest@,
                        r as int,
                        pos as int,
                        Seams { extents: self@.extents, end: old(self)@.bytes.len() },
                    );
                }
                r
            },
            None => {
                proof {
                    io::lemma_spent_none(before);
                    assert(self@.extents =~= Seq::empty());
                }
                0
            },
        }
    }

    /// Writes a buffer at the cursor and moves the cursor behind it. Where this reaches beyond the
    /// end, the vector grows; if the cursor lies behind the end, the bytes between are zero, and the
    /// vector grows up to it even for an empty buffer.
    ///
    /// # Returns
    ///
    /// How many bytes were written: all of them, or none if there is no cursor yet.
    pub fn write(&mut self, buf: &[u8]) -> (r: usize)
        requires
            old(self).wf(),
            old(self)@.cursor matches Some(at) ==> old(self)@.can_grow(
                old(self)@.excess(at, buf@.len()),
            ),
        ensures
            final(self).wf(),
            final(self)@ == old(self)@.write(buf@),
            r == (if old(self)@.cursor is Some {
                buf@.len()
            } else {
                0
            }),
    {
        let mut bufs: [&[u8]; 1] = [buf];
        proof {
            model::lemma_joined_one(buf);
            assert(bufs@ =~= seq![buf]);
        }
        self.write_vectored(&mut bufs)
    }

    /// Writes a buffer at a given position and leaves the cursor where it is. Where this reaches
    /// beyond the end, the vector grows; if the position lies behind the end, the bytes between are
    /// zero. An empty buffer changes nothing.
    ///
    /// # Returns
    ///
    /// How many bytes were written: all of them, or none if there is no cursor yet.
    pub fn write_at(&mut self, pos: usize, buf: &[u8]) -> (r: usize)
        requires
            old(self).wf(),
            old(self)@.cursor is Some && buf@.len() > 0 ==> old(self)@.can_grow(
                old(self)@.excess(pos as nat, buf@.len()),
            ),
        ensures
            final(self).wf(),
            final(self)@ == old(self)@.write_at(pos as nat, buf@),
            r == (if old(self)@.cursor is Some {
                buf@.len()
            } else {
                0
            }),
    {
        let mut bufs: [&[u8]; 1] = [buf];
        proof {
            model::lemma_joined_one(buf);
            assert(bufs@ =~= seq![buf]);
        }
        self.write_at_vectored(pos, &mut bufs)
    }

    /// Writes all the bytes of `buf` at the cursor and returns how many that were.
    fn write_inner<'a, S: IoSlice<'a>>(&mut self, buf: &mut &mut [S]) -> (r: usize)
        requires
            old(self).wf(),
            old(self)@.cursor matches Some(at) && old(self)@.can_grow(
                old(self)@.excess(at, model::joined(old(buf)@).len()),
            ),
        ensures
            final(self).wf(),
            final(self)@ == old(self)@.write(model::joined(old(buf)@)),
            r == model::joined(old(buf)@).len(),
            io::drained(
                old(buf)@,
                final(*old(buf))@,
                final(buf)@,
                final(*final(buf))@,
                r as int,
                old(self)@.position() as int,
                Seams { extents: final(self)@.extents, end: old(self)@.bytes.len() },
            ),
    {
        let ghost before = buf@;
        let ghost end_before = final(*buf)@;
        let ghost data = model::joined(before);
        let ghost extents = self@.extents;
        let ghost end = self@.bytes.len();
        proof {
            self.lemma_wf();
        }
        match &mut self.seeker {
            Some(seeker) => {
                let ghost at = seeker.current_pos as nat;
                let written: Result<usize, usize> = seeker.write(
                    buf,
                    self.blocks.as_mut_slice(),
                );
                match written {
                    Ok(len) => {
                        proof {
                            assert(data.take(len as int) =~= data);
                        }
                        len
                    },
                    Err(len) => {
                        let ghost mid = buf@;
                        let ghost end_mid = final(*buf)@;
                        let ghost seams = Seams { extents, end };
                        proof {
                            io::lemma_drained_left(
                                before,
                                end_before,
                                mid,
                                end_mid,
                                len as int,
                                at as int,
                                seams,
                            );
                            model::lemma_write_to_end(old(self)@, at, data);
                        }
                        let n: usize = self.append_inner(buf);
                        proof {
                            let after = Seams { extents: self@.extents, end };
                            assert forall|pos: int| at < pos <= at + len implies #[trigger] seams.last(
                                pos,
                            ) == after.last(pos) by {
                                model::lemma_block_start_prefix(extents, after.extents, pos - 1);
                            }
                            io::lemma_drained_same(
                                before,
                                end_before,
                                mid,
                                end_mid,
                                len as int,
                                at as int,
                                seams,
                                after,
                            );
                            io::lemma_drained_twice(
                                before,
                                end_before,
                                mid,
                                end_mid,
                                buf@,
                                final(*buf)@,
                                len as int,
                                n as int,
                                at as int,
                                after,
                            );
                        }
                        n + len
                    },
                }
            },
            None => 0,
        }
    }

    /// The blocks hold what the model says.
    proof fn lemma_views(&self)
        requires
            self.wf(),
        ensures
            iter::views(self.blocks@) == self@.blocks(),
            forall|i: int|
                0 <= i < self@.blocks().len() ==> (#[trigger] self@.blocks()[i]).len()
                    == self@.extents[i].len,
    {
        assert forall|i: int| 0 <= i < self.blocks@.len() implies #[trigger] iter::views(
            self.blocks@,
        )[i] == self@.block(i) by {
            block::lemma_block(self.blocks@, i);
        }
        assert(iter::views(self.blocks@) =~= self@.blocks());
    }

    /// Iterates over the blocks, as byte slices.
    pub fn iter(&self) -> (r: BlockIter<'_>)
        requires
            self.wf(),
        ensures
            r.wf(),
            r.remaining() == self@.blocks(),
    {
        proof {
            self.lemma_views();
        }
        BlockIter::new(self.blocks.as_slice())
    }

    /// Iterates over the blocks, as byte slices to be changed in place.
    pub fn iter_mut(&mut self) -> (r: BlockIterMut<'_>)
        requires
            old(self).wf(),
        ensures
            block::sound(r.blocks@),
            block::extents(r.blocks@) == old(self)@.extents,
            iter::views(r.blocks@) == old(self)@.blocks(),
            block::sound(final(r.blocks)@) && block::extents(final(r.blocks)@)
                == old(self)@.extents ==> {
                &&& final(self).wf()
                &&& final(self)@ == (Model {
                    bytes: model::joined(final(r.blocks)@),
                    ..old(self)@
                })
            },
    {
        proof {
            self.lemma_views();
        }
        BlockIterMut { blocks: self.blocks.as_mut_slice() }
    }

    /// Every byte, in order.
    pub fn bytes(&self) -> (r: Vec<u8>)
        requires
            self.wf(),
        ensures
            r@ == self@.bytes,
    {
        let mut bytes: Vec<u8> = Vec::with_capacity(self.len);
        let mut i: usize = 0;
        assert(self.blocks@.take(0) =~= Seq::empty());
        while i < self.blocks.len()
            invariant
                self.wf(),
                i <= self.blocks@.len(),
                bytes@ == model::joined(self.blocks@.take(i as int)),
            decreases self.blocks@.len() - i,
        {
            let ghost before = bytes@;
            bytes.extend_from_slice(self.blocks[i].as_slice());
            proof {
                model::lemma_joined_around(self.blocks@, i as int);
                assert(bytes@ =~= before + self.blocks@[i as int]@);
            }
            i = i + 1;
        }
        assert(self.blocks@.take(i as int) =~= self.blocks@);
        bytes
    }

    /// The first and the last position of a range; none if there is no cursor or the range ends at
    /// the front.
    fn span(&self, start_bound: Bound<usize>, end_bound: Bound<usize>) -> (r: Option<
        (Seeker, Seeker),
    >)
        requires
            self.wf(),
        ensures
            ({
                let extents = block::extents(self.blocks@);
                let lo = iter::first(start_bound);
                let hi = iter::behind(end_bound, self@.bytes.len() as int);
                match r {
                    Some((start, end)) => {
                        &&& start.located(extents)
                        &&& end.located(extents)
                        &&& model::parts(
                            self@.blocks(),
                            start.current_pos as int,
                            end.current_pos + 1,
                        ) == model::parts(self@.blocks(), lo, hi)
                        &&& self@.cursor is Some && hi > 0
                        &&& start.current_block == model::block_at(extents, lo)
                        &&& end.current_block == model::block_at(extents, hi - 1)
                        &&& start.current_pos == model::min(lo, self@.bytes.len() as int)
                        &&& end.current_pos == model::min(hi - 1, self@.bytes.len() as int)
                    },
                    None => {
                        &&& model::parts(self@.blocks(), lo, hi).len() == 0
                        &&& self@.cursor is None || hi <= 0
                    },
                }
            }),
    {
        let ghost extents = block::extents(self.blocks@);
        let ghost lo = iter::first(start_bound);
        let ghost hi = iter::behind(end_bound, self@.bytes.len() as int);
        proof {
            self.lemma_wf();
            self.lemma_views();
            if hi <= 0 {
                model::lemma_parts_empty(self@.blocks(), lo, hi);
            }
        }
        if self.seeker.is_none() {
            return None;
        }
        let blocks: &[Block] = self.blocks.as_slice();
        let mut start: Seeker = Seeker::start(self.len);
        match start_bound {
            Bound::Included(bound) => start.seek_bound(bound, blocks),
            Bound::Excluded(bound) => start.seek_bound(bound.saturating_add(1), blocks),
            Bound::Unbounded => {},
        }
        let mut end: Seeker = start;
        match end_bound {
            Bound::Included(bound) => end.seek_bound(bound, blocks),
            Bound::Excluded(bound) => {
                if bound == 0 {
                    return None;
                }
                end.seek_bound(bound - 1, blocks)
            },
            Bound::Unbounded => {
                if end.seek_from_end(-1, blocks).is_none() {
                    return None;
                }
            },
        }
        proof {
            let at = start.current_pos as int;
            let to = end.current_pos + 1;
            let all = self@.blocks();
            let len = self@.bytes.len() as int;
            model::lemma_block_at(extents, at, start.current_block as int);
            model::lemma_block_at(extents, end.current_pos as int, end.current_block as int);
            if lo > len {
                model::lemma_block_at(extents, lo, start.current_block as int);
                model::lemma_parts_behind(all, extents, lo, hi);
                model::lemma_parts_behind(all, extents, at, to);
            } else if hi - 1 > len {
                model::lemma_block_at(extents, hi - 1, end.current_block as int);
                model::lemma_parts_end(all, extents, lo, hi);
                model::lemma_parts_end(all, extents, lo, to);
            }
            if lo > len && hi - 1 > len {
                model::lemma_block_at(extents, hi - 1, end.current_block as int);
            }
        }
        Some((start, end))
    }

    /// Iterates over the parts of the blocks that lie in a range, as byte slices. Parts that are
    /// out of range are not returned.
    pub fn range(&self, start_bound: Bound<usize>, end_bound: Bound<usize>) -> (r: RangeIter<'_>)
        requires
            self.wf(),
        ensures
            ({
                let lo = iter::first(start_bound);
                let hi = iter::behind(end_bound, self@.bytes.len() as int);
                let some = self@.cursor is Some && hi > 0;
                &&& r.wf()
                &&& r.remaining() == model::parts(self@.blocks(), lo, hi)
                &&& r.next_block() == (if some {
                    model::block_at(self@.extents, lo)
                } else {
                    0
                })
                &&& r.last_block() == (if some {
                    model::block_at(self@.extents, hi - 1)
                } else {
                    0
                })
            }),
    {
        proof {
            self.lemma_views();
        }
        match self.span(start_bound, end_bound) {
            Some((start, end)) => RangeIter::between(&start, &end, self.blocks.as_slice()),
            None => RangeIter::end(),
        }
    }

    /// Iterates over the parts of the blocks that lie in a range, as byte slices to be changed in
    /// place. Parts that are out of range are not returned.
    pub fn range_mut(&mut self, start_bound: Bound<usize>, end_bound: Bound<usize>) -> (r:
        RangeIterMut<'_>)
        requires
            old(self).wf(),
        ensures
            ({
                let lo = iter::first(start_bound);
                let hi = iter::behind(end_bound, old(self)@.bytes.len() as int);
                let some = old(self)@.cursor is Some && hi > 0;
                let extents = old(self)@.extents;
                let k = extents.len() - r.blocks@.len();
                &&& r.wf()
                &&& r.remaining() == model::parts(old(self)@.blocks(), lo, hi)
                &&& r.start_block == (if some {
                    model::block_at(extents, lo)
                } else {
                    0
                })
                &&& r.end_block == (if some {
                    model::block_at(extents, hi - 1)
                } else {
                    0
                })
                &&& r.start_offset == (if some && lo < old(self)@.bytes.len() {
                    lo - model::offset(extents, model::block_at(extents, lo))
                } else {
                    0
                })
                &&& r.end_offset == (if some && hi <= old(self)@.bytes.len() {
                    hi - 1 - model::offset(extents, model::block_at(extents, hi - 1))
                } else {
                    0
                })
                &&& k == (if some {
                    model::block_at(extents, lo)
                } else {
                    extents.len() as int
                })
                &&& block::extents(r.blocks@) == extents.skip(k)
                &&& iter::views(r.blocks@) == old(self)@.blocks().skip(k)
                &&& block::sound(final(r.blocks)@) && block::extents(final(r.blocks)@)
                    == extents.skip(k) ==> {
                    &&& final(self).wf()
                    &&& final(self)@ == (Model {
                        bytes: old(self)@.bytes.take(model::offset(extents, k) as int)
                            + model::joined(final(r.blocks)@),
                        ..old(self)@
                    })
                }
            }),
    {
        let ghost blocks = self.blocks@;
        let ghost extents = block::extents(blocks);
        proof {
            self.lemma_wf();
            self.lemma_views();
        }
        match self.span(start_bound, end_bound) {
            Some((start, end)) => {
                let ghost k = start.current_block as int;
                let r: RangeIterMut<'_> = RangeIterMut::between(
                    &start,
                    &end,
                    self.blocks.as_mut_slice(),
                );
                proof {
                    block::lemma_offset(blocks, k);
                    assert(r.blocks@ == blocks.skip(k));
                    assert(extents.len() - r.blocks@.len() == k);
                    assert(block::extents(r.blocks@) =~= extents.skip(k));
                    assert(iter::views(r.blocks@) =~= iter::views(blocks).skip(k));
                    lemma_put_back(blocks, final(r.blocks)@, k);
                }
                r
            },
            None => {
                proof {
                    let count = blocks.len() as int;
                    block::lemma_offset(blocks, count);
                    assert(blocks.skip(count) =~= Seq::empty());
                    assert(extents.skip(count) =~= Seq::empty());
                    assert(iter::views(blocks).skip(count) =~= Seq::empty());
                    assert(model::joined(blocks).take(model::joined(blocks).len() as int)
                        =~= model::joined(blocks));
                }
                RangeIterMut::end()
            },
        }
    }

    /// How far the cursor lies behind the end.
    spec fn gap(self) -> nat {
        match self.seeker {
            Some(seeker) if seeker.current_pos > seeker.end_pos => (seeker.current_pos
                - seeker.end_pos) as nat,
            _ => 0,
        }
    }

    /// Puts all the bytes of `buf` at the end, behind as many zeros as the cursor lies behind the
    /// end, and returns how many bytes that were without the zeros. A cursor at the end or behind it
    /// moves behind the new bytes.
    fn append_inner<'a, S: IoSlice<'a>>(&mut self, buf: &mut &mut [S]) -> (r: usize)
        requires
            old(self).wf(),
            old(self)@.can_grow(old(self).gap() + model::joined(old(buf)@).len()),
        ensures
            final(self).wf(),
            ({
                let data = model::joined(old(buf)@);
                let all = model::zeros(old(self).gap()) + data;
                &&& r == data.len()
                &&& final(self)@ == (match old(self)@.cursor {
                    None => old(self)@.append(data),
                    Some(at) => Model {
                        cursor: if at < old(self)@.bytes.len() {
                            Some(at)
                        } else {
                            Some(at + data.len())
                        },
                        ..old(self)@.grow(all)
                    },
                })
                &&& io::drained(
                    old(buf)@,
                    final(*old(buf))@,
                    final(buf)@,
                    final(*final(buf))@,
                    data.len() as int,
                    (old(self)@.bytes.len() + old(self).gap()) as int,
                    Seams { extents: final(self)@.extents, end: old(self)@.bytes.len() },
                )
                &&& old(self)@.cursor is Some ==> final(buf)@.len() == 0
            }),
    {
        let ghost before = buf@;
        let ghost end_before = final(*buf)@;
        let ghost data = model::joined(before);
        let ghost blocks = self.blocks@;
        let ghost extents = block::extents(blocks);
        let ghost all = model::zeros(self.gap()) + data;
        let ghost at = (self@.bytes.len() + self.gap()) as int;
        proof {
            self.lemma_wf();
        }
        match self.seeker {
            Some(_) => {
                let (taken, skip) = self.append_last(buf);
                let ghost mid = buf@;
                let ghost end_mid = final(*buf)@;
                let ghost added = model::min(
                    model::spare(old(self)@.extents) as int,
                    all.len() as int,
                );
                proof {
                    io::lemma_drained_left(
                        before,
                        end_before,
                        mid,
                        end_mid,
                        taken as int,
                        0,
                        Seams::none(),
                    );
                    assert(all.skip(added) =~= model::zeros(skip as nat) + model::joined(mid));
                    assert(all.take(added) + all.skip(added) =~= all);
                }
                let len2: usize = self.append_block(skip, buf);
                proof {
                    let seams = Seams { extents: self@.extents, end: old(self)@.bytes.len() };
                    if added == all.len() {
                        assert(all.take(added) =~= all);
                    }
                    assert(self@.extents == model::grown(extents, self@.page, all.len()));
                    lemma_append_seams(extents, self@.page, old(self).gap(), data.len());
                    io::lemma_drained_whole(
                        before,
                        end_before,
                        mid,
                        end_mid,
                        taken as int,
                        at,
                        seams,
                    );
                    if added < all.len() {
                        io::lemma_drained_rest(
                            before,
                            end_before,
                            mid,
                            end_mid,
                            buf@,
                            final(*buf)@,
                            taken as int,
                            at,
                            seams,
                        );
                    }
                }
                taken + len2
            },
            None => self.begin(buf),
        }
    }

    /// Puts bytes of `buf` at the end of the last block, behind as many zeros as the cursor lies
    /// behind the end, as far as there is room. Returns how many bytes that were without the zeros,
    /// and how many zeros are still to come. A cursor at the end or behind it moves to the new end.
    fn append_last<'a, S: IoSlice<'a>>(&mut self, buf: &mut &mut [S]) -> (r: (usize, usize))
        requires
            old(self).wf(),
            old(self)@.cursor is Some,
            old(self)@.can_grow(old(self).gap() + model::joined(old(buf)@).len()),
        ensures
            final(self).wf(),
            ({
                let gap = old(self).gap();
                let all = model::zeros(gap) + model::joined(old(buf)@);
                let added = model::min(model::spare(old(self)@.extents) as int, all.len() as int);
                let taken = if added < gap {
                    0
                } else {
                    added - gap
                };
                &&& r.0 == taken
                &&& r.1 == gap - (added - taken)
                &&& final(self)@ == (Model {
                    bytes: old(self)@.bytes + all.take(added),
                    extents: model::widen(old(self)@.extents, added as nat),
                    cursor: if old(self)@.cursor.unwrap() < old(self)@.bytes.len() {
                        old(self)@.cursor
                    } else {
                        Some((old(self)@.bytes.len() + added) as nat)
                    },
                    ..old(self)@
                })
                &&& io::drained(
                    old(buf)@,
                    final(*old(buf))@,
                    final(buf)@,
                    final(*final(buf))@,
                    taken,
                    0,
                    Seams::none(),
                )
                &&& taken == model::joined(old(buf)@).len() ==> final(buf)@.len() == 0
            }),
    {
        proof {
            self.lemma_wf();
        }
        let ghost extents = block::extents(self.blocks@);
        let mut taken: usize = 0;
        let mut rest: usize = 0;
        if let Some(old_seeker) = self.seeker {
            let mut seeker: Seeker = old_seeker;
            let skip: usize = if seeker.is_at_end() {
                let skip: usize = seeker.current_pos_in_block;
                seeker.current_pos_in_block = 0;
                seeker.current_pos = seeker.current_pos - skip;
                skip
            } else {
                0
            };
            let some: bool = self.blocks.len() > 0;
            let len: usize = match extend_last(&mut self.blocks, skip, buf) {
                Ok(len) => len,
                Err(len) => len,
            };
            if some {
                seeker.append_end(len, Ghost(extents));
            }
            self.len = self.len + len;
            self.seeker = Some(seeker);
            if len > skip {
                taken = len - skip;
            } else {
                rest = skip - len;
            }
        }
        (taken, rest)
    }

    /// Makes a new block out of `skip` zeros and all the bytes of `buf`, if there is anything to
    /// hold, and returns how many bytes that were without the zeros. A cursor at the end moves to
    /// the new end.
    fn append_block<'a, S: IoSlice<'a>>(&mut self, skip: usize, buf: &mut &mut [S]) -> (r: usize)
        requires
            old(self).wf(),
            old(self)@.cursor matches Some(at) && at <= old(self)@.bytes.len(),
            ({
                let n = skip + model::joined(old(buf)@).len();
                &&& old(self)@.bytes.len() + n <= usize::MAX
                &&& n > 0 ==> old(self)@.page.holds(n as nat)
            }),
        ensures
            final(self).wf(),
            ({
                let all = model::zeros(skip as nat) + model::joined(old(buf)@);
                let len = old(self)@.bytes.len();
                &&& r == model::joined(old(buf)@).len()
                &&& all.len() == 0 ==> {
                    &&& final(self)@ == old(self)@
                    &&& final(buf)@ == old(buf)@
                    &&& final(*final(buf))@ == final(*old(buf))@
                }
                &&& all.len() > 0 ==> {
                    &&& final(self)@ == (Model {
                        bytes: old(self)@.bytes + all,
                        extents: old(self)@.extents.push(
                            model::Extent {
                                len: all.len(),
                                capacity: old(self)@.page.block_size(all.len()),
                            },
                        ),
                        cursor: if old(self)@.cursor.unwrap() < len {
                            old(self)@.cursor
                        } else {
                            Some(len + all.len())
                        },
                        ..old(self)@
                    })
                    &&& final(buf)@.len() == 0
                    &&& final(*old(buf))@ == old(buf)@ + final(*final(buf))@
                }
            }),
    {
        proof {
            self.lemma_wf();
        }
        let ghost blocks = self.blocks@;
        let ghost extents = block::extents(blocks);
        match (Block::from_buf(self.layout, skip, buf), self.seeker) {
            (Some((new, len)), Some(old_seeker)) => {
                let mut seeker: Seeker = old_seeker;
                proof {
                    model::lemma_count(extents, extents.len() as int);
                    block::lemma_push_block(blocks, new);
                    model::lemma_push(extents, new.extent());
                }
                seeker.append_new(&new, Ghost(extents));
                self.len = self.len + new.len();
                self.blocks.push(new);
                self.seeker = Some(seeker);
                len
            },
            _ => 0,
        }
    }

    /// Makes the first block, out of all the bytes of `buf`, and places the cursor behind them;
    /// does nothing if there are none.
    fn begin<'a, S: IoSlice<'a>>(&mut self, buf: &mut &mut [S]) -> (r: usize)
        requires
            old(self).wf(),
            old(self)@.cursor is None,
            old(self)@.can_grow(model::joined(old(buf)@).len()),
        ensures
            final(self).wf(),
            r == model::joined(old(buf)@).len(),
            final(self)@ == old(self)@.append(model::joined(old(buf)@)),
            io::drained(
                old(buf)@,
                final(*old(buf))@,
                final(buf)@,
                final(*final(buf))@,
                r as int,
                0,
                Seams { extents: final(self)@.extents, end: 0 },
            ),
    {
        let ghost before = buf@;
        let ghost end_before = final(*buf)@;
        let ghost data = model::joined(before);
        proof {
            self.lemma_wf();
        }
        match Block::from_buf(self.layout, 0, buf) {
            Some((block, len)) => {
                proof {
                    block::lemma_push_block(self.blocks@, block);
                    model::lemma_push(self@.extents, block.extent());
                    let seams = Seams {
                        extents: old(self)@.extents.push(block.extent()),
                        end: 0,
                    };
                    assert(block@ =~= data);
                    assert forall|pos: int| 0 < pos <= data.len() implies #[trigger] seams.last(pos)
                        == 0 by {
                        model::lemma_block_at(seams.extents, pos - 1, 0);
                    }
                    io::lemma_drained_none(before, end_before, 0, seams);
                    io::lemma_drained_rest(
                        before,
                        end_before,
                        before,
                        end_before,
                        buf@,
                        final(*buf)@,
                        0,
                        0,
                        seams,
                    );
                }
                let mut seeker = Seeker::start(block.len());
                seeker.current_block = 1;
                seeker.current_pos = seeker.end_pos;
                self.seeker = Some(seeker);
                self.len = block.len();
                self.blocks.push(block);
                assert(self@ =~= old(self)@.append(data));
                len
            },
            None => {
                proof {
                    io::lemma_drained_none(
                        before,
                        end_before,
                        0,
                        Seams { extents: self@.extents, end: 0 },
                    );
                }
                0
            },
        }
    }
}

/// Blocks of the same extents in place of those from block `k` on.
proof fn lemma_put_back(blocks: Seq<Block>, after: Seq<Block>, k: int)
    requires
        0 <= k <= blocks.len(),
        block::sound(blocks),
    ensures
        block::sound(after) && block::extents(after) == block::extents(blocks).skip(k) ==> {
            let whole = blocks.take(k) + after;
            &&& block::sound(whole)
            &&& block::extents(whole) == block::extents(blocks)
            &&& model::joined(whole) == model::joined(blocks).take(
                model::offset(block::extents(blocks), k) as int,
            ) + model::joined(after)
        },
{
    if block::sound(after) && block::extents(after) == block::extents(blocks).skip(k) {
        let whole = blocks.take(k) + after;
        block::lemma_offset(blocks, k);
        model::lemma_joined_split(blocks, k);
        model::lemma_joined_add(blocks.take(k), after);
        assert(after.len() == block::extents(after).len());
        assert forall|i: int| 0 <= i < blocks.len() implies #[trigger] block::extents(whole)[i]
            == block::extents(blocks)[i] by {
            if i >= k {
                assert(block::extents(after)[i - k] == block::extents(blocks).skip(k)[i - k]);
            }
        }
        assert(block::extents(whole) =~= block::extents(blocks));
        assert(model::joined(blocks).take(model::joined(blocks.take(k)).len() as int)
            =~= model::joined(blocks.take(k)));
    }
}

/// Bytes that are appended, behind as many zeros as `gap` says, are passed on in pieces only where
/// the new block begins.
proof fn lemma_append_seams(extents: Seq<model::Extent>, page: Layout, gap: nat, len: nat)
    ensures
        ({
            let end = model::total(extents);
            let added = model::min(model::spare(extents) as int, (gap + len) as int);
            let at = end + gap;
            let mid = if added < gap {
                at as int
            } else {
                end + added
            };
            let seams = Seams { extents: model::grown(extents, page, gap + len), end };
            &&& forall|pos: int| at < pos <= mid ==> #[trigger] seams.last(pos) <= at
            &&& forall|pos: int|
                mid < pos <= at + len ==> #[trigger] seams.last(pos) <= mid && (mid > at
                    ==> seams.last(pos) == mid)
        }),
{
    let end = model::total(extents);
    let added = model::min(model::spare(extents) as int, (gap + len) as int);
    let after = model::grown(extents, page, gap + len);
    let count = extents.len() as int;
    let seams = Seams { extents: after, end };
    let at = end + gap;
    let mid = if added < gap {
        at as int
    } else {
        end + added
    };
    model::lemma_grown(extents, page, gap + len);
    assert forall|pos: int| at < pos <= mid implies #[trigger] seams.last(pos) <= at by {
        model::lemma_offset_monotonic(extents, count - 1, count);
        model::lemma_block_at(after, pos - 1, count - 1);
    }
    assert forall|pos: int| mid < pos <= at + len implies #[trigger] seams.last(pos) <= mid && (mid
        > at ==> seams.last(pos) == mid) by {
        model::lemma_block_at(after, pos - 1, count);
    }
}

/// Reading what there is, and reading as much of it as there is room for, fills buffers alike.
proof fn lemma_limit(bufs: Seq<&mut [u8]>, bytes: Seq<u8>, at: int)
    requires
        0 <= at,
    ensures
        ({
            let all = if at < bytes.len() {
                bytes.skip(at)
            } else {
                Seq::empty()
            };
            let room = io::room(bufs) as int;
            let data = if at < bytes.len() {
                bytes.subrange(at, model::min(at + room, bytes.len() as int))
            } else {
                Seq::empty()
            };
            &&& data.len() == model::min(all.len() as int, room)
            &&& forall|i: int|
                #![trigger bufs[i]]
                0 <= i < bufs.len() ==> {
                    let from = io::room(bufs.take(i)) as int;
                    io::filled(bufs[i]@, all, from) == io::filled(
                        bufs[i]@,
                        data,
                        from,
                    )
                }
        }),
{
    let all = if at < bytes.len() {
        bytes.skip(at)
    } else {
        Seq::empty()
    };
    let room = io::room(bufs) as int;
    let n = model::min(all.len() as int, room);
    let data = if at < bytes.len() {
        bytes.subrange(at, model::min(at + room, bytes.len() as int))
    } else {
        Seq::empty()
    };
    assert(data =~= all.take(n));
    assert forall|i: int| #![trigger bufs[i]] 0 <= i < bufs.len() implies {
        let from = io::room(bufs.take(i)) as int;
        io::filled(bufs[i]@, all, from) == io::filled(bufs[i]@, data, from)
    } by {
        let from = io::room(bufs.take(i)) as int;
        io::lemma_room_around(bufs, i);
        io::lemma_filled_enough(bufs[i]@, all, from, n);
    }
}

/// Puts `skip` zeros and then the bytes of `buf` at the end of the last block, as far as it has
/// room. Returns how many bytes were put there, as an error if that may not be all.
fn extend_last<'a, S: IoSlice<'a>>(blocks: &mut Vec<Block>, skip: usize, buf: &mut &mut [S]) -> (r:
    Result<usize, usize>)
    requires
        block::sound(old(blocks)@),
    ensures
        block::sound(final(blocks)@),
        ({
            let extents = block::extents(old(blocks)@);
            let all = model::zeros(skip as nat) + model::joined(old(buf)@);
            let added = model::min(model::spare(extents) as int, all.len() as int);
            let taken = if added < skip {
                0
            } else {
                added - skip
            };
            &&& r == (if old(blocks)@.len() > 0 && all.len() <= model::spare(extents) {
                Ok::<usize, usize>(added as usize)
            } else {
                Err(added as usize)
            })
            &&& block::extents(final(blocks)@) == model::widen(extents, added as nat)
            &&& model::joined(final(blocks)@) == model::joined(old(blocks)@) + all.take(added)
            &&& io::drained(
                old(buf)@,
                final(*old(buf))@,
                final(buf)@,
                final(*final(buf))@,
                taken,
                0,
                Seams::none(),
            )
            &&& taken == model::joined(old(buf)@).len() ==> final(buf)@.len() == 0
        }),
{
    let ghost before = buf@;
    let ghost end_before = final(*buf)@;
    let ghost all = model::zeros(skip as nat) + model::joined(before);
    let count: usize = blocks.len();
    if count == 0 {
        IoSlice::advance_slices(buf, 0);
        proof {
            io::lemma_advanced_all(before, buf@, 0);
            io::lemma_drained_advanced(
                before,
                end_before,
                buf@,
                final(*buf)@,
                0,
                0,
                Seams::none(),
            );
            assert(all.take(0) =~= Seq::empty());
            assert(model::joined(blocks@) + all.take(0) =~= model::joined(blocks@));
        }
        return Err(0);
    }
    let ghost old_blocks = blocks@;
    let r: Result<usize, usize> = blocks[count - 1].extend(skip, buf);
    proof {
        let last = old_blocks.last();
        last.lemma_wf();
        let added = model::min(last.capacity() - last@.len(), all.len() as int);
        let taken = if added < skip {
            0
        } else {
            added - skip
        };
        block::lemma_extend_last(old_blocks, blocks@, all.take(added));
        io::lemma_advanced_all(before, buf@, taken);
        io::lemma_drained_advanced(
            before,
            end_before,
            buf@,
            final(*buf)@,
            taken,
            0,
            Seams::none(),
        );
    }
    r
}

} // verus!
