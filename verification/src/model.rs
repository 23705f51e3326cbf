//! The mathematical model of a blocked vector: its bytes, how they are spread over blocks, and where
//! the cursor stands.

use crate::io::SeekFrom;
use crate::layout::Layout;
use vstd::prelude::*;

verus! {

/// The bytes of all `pieces`, one piece after another.
pub open spec fn joined<S: View<V = Seq<u8>>>(pieces: Seq<S>) -> Seq<u8>
    decreases pieces.len(),
{
    if pieces.len() == 0 {
        Seq::empty()
    } else {
        joined(pieces.drop_last()) + pieces.last()@
    }
}

/// `n` zero bytes.
pub open spec fn zeros(n: nat) -> Seq<u8> {
    Seq::new(n, |i: int| 0u8)
}

/// The smaller of two numbers.
pub open spec fn min(a: int, b: int) -> int {
    if a <= b {
        a
    } else {
        b
    }
}

/// `bytes` with `data` in place of what stood at position `at`.
pub open spec fn overlay(bytes: Seq<u8>, at: int, data: Seq<u8>) -> Seq<u8> {
    bytes.take(at) + data + bytes.skip(at + data.len())
}

/// The extent of a block: how many bytes it holds, and how many it has room for.
#[verifier::ext_equal]
pub struct Extent {
    pub len: nat,
    pub capacity: nat,
}

/// The position of the first byte of block `i`: how many bytes the blocks before it hold.
pub open spec fn offset(extents: Seq<Extent>, i: int) -> nat
    decreases i,
{
    if i <= 0 {
        0
    } else {
        offset(extents, i - 1) + extents[i - 1].len
    }
}

/// How many bytes all the blocks hold.
pub open spec fn total(extents: Seq<Extent>) -> nat {
    offset(extents, extents.len() as int)
}

/// How many more bytes the last block has room for.
pub open spec fn spare(extents: Seq<Extent>) -> nat {
    if extents.len() == 0 {
        0
    } else {
        (extents.last().capacity - extents.last().len) as nat
    }
}

/// `extents` with the last block holding `n` more bytes.
pub open spec fn widen(extents: Seq<Extent>, n: nat) -> Seq<Extent> {
    if extents.len() == 0 {
        extents
    } else {
        extents.update(
            extents.len() - 1,
            Extent { len: extents.last().len + n, capacity: extents.last().capacity },
        )
    }
}

/// The extents once `n` more bytes are stored: they fill the last block, and what does not fit
/// there makes up one new block of whole pages.
pub open spec fn grown(extents: Seq<Extent>, page: Layout, n: nat) -> Seq<Extent> {
    if n <= spare(extents) {
        widen(extents, n)
    } else {
        let rest = (n - spare(extents)) as nat;
        widen(extents, spare(extents)).push(Extent { len: rest, capacity: page.block_size(rest) })
    }
}

/// The extents of the blocks that hold the first `n` bytes: what lies behind is cut off, and no
/// block stays that would be empty.
pub open spec fn cut(extents: Seq<Extent>, n: nat) -> Seq<Extent>
    decreases extents.len(),
{
    if extents.len() == 0 {
        extents
    } else {
        let start = offset(extents, extents.len() - 1);
        if n <= start {
            cut(extents.drop_last(), n)
        } else {
            extents.update(
                extents.len() - 1,
                Extent { len: (n - start) as nat, capacity: extents.last().capacity },
            )
        }
    }
}

/// The parts of `blocks` that lie at positions from `lo` up to, but not including, `hi`: one for
/// each block that has bytes there.
pub open spec fn parts(blocks: Seq<Seq<u8>>, lo: int, hi: int) -> Seq<Seq<u8>>
    decreases blocks.len(),
{
    if blocks.len() == 0 {
        Seq::empty()
    } else {
        let n = blocks[0].len() as int;
        let from = if lo <= 0 {
            0
        } else {
            lo
        };
        let to = min(hi, n);
        let rest = parts(blocks.skip(1), lo - n, hi - n);
        if from < to {
            seq![blocks[0].subrange(from, to)] + rest
        } else {
            rest
        }
    }
}

/// The number of the block that position `pos` lies in; the number of blocks if it lies behind them
/// all.
pub open spec fn block_at(extents: Seq<Extent>, pos: int) -> int
    decreases extents.len(),
{
    if extents.len() == 0 {
        0
    } else if pos < offset(extents, extents.len() - 1) {
        block_at(extents.drop_last(), pos)
    } else if pos < total(extents) {
        extents.len() - 1
    } else {
        extents.len() as int
    }
}

/// Where bytes that are read or written in one go are passed on in pieces: at the bounds of the
/// blocks, and at `end`, where the bytes ended before.
pub struct Seams {
    pub extents: Seq<Extent>,
    pub end: nat,
}

impl Seams {
    /// The last seam before position `pos`.
    pub open spec fn last(self, pos: int) -> int {
        let start = offset(self.extents, block_at(self.extents, pos - 1)) as int;
        if start < self.end < pos {
            self.end as int
        } else {
            start
        }
    }

    /// How many bytes lie before the last seam in a run of `len` bytes from position `pos` on; none
    /// if there is no seam inside it.
    pub open spec fn before(self, pos: int, len: nat) -> int {
        let seam = self.last(pos + len);
        if pos < seam < pos + len {
            seam - pos
        } else {
            0
        }
    }

    /// No seams.
    pub open spec fn none() -> Seams {
        Seams { extents: Seq::empty(), end: 0 }
    }
}

/// A blocked vector as a mathematical value.
#[verifier::ext_equal]
pub struct Model {
    /// The bytes, in order.
    pub bytes: Seq<u8>,
    /// The blocks that hold the bytes, in order.
    pub extents: Seq<Extent>,
    /// Where the cursor stands. There is none before the first byte has been stored.
    pub cursor: Option<nat>,
    /// The layout of a page.
    pub page: Layout,
}

impl Model {
    /// What holds of every blocked vector: the blocks hold exactly its bytes, none is empty or
    /// over-full, and without a cursor there is nothing.
    pub open spec fn wf(self) -> bool {
        &&& total(self.extents) == self.bytes.len()
        &&& forall|i: int|
            0 <= i < self.extents.len() ==> 0 < (#[trigger] self.extents[i]).len
                <= self.extents[i].capacity
        &&& self.cursor is None ==> self.extents.len() == 0
    }

    /// A vector without bytes and without a cursor.
    pub open spec fn empty(page: Layout) -> Model {
        Model { bytes: Seq::empty(), extents: Seq::empty(), cursor: None, page }
    }

    /// `len` zero bytes in one block, with the cursor at the front; the empty vector if `len` is
    /// zero.
    pub open spec fn zeroed(page: Layout, len: nat) -> Model {
        if len == 0 {
            Model::empty(page)
        } else {
            Model {
                bytes: zeros(len),
                extents: seq![Extent { len, capacity: page.block_size(len) }],
                cursor: Some(0),
                page,
            }
        }
    }

    /// Whether the machine can hold `n` more bytes at the end: the length still fits a `usize`, and
    /// the new block, if one is needed, can be laid out.
    pub open spec fn can_grow(self, n: nat) -> bool {
        &&& self.bytes.len() + n <= usize::MAX
        &&& n > spare(self.extents) ==> self.page.holds((n - spare(self.extents)) as nat)
    }

    /// The vector with `data` behind its bytes and the cursor where it was.
    pub open spec fn grow(self, data: Seq<u8>) -> Model {
        Model {
            bytes: self.bytes + data,
            extents: grown(self.extents, self.page, data.len()),
            ..self
        }
    }

    /// The vector with `data` behind its bytes and the cursor at the end. Without a cursor and
    /// without data nothing changes.
    pub open spec fn append(self, data: Seq<u8>) -> Model {
        if self.cursor is None && data.len() == 0 {
            self
        } else {
            Model { cursor: Some(self.bytes.len() + data.len()), ..self.grow(data) }
        }
    }

    /// The vector with `n` more zero bytes. The cursor stays where it is; if there was none, it is
    /// placed at the front.
    pub open spec fn extend(self, n: nat) -> Model {
        if self.cursor is None {
            Model::zeroed(self.page, n)
        } else {
            self.grow(zeros(n))
        }
    }

    /// How many bytes beyond the end a write of `n` bytes at position `at` reaches.
    pub open spec fn excess(self, at: nat, n: nat) -> nat {
        if at + n <= self.bytes.len() {
            0
        } else {
            (at + n - self.bytes.len()) as nat
        }
    }

    /// The vector with `data` at position `at`, in place of what stood there. Where that reaches
    /// beyond the end, the vector grows, and the bytes between the old end and `at` are zero. The
    /// cursor stays where it is; without one nothing changes.
    pub open spec fn put(self, at: nat, data: Seq<u8>) -> Model {
        if self.cursor is None {
            self
        } else if at + data.len() <= self.bytes.len() {
            Model { bytes: overlay(self.bytes, at as int, data), ..self }
        } else {
            Model {
                bytes: if at <= self.bytes.len() {
                    self.bytes.take(at as int) + data
                } else {
                    self.bytes + zeros((at - self.bytes.len()) as nat) + data
                },
                extents: grown(self.extents, self.page, self.excess(at, data.len())),
                ..self
            }
        }
    }

    /// The vector after a write of `data` at position `at`. Where there is nothing to write, nothing
    /// changes, even behind the end.
    pub open spec fn write_at(self, at: nat, data: Seq<u8>) -> Model {
        if data.len() == 0 {
            self
        } else {
            self.put(at, data)
        }
    }

    /// The vector with `data` at the cursor, and the cursor behind it. Where the cursor lies behind
    /// the end, the vector grows up to it even if there is nothing to write.
    pub open spec fn write(self, data: Seq<u8>) -> Model {
        match self.cursor {
            None => self,
            Some(at) => Model { cursor: Some(at + data.len()), ..self.put(at, data) },
        }
    }

    /// What there is to read at position `at`, up to `n` bytes.
    pub open spec fn read_at(self, at: nat, n: nat) -> Seq<u8> {
        if at >= self.bytes.len() {
            Seq::empty()
        } else {
            self.bytes.subrange(at as int, min((at + n) as int, self.bytes.len() as int))
        }
    }

    /// What there is to read at the cursor, up to `n` bytes.
    pub open spec fn read(self, n: nat) -> Seq<u8> {
        match self.cursor {
            None => Seq::empty(),
            Some(at) => self.read_at(at, n),
        }
    }

    /// Where the cursor stands; the front if there is none.
    pub open spec fn position(self) -> nat {
        match self.cursor {
            None => 0,
            Some(at) => at,
        }
    }

    /// Where bytes that are read are passed on in pieces.
    pub open spec fn seams(self) -> Seams {
        Seams { extents: self.extents, end: self.bytes.len() }
    }

    /// The vector with the cursor moved on by `n` bytes.
    pub open spec fn skip_ahead(self, n: nat) -> Model {
        match self.cursor {
            None => self,
            Some(at) => Model { cursor: Some(at + n), ..self },
        }
    }

    /// The position that `pos` stands for; it may lie before the front.
    pub open spec fn target(self, pos: SeekFrom) -> int {
        match pos {
            SeekFrom::Start(start) => start as int,
            SeekFrom::End(end) => self.bytes.len() + end,
            SeekFrom::Current(current) => self.cursor.unwrap() + current,
        }
    }

    /// What a seek to `pos` reports: the position, unless it lies before the front. Without a
    /// cursor only the end itself can be sought.
    pub open spec fn sought(self, pos: SeekFrom) -> Option<nat> {
        if self.cursor is None {
            if pos == SeekFrom::End(0) {
                Some(0)
            } else {
                None
            }
        } else if self.target(pos) < 0 {
            None
        } else {
            Some(self.target(pos) as nat)
        }
    }

    /// The vector after a seek to `pos`.
    pub open spec fn seek(self, pos: SeekFrom) -> Model {
        if self.cursor is None || self.target(pos) < 0 {
            self
        } else {
            Model { cursor: Some(self.target(pos) as nat), ..self }
        }
    }

    /// The first `n` bytes of the vector, or all of them if there are no more. The cursor stays
    /// where it is, even behind the end.
    pub open spec fn truncate(self, n: nat) -> Model {
        if n >= self.bytes.len() {
            self
        } else {
            Model { bytes: self.bytes.take(n as int), extents: cut(self.extents, n), ..self }
        }
    }

    /// The vector shortened or extended to `n` bytes.
    pub open spec fn resize(self, n: nat) -> Model {
        if self.bytes.len() < n {
            self.extend((n - self.bytes.len()) as nat)
        } else {
            self.truncate(n)
        }
    }

    /// The bytes of block `i`.
    pub open spec fn block(self, i: int) -> Seq<u8> {
        self.bytes.subrange(offset(self.extents, i) as int, offset(self.extents, i + 1) as int)
    }

    /// The bytes of each of the blocks.
    pub open spec fn blocks(self) -> Seq<Seq<u8>> {
        Seq::new(self.extents.len(), |i: int| self.block(i))
    }
}

pub proof fn lemma_joined_push<S: View<V = Seq<u8>>>(pieces: Seq<S>, piece: S)
    ensures
        joined(pieces.push(piece)) == joined(pieces) + piece@,
{
    assert(pieces.push(piece).drop_last() =~= pieces);
}

pub proof fn lemma_joined_one<S: View<V = Seq<u8>>>(piece: S)
    ensures
        joined(seq![piece]) == piece@,
{
    lemma_joined_push(Seq::<S>::empty(), piece);
    assert(Seq::<S>::empty().push(piece) =~= seq![piece]);
    assert(Seq::<u8>::empty() + piece@ =~= piece@);
}

pub proof fn lemma_joined_add<S: View<V = Seq<u8>>>(a: Seq<S>, b: Seq<S>)
    ensures
        joined(a + b) == joined(a) + joined(b),
    decreases b.len(),
{
    if b.len() == 0 {
        assert(a + b =~= a);
        assert(joined(a) + joined(b) =~= joined(a));
    } else {
        lemma_joined_add(a, b.drop_last());
        assert((a + b).drop_last() =~= a + b.drop_last());
        assert(joined(a + b) =~= joined(a) + joined(b));
    }
}

/// The pieces before piece `i`, the piece itself and those behind it, joined.
pub proof fn lemma_joined_around<S: View<V = Seq<u8>>>(pieces: Seq<S>, i: int)
    requires
        0 <= i < pieces.len(),
    ensures
        joined(pieces) == joined(pieces.take(i)) + pieces[i]@ + joined(pieces.skip(i + 1)),
        joined(pieces.take(i + 1)) == joined(pieces.take(i)) + pieces[i]@,
        joined(pieces.skip(i)) == pieces[i]@ + joined(pieces.skip(i + 1)),
{
    lemma_joined_push(pieces.take(i), pieces[i]);
    assert(pieces.take(i).push(pieces[i]) =~= pieces.take(i + 1));
    lemma_joined_add(pieces.take(i + 1), pieces.skip(i + 1));
    assert(pieces.take(i + 1) + pieces.skip(i + 1) =~= pieces);
    lemma_joined_one(pieces[i]);
    lemma_joined_add(seq![pieces[i]], pieces.skip(i + 1));
    assert(seq![pieces[i]] + pieces.skip(i + 1) =~= pieces.skip(i));
}

pub proof fn lemma_joined_split<S: View<V = Seq<u8>>>(pieces: Seq<S>, i: int)
    requires
        0 <= i <= pieces.len(),
    ensures
        joined(pieces) == joined(pieces.take(i)) + joined(pieces.skip(i)),
{
    lemma_joined_add(pieces.take(i), pieces.skip(i));
    assert(pieces.take(i) + pieces.skip(i) =~= pieces);
}

/// Writing one piece behind another is writing both at once.
pub proof fn lemma_overlay_twice(bytes: Seq<u8>, at: int, a: Seq<u8>, b: Seq<u8>)
    requires
        0 <= at,
        at + a.len() + b.len() <= bytes.len(),
    ensures
        overlay(overlay(bytes, at, a), at + a.len(), b) == overlay(bytes, at, a + b),
{
    assert(overlay(overlay(bytes, at, a), at + a.len(), b) =~= overlay(bytes, at, a + b));
}

/// The blocks hold no fewer bytes, the more of them are counted.
pub proof fn lemma_offset_monotonic(extents: Seq<Extent>, i: int, j: int)
    requires
        i <= j,
    ensures
        offset(extents, i) <= offset(extents, j),
    decreases j - i,
{
    if i < j {
        lemma_offset_monotonic(extents, i, j - 1);
    }
}

/// The position of a block depends only on the blocks before it.
pub proof fn lemma_offset_prefix(a: Seq<Extent>, b: Seq<Extent>, i: int)
    requires
        i <= a.len(),
        i <= b.len(),
        forall|k: int| 0 <= k < i ==> (#[trigger] a[k]).len == b[k].len,
    ensures
        offset(a, i) == offset(b, i),
    decreases i,
{
    if i > 0 {
        lemma_offset_prefix(a, b, i - 1);
        assert(a[i - 1].len == b[i - 1].len);
    }
}

/// A write that reaches the end is a write up to the end, and what is left of the data put behind
/// it, after as many zeros as the write starts behind the end.
pub proof fn lemma_write_to_end(m: Model, at: nat, data: Seq<u8>)
    requires
        m.cursor is Some,
        at + data.len() >= m.bytes.len(),
    ensures
        ({
            let len = m.bytes.len();
            let n = if at < len {
                len - at
            } else {
                0
            };
            let gap = if at > len {
                (at - len) as nat
            } else {
                0
            };
            let front = if at < len {
                overlay(m.bytes, at as int, data.take(n))
            } else {
                m.bytes
            };
            let all = zeros(gap) + data.skip(n);
            &&& all.len() == m.excess(at, data.len())
            &&& m.put(at, data) == (Model {
                bytes: front + all,
                extents: grown(m.extents, m.page, all.len()),
                ..m
            })
        }),
{
    let len = m.bytes.len();
    let n = if at < len {
        len - at
    } else {
        0
    };
    let gap = if at > len {
        (at - len) as nat
    } else {
        0
    };
    let front = if at < len {
        overlay(m.bytes, at as int, data.take(n))
    } else {
        m.bytes
    };
    let all = zeros(gap) + data.skip(n);
    assert(front + all =~= m.put(at, data).bytes);
    if all.len() == 0 {
        assert(grown(m.extents, m.page, 0) =~= m.extents);
    }
}

/// The positions of the blocks once the last one holds `n` more bytes.
pub proof fn lemma_widen(extents: Seq<Extent>, n: nat)
    requires
        extents.len() > 0,
    ensures
        total(widen(extents, n)) == total(extents) + n,
        forall|i: int|
            i < extents.len() ==> #[trigger] offset(widen(extents, n), i) == offset(extents, i),
{
    let after = widen(extents, n);
    assert forall|i: int| i < extents.len() implies #[trigger] offset(after, i) == offset(
        extents,
        i,
    ) by {
        lemma_offset_prefix(after, extents, i);
    }
    assert(offset(after, extents.len() - 1) == offset(extents, extents.len() - 1));
}

/// The positions of the blocks once there is one more.
pub proof fn lemma_push(extents: Seq<Extent>, extent: Extent)
    ensures
        total(extents.push(extent)) == total(extents) + extent.len,
        forall|i: int|
            i <= extents.len() ==> #[trigger] offset(extents.push(extent), i) == offset(
                extents,
                i,
            ),
{
    let after = extents.push(extent);
    assert forall|i: int| i <= extents.len() implies #[trigger] offset(after, i) == offset(
        extents,
        i,
    ) by {
        lemma_offset_prefix(after, extents, i);
    }
    assert(offset(after, extents.len() as int) == offset(extents, extents.len() as int));
}

/// The positions of the blocks once `n` more bytes are stored.
pub proof fn lemma_grown(extents: Seq<Extent>, page: Layout, n: nat)
    ensures
        total(grown(extents, page, n)) == total(extents) + n,
        forall|i: int|
            i < extents.len() ==> #[trigger] offset(grown(extents, page, n), i) == offset(
                extents,
                i,
            ),
        offset(grown(extents, page, n), extents.len() as int) == total(extents) + min(
            n as int,
            spare(extents) as int,
        ),
{
    let after = grown(extents, page, n);
    let some = min(n as int, spare(extents) as int) as nat;
    let filled = widen(extents, some);
    if extents.len() > 0 {
        lemma_widen(extents, some);
    }
    if n > spare(extents) {
        let rest = (n - spare(extents)) as nat;
        lemma_push(filled, Extent { len: rest, capacity: page.block_size(rest) });
        assert forall|i: int| i < extents.len() implies #[trigger] offset(after, i) == offset(
            extents,
            i,
        ) by {
            assert(offset(after, i) == offset(filled, i));
        }
        assert(offset(after, extents.len() as int) == offset(filled, extents.len() as int));
    }
}

/// Where `n` lies in block `i`, that block and those before it are left of a cut at `n`.
pub proof fn lemma_cut(extents: Seq<Extent>, n: nat, i: int)
    requires
        0 <= i < extents.len(),
        offset(extents, i) <= n < offset(extents, i + 1),
        forall|j: int| 0 <= j < extents.len() ==> (#[trigger] extents[j]).len > 0,
    ensures
        total(cut(extents, n)) == n,
        cut(extents, n) == (if n == offset(extents, i) {
            extents.take(i)
        } else {
            extents.take(i).push(
                Extent {
                    len: (n - offset(extents, i)) as nat,
                    capacity: extents[i].capacity,
                },
            )
        }),
    decreases extents.len(),
{
    let last = extents.len() - 1;
    let start = offset(extents, last);
    let front = extents.drop_last();
    reveal_with_fuel(cut, 3);
    if i < last {
        lemma_offset_monotonic(extents, i + 1, last);
        lemma_offset_prefix(front, extents, i);
        lemma_offset_prefix(front, extents, i + 1);
        lemma_cut(front, n, i);
        assert(front.take(i) =~= extents.take(i));
    } else if n == start {
        assert(front =~= extents.take(i));
        lemma_offset_prefix(front, extents, i);
        if i > 0 {
            let e = front.last();
            assert(extents[i - 1].len > 0);
            lemma_offset_prefix(front, extents, i - 1);
            assert(front.update(
                i - 1,
                Extent { len: (n - offset(front, i - 1)) as nat, capacity: e.capacity },
            ) =~= front);
        }
    } else {
        let after = cut(extents, n);
        assert(after =~= extents.take(i).push(
            Extent { len: (n - start) as nat, capacity: extents[i].capacity },
        ));
        lemma_offset_prefix(after, extents, i);
    }
}

/// There are no more blocks than bytes.
pub proof fn lemma_count(extents: Seq<Extent>, i: int)
    requires
        0 <= i <= extents.len(),
        forall|j: int| 0 <= j < extents.len() ==> (#[trigger] extents[j]).len > 0,
    ensures
        i <= offset(extents, i),
    decreases i,
{
    if i > 0 {
        lemma_count(extents, i - 1);
        assert(extents[i - 1].len > 0);
    }
}

/// It does not matter how far before the front a range begins.
pub proof fn lemma_parts_front(blocks: Seq<Seq<u8>>, lo: int, hi: int)
    requires
        lo <= 0,
    ensures
        parts(blocks, lo, hi) == parts(blocks, 0, hi),
    decreases blocks.len(),
{
    if blocks.len() > 0 {
        let n = blocks[0].len() as int;
        lemma_parts_front(blocks.skip(1), lo - n, hi - n);
        lemma_parts_front(blocks.skip(1), 0 - n, hi - n);
    }
}

/// There is nothing in a range that ends at the front, or before it begins.
pub proof fn lemma_parts_empty(blocks: Seq<Seq<u8>>, lo: int, hi: int)
    requires
        hi <= 0 || hi <= lo,
    ensures
        parts(blocks, lo, hi) == Seq::<Seq<u8>>::empty(),
    decreases blocks.len(),
{
    if blocks.len() > 0 {
        let n = blocks[0].len() as int;
        lemma_parts_empty(blocks.skip(1), lo - n, hi - n);
    }
}

/// It does not matter how far behind the end a range ends.
pub proof fn lemma_parts_end(blocks: Seq<Seq<u8>>, extents: Seq<Extent>, lo: int, hi: int)
    requires
        blocks.len() == extents.len(),
        forall|i: int| 0 <= i < blocks.len() ==> (#[trigger] blocks[i]).len() == extents[i].len,
        hi >= total(extents),
    ensures
        parts(blocks, lo, hi) == parts(blocks, lo, total(extents) as int),
    decreases blocks.len(),
{
    if blocks.len() > 0 {
        let n = blocks[0].len() as int;
        let rest = extents.skip(1);
        lemma_offset_skip(extents, 1, extents.len() as int);
        assert(offset(extents, 1) == n) by {
            reveal_with_fuel(offset, 2);
            assert(blocks[0].len() == extents[0].len);
        }
        assert forall|i: int| 0 <= i < blocks.skip(1).len() implies (
        #[trigger] blocks.skip(1)[i]).len() == rest[i].len by {
            assert(blocks[i + 1].len() == extents[i + 1].len);
        }
        lemma_offset_monotonic(extents, 1, extents.len() as int);
        lemma_parts_end(blocks.skip(1), rest, lo - n, hi - n);
    }
}

/// The position of block `i`, counted from the start of block `k`.
pub proof fn lemma_offset_skip(extents: Seq<Extent>, k: int, i: int)
    requires
        0 <= k <= i <= extents.len(),
    ensures
        offset(extents.skip(k), i - k) == offset(extents, i) - offset(extents, k),
    decreases i - k,
{
    if k < i {
        lemma_offset_skip(extents, k, i - 1);
        assert(extents.skip(k)[i - 1 - k] == extents[i - 1]);
    }
}

/// The blocks before the one that a range begins in have no part in it.
pub proof fn lemma_parts_skip(
    blocks: Seq<Seq<u8>>,
    extents: Seq<Extent>,
    lo: int,
    hi: int,
    k: int,
)
    requires
        blocks.len() == extents.len(),
        forall|i: int| 0 <= i < blocks.len() ==> (#[trigger] blocks[i]).len() == extents[i].len,
        0 <= k <= blocks.len(),
        lo >= offset(extents, k),
    ensures
        parts(blocks, lo, hi) == parts(
            blocks.skip(k),
            lo - offset(extents, k),
            hi - offset(extents, k),
        ),
    decreases k,
{
    if k == 0 {
        assert(blocks.skip(0) =~= blocks);
    } else {
        lemma_parts_skip(blocks, extents, lo, hi, k - 1);
        let rest = blocks.skip(k - 1);
        assert(rest[0] == blocks[k - 1]);
        assert(rest.skip(1) =~= blocks.skip(k));
        assert(blocks[k - 1].len() == extents[k - 1].len);
    }
}

/// A position that lies in block `i` lies in no other.
pub proof fn lemma_block_at(extents: Seq<Extent>, pos: int, i: int)
    requires
        0 <= i <= extents.len(),
        i < extents.len() ==> offset(extents, i) <= pos < offset(extents, i + 1),
        i == extents.len() ==> total(extents) <= pos,
    ensures
        block_at(extents, pos) == i,
    decreases extents.len(),
{
    let last = extents.len() - 1;
    if i < last {
        let front = extents.drop_last();
        lemma_offset_monotonic(extents, i + 1, last);
        lemma_offset_prefix(front, extents, i);
        lemma_offset_prefix(front, extents, i + 1);
        lemma_block_at(front, pos, i);
    } else if i == extents.len() && i > 0 {
        lemma_offset_monotonic(extents, last, extents.len() as int);
    }
}

/// A block that begins at a position or before it is not behind the one that the position lies in.
pub proof fn lemma_block_start(extents: Seq<Extent>, pos: int, i: int)
    requires
        0 <= i <= extents.len(),
        offset(extents, i) <= pos,
    ensures
        0 <= block_at(extents, pos) <= extents.len(),
        offset(extents, i) <= offset(extents, block_at(extents, pos)) <= pos,
    decreases extents.len(),
{
    let last = extents.len() - 1;
    if extents.len() > 0 {
        lemma_offset_monotonic(extents, last, extents.len() as int);
        if pos < offset(extents, last) {
            let front = extents.drop_last();
            if i > last {
                assert(false);
            }
            lemma_offset_prefix(front, extents, i);
            lemma_block_start(front, pos, i);
            lemma_offset_prefix(front, extents, block_at(front, pos));
        } else if pos < total(extents) {
            if i <= last {
                lemma_offset_monotonic(extents, i, last);
            }
        } else {
            lemma_offset_monotonic(extents, i, extents.len() as int);
        }
    }
}

/// The block that a position lies in begins where it did, however the blocks behind may change.
pub proof fn lemma_block_start_prefix(a: Seq<Extent>, b: Seq<Extent>, pos: int)
    requires
        a.len() <= b.len(),
        forall|k: int| 0 <= k < a.len() - 1 ==> (#[trigger] a[k]).len == b[k].len,
        a.len() > 0 ==> a[a.len() - 1].len <= b[a.len() - 1].len,
        0 <= pos < total(a),
    ensures
        offset(a, block_at(a, pos)) == offset(b, block_at(b, pos)),
{
    let i = lemma_find_block(a, pos);
    lemma_block_at(a, pos, i);
    lemma_offset_prefix(a, b, i);
    lemma_block_at(b, pos, i);
}

/// The last seam before a position in a block, where the bytes end behind it, is where it begins.
pub proof fn lemma_seam_in_block(seams: Seams, i: int, from: int)
    requires
        0 <= i < seams.extents.len(),
        offset(seams.extents, i) <= from,
        seams.end >= total(seams.extents),
    ensures
        forall|pos: int|
            from < pos <= offset(seams.extents, i + 1) ==> #[trigger] seams.last(pos) == offset(
                seams.extents,
                i,
            ),
{
    assert forall|pos: int| from < pos <= offset(seams.extents, i + 1) implies #[trigger] seams.last(
        pos,
    ) == offset(seams.extents, i) by {
        lemma_block_at(seams.extents, pos - 1, i);
        lemma_offset_monotonic(seams.extents, i + 1, seams.extents.len() as int);
    }
}

/// Each position before the end lies in a block.
pub proof fn lemma_find_block(extents: Seq<Extent>, pos: int) -> (i: int)
    requires
        0 <= pos < total(extents),
    ensures
        0 <= i < extents.len(),
        offset(extents, i) <= pos < offset(extents, i + 1),
    decreases extents.len(),
{
    let last = extents.len() - 1;
    if pos < offset(extents, last) {
        let front = extents.drop_last();
        lemma_offset_prefix(front, extents, last);
        let i = lemma_find_block(front, pos);
        lemma_offset_prefix(front, extents, i);
        lemma_offset_prefix(front, extents, i + 1);
        i
    } else {
        last
    }
}

/// There is nothing in a range that begins behind all the blocks.
pub proof fn lemma_parts_behind(blocks: Seq<Seq<u8>>, extents: Seq<Extent>, lo: int, hi: int)
    requires
        blocks.len() == extents.len(),
        forall|i: int| 0 <= i < blocks.len() ==> (#[trigger] blocks[i]).len() == extents[i].len,
        lo >= total(extents),
    ensures
        parts(blocks, lo, hi) == Seq::<Seq<u8>>::empty(),
{
    lemma_parts_skip(blocks, extents, lo, hi, extents.len() as int);
}

} // verus!
