//! What holds of blocked vectors as a whole.
//!
//! The laws are stated of [`Model`], the mathematical value that a vector stands for; what each
//! operation on a vector does to its model is what the operation ensures.

use crate::block;
use crate::block::Block;
use crate::io;
use crate::io::SeekFrom;
use crate::iter;
use crate::model;
use crate::model::{Extent, Model};
use vstd::prelude::*;

verus! {

/// Appending keeps a vector well-formed.
pub proof fn append_keeps_wf(m: Model, data: Seq<u8>)
    requires
        m.wf(),
        m.can_grow(data.len()),
    ensures
        m.append(data).wf(),
{
    if m.cursor is Some || data.len() > 0 {
        grown_is_sound(m, data.len());
    }
}

/// Extending keeps a vector well-formed.
pub proof fn extend_keeps_wf(m: Model, n: nat)
    requires
        m.wf(),
        m.can_grow(n),
    ensures
        m.extend(n).wf(),
{
    if m.cursor is Some {
        grown_is_sound(m, n);
    } else if n > 0 {
        reveal_with_fuel(model::offset, 2);
        m.page.lemma_block_size(n);
    }
}

/// Writing keeps a vector well-formed.
pub proof fn write_keeps_wf(m: Model, at: nat, data: Seq<u8>)
    requires
        m.wf(),
        data.len() > 0 || m.cursor == Some(at) ==> m.can_grow(m.excess(at, data.len())),
    ensures
        m.write_at(at, data).wf(),
        m.cursor == Some(at) ==> m.write(data).wf(),
{
    if m.cursor is Some && (data.len() > 0 || m.cursor == Some(at)) {
        grown_is_sound(m, m.excess(at, data.len()));
    }
}

/// Shortening keeps a vector well-formed.
pub proof fn truncate_keeps_wf(m: Model, n: nat)
    requires
        m.wf(),
    ensures
        m.truncate(n).wf(),
{
    if n < m.bytes.len() {
        let i = model::lemma_find_block(m.extents, n as int);
        model::lemma_cut(m.extents, n, i);
    }
}

/// Resizing keeps a vector well-formed.
pub proof fn resize_keeps_wf(m: Model, n: nat)
    requires
        m.wf(),
        n > m.bytes.len() ==> m.can_grow((n - m.bytes.len()) as nat),
    ensures
        m.resize(n).wf(),
{
    if m.bytes.len() < n {
        extend_keeps_wf(m, (n - m.bytes.len()) as nat);
    } else {
        truncate_keeps_wf(m, n);
    }
}

/// Moving the cursor keeps a vector well-formed.
pub proof fn seek_keeps_wf(m: Model, pos: SeekFrom, n: nat)
    requires
        m.wf(),
    ensures
        m.seek(pos).wf(),
        m.skip_ahead(n).wf(),
{
}

/// The blocks of a vector that has grown are neither empty nor over-full.
proof fn grown_is_sound(m: Model, n: nat)
    requires
        m.wf(),
        m.can_grow(n),
    ensures
        model::total(model::grown(m.extents, m.page, n)) == m.bytes.len() + n,
        forall|i: int|
            0 <= i < model::grown(m.extents, m.page, n).len() ==> 0 < (#[trigger] model::grown(
                m.extents,
                m.page,
                n,
            )[i]).len <= model::grown(m.extents, m.page, n)[i].capacity,
{
    let after = model::grown(m.extents, m.page, n);
    let spare = model::spare(m.extents);
    model::lemma_grown(m.extents, m.page, n);
    if n > spare {
        m.page.lemma_block_size((n - spare) as nat);
    }
    assert forall|i: int| 0 <= i < after.len() implies 0 < (#[trigger] after[i]).len
        <= after[i].capacity by {
        if i < m.extents.len() {
            assert(0 < m.extents[i].len <= m.extents[i].capacity);
        }
    }
}

/// What was written is what is read there, and reading does not go by where the cursor stands.
pub proof fn reads_back_what_was_written(m: Model, at: nat, data: Seq<u8>)
    requires
        m.cursor is Some,
    ensures
        m.write_at(at, data).read_at(at, data.len()) == data,
{
    assert(m.write_at(at, data).read_at(at, data.len()) =~= data);
}

/// What was written at the cursor is what is read once the cursor is moved back.
pub proof fn reads_back_from_the_cursor(m: Model, data: Seq<u8>)
    requires
        m.cursor matches Some(at) && at <= usize::MAX,
    ensures
        m.write(data).seek(SeekFrom::Start(m.cursor.unwrap() as usize)).read(data.len()) == data,
{
    reads_back_what_was_written(m, m.cursor.unwrap(), data);
}

/// What was appended is what is read behind the old end, and the cursor stands behind it.
pub proof fn reads_back_what_was_appended(m: Model, data: Seq<u8>)
    ensures
        m.append(data).bytes == m.bytes + data,
        m.append(data).read_at(m.bytes.len(), data.len()) == data,
        data.len() > 0 ==> m.append(data).cursor == Some(m.bytes.len() + data.len()),
{
    assert(m.append(data).bytes =~= m.bytes + data);
    assert(m.append(data).read_at(m.bytes.len(), data.len()) =~= data);
}

/// A write changes nothing but the bytes it covers; where it starts behind the end, the bytes
/// between are zero.
pub proof fn write_keeps_the_rest(m: Model, at: nat, data: Seq<u8>)
    requires
        m.cursor is Some,
    ensures
        ({
            let after = m.write_at(at, data);
            &&& after.bytes.len() == m.bytes.len() + (if data.len() == 0 {
                0
            } else {
                m.excess(at, data.len())
            })
            &&& after.cursor == m.cursor
            &&& after.page == m.page
            &&& forall|i: int|
                0 <= i < m.bytes.len() && !(at <= i < at + data.len()) ==> #[trigger] after.bytes[i]
                    == m.bytes[i]
            &&& forall|i: int|
                at <= i < at + data.len() ==> #[trigger] after.bytes[i] == data[i - at]
            &&& forall|i: int|
                m.bytes.len() <= i < at && i < after.bytes.len() ==> #[trigger] after.bytes[i]
                    == 0
        }),
{
}

/// Where a write does not reach beyond the end, the blocks keep their extents.
pub proof fn write_inside_keeps_the_blocks(m: Model, at: nat, data: Seq<u8>)
    requires
        at + data.len() <= m.bytes.len(),
    ensures
        m.write_at(at, data).extents == m.extents,
{
}

/// Writing nothing at a position changes nothing.
pub proof fn write_nothing(m: Model, at: nat)
    ensures
        m.write_at(at, Seq::empty()) == m,
{
}

/// Writing at a position is seeking there, writing and seeking back, if there is anything to write.
pub proof fn write_at_is_seek_and_write(m: Model, at: usize, data: Seq<u8>)
    requires
        data.len() > 0,
        m.cursor matches Some(here) && here <= usize::MAX,
    ensures
        m.write_at(at as nat, data) == m.seek(SeekFrom::Start(at)).write(data).seek(
            SeekFrom::Start(m.cursor.unwrap() as usize),
        ),
{
    assert(m.write_at(at as nat, data) =~= m.seek(SeekFrom::Start(at)).write(data).seek(
        SeekFrom::Start(m.cursor.unwrap() as usize),
    ));
}

/// Reading at a position is seeking there and reading.
pub proof fn read_at_is_seek_and_read(m: Model, at: usize, n: nat)
    requires
        m.cursor is Some,
    ensures
        m.read_at(at as nat, n) == m.seek(SeekFrom::Start(at)).read(n),
{
}

/// Writing one buffer after another writes the bytes that writing both at once does, and leaves the
/// cursor at the same place.
pub proof fn write_twice(m: Model, a: Seq<u8>, b: Seq<u8>)
    ensures
        m.write(a).write(b).bytes == m.write(a + b).bytes,
        m.write(a).write(b).cursor == m.write(a + b).cursor,
{
    assert(m.write(a).write(b).bytes =~= m.write(a + b).bytes);
}

/// Appending one buffer after another appends the bytes that appending both at once does, and
/// leaves the cursor at the same place.
pub proof fn append_twice(m: Model, a: Seq<u8>, b: Seq<u8>)
    requires
        m.wf(),
    ensures
        m.append(a).append(b).bytes == m.append(a + b).bytes,
        m.append(a).append(b).cursor == m.append(a + b).cursor,
{
    assert(m.append(a).append(b).bytes =~= m.append(a + b).bytes);
}

/// The vector after each of the buffers has been appended in turn.
pub open spec fn appended_in_turn<S: View<V = Seq<u8>>>(m: Model, bufs: Seq<S>) -> Model
    decreases bufs.len(),
{
    if bufs.len() == 0 {
        m
    } else {
        appended_in_turn(m, bufs.drop_last()).append(bufs.last()@)
    }
}

/// The vector after each of the buffers has been written in turn.
pub open spec fn written_in_turn<S: View<V = Seq<u8>>>(m: Model, bufs: Seq<S>) -> Model
    decreases bufs.len(),
{
    if bufs.len() == 0 {
        m
    } else {
        written_in_turn(m, bufs.drop_last()).write(bufs.last()@)
    }
}

/// Appending a slice of buffers appends the bytes that appending each of them in turn does, empty
/// ones included; if any of them holds bytes, it leaves the cursor at the same place.
pub proof fn append_in_turn<S: View<V = Seq<u8>>>(m: Model, bufs: Seq<S>)
    requires
        m.wf(),
    ensures
        appended_in_turn(m, bufs).bytes == m.append(model::joined(bufs)).bytes,
        appended_in_turn(m, bufs).bytes == m.bytes + model::joined(bufs),
        model::joined(bufs).len() > 0 ==> appended_in_turn(m, bufs).cursor == m.append(
            model::joined(bufs),
        ).cursor,
    decreases bufs.len(),
{
    reads_back_what_was_appended(m, model::joined(bufs));
    if bufs.len() == 0 {
        assert(m.bytes + model::joined(bufs) =~= m.bytes);
    } else {
        let mid = appended_in_turn(m, bufs.drop_last());
        append_in_turn(m, bufs.drop_last());
        reads_back_what_was_appended(mid, bufs.last()@);
        assert(mid.bytes + bufs.last()@ =~= m.bytes + model::joined(bufs));
    }
}

/// Writing a slice of buffers writes the bytes that writing each of them in turn does, and leaves
/// the cursor at the same place, if there is any buffer or the cursor does not lie behind the end.
pub proof fn write_in_turn<S: View<V = Seq<u8>>>(m: Model, bufs: Seq<S>)
    requires
        bufs.len() > 0 || m.position() <= m.bytes.len(),
    ensures
        written_in_turn(m, bufs).bytes == m.write(model::joined(bufs)).bytes,
        written_in_turn(m, bufs).cursor == m.write(model::joined(bufs)).cursor,
    decreases bufs.len(),
{
    if bufs.len() == 0 {
        assert(m.write(model::joined(bufs)).bytes =~= m.bytes);
    } else {
        let front = bufs.drop_last();
        let data = model::joined(front);
        if front.len() == 0 {
            assert(data + bufs.last()@ =~= bufs.last()@);
        } else {
            write_in_turn(m, front);
            write_twice(m, data, bufs.last()@);
            assert(written_in_turn(m, front).write(bufs.last()@).bytes =~= m.write(data).write(
                bufs.last()@,
            ).bytes);
        }
    }
}

/// A write at a position that is not behind the end replaces the bytes there, leaves the cursor
/// where it is, and is what is read there.
pub proof fn write_at_replaces(m: Model, at: nat, data: Seq<u8>)
    requires
        m.cursor is Some,
        at <= m.bytes.len(),
    ensures
        m.write_at(at, data).bytes == m.bytes.take(at as int) + data + m.bytes.skip(
            model::min((at + data.len()) as int, m.bytes.len() as int),
        ),
        m.write_at(at, data).cursor == m.cursor,
        m.write_at(at, data).read_at(at, data.len()) == data,
{
    reads_back_what_was_written(m, at, data);
    assert(m.write_at(at, data).bytes =~= m.bytes.take(at as int) + data + m.bytes.skip(
        model::min((at + data.len()) as int, m.bytes.len() as int),
    ));
}

/// Reading on reads what reading all at once does.
pub proof fn read_twice(m: Model, a: nat, b: nat)
    ensures
        m.read(a) + m.skip_ahead(m.read(a).len()).read(b) == m.read(a + b),
{
    assert(m.read(a) + m.skip_ahead(m.read(a).len()).read(b) =~= m.read(a + b));
}

/// Reading everything reads every byte.
pub proof fn read_all(m: Model)
    ensures
        m.read_at(0, m.bytes.len()) == m.bytes,
{
    assert(m.read_at(0, m.bytes.len()) =~= m.bytes);
}

/// A seek changes nothing but the cursor, which then stands where the seek reports, and not at all
/// if it reports nothing.
pub proof fn seek_moves_the_cursor(m: Model, pos: SeekFrom)
    ensures
        m.seek(pos).bytes == m.bytes,
        m.seek(pos).extents == m.extents,
        m.seek(pos).page == m.page,
        m.cursor is Some && m.sought(pos) is Some ==> m.seek(pos).cursor == m.sought(pos),
        m.cursor is None || m.sought(pos) is None ==> m.seek(pos) == m,
{
}

/// Where a seek went, a seek from the front goes too, and a seek by nothing stays.
pub proof fn seek_again(m: Model, pos: SeekFrom)
    requires
        m.cursor is Some,
        m.sought(pos) matches Some(at) && at <= usize::MAX,
    ensures
        m.seek(pos) == m.seek(SeekFrom::Start(m.sought(pos).unwrap() as usize)),
        m.seek(pos).seek(SeekFrom::Current(0)) == m.seek(pos),
        m.seek(pos).sought(SeekFrom::Current(0)) == m.sought(pos),
{
}

/// A seek and the seek back come to the same place, if neither leads before the front.
pub proof fn seek_back(m: Model, n: isize)
    requires
        m.cursor is Some,
        m.sought(SeekFrom::Current(n)) is Some,
        n > isize::MIN,
    ensures
        m.seek(SeekFrom::Current(n)).seek(SeekFrom::Current((-n) as isize)) == m,
{
    assert(m.seek(SeekFrom::Current(n)).seek(SeekFrom::Current((-n) as isize)) =~= m);
}

/// A resized vector has the length asked for; it keeps its bytes as far as they go, and the
/// additional ones are zero.
pub proof fn resize_sets_the_length(m: Model, n: nat)
    requires
        m.wf(),
    ensures
        m.resize(n).bytes == (if n <= m.bytes.len() {
            m.bytes.take(n as int)
        } else {
            m.bytes + model::zeros((n - m.bytes.len()) as nat)
        }),
        m.resize(n).bytes.len() == n,
        forall|i: int|
            0 <= i < n && i < m.bytes.len() ==> #[trigger] m.resize(n).bytes[i] == m.bytes[i],
        forall|i: int| m.bytes.len() <= i < n ==> #[trigger] m.resize(n).bytes[i] == 0,
        m.cursor is Some ==> m.resize(n).cursor == m.cursor,
{
    if n == m.bytes.len() {
        assert(m.bytes.take(n as int) =~= m.bytes);
    } else if m.cursor is None {
        assert(m.bytes =~= Seq::empty());
        assert(m.bytes + model::zeros(n) =~= model::zeros(n));
    }
}

/// Resizing to the same length again changes nothing.
pub proof fn resize_again(m: Model, n: nat)
    requires
        m.wf(),
    ensures
        m.resize(n).resize(n) == m.resize(n),
{
    resize_sets_the_length(m, n);
}

/// Extending a vector that nothing has been stored in yet makes one that was made with that length.
pub proof fn extend_from_empty(page: crate::layout::Layout, n: nat)
    ensures
        Model::empty(page).extend(n) == Model::zeroed(page, n),
{
}

/// What an extension added, shortening takes away, down to the last block.
pub proof fn truncate_undoes_extend(m: Model, n: nat)
    requires
        m.wf(),
        m.cursor is Some,
    ensures
        m.extend(n).truncate(m.bytes.len()) == m,
{
    let after = m.extend(n);
    let len = m.bytes.len();
    if n > 0 {
        cut_grown(m, n);
        assert(after.bytes.take(len as int) =~= m.bytes);
        assert(after.truncate(len) =~= m);
    } else {
        assert(after.bytes =~= m.bytes);
        assert(after.extents =~= m.extents);
    }
}

/// What was appended, shortening takes away, down to the last block.
pub proof fn truncate_undoes_append(m: Model, data: Seq<u8>)
    requires
        m.wf(),
    ensures
        m.append(data).truncate(m.bytes.len()).bytes == m.bytes,
        m.append(data).truncate(m.bytes.len()).extents == m.extents,
{
    let after = m.append(data);
    let len = m.bytes.len();
    if data.len() > 0 {
        cut_grown(m, data.len());
        assert(after.bytes.take(len as int) =~= m.bytes);
    } else {
        assert(after.bytes =~= m.bytes);
        assert(after.extents =~= m.extents);
    }
}

/// Cutting off what has grown leaves the blocks as they were.
proof fn cut_grown(m: Model, n: nat)
    requires
        m.wf(),
        n > 0,
    ensures
        model::cut(model::grown(m.extents, m.page, n), m.bytes.len()) == m.extents,
{
    let before = m.extents;
    let after = model::grown(before, m.page, n);
    let len = m.bytes.len();
    let count = before.len() as int;
    model::lemma_grown(before, m.page, n);
    reveal_with_fuel(model::cut, 3);
    if count == 0 {
        assert(after.drop_last() =~= before);
    } else {
        let last = before.last();
        assert(last.len > 0);
        assert(model::offset(after, count - 1) == model::offset(before, count - 1));
        if after.len() > count {
            let front = after.drop_last();
            model::lemma_offset_prefix(front, after, count - 1);
            assert(front.update(count - 1, Extent { len: last.len, capacity: last.capacity })
                =~= before);
        } else {
            assert(after.update(count - 1, Extent { len: last.len, capacity: last.capacity })
                =~= before);
        }
    }
}

/// Of a vector that is shortened twice, as much is left as the shorter length asks for.
pub proof fn truncate_twice(m: Model, a: nat, b: nat)
    requires
        m.wf(),
    ensures
        m.truncate(a).truncate(b) == m.truncate(
            if a <= b {
                a
            } else {
                b
            },
        ),
{
    if a < m.bytes.len() && b < a {
        let i = model::lemma_find_block(m.extents, a as int);
        let j = model::lemma_find_block(m.extents, b as int);
        let mid = model::cut(m.extents, a);
        model::lemma_cut(m.extents, a, i);
        model::lemma_cut(m.extents, b, j);
        if i < j {
            model::lemma_offset_monotonic(m.extents, i + 1, j);
        }
        assert(j < mid.len()) by {
            if i <= j && mid.len() <= j {
                assert(false);
            }
        }
        assert forall|k: int| 0 <= k < mid.len() implies (#[trigger] mid[k]).len > 0 by {
            if k < i {
                assert(mid[k] == m.extents[k]);
            }
        }
        model::lemma_offset_prefix(mid, m.extents, j);
        if j < i {
            model::lemma_offset_prefix(mid, m.extents, j + 1);
        }
        model::lemma_cut(mid, b, j);
        assert(mid.take(j) =~= m.extents.take(j));
        assert(m.bytes.take(a as int).take(b as int) =~= m.bytes.take(b as int));
    }
}

/// An append fills up the last block, and what does not fit there makes up one new block: the
/// blocks before keep their bytes.
pub proof fn append_fills_blocks(m: Model, data: Seq<u8>)
    requires
        m.wf(),
    ensures
        ({
            let after = m.append(data);
            let spare = model::spare(m.extents) as int;
            &&& data.len() <= spare ==> after.blocks().len() == m.blocks().len()
            &&& data.len() > spare ==> {
                &&& after.blocks().len() == m.blocks().len() + 1
                &&& after.blocks().last() == data.skip(spare)
            }
            &&& forall|i: int|
                0 <= i < m.blocks().len() - 1 ==> #[trigger] after.blocks()[i] == m.blocks()[i]
            &&& m.blocks().len() > 0 ==> after.blocks()[m.blocks().len() - 1]
                == m.blocks().last() + data.take(model::min(spare, data.len() as int))
        }),
{
    let after = m.append(data);
    let before = m.extents;
    let n = data.len();
    let count = before.len() as int;
    let spare = model::spare(before) as int;
    if m.cursor is Some || n > 0 {
        model::lemma_grown(before, m.page, n);
        assert forall|i: int| 0 <= i < count - 1 implies #[trigger] after.blocks()[i]
            == m.blocks()[i] by {
            assert(model::offset(after.extents, i) == model::offset(before, i));
            assert(model::offset(after.extents, i + 1) == model::offset(before, i + 1));
            model::lemma_offset_monotonic(before, i + 1, count);
            assert(after.block(i) =~= m.block(i));
        }
        if count > 0 {
            assert(model::offset(after.extents, count - 1) == model::offset(before, count - 1));
            assert(after.block(count - 1) =~= m.block(count - 1) + data.take(
                model::min(spare, n as int),
            ));
        }
        if n > spare {
            assert(after.block(count) =~= data.skip(spare));
        }
    }
}

/// The blocks, one after another, hold every byte.
pub proof fn blocks_hold_the_bytes(m: Model)
    requires
        m.wf(),
    ensures
        m.blocks().flatten() == m.bytes,
{
    first_blocks(m, m.extents.len() as int);
    assert(m.blocks().take(m.extents.len() as int) =~= m.blocks());
    assert(m.bytes.take(m.bytes.len() as int) =~= m.bytes);
}

/// The first `k` blocks hold the bytes before the block that follows.
proof fn first_blocks(m: Model, k: int)
    requires
        m.wf(),
        0 <= k <= m.extents.len(),
    ensures
        m.blocks().take(k).flatten() == m.bytes.take(model::offset(m.extents, k) as int),
    decreases k,
{
    if k == 0 {
        assert(m.blocks().take(0).flatten() =~= m.bytes.take(0));
    } else {
        first_blocks(m, k - 1);
        let front = m.blocks().take(k - 1);
        front.lemma_flatten_push(m.block(k - 1));
        assert(front.push(m.block(k - 1)) =~= m.blocks().take(k));
        model::lemma_offset_monotonic(m.extents, k, m.extents.len() as int);
        assert(m.blocks().take(k).flatten() =~= m.bytes.take(
            model::offset(m.extents, k) as int,
        ));
    }
}

/// The parts of the blocks in a range, one after another, are the bytes in that range, and none of
/// them is empty.
pub proof fn parts_hold_the_range(m: Model, lo: int, hi: int)
    requires
        m.wf(),
        0 <= lo,
    ensures
        ({
            let to = model::min(hi, m.bytes.len() as int);
            model::parts(m.blocks(), lo, hi).flatten() == (if lo < to {
                m.bytes.subrange(lo, to)
            } else {
                Seq::empty()
            })
        }),
        forall|i: int|
            0 <= i < model::parts(m.blocks(), lo, hi).len() ==> (#[trigger] model::parts(
                m.blocks(),
                lo,
                hi,
            )[i]).len() > 0,
{
    blocks_hold_the_bytes(m);
    parts_flatten(m.blocks(), lo, hi);
}

proof fn parts_flatten(blocks: Seq<Seq<u8>>, lo: int, hi: int)
    ensures
        ({
            let bytes = blocks.flatten();
            let from = if lo <= 0 {
                0
            } else {
                lo
            };
            let to = model::min(hi, bytes.len() as int);
            model::parts(blocks, lo, hi).flatten() == (if from < to {
                bytes.subrange(from, to)
            } else {
                Seq::empty()
            })
        }),
        forall|i: int|
            0 <= i < model::parts(blocks, lo, hi).len() ==> (#[trigger] model::parts(
                blocks,
                lo,
                hi,
            )[i]).len() > 0,
    decreases blocks.len(),
{
    if blocks.len() > 0 {
        let n = blocks[0].len() as int;
        let rest = blocks.skip(1);
        let tail = model::parts(rest, lo - n, hi - n);
        let all = model::parts(blocks, lo, hi);
        let from = if lo <= 0 {
            0
        } else {
            lo
        };
        let to = model::min(hi, n);
        parts_flatten(rest, lo - n, hi - n);
        assert(blocks.drop_first() =~= rest);
        let bytes = blocks.flatten();
        let end = model::min(hi, bytes.len() as int);
        assert(bytes == blocks[0] + rest.flatten());
        if from < to {
            let head = blocks[0].subrange(from, to);
            assert(all[0] == head);
            assert(all.drop_first() =~= tail);
            assert(all.flatten() =~= bytes.subrange(from, end));
            assert forall|i: int| 0 <= i < all.len() implies (#[trigger] all[i]).len() > 0 by {
                if i > 0 {
                    assert(all[i] == tail[i - 1]);
                }
            }
        } else if from < end {
            assert(all.flatten() =~= bytes.subrange(from, end));
        }
    }
}

/// The parts of the blocks in the range of everything are the blocks.
pub proof fn parts_of_everything(m: Model)
    requires
        m.wf(),
    ensures
        model::parts(m.blocks(), 0, m.bytes.len() as int) == m.blocks(),
{
    blocks_hold_the_bytes(m);
    assert forall|i: int| 0 <= i < m.blocks().len() implies (#[trigger] m.blocks()[i]).len() > 0 by {
        model::lemma_offset_monotonic(m.extents, i + 1, m.extents.len() as int);
        assert(m.extents[i].len > 0);
    }
    parts_of_all(m.blocks());
}

proof fn parts_of_all(blocks: Seq<Seq<u8>>)
    requires
        forall|i: int| 0 <= i < blocks.len() ==> (#[trigger] blocks[i]).len() > 0,
    ensures
        model::parts(blocks, 0, blocks.flatten().len() as int) == blocks,
    decreases blocks.len(),
{
    if blocks.len() > 0 {
        let n = blocks[0].len() as int;
        let rest = blocks.skip(1);
        let len = blocks.flatten().len() as int;
        assert(blocks.drop_first() =~= rest);
        assert forall|i: int| 0 <= i < rest.len() implies (#[trigger] rest[i]).len() > 0 by {
            assert(rest[i] == blocks[i + 1]);
        }
        parts_of_all(rest);
        model::lemma_parts_front(rest, 0 - n, len - n);
        assert(blocks[0].subrange(0, n) =~= blocks[0]);
        assert(seq![blocks[0]] + rest =~= blocks);
    }
}

/// What is stored in the slices of a mutable range is what the vector holds there, and nothing else
/// changes: the blocks from the one that the range begins in on, `before`, keep their extents, and
/// with `after` in their place the vector holds the slices, one after another, from position `lo`
/// on, and everywhere else the bytes it held.
pub proof fn range_writes_through(
    m: Model,
    lo: int,
    hi: int,
    before: Seq<Block>,
    slices: Seq<Seq<u8>>,
    after: Seq<Block>,
)
    requires
        m.wf(),
        0 <= lo,
        block::sound(before),
        block::extents(before) == m.extents.skip(model::block_at(m.extents, lo)),
        iter::views(before) == m.blocks().skip(model::block_at(m.extents, lo)),
        slices.len() == model::parts(m.blocks(), lo, hi).len(),
        forall|i: int|
            0 <= i < slices.len() ==> (#[trigger] slices[i]).len() == model::parts(
                m.blocks(),
                lo,
                hi,
            )[i].len(),
        iter::stored(
            before,
            if lo < m.bytes.len() {
                lo - model::offset(m.extents, model::block_at(m.extents, lo))
            } else {
                0
            },
            slices,
            after,
        ),
    ensures
        block::sound(after),
        block::extents(after) == block::extents(before),
        ({
            let to = model::min(hi, m.bytes.len() as int);
            let start = model::offset(m.extents, model::block_at(m.extents, lo)) as int;
            let bytes = m.bytes.take(start) + model::joined(after);
            &&& bytes.len() == m.bytes.len()
            &&& slices.flatten().len() == (if lo < to {
                to - lo
            } else {
                0
            })
            &&& forall|i: int| lo <= i < to ==> #[trigger] bytes[i] == slices.flatten()[i - lo]
            &&& forall|i: int|
                0 <= i < bytes.len() && !(lo <= i < to) ==> #[trigger] bytes[i] == m.bytes[i]
        }),
{
    let k = model::block_at(m.extents, lo);
    let start = model::offset(m.extents, k) as int;
    let len = m.bytes.len() as int;
    let to = model::min(hi, len);
    model::lemma_block_start(m.extents, lo, 0);
    assert forall|i: int| 0 <= i < m.blocks().len() implies (#[trigger] m.blocks()[i]).len()
        == m.extents[i].len by {
        model::lemma_offset_monotonic(m.extents, i + 1, m.extents.len() as int);
    }
    model::lemma_parts_skip(m.blocks(), m.extents, lo, hi, k);
    blocks_hold_the_bytes(m);
    views_joined(before);
    first_blocks(m, k);
    let rest = m.blocks().skip(k);
    vstd::seq_lib::lemma_flatten_concat(m.blocks().take(k), rest);
    assert(m.blocks().take(k) + rest =~= m.blocks());
    model::lemma_offset_monotonic(m.extents, k, m.extents.len() as int);
    assert(m.bytes == m.bytes.take(start) + model::joined(before));
    if lo < len {
        let i = model::lemma_find_block(m.extents, lo);
        model::lemma_block_at(m.extents, lo, i);
        assert(before.len() == block::extents(before).len());
        assert(before[0]@ == iter::views(before)[0]);
        stored_through(before, lo - start, hi - start, slices, after);
    } else {
        model::lemma_block_at(m.extents, lo, m.extents.len() as int);
        assert(before.len() == block::extents(before).len());
        assert(rest =~= Seq::empty());
        assert(slices =~= Seq::empty());
    }
}

/// What is stored in the slices of all the blocks is what the vector holds.
pub proof fn blocks_write_through(
    m: Model,
    before: Seq<Block>,
    slices: Seq<Seq<u8>>,
    after: Seq<Block>,
)
    requires
        m.wf(),
        block::sound(before),
        block::extents(before) == m.extents,
        iter::views(before) == m.blocks(),
        slices.len() == m.blocks().len(),
        forall|i: int|
            0 <= i < slices.len() ==> (#[trigger] slices[i]).len() == m.blocks()[i].len(),
        iter::stored(before, 0, slices, after),
    ensures
        block::sound(after),
        block::extents(after) == m.extents,
        model::joined(after) == slices.flatten(),
        slices.flatten().len() == m.bytes.len(),
{
    let k = model::block_at(m.extents, 0);
    if m.extents.len() > 0 {
        assert(m.extents[0].len > 0);
        reveal_with_fuel(model::offset, 2);
        model::lemma_offset_monotonic(m.extents, 1, m.extents.len() as int);
        model::lemma_block_at(m.extents, 0, 0);
    }
    assert(m.extents.skip(0) =~= m.extents);
    assert(m.blocks().skip(0) =~= m.blocks());
    parts_of_everything(m);
    range_writes_through(m, 0, m.bytes.len() as int, before, slices, after);
    assert(m.bytes.take(0) + model::joined(after) =~= model::joined(after));
    assert(model::joined(after) =~= slices.flatten());
}

/// The bytes of blocks, one after another.
proof fn views_joined(blocks: Seq<Block>)
    ensures
        iter::views(blocks).flatten() == model::joined(blocks),
    decreases blocks.len(),
{
    if blocks.len() > 0 {
        let front = blocks.drop_last();
        views_joined(front);
        iter::views(front).lemma_flatten_push(blocks.last()@);
        assert(iter::views(front).push(blocks.last()@) =~= iter::views(blocks));
    }
}

proof fn stored_through(
    before: Seq<Block>,
    from: int,
    hi: int,
    slices: Seq<Seq<u8>>,
    after: Seq<Block>,
)
    requires
        block::sound(before),
        0 <= from,
        before.len() > 0 ==> from < before[0]@.len(),
        slices.len() == model::parts(iter::views(before), from, hi).len(),
        forall|i: int|
            0 <= i < slices.len() ==> (#[trigger] slices[i]).len() == model::parts(
                iter::views(before),
                from,
                hi,
            )[i].len(),
        iter::stored(before, from, slices, after),
    ensures
        block::sound(after),
        block::extents(after) == block::extents(before),
        ({
            let to = model::min(hi, model::joined(before).len() as int);
            &&& slices.flatten().len() == (if from < to {
                to - from
            } else {
                0
            })
            &&& model::joined(after) == (if from < to {
                model::overlay(model::joined(before), from, slices.flatten())
            } else {
                model::joined(before)
            })
        }),
    decreases before.len(),
{
    let views = iter::views(before);
    let all = model::parts(views, from, hi);
    if before.len() == 0 || hi <= from {
        if before.len() > 0 {
            model::lemma_parts_empty(views, from, hi);
        }
        assert(slices =~= Seq::empty());
    } else {
        let n = before[0]@.len() as int;
        let rest = before.skip(1);
        let tail = model::parts(views.skip(1), from - n, hi - n);
        assert(views[0] == before[0]@);
        assert(iter::views(rest) =~= views.skip(1));
        model::lemma_parts_front(views.skip(1), from - n, hi - n);
        assert(all[0] == before[0]@.subrange(from, model::min(hi, n)));
        assert forall|i: int| 0 <= i < slices.skip(1).len() implies (
        #[trigger] slices.skip(1)[i]).len() == tail[i].len() by {
            assert(slices[i + 1].len() == all[i + 1].len());
        }
        assert forall|i: int| 0 <= i < rest.len() implies (#[trigger] rest[i]).wf()
            && rest[i]@.len() > 0 by {
            assert(rest[i] == before[i + 1]);
        }
        stored_through(rest, 0, hi - n, slices.skip(1), after.skip(1));
        model::lemma_joined_around(before, 0);
        model::lemma_joined_around(after, 0);
        assert(before.skip(0) =~= before);
        assert(after.skip(0) =~= after);
        assert(slices.drop_first() =~= slices.skip(1));
        assert(slices[0].len() == all[0].len());
        let to = model::min(hi, model::joined(before).len() as int);
        assert(model::joined(after) =~= model::overlay(
            model::joined(before),
            from,
            slices.flatten(),
        ));
        assert forall|i: int| 0 <= i < after.len() implies (#[trigger] after[i]).wf()
            && after[i]@.len() > 0 by {
            if i > 0 {
                assert(after[i] == after.skip(1)[i - 1]);
            }
        }
        assert(after.len() == before.len()) by {
            assert(block::extents(after.skip(1)).len() == block::extents(rest).len());
        }
        assert forall|i: int| 0 <= i < after.len() implies #[trigger] block::extents(after)[i]
            == block::extents(before)[i] by {
            if i > 0 {
                assert(block::extents(after.skip(1))[i - 1] == block::extents(rest)[i - 1]);
            }
        }
        assert(block::extents(after) =~= block::extents(before));
    }
}

/// Filling buffers one after another fills them as if they were one.
pub proof fn buffers_are_filled_in_order(bufs: Seq<&mut [u8]>, data: Seq<u8>)
    ensures
        Seq::new(
            bufs.len(),
            |i: int| io::filled(bufs[i]@, data, io::room(bufs.take(i)) as int),
        ).flatten() == io::filled(Seq::new(bufs.len(), |i: int| bufs[i]@).flatten(), data, 0),
        Seq::new(bufs.len(), |i: int| bufs[i]@).flatten().len() == io::room(bufs),
    decreases bufs.len(),
{
    let after = Seq::new(
        bufs.len(),
        |i: int| io::filled(bufs[i]@, data, io::room(bufs.take(i)) as int),
    );
    let before = Seq::new(bufs.len(), |i: int| bufs[i]@);
    if bufs.len() > 0 {
        let front = bufs.drop_last();
        let last = bufs.len() - 1;
        let a = Seq::new(
            front.len(),
            |i: int| io::filled(front[i]@, data, io::room(front.take(i)) as int),
        );
        let b = Seq::new(front.len(), |i: int| front[i]@);
        buffers_are_filled_in_order(front, data);
        assert(front =~= bufs.take(last));
        assert forall|i: int| 0 <= i < last implies #[trigger] front.take(i) == bufs.take(i) by {
            assert(front.take(i) =~= bufs.take(i));
        }
        assert(after =~= a.push(after[last]));
        assert(before =~= b.push(before[last]));
        a.lemma_flatten_push(after[last]);
        b.lemma_flatten_push(before[last]);
        assert(after.flatten() =~= io::filled(before.flatten(), data, 0));
    }
}

/// A position that is handed to the standard library and back is the same.
pub proof fn seek_from_round_trip(pos: SeekFrom)
    ensures
        ({
            let there = <std::io::SeekFrom as vstd::std_specs::convert::FromSpec<
                SeekFrom,
            >>::from_spec(pos);
            <SeekFrom as vstd::std_specs::convert::FromSpec<std::io::SeekFrom>>::from_spec(there)
                == pos
        }),
{
}

} // verus!
