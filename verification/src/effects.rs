//! What each operation does to a vector, in bytes and numbers.
//!
//! The laws say for every vector and every input what the bytes, the cursor and the blocks are after
//! an operation, or what it reports. How the blocks grow is said by the laws on
//! [`model::grown`](crate::model::grown).

use crate::io::SeekFrom;
use crate::iter;
use crate::laws;
use crate::layout::Layout;
use crate::meaning;
use crate::model;
use crate::model::Model;
use std::ops::Bound;
use vstd::arithmetic::power2::*;
use vstd::prelude::*;

verus! {

/// A vector that was just made has no bytes, no blocks and no cursor.
pub proof fn made_empty(page: Layout)
    ensures
        Model::empty(page).bytes == Seq::<u8>::empty(),
        Model::empty(page).extents.len() == 0,
        Model::empty(page).cursor is None,
        Model::empty(page).page == page,
{
}

/// A vector that was made with a length holds so many zeros, in one block of the fewest whole pages,
/// and its cursor stands at the front.
pub proof fn made_with_a_length(page: Layout, len: nat)
    requires
        len > 0,
    ensures
        ({
            let m = Model::zeroed(page, len);
            &&& m.bytes.len() == len
            &&& forall|i: int| 0 <= i < len ==> #[trigger] m.bytes[i] == 0
            &&& m.cursor == Some(0nat)
            &&& m.page == page
            &&& m.extents.len() == 1
            &&& m.extents[0].len == len
            &&& m.extents[0].capacity == page.block_size(len)
        }),
{
}

/// A vector that was made with no length is one that was just made.
pub proof fn made_with_no_length(page: Layout)
    ensures
        Model::zeroed(page, 0).bytes == Seq::<u8>::empty(),
        Model::zeroed(page, 0).extents.len() == 0,
        Model::zeroed(page, 0).cursor is None,
        Model::zeroed(page, 0).page == page,
{
}

/// A vector without a cursor that is extended holds so many zeros, in one block, and its cursor
/// stands at the front.
pub proof fn begun_by_extending(m: Model, n: nat)
    requires
        m.wf(),
        m.cursor is None,
        n > 0,
    ensures
        ({
            let after = m.extend(n);
            &&& after.bytes.len() == n
            &&& forall|i: int| 0 <= i < n ==> #[trigger] after.bytes[i] == 0
            &&& after.cursor == Some(0nat)
            &&& after.page == m.page
            &&& after.extents.len() == 1
            &&& after.extents[0].len == n
            &&& after.extents[0].capacity == m.page.block_size(n)
        }),
{
}

/// A vector without a cursor that is resized holds so many zeros, in one block, and its cursor
/// stands at the front.
pub proof fn begun_by_resizing(m: Model, n: nat)
    requires
        m.wf(),
        m.cursor is None,
        n > 0,
    ensures
        ({
            let after = m.resize(n);
            &&& after.bytes.len() == n
            &&& forall|i: int| 0 <= i < n ==> #[trigger] after.bytes[i] == 0
            &&& after.cursor == Some(0nat)
            &&& after.page == m.page
            &&& after.extents.len() == 1
            &&& after.extents[0].len == n
            &&& after.extents[0].capacity == m.page.block_size(n)
        }),
{
}

/// Extending by so many bytes makes the vector so many bytes longer: the bytes that were there stay,
/// those behind them are zero, and the cursor stays where it is.
pub proof fn extend_adds_zeros(m: Model, n: nat)
    requires
        m.wf(),
    ensures
        ({
            let after = m.extend(n);
            let len = m.bytes.len();
            &&& after.bytes.len() == len + n
            &&& forall|i: int| 0 <= i < len ==> #[trigger] after.bytes[i] == m.bytes[i]
            &&& forall|i: int| len <= i < len + n ==> #[trigger] after.bytes[i] == 0
            &&& after.page == m.page
            &&& m.cursor is Some ==> {
                &&& after.cursor == m.cursor
                &&& after.extents == model::grown(m.extents, m.page, n)
            }
            &&& m.cursor is None && n == 0 ==> after.cursor is None && after.extents.len() == 0
        }),
{
}

/// Truncating to a length keeps so many of the first bytes, or all of them if there are no more; the
/// cursor stays where it is.
pub proof fn truncate_keeps_the_first_bytes(m: Model, n: nat)
    requires
        m.wf(),
    ensures
        ({
            let after = m.truncate(n);
            let len = m.bytes.len();
            &&& after.bytes.len() == (if n < len {
                n
            } else {
                len
            })
            &&& forall|i: int|
                0 <= i < n && i < len ==> #[trigger] after.bytes[i] == m.bytes[i]
            &&& after.cursor == m.cursor
            &&& after.page == m.page
            &&& n >= len ==> after.extents == m.extents
        }),
{
}

/// Truncating drops the blocks behind the last byte kept and shortens the one that holds it; the
/// blocks before it are as they were.
pub proof fn truncate_keeps_the_first_blocks(m: Model, n: nat)
    requires
        m.wf(),
        n < m.bytes.len(),
    ensures
        ({
            let after = m.truncate(n).extents;
            let last = after.len() - 1;
            &&& model::total(after) == n
            &&& after.len() <= m.extents.len()
            &&& n == 0 ==> after.len() == 0
            &&& forall|i: int| 0 <= i < last ==> #[trigger] after[i] == m.extents[i]
            &&& n > 0 ==> {
                &&& last >= 0
                &&& after[last].capacity == m.extents[last].capacity
                &&& 0 < after[last].len <= m.extents[last].len
                &&& after[last].len == n - model::offset(m.extents, last)
            }
        }),
{
    let after = m.truncate(n).extents;
    let last = after.len() - 1;
    meaning::cut_leaves_the_first_blocks(m.extents, n);
    if n == 0 && after.len() > 0 {
        model::lemma_offset_monotonic(after, 0, last);
    }
    if after.len() > 0 {
        model::lemma_offset_prefix(after, m.extents, last);
    }
}

/// Resizing to a length makes the vector that long: the first bytes stay as far as they go, those
/// behind them are zero, and a cursor stays where it is.
pub proof fn resize_cuts_or_adds_zeros(m: Model, n: nat)
    requires
        m.wf(),
    ensures
        ({
            let after = m.resize(n);
            let len = m.bytes.len();
            &&& after.bytes.len() == n
            &&& forall|i: int|
                0 <= i < n && i < len ==> #[trigger] after.bytes[i] == m.bytes[i]
            &&& forall|i: int| len <= i < n ==> #[trigger] after.bytes[i] == 0
            &&& after.page == m.page
            &&& m.cursor is Some ==> after.cursor == m.cursor
            &&& n == len ==> after == m
            &&& n < len ==> after.extents == model::cut(m.extents, n)
            &&& n > len && m.cursor is Some ==> after.extents == model::grown(
                m.extents,
                m.page,
                (n - len) as nat,
            )
        }),
{
}

/// Appending puts the bytes behind those that were there and the cursor behind them, wherever it
/// stood.
pub proof fn append_adds_at_the_end(m: Model, data: Seq<u8>)
    requires
        m.wf(),
        m.cursor is Some || data.len() > 0,
    ensures
        ({
            let after = m.append(data);
            let len = m.bytes.len();
            &&& after.bytes.len() == len + data.len()
            &&& forall|i: int| 0 <= i < len ==> #[trigger] after.bytes[i] == m.bytes[i]
            &&& forall|i: int|
                len <= i < len + data.len() ==> #[trigger] after.bytes[i] == data[i - len]
            &&& after.cursor == Some(len + data.len())
            &&& after.page == m.page
            &&& after.extents == model::grown(m.extents, m.page, data.len())
        }),
{
}

/// Appending nothing to a vector without a cursor changes nothing.
pub proof fn append_of_nothing_without_a_cursor(m: Model, data: Seq<u8>)
    requires
        m.cursor is None,
        data.len() == 0,
    ensures
        m.append(data) == m,
{
}

/// Writing at the cursor puts the bytes there, in place of what stood there, and the cursor behind
/// them. All other bytes stay; if the cursor stood behind the end, those between are zero. The
/// blocks grow by what reaches beyond the end.
pub proof fn write_covers_from_the_cursor(m: Model, data: Seq<u8>)
    requires
        m.cursor is Some,
    ensures
        ({
            let after = m.write(data);
            let at = m.cursor.unwrap() as int;
            let end = at + data.len();
            let len = m.bytes.len() as int;
            &&& after.bytes.len() == (if end <= len {
                len
            } else {
                end
            })
            &&& forall|i: int| at <= i < end ==> #[trigger] after.bytes[i] == data[i - at]
            &&& forall|i: int|
                0 <= i < len && !(at <= i < end) ==> #[trigger] after.bytes[i] == m.bytes[i]
            &&& forall|i: int| len <= i < at ==> #[trigger] after.bytes[i] == 0
            &&& after.cursor == Some(end as nat)
            &&& after.page == m.page
            &&& end <= len ==> after.extents == m.extents
            &&& end > len ==> after.extents == model::grown(m.extents, m.page, (end - len) as nat)
        }),
{
}

/// Writing at a position puts the bytes there, in place of what stood there, and leaves the cursor
/// where it is. All other bytes stay; if the position lies behind the end, those between are zero.
/// The blocks grow by what reaches beyond the end.
pub proof fn write_at_covers_from_the_position(m: Model, at: nat, data: Seq<u8>)
    requires
        m.cursor is Some,
        data.len() > 0,
    ensures
        ({
            let after = m.write_at(at, data);
            let end = at + data.len();
            let len = m.bytes.len();
            &&& after.bytes.len() == (if end <= len {
                len
            } else {
                end
            })
            &&& forall|i: int| at <= i < end ==> #[trigger] after.bytes[i] == data[i - at]
            &&& forall|i: int|
                0 <= i < len && !(at <= i < end) ==> #[trigger] after.bytes[i] == m.bytes[i]
            &&& forall|i: int| len <= i < at ==> #[trigger] after.bytes[i] == 0
            &&& after.cursor == m.cursor
            &&& after.page == m.page
            &&& end <= len ==> after.extents == m.extents
            &&& end > len ==> after.extents == model::grown(m.extents, m.page, (end - len) as nat)
        }),
{
}

/// Writing nothing at a position changes nothing, and neither does any write without a cursor.
pub proof fn writes_that_change_nothing(m: Model, at: nat, data: Seq<u8>)
    ensures
        data.len() == 0 ==> m.write_at(at, data) == m,
        m.cursor is None ==> m.write_at(at, data) == m && m.write(data) == m,
{
}

/// What a write reaches beyond the end by.
pub proof fn beyond_the_end(m: Model, at: nat, n: nat)
    ensures
        at + n <= m.bytes.len() ==> m.excess(at, n) == 0,
        at + n > m.bytes.len() ==> m.excess(at, n) == at + n - m.bytes.len(),
{
}

/// A vector can grow by so many bytes if its length stays a `usize` and what does not fit into the
/// last block fits into pages that can be laid out.
pub proof fn how_far_a_vector_can_grow(m: Model, n: nat)
    ensures
        m.can_grow(n) <==> {
            let rest = n - model::spare(m.extents);
            &&& m.bytes.len() + n <= usize::MAX
            &&& rest > 0 ==> {
                &&& m.page.stride() > 0
                &&& is_pow2(m.page.align() as int)
                &&& m.page.block_size(rest as nat) + m.page.align() - 1 <= isize::MAX
            }
        },
{
}

/// Reading at a position gives the bytes from there on: as many as asked for, or as there are.
pub proof fn read_at_gives_what_is_there(m: Model, at: nat, n: nat)
    ensures
        ({
            let data = m.read_at(at, n);
            let len = m.bytes.len();
            &&& data.len() == (if at >= len {
                0
            } else if at + n <= len {
                n as int
            } else {
                len - at
            })
            &&& forall|i: int| 0 <= i < data.len() ==> #[trigger] data[i] == m.bytes[at + i]
        }),
{
}

/// Reading gives the bytes from the cursor on: as many as asked for, or as there are; without a
/// cursor, none.
pub proof fn read_gives_what_is_there(m: Model, n: nat)
    ensures
        m.cursor is None ==> m.read(n).len() == 0,
        m.cursor matches Some(at) ==> {
            let data = m.read(n);
            let len = m.bytes.len();
            &&& data.len() == (if at >= len {
                0
            } else if at + n <= len {
                n as int
            } else {
                len - at
            })
            &&& forall|i: int| 0 <= i < data.len() ==> #[trigger] data[i] == m.bytes[at + i]
        },
{
}

/// Skipping ahead moves the cursor by so many bytes and changes nothing else.
pub proof fn skip_ahead_moves_the_cursor(m: Model, n: nat)
    ensures
        m.skip_ahead(n).bytes == m.bytes,
        m.skip_ahead(n).extents == m.extents,
        m.skip_ahead(n).page == m.page,
        m.cursor matches Some(at) ==> m.skip_ahead(n).cursor == Some(at + n),
        m.cursor is None ==> m.skip_ahead(n).cursor is None,
{
}

/// The position is where the cursor stands, or the front.
pub proof fn position_of_the_cursor(m: Model)
    ensures
        m.cursor matches Some(at) ==> m.position() == at,
        m.cursor is None ==> m.position() == 0,
{
}

/// A seek from the front reports the position and puts the cursor there.
pub proof fn seek_counted_from_the_front(m: Model, start: usize)
    requires
        m.cursor is Some,
    ensures
        m.target(SeekFrom::Start(start)) == start,
        m.sought(SeekFrom::Start(start)) == Some(start as nat),
        m.seek(SeekFrom::Start(start)).cursor == Some(start as nat),
{
}

/// A seek from the end reports the position so many bytes behind it, or before it, and puts the
/// cursor there; if that lies before the front, it reports nothing and the cursor stays.
pub proof fn seek_counted_from_the_end(m: Model, end: isize)
    requires
        m.cursor is Some,
    ensures
        m.target(SeekFrom::End(end)) == m.bytes.len() + end,
        m.bytes.len() + end >= 0 ==> {
            &&& m.sought(SeekFrom::End(end)) == Some((m.bytes.len() + end) as nat)
            &&& m.seek(SeekFrom::End(end)).cursor == Some((m.bytes.len() + end) as nat)
        },
        m.bytes.len() + end < 0 ==> {
            &&& m.sought(SeekFrom::End(end)) is None
            &&& m.seek(SeekFrom::End(end)).cursor == m.cursor
        },
{
}

/// A seek from the cursor reports the position so many bytes behind it, or before it, and puts the
/// cursor there; if that lies before the front, it reports nothing and the cursor stays.
pub proof fn seek_counted_from_the_cursor(m: Model, current: isize)
    requires
        m.cursor is Some,
    ensures
        ({
            let to = m.cursor.unwrap() + current;
            &&& m.target(SeekFrom::Current(current)) == to
            &&& to >= 0 ==> {
                &&& m.sought(SeekFrom::Current(current)) == Some(to as nat)
                &&& m.seek(SeekFrom::Current(current)).cursor == Some(to as nat)
            }
            &&& to < 0 ==> {
                &&& m.sought(SeekFrom::Current(current)) is None
                &&& m.seek(SeekFrom::Current(current)).cursor == m.cursor
            }
        }),
{
}

/// Without a cursor, only the end itself can be sought, and that is the front; there is no cursor
/// afterwards either.
pub proof fn seek_without_a_cursor(m: Model, pos: SeekFrom)
    requires
        m.cursor is None,
    ensures
        pos == SeekFrom::End(0) ==> m.sought(pos) == Some(0nat),
        pos != SeekFrom::End(0) ==> m.sought(pos) is None,
        m.seek(pos) == m,
{
}

/// The parts in a range, whatever its bounds, are, one after another, the bytes from its first
/// position up to its last one.
pub proof fn range_between_bounds(m: Model, start: Bound<usize>, end: Bound<usize>)
    requires
        m.wf(),
    ensures
        ({
            let len = m.bytes.len() as int;
            let from = match start {
                Bound::Included(a) => a as int,
                Bound::Excluded(a) => a + 1,
                Bound::Unbounded => 0,
            };
            let behind = match end {
                Bound::Included(b) => b + 1,
                Bound::Excluded(b) => b as int,
                Bound::Unbounded => len,
            };
            let to = if behind <= len {
                behind
            } else {
                len
            };
            let bytes = model::parts(
                m.blocks(),
                iter::first(start),
                iter::behind(end, len),
            ).flatten();
            &&& bytes.len() == (if from < to {
                to - from
            } else {
                0
            })
            &&& forall|i: int| 0 <= i < bytes.len() ==> #[trigger] bytes[i] == m.bytes[from + i]
        }),
{
    laws::parts_hold_the_range(m, iter::first(start), iter::behind(end, m.bytes.len() as int));
}

} // verus!
