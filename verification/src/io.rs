//! Buffers that bytes are taken from or put into, and positions to seek to.

use crate::model;
use crate::model::Seams;
use vstd::prelude::*;

verus! {

/// A buffer that bytes are taken from; its view is the bytes that it still holds.
pub trait IoSlice<'a>: Sized + View<V = Seq<u8>> {
    /// The bytes that the buffer still holds.
    fn as_bytes(&self) -> (r: &[u8])
        ensures
            r@ == self@,
    ;

    /// Drops the first `n` bytes.
    fn advance(&mut self, n: usize)
        requires
            n <= old(self)@.len(),
        ensures
            final(self)@ == old(self)@.skip(n as int),
    ;

    /// Drops the first `n` bytes of all the buffers together: the buffers that are used up leave
    /// the slice as they are, and the next one is advanced.
    fn advance_slices(bufs: &mut &mut [Self], n: usize)
        requires
            n <= model::joined(old(bufs)@).len(),
        ensures
            advanced(old(bufs)@, final(bufs)@, n as int),
            final(*old(bufs))@ == old(bufs)@.take(old(bufs)@.len() - final(bufs)@.len())
                + final(*final(bufs))@,
    {
        let ghost before = bufs@;
        // Number of buffers to remove.
        let mut remove: usize = 0;
        // Total length of all the to be removed buffers.
        let mut accumulated_len: usize = 0;
        while remove < bufs.len() && bufs[remove].as_bytes().len() <= n - accumulated_len
            invariant
                bufs@ == before,
                final(*old(bufs))@ == final(*bufs)@,
                remove <= before.len(),
                accumulated_len == model::joined(before.take(remove as int)).len(),
                accumulated_len <= n,
            decreases before.len() - remove,
        {
            proof {
                model::lemma_joined_around(before, remove as int);
            }
            accumulated_len = accumulated_len + bufs[remove].as_bytes().len();
            remove = remove + 1;
        }

        let mut all: &mut [Self] = &mut [];
        std::mem::swap(&mut all, bufs);
        let (_, rest) = all.split_at_mut(remove);
        *bufs = rest;
        if bufs.len() > 0 {
            bufs[0].advance(n - accumulated_len);
        }
        proof {
            assert(remove < before.len() ==> bufs@.skip(1) =~= before.skip(remove + 1));
            lemma_advanced(before, bufs@, remove as int, n as int);
        }
    }
}

/// Whether `after` is `before` with the first `n` bytes dropped: the leading buffers that this uses
/// up are gone, and the first one that stays loses the rest but is not used up.
pub open spec fn advanced<S: View<V = Seq<u8>>>(before: Seq<S>, after: Seq<S>, n: int) -> bool {
    let k = before.len() - after.len();
    let used = model::joined(before.take(k)).len();
    &&& 0 <= k
    &&& used <= n
    &&& model::joined(after) == model::joined(before).skip(n)
    &&& after.len() > 0 ==> {
        &&& n < used + before[k]@.len()
        &&& after[0]@ == before[k]@.skip(n - used)
        &&& after.skip(1) == before.skip(k + 1)
    }
}

proof fn lemma_advanced<S: View<V = Seq<u8>>>(before: Seq<S>, after: Seq<S>, k: int, n: int)
    requires
        0 <= k <= before.len(),
        n <= model::joined(before).len(),
        model::joined(before.take(k)).len() <= n,
        after.len() == before.len() - k,
        k < before.len() ==> {
            &&& model::joined(before.take(k)).len() + before[k]@.len() > n
            &&& after[0]@ == before[k]@.skip(n - model::joined(before.take(k)).len())
            &&& after.skip(1) == before.skip(k + 1)
        },
    ensures
        advanced(before, after, n),
{
    if k < before.len() {
        model::lemma_joined_around(before, k);
        model::lemma_joined_around(after, 0);
        assert(after.skip(0) =~= after);
        assert(model::joined(after) =~= model::joined(before).skip(n));
    } else {
        assert(before.take(k) =~= before);
        assert(model::joined(after) =~= model::joined(before).skip(n));
    }
}

/// Once all the bytes are dropped, no buffer stays; otherwise some do.
pub proof fn lemma_advanced_all<S: View<V = Seq<u8>>>(before: Seq<S>, after: Seq<S>, n: int)
    requires
        advanced(before, after, n),
        n <= model::joined(before).len(),
    ensures
        after.len() == 0 <==> n == model::joined(before).len(),
{
    assert(model::joined(after).len() == model::joined(before).len() - n);
    if after.len() > 0 {
        model::lemma_joined_around(after, 0);
        assert(after[0]@.len() > 0);
    }
}

/// What is left in a buffer of which all the bytes were passed on, the first of them to position
/// `pos`: at the last seam it was advanced, and what was left then was taken as it was.
pub open spec fn left(buf: Seq<u8>, pos: int, seams: Seams) -> Seq<u8> {
    buf.skip(seams.before(pos, buf.len()))
}

/// Whether `n` bytes were taken from the front of buffers that were `before` and are `after` now,
/// and passed on to position `at`.
///
/// The buffers that were used up are gone from the slice, and the first one that stays has been
/// advanced; those behind are as they were. `end_before` and `end_after` are the buffers in the
/// places of `before` and of `after` once the slices are given up.
#[verifier::opaque]
pub open spec fn drained<S: View<V = Seq<u8>>>(
    before: Seq<S>,
    end_before: Seq<S>,
    after: Seq<S>,
    end_after: Seq<S>,
    n: int,
    at: int,
    seams: Seams,
) -> bool {
    let k = before.len() - after.len();
    let used = model::joined(before.take(k)).len();
    &&& 0 <= k
    &&& used <= n
    &&& model::joined(after) == model::joined(before).skip(n)
    &&& end_before.len() == k + end_after.len()
    &&& end_before.skip(k) == end_after
    &&& forall|i: int|
        0 <= i < k ==> (#[trigger] end_before[i])@ == left(
            before[i]@,
            at + model::joined(before.take(i)).len(),
            seams,
        )
    &&& after.len() > 0 ==> {
        &&& n <= used + before[k]@.len()
        &&& n > 0 ==> n < used + before[k]@.len()
        &&& after[0]@ == before[k]@.skip(n - used)
        &&& after.skip(1) == before.skip(k + 1)
    }
}

/// Whether all the bytes of buffers that were `before` and are `after` now were passed on to
/// position `at`: what each of them still holds is what lies behind the last seam in it.
pub open spec fn spent<S: View<V = Seq<u8>>>(
    before: Seq<S>,
    after: Seq<S>,
    at: int,
    seams: Seams,
) -> bool {
    &&& after.len() == before.len()
    &&& forall|i: int|
        0 <= i < after.len() ==> (#[trigger] after[i])@ == left(
            before[i]@,
            at + model::joined(before.take(i)).len(),
            seams,
        )
}

/// How many bytes lie in the buffers before buffer `i`, and in it.
pub proof fn lemma_used<S: View<V = Seq<u8>>>(bufs: Seq<S>, i: int, j: int)
    requires
        0 <= i < j <= bufs.len(),
    ensures
        model::joined(bufs.take(i)).len() + bufs[i]@.len() <= model::joined(bufs.take(j)).len()
            <= model::joined(bufs).len(),
{
    model::lemma_joined_around(bufs.take(j), i);
    assert(bufs.take(j).take(i) =~= bufs.take(i));
    model::lemma_joined_split(bufs, j);
}

/// Where all the bytes were taken, and the slice of buffers is given up as it is, the buffers are
/// in the places where they were.
pub proof fn lemma_drained_spent<S: View<V = Seq<u8>>>(
    before: Seq<S>,
    end_before: Seq<S>,
    after: Seq<S>,
    n: int,
    at: int,
    seams: Seams,
)
    requires
        drained(before, end_before, after, after, n, at, seams),
        n == model::joined(before).len(),
    ensures
        spent(before, end_before, at, seams),
{
    reveal(drained);
    let k = before.len() - after.len();
    if after.len() > 0 {
        lemma_used(before, k, k + 1);
        assert(n == 0);
        assert forall|i: int| 0 <= i < before.len() implies (#[trigger] end_before[i])@ == left(
            before[i]@,
            at + model::joined(before.take(i)).len(),
            seams,
        ) by {
            if i >= k {
                lemma_used(before, i, before.len() as int);
                assert(end_before[i] == end_before.skip(k)[i - k]);
                if i > k {
                    assert(after[i - k] == after.skip(1)[i - k - 1]);
                    assert(before[i] == before.skip(k + 1)[i - k - 1]);
                }
                assert(before[i]@ =~= Seq::empty());
                assert(end_before[i]@ =~= before[i]@);
            }
        }
    }
}

/// Where nothing was taken, and there is no seam, the buffers are as they were.
pub proof fn lemma_spent_none<S: View<V = Seq<u8>>>(bufs: Seq<S>)
    ensures
        spent(bufs, bufs, 0, Seams::none()),
{
    assert forall|i: int| 0 <= i < bufs.len() implies (#[trigger] bufs[i])@ == left(
        bufs[i]@,
        0int + model::joined(bufs.take(i)).len(),
        Seams::none(),
    ) by {
        assert(bufs[i]@.skip(0) =~= bufs[i]@);
    }
}

/// Buffers that hold nothing are as they were once all of it was passed on.
pub proof fn lemma_spent_empty<S: View<V = Seq<u8>>>(bufs: Seq<S>, at: int, seams: Seams)
    requires
        model::joined(bufs).len() == 0,
    ensures
        spent(bufs, bufs, at, seams),
{
    assert forall|i: int| 0 <= i < bufs.len() implies (#[trigger] bufs[i])@ == left(
        bufs[i]@,
        at + model::joined(bufs.take(i)).len(),
        seams,
    ) by {
        lemma_used(bufs, i, bufs.len() as int);
        assert(bufs[i]@.skip(0) =~= bufs[i]@);
    }
}

/// Nothing was taken from buffers that are as they were.
pub proof fn lemma_drained_none<S: View<V = Seq<u8>>>(
    bufs: Seq<S>,
    end: Seq<S>,
    at: int,
    seams: Seams,
)
    ensures
        drained(bufs, end, bufs, end, 0, at, seams),
{
    reveal(drained);
    assert(bufs.take(0) =~= Seq::empty());
    assert(model::joined(bufs).skip(0) =~= model::joined(bufs));
    assert(end.skip(0) =~= end);
    if bufs.len() > 0 {
        assert(bufs[0]@.skip(0) =~= bufs[0]@);
    }
}

/// The bytes that are left.
pub proof fn lemma_drained_left<S: View<V = Seq<u8>>>(
    before: Seq<S>,
    end_before: Seq<S>,
    after: Seq<S>,
    end_after: Seq<S>,
    n: int,
    at: int,
    seams: Seams,
)
    requires
        drained(before, end_before, after, end_after, n, at, seams),
    ensures
        model::joined(after) == model::joined(before).skip(n),
{
    reveal(drained);
}

/// What is taken in two steps is taken, if there is a seam between them.
pub proof fn lemma_drained_twice<S: View<V = Seq<u8>>>(
    before: Seq<S>,
    end_before: Seq<S>,
    mid: Seq<S>,
    end_mid: Seq<S>,
    after: Seq<S>,
    end_after: Seq<S>,
    n: int,
    m: int,
    at: int,
    seams: Seams,
)
    requires
        0 <= at,
        0 <= n,
        0 <= m,
        n + m <= model::joined(before).len(),
        drained(before, end_before, mid, end_mid, n, at, seams),
        drained(mid, end_mid, after, end_after, m, at + n, seams),
        n > 0 ==> forall|pos: int|
            at + n < pos <= at + model::joined(before).len() ==> at + n <= #[trigger] seams.last(
                pos,
            ),
    ensures
        drained(before, end_before, after, end_after, n + m, at, seams),
{
    reveal(drained);
    let k = before.len() - mid.len();
    let j = mid.len() - after.len();
    let used = model::joined(before.take(k)).len();
    assert(model::joined(after) =~= model::joined(before).skip(n + m));
    assert forall|i: int| 0 < i < mid.len() implies #[trigger] mid[i] == before[k + i] by {
        assert(mid[i] == mid.skip(1)[i - 1]);
        assert(before[k + i] == before.skip(k + 1)[i - 1]);
    }
    assert forall|i: int| 0 < i <= mid.len() implies model::joined(before.take(k + i)).len() == n
        + model::joined(#[trigger] mid.take(i)).len() by {
        lemma_used_rest(before, mid, n, i);
    }
    assert(mid.take(0) =~= Seq::empty());
    assert(end_before.skip(k + j) =~= end_mid.skip(j));
    assert forall|i: int| 0 <= i < k + j implies (#[trigger] end_before[i])@ == left(
        before[i]@,
        at + model::joined(before.take(i)).len(),
        seams,
    ) by {
        if i >= k {
            assert(end_before[i] == end_before.skip(k)[i - k]);
            if i == k {
                lemma_used(before, k, k + 1);
                let a = seams.before(at + used, before[k]@.len());
                let b = seams.before(at + n, mid[0]@.len());
                assert(at + n + mid[0]@.len() == at + used + before[k]@.len());
                if n > used {
                    let end = at + used + before[k]@.len();
                    assert(at + n <= seams.last(end));
                    model::lemma_block_start(seams.extents, end - 1, 0);
                }
                assert(mid[0]@.skip(b) =~= before[k]@.skip(a));
            } else {
                assert(mid[i - k] == before[i]);
            }
        }
    }
    assert(model::joined(before.take(k + j)).len() <= n + m) by {
        if j > 0 {
            assert(model::joined(before.take(k + j)).len() == n + model::joined(mid.take(j)).len());
        }
    }
    if after.len() > 0 {
        assert forall|i: int| 0 <= i < after.len() - 1 implies #[trigger] after.skip(1)[i]
            == before.skip(k + j + 1)[i] by {
            assert(after.skip(1)[i] == mid.skip(j + 1)[i]);
            assert(mid[j + 1 + i] == before[k + j + 1 + i]);
        }
        assert(after.skip(1) =~= before.skip(k + j + 1));
        if j > 0 {
            assert(mid[j] == before[k + j]);
            if m == 0 && n > 0 {
                lemma_used(mid, 0, j);
            }
        } else {
            assert(after[0]@ =~= before[k]@.skip(n + m - used));
        }
    }
}

/// How many bytes lie in the first `i` of the buffers in `mid`, if `n` bytes of `bufs` are gone
/// from it.
proof fn lemma_used_rest<S: View<V = Seq<u8>>>(bufs: Seq<S>, mid: Seq<S>, n: int, i: int)
    requires
        mid.len() <= bufs.len(),
        0 < i <= mid.len(),
        ({
            let k = bufs.len() - mid.len();
            &&& mid[0]@.len() == bufs[k]@.len() - (n - model::joined(bufs.take(k)).len())
            &&& mid.skip(1) == bufs.skip(k + 1)
        }),
    ensures
        model::joined(bufs.take(bufs.len() - mid.len() + i)).len() == n + model::joined(
            mid.take(i),
        ).len(),
    decreases i,
{
    let k = bufs.len() - mid.len();
    model::lemma_joined_around(mid, i - 1);
    model::lemma_joined_around(bufs, k + i - 1);
    if i > 1 {
        lemma_used_rest(bufs, mid, n, i - 1);
        assert(mid[i - 1] == mid.skip(1)[i - 2]);
        assert(bufs[k + i - 1] == bufs.skip(k + 1)[i - 2]);
    } else {
        assert(mid.take(0) =~= Seq::empty());
    }
}

/// It does not matter where there are seams before the bytes that were taken, or behind them.
pub proof fn lemma_drained_same<S: View<V = Seq<u8>>>(
    before: Seq<S>,
    end_before: Seq<S>,
    after: Seq<S>,
    end_after: Seq<S>,
    n: int,
    at: int,
    a: Seams,
    b: Seams,
)
    requires
        drained(before, end_before, after, end_after, n, at, a),
        forall|pos: int|
            at < pos <= at + n ==> #[trigger] a.last(pos) == b.last(pos) || (a.last(pos) <= at
                && b.last(pos) <= at),
    ensures
        drained(before, end_before, after, end_after, n, at, b),
{
    reveal(drained);
    let k = before.len() - after.len();
    assert forall|i: int| 0 <= i < k implies (#[trigger] end_before[i])@ == left(
        before[i]@,
        at + model::joined(before.take(i)).len(),
        b,
    ) by {
        let pos = at + model::joined(before.take(i)).len();
        lemma_used(before, i, k);
        if before[i]@.len() > 0 {
            assert(a.last(pos + before[i]@.len()) == a.last(pos + before[i]@.len()));
        }
    }
}

/// What is taken as it is, is taken, if there is no seam in it.
pub proof fn lemma_drained_whole<S: View<V = Seq<u8>>>(
    before: Seq<S>,
    end_before: Seq<S>,
    after: Seq<S>,
    end_after: Seq<S>,
    n: int,
    at: int,
    seams: Seams,
)
    requires
        drained(before, end_before, after, end_after, n, 0, Seams::none()),
        forall|pos: int| at < pos <= at + n ==> #[trigger] seams.last(pos) <= at,
    ensures
        drained(before, end_before, after, end_after, n, at, seams),
{
    reveal(drained);
    let k = before.len() - after.len();
    assert forall|i: int| 0 <= i < k implies (#[trigger] end_before[i])@ == left(
        before[i]@,
        at + model::joined(before.take(i)).len(),
        seams,
    ) by {
        let used = model::joined(before.take(i)).len();
        lemma_used(before, i, k);
        if before[i]@.len() > 0 {
            assert(seams.last(at + used + before[i]@.len()) <= at);
        }
        assert(Seams::none().before(used as int, before[i]@.len()) == 0);
    }
}

/// What is dropped is taken, if there is no seam in it.
pub proof fn lemma_drained_advanced<S: View<V = Seq<u8>>>(
    before: Seq<S>,
    end_before: Seq<S>,
    after: Seq<S>,
    end_after: Seq<S>,
    n: int,
    at: int,
    seams: Seams,
)
    requires
        0 <= n <= model::joined(before).len(),
        advanced(before, after, n),
        end_before == before.take(before.len() - after.len()) + end_after,
        forall|pos: int| at < pos <= at + n ==> #[trigger] seams.last(pos) <= at,
    ensures
        drained(before, end_before, after, end_after, n, at, seams),
{
    reveal(drained);
    let k = before.len() - after.len();
    assert forall|i: int| 0 <= i < k implies (#[trigger] end_before[i])@ == left(
        before[i]@,
        at + model::joined(before.take(i)).len(),
        seams,
    ) by {
        let pos = at + model::joined(before.take(i)).len();
        lemma_used(before, i, k);
        if before[i]@.len() > 0 {
            assert(seams.last(pos + before[i]@.len()) <= at);
        }
        assert(before[i]@.skip(0) =~= before[i]@);
    }
    assert(end_before.skip(k) =~= end_after);
}

/// What is taken in two steps, the second of which takes the rest as it is, is taken.
pub proof fn lemma_drained_rest<S: View<V = Seq<u8>>>(
    before: Seq<S>,
    end_before: Seq<S>,
    mid: Seq<S>,
    end_mid: Seq<S>,
    after: Seq<S>,
    end_after: Seq<S>,
    n: int,
    at: int,
    seams: Seams,
)
    requires
        0 <= at,
        0 <= n <= model::joined(before).len(),
        drained(before, end_before, mid, end_mid, n, at, seams),
        after.len() == 0,
        end_mid == mid + end_after,
        forall|pos: int|
            at + n < pos <= at + model::joined(before).len() ==> #[trigger] seams.last(pos) <= at
                + n && (n > 0 ==> seams.last(pos) == at + n),
    ensures
        drained(
            before,
            end_before,
            after,
            end_after,
            model::joined(before).len() as int,
            at,
            seams,
        ),
{
    lemma_drained_left(before, end_before, mid, end_mid, n, at, seams);
    let m = model::joined(mid).len() as int;
    assert(mid.take(mid.len() as int) =~= mid);
    assert(model::joined(after) =~= model::joined(mid).skip(m));
    lemma_drained_advanced(mid, end_mid, after, end_after, m, at + n, seams);
    lemma_drained_twice(before, end_before, mid, end_mid, after, end_after, n, m, at, seams);
}

/// Whether none of the buffers holds any bytes.
pub(crate) fn all_empty<'a, S: IoSlice<'a>>(bufs: &[S]) -> (r: bool)
    ensures
        r == (model::joined(bufs@).len() == 0),
{
    let mut i: usize = 0;
    assert(bufs@.take(0) =~= Seq::empty());
    while i < bufs.len()
        invariant
            i <= bufs@.len(),
            model::joined(bufs@.take(i as int)).len() == 0,
        decreases bufs@.len() - i,
    {
        proof {
            model::lemma_joined_around(bufs@, i as int);
        }
        if bufs[i].as_bytes().len() > 0 {
            return false;
        }
        i = i + 1;
    }
    assert(bufs@.take(i as int) =~= bufs@);
    true
}

impl<'a> IoSlice<'a> for &'a [u8] {
    fn as_bytes(&self) -> (r: &[u8]) {
        *self
    }

    fn advance(&mut self, n: usize) {
        let len: usize = self.len();
        *self = vstd::slice::slice_subrange(*self, n, len);
    }
}

/// Memory that can be seen as bytes.
pub trait ByteSpan {
    /// The bytes that the memory holds.
    spec fn bytes(&self) -> Seq<u8>;
}

/// How many bytes all the buffers together have room for.
pub open spec fn room<S: ByteSpan>(bufs: Seq<S>) -> nat
    decreases bufs.len(),
{
    if bufs.len() == 0 {
        0
    } else {
        room(bufs.drop_last()) + bufs.last().bytes().len()
    }
}

/// A buffer that bytes are put into.
pub trait IoSliceMut<'a>: Sized + ByteSpan {
    /// The bytes that the buffer gives access to.
    fn as_bytes(&self) -> (r: &[u8])
        ensures
            r@ == self.bytes(),
    ;

    /// The bytes that the buffer gives access to, to be changed in place.
    fn as_mut_bytes(&mut self) -> (r: &mut [u8])
        ensures
            r@ == old(self).bytes(),
            final(self).bytes() == final(r)@,
    ;

    /// Drops the first `n` bytes.
    fn advance(&mut self, n: usize)
        requires
            n <= old(self).bytes().len(),
        ensures
            final(self).bytes() == old(self).bytes().skip(n as int),
    ;

    /// Drops the first `n` bytes of all the buffers together: the buffers that are used up leave
    /// the slice as they are, and the next one is advanced.
    fn advance_slices(bufs: &mut &mut [Self], n: usize)
        requires
            n <= room(old(bufs)@),
        ensures
            advanced_mut(old(bufs)@, final(bufs)@, n as int),
            final(*old(bufs))@ == old(bufs)@.take(old(bufs)@.len() - final(bufs)@.len())
                + final(*final(bufs))@,
    {
        let ghost before = bufs@;
        // Number of buffers to remove.
        let mut remove: usize = 0;
        // Total length of all the to be removed buffers.
        let mut accumulated_len: usize = 0;
        while remove < bufs.len() && bufs[remove].as_bytes().len() <= n - accumulated_len
            invariant
                bufs@ == before,
                final(*old(bufs))@ == final(*bufs)@,
                remove <= before.len(),
                accumulated_len == room(before.take(remove as int)),
                accumulated_len <= n,
            decreases before.len() - remove,
        {
            proof {
                lemma_room_around(before, remove as int);
            }
            accumulated_len = accumulated_len + bufs[remove].as_bytes().len();
            remove = remove + 1;
        }

        let mut all: &mut [Self] = &mut [];
        std::mem::swap(&mut all, bufs);
        let (_, rest) = all.split_at_mut(remove);
        *bufs = rest;
        if bufs.len() > 0 {
            bufs[0].advance(n - accumulated_len);
        }
        proof {
            if remove < before.len() {
                lemma_room_around(before, remove as int);
                lemma_room_around(bufs@, 0);
                assert(bufs@.skip(1) =~= before.skip(remove + 1));
            } else {
                assert(before.take(remove as int) =~= before);
            }
        }
    }
}

/// Whether `after` is `before` with the first `n` bytes dropped: the leading buffers that this uses
/// up are gone, and the first one that stays loses the rest but is not used up.
pub open spec fn advanced_mut<S: ByteSpan>(before: Seq<S>, after: Seq<S>, n: int) -> bool {
    let k = before.len() - after.len();
    let used = room(before.take(k));
    &&& 0 <= k
    &&& used <= n
    &&& room(after) == room(before) - n
    &&& after.len() > 0 ==> {
        &&& n < used + before[k].bytes().len()
        &&& after[0].bytes() == before[k].bytes().skip(n - used)
        &&& after.skip(1) == before.skip(k + 1)
    }
}

pub proof fn lemma_room_add<S: ByteSpan>(a: Seq<S>, b: Seq<S>)
    ensures
        room(a + b) == room(a) + room(b),
    decreases b.len(),
{
    if b.len() == 0 {
        assert(a + b =~= a);
    } else {
        lemma_room_add(a, b.drop_last());
        assert((a + b).drop_last() =~= a + b.drop_last());
    }
}

/// The room before buffer `i`, in it and behind it.
pub proof fn lemma_room_around<S: ByteSpan>(bufs: Seq<S>, i: int)
    requires
        0 <= i < bufs.len(),
    ensures
        room(bufs.take(i + 1)) == room(bufs.take(i)) + bufs[i].bytes().len(),
        room(bufs) == room(bufs.take(i + 1)) + room(bufs.skip(i + 1)),
{
    assert(bufs.take(i + 1).drop_last() =~= bufs.take(i));
    lemma_room_add(bufs.take(i + 1), bufs.skip(i + 1));
    assert(bufs.take(i + 1) + bufs.skip(i + 1) =~= bufs);
}

/// There is no less room, the more buffers are counted.
pub proof fn lemma_room_monotonic<S: ByteSpan>(bufs: Seq<S>, i: int, j: int)
    requires
        0 <= i <= j <= bufs.len(),
    ensures
        room(bufs.take(i)) <= room(bufs.take(j)) <= room(bufs),
{
    lemma_room_add(bufs.take(i), bufs.subrange(i, j));
    assert(bufs.take(i) + bufs.subrange(i, j) =~= bufs.take(j));
    lemma_room_add(bufs.take(j), bufs.skip(j));
    assert(bufs.take(j) + bufs.skip(j) =~= bufs);
}

/// Buffers of the same lengths have the same room.
pub proof fn lemma_room_same<S: ByteSpan>(a: Seq<S>, b: Seq<S>)
    requires
        a.len() == b.len(),
        forall|i: int| 0 <= i < a.len() ==> (#[trigger] a[i]).bytes().len() == b[i].bytes().len(),
    ensures
        room(a) == room(b),
    decreases a.len(),
{
    if a.len() > 0 {
        assert forall|i: int| 0 <= i < a.drop_last().len() implies (
        #[trigger] a.drop_last()[i]).bytes().len() == b.drop_last()[i].bytes().len() by {
            assert(a[i].bytes().len() == b[i].bytes().len());
        }
        lemma_room_same(a.drop_last(), b.drop_last());
    }
}

/// Where the first `j` of the buffers in `rest` end, if `n` bytes of `bufs` are gone from it.
pub proof fn lemma_room_rest<S: ByteSpan>(bufs: Seq<S>, rest: Seq<S>, n: int, j: int)
    requires
        rest.len() <= bufs.len(),
        1 <= j <= rest.len(),
        ({
            let m = bufs.len() - rest.len();
            &&& rest[0].bytes().len() == bufs[m].bytes().len() - (n - room(bufs.take(m)))
            &&& rest.skip(1) == bufs.skip(m + 1)
        }),
    ensures
        n + room(rest.take(j)) == room(bufs.take(bufs.len() - rest.len() + j)),
    decreases j,
{
    let m = bufs.len() - rest.len();
    lemma_room_around(rest, j - 1);
    lemma_room_around(bufs, m + j - 1);
    if j > 1 {
        lemma_room_rest(bufs, rest, n, j - 1);
        assert(rest[j - 1] == rest.skip(1)[j - 2]);
        assert(bufs[m + j - 1] == bufs.skip(m + 1)[j - 2]);
    }
}

/// `buf` with bytes of `data`, from position `at` on, put into it from the front, as far as there
/// are any and they fit.
pub open spec fn filled(buf: Seq<u8>, data: Seq<u8>, at: int) -> Seq<u8> {
    if at >= data.len() {
        buf
    } else {
        let n = model::min(buf.len() as int, data.len() - at);
        data.subrange(at, at + n) + buf.skip(n)
    }
}

/// Whether a buffer was filled with `data` from position `at` on and advanced by `n` bytes.
///
/// `before` and `after` are the bytes that the buffer gave access to before and gives access to
/// after this; `end_before` and `end_after` are what the same memory holds once the buffers are
/// given up.
pub open spec fn received(
    before: Seq<u8>,
    end_before: Seq<u8>,
    after: Seq<u8>,
    end_after: Seq<u8>,
    data: Seq<u8>,
    at: int,
    n: int,
) -> bool {
    &&& after.len() == before.len() - n
    &&& after == filled(before, data, at).skip(n)
    &&& end_before == filled(before, data, at).take(n) + end_after
}

/// It does not matter what data there is beyond the room in the buffers.
pub proof fn lemma_filled_enough(buf: Seq<u8>, data: Seq<u8>, at: int, n: int)
    requires
        0 <= at,
        0 <= n <= data.len(),
        n == data.len() || at + buf.len() <= n,
    ensures
        filled(buf, data.take(n), at) == filled(buf, data, at),
{
    assert(filled(buf, data.take(n), at) =~= filled(buf, data, at));
}

/// A buffer that is as it was has received nothing.
proof fn lemma_received_none(bytes: Seq<u8>, end: Seq<u8>, at: int)
    requires
        0 <= at,
    ensures
        received(bytes, end, bytes, end, Seq::empty(), at, 0),
{
    assert(bytes.skip(0) =~= bytes);
    assert(bytes.take(0) + end =~= end);
}

/// Buffers that are as they were have received nothing.
pub proof fn lemma_untouched(bufs: Seq<&mut [u8]>)
    ensures
        forall|i: int|
            #![trigger bufs[i]]
            0 <= i < bufs.len() ==> received(
                bufs[i]@,
                final(bufs[i])@,
                bufs[i]@,
                final(bufs[i])@,
                Seq::empty(),
                room(bufs.take(i)) as int,
                0,
            ),
{
    assert forall|i: int| #![trigger bufs[i]] 0 <= i < bufs.len() implies received(
        bufs[i]@,
        final(bufs[i])@,
        bufs[i]@,
        final(bufs[i])@,
        Seq::empty(),
        room(bufs.take(i)) as int,
        0,
    ) by {
        lemma_received_none(bufs[i]@, final(bufs[i])@, room(bufs.take(i)) as int);
    }
}

/// A buffer that was filled in two steps, the second of which filled what the first had left, has
/// been advanced between them.
pub proof fn lemma_received_all(
    before: Seq<u8>,
    end_before: Seq<u8>,
    after: Seq<u8>,
    end_after: Seq<u8>,
    data: Seq<u8>,
    at: int,
    n: int,
)
    requires
        0 <= n <= before.len(),
        0 <= at,
        at + before.len() <= data.len(),
        after == data.subrange(at + n, at + before.len()),
        end_before == data.subrange(at, at + n) + end_after,
    ensures
        received(before, end_before, after, end_after, data, at, n),
{
    let whole = filled(before, data, at);
    assert(whole =~= data.subrange(at, at + before.len()));
    assert(whole.skip(n) =~= after);
    assert(whole.take(n) =~= data.subrange(at, at + n));
}

impl<'a> ByteSpan for &'a mut [u8] {
    open spec fn bytes(&self) -> Seq<u8> {
        self@
    }
}

impl<'a> IoSliceMut<'a> for &'a mut [u8] {
    fn as_bytes(&self) -> (r: &[u8]) {
        &**self
    }

    fn as_mut_bytes(&mut self) -> (r: &mut [u8])
        ensures
            final(*final(self))@ == final(*old(self))@,
    {
        &mut **self
    }

    fn advance(&mut self, n: usize)
        ensures
            final(*old(self))@ == old(self)@.take(n as int) + final(*final(self))@,
    {
        let mut all: &'a mut [u8] = &mut [];
        std::mem::swap(&mut all, self);
        let (_, rest) = all.split_at_mut(n);
        *self = rest;
    }

    // As provided by the trait, with what becomes of the memory behind the first buffer that stays.
    fn advance_slices(bufs: &mut &mut [Self], n: usize)
        ensures
            final(bufs)@.len() > 0 ==> {
                let k = old(bufs)@.len() - final(bufs)@.len();
                let used = room(old(bufs)@.take(k));
                final(old(bufs)@[k])@ == old(bufs)@[k]@.take(n - used) + final(final(bufs)@[0])@
            },
    {
        let ghost before = bufs@;
        // Number of buffers to remove.
        let mut remove: usize = 0;
        // Total length of all the to be removed buffers.
        let mut accumulated_len: usize = 0;
        while remove < bufs.len() && bufs[remove].len() <= n - accumulated_len
            invariant
                bufs@ == before,
                final(*old(bufs))@ == final(*bufs)@,
                remove <= before.len(),
                accumulated_len == room(before.take(remove as int)),
                accumulated_len <= n,
            decreases before.len() - remove,
        {
            proof {
                lemma_room_around(before, remove as int);
            }
            accumulated_len = accumulated_len + bufs[remove].len();
            remove = remove + 1;
        }

        let mut all: &mut [Self] = &mut [];
        std::mem::swap(&mut all, bufs);
        let (_, rest) = all.split_at_mut(remove);
        *bufs = rest;
        if bufs.len() > 0 {
            bufs[0].advance(n - accumulated_len);
        }
        proof {
            if remove < before.len() {
                lemma_room_around(before, remove as int);
                lemma_room_around(bufs@, 0);
                assert(bufs@.skip(1) =~= before.skip(remove + 1));
            } else {
                assert(before.take(remove as int) =~= before);
            }
        }
    }
}

/// A position to seek to.
#[derive(Copy, PartialEq, Eq, Clone, Debug, Structural)]
pub enum SeekFrom {
    /// So many bytes from the front.
    Start(usize),
    /// So many bytes from the cursor.
    Current(isize),
    /// So many bytes from the end.
    End(isize),
}

/// Declares `std::io::SeekFrom`, a position to seek to in a stream of the standard library, with its
/// variants.
#[verifier::external_type_specification]
pub struct ExSeekFrom(std::io::SeekFrom);

impl vstd::std_specs::convert::FromSpecImpl<SeekFrom> for std::io::SeekFrom {
    open spec fn obeys_from_spec() -> bool {
        true
    }

    open spec fn from_spec(this: SeekFrom) -> Self {
        match this {
            SeekFrom::Start(pos) => std::io::SeekFrom::Start(pos as u64),
            SeekFrom::Current(pos) => std::io::SeekFrom::Current(pos as i64),
            SeekFrom::End(pos) => std::io::SeekFrom::End(pos as i64),
        }
    }
}

impl From<SeekFrom> for std::io::SeekFrom {
    fn from(this: SeekFrom) -> (r: Self) {
        match this {
            SeekFrom::Start(pos) => std::io::SeekFrom::Start(pos as u64),
            SeekFrom::Current(pos) => std::io::SeekFrom::Current(pos as i64),
            SeekFrom::End(pos) => std::io::SeekFrom::End(pos as i64),
        }
    }
}

impl vstd::std_specs::convert::FromSpecImpl<std::io::SeekFrom> for SeekFrom {
    open spec fn obeys_from_spec() -> bool {
        true
    }

    open spec fn from_spec(this: std::io::SeekFrom) -> Self {
        match this {
            std::io::SeekFrom::Start(pos) => SeekFrom::Start(pos as usize),
            std::io::SeekFrom::Current(pos) => SeekFrom::Current(pos as isize),
            std::io::SeekFrom::End(pos) => SeekFrom::End(pos as isize),
        }
    }
}

impl From<std::io::SeekFrom> for SeekFrom {
    fn from(this: std::io::SeekFrom) -> (r: Self) {
        match this {
            std::io::SeekFrom::Start(pos) => SeekFrom::Start(pos as usize),
            std::io::SeekFrom::Current(pos) => SeekFrom::Current(pos as isize),
            std::io::SeekFrom::End(pos) => SeekFrom::End(pos as isize),
        }
    }
}

} // verus!
