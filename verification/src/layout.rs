//! Size and alignment of a page, and of the runs of pages that blocks are made of.

use vstd::arithmetic::div_mod::*;
use vstd::arithmetic::mul::*;
use vstd::arithmetic::power2::*;
use vstd::prelude::*;

verus! {

/// The reason why a size and an alignment do not make a [`Layout`].
#[derive(Clone, Copy, Debug, PartialEq, Eq, Structural)]
pub struct LayoutError;

/// Size and alignment of a piece of memory.
///
/// The alignment is a power of two, and the size, rounded up to a multiple of the alignment, does
/// not exceed `isize::MAX`.
#[derive(Clone, Copy, Debug, PartialEq, Eq, Structural)]
pub struct Layout {
    size: usize,
    align: usize,
}

/// Whether `size` and `align` make a layout.
pub open spec fn valid_layout(size: int, align: int) -> bool {
    &&& is_pow2(align)
    &&& 0 <= size
    &&& size + align - 1 <= isize::MAX
}

/// How many pieces of `unit` bytes it takes to cover `n` bytes.
pub open spec fn div_up(n: nat, unit: nat) -> nat {
    ((n + unit - 1) / unit as int) as nat
}

impl Layout {
    #[verifier::type_invariant]
    spec fn valid(self) -> bool {
        valid_layout(self.size as int, self.align as int)
    }

    pub closed spec fn spec_size(&self) -> usize {
        self.size
    }

    pub closed spec fn spec_align(&self) -> usize {
        self.align
    }

    /// The distance between two neighbouring pages of this layout: the size, rounded up to a
    /// multiple of the alignment.
    pub open spec fn stride(self) -> nat {
        div_up(self.size() as nat, self.align() as nat) * (self.align() as nat)
    }

    /// How many bytes the fewest whole pages take that hold `len` bytes.
    pub open spec fn block_size(self, len: nat) -> nat {
        div_up(len, self.stride()) * self.stride()
    }

    /// Whether a block of whole pages that holds `len` bytes can be laid out.
    pub open spec fn holds(self, len: nat) -> bool {
        &&& self.stride() > 0
        &&& valid_layout(self.block_size(len) as int, self.align() as int)
    }

    /// The pages that hold `len` bytes have room for them, and one page less would not.
    pub proof fn lemma_block_size(self, len: nat)
        requires
            self.stride() > 0,
        ensures
            len <= self.block_size(len) < len + self.stride(),
    {
        lemma_div_up(len, self.stride());
    }

    /// Pages that are aligned to their size follow each other without gaps.
    pub proof fn lemma_square(self)
        requires
            valid_layout(self.size() as int, self.align() as int),
            self.size() == self.align(),
        ensures
            0 < self.stride() == self.size(),
    {
        reveal(is_pow2);
        lemma_div_up(self.size() as nat, self.align() as nat);
        assert(self.size() % self.align() == 0) by (nonlinear_arith)
            requires
                0 < self.size() == self.align(),
        ;
    }

    /// Makes a layout out of a size and an alignment.
    ///
    /// # Errors
    ///
    /// Fails if `align` is not a power of two, or if `size`, rounded up to a multiple of `align`,
    /// exceeds `isize::MAX`.
    pub fn from_size_align(size: usize, align: usize) -> (r: Result<Layout, LayoutError>)
        ensures
            r is Ok <==> valid_layout(size as int, align as int),
            r matches Ok(layout) ==> layout.size() == size && layout.align() == align,
    {
        proof {
            reveal(is_pow2);
        }
        if align == 0 {
            return Err(LayoutError);
        }
        let mut rest: usize = align;
        while rest % 2 == 0
            invariant
                0 < rest <= align,
                is_pow2(align as int) == is_pow2(rest as int),
            decreases rest,
        {
            reveal(is_pow2);
            rest = rest / 2;
        }
        if rest != 1 || align - 1 > isize::MAX as usize || size > isize::MAX as usize - (align - 1) {
            return Err(LayoutError);
        }
        Ok(Layout { size, align })
    }

    /// The size in bytes.
    #[verifier::when_used_as_spec(spec_size)]
    pub fn size(&self) -> (r: usize)
        ensures
            r == self.size(),
    {
        self.size
    }

    /// The alignment in bytes.
    #[verifier::when_used_as_spec(spec_align)]
    pub fn align(&self) -> (r: usize)
        ensures
            r == self.align(),
    {
        self.align
    }

    /// The layout of `n` pages of this layout, one after another, and the distance between two of
    /// them.
    ///
    /// # Errors
    ///
    /// Fails if the pages do not fit into `isize::MAX` bytes.
    pub fn repeat(&self, n: usize) -> (r: Result<(Layout, usize), LayoutError>)
        ensures
            r is Ok <==> valid_layout(self.stride() * n, self.align() as int),
            r matches Ok((layout, stride)) ==> {
                &&& layout.size() == self.stride() * n
                &&& layout.align() == self.align()
                &&& stride == self.stride()
            },
    {
        let stride: usize = self.padded_size();
        match stride.checked_mul(n) {
            Some(size) => match Layout::from_size_align(size, self.align) {
                Ok(layout) => Ok((layout, stride)),
                Err(e) => Err(e),
            },
            None => Err(LayoutError),
        }
    }

    /// The size, rounded up to a multiple of the alignment.
    fn padded_size(&self) -> (r: usize)
        ensures
            r == self.stride(),
    {
        proof {
            use_type_invariant(self);
            reveal(is_pow2);
            lemma_div_up(self.size as nat, self.align as nat);
        }
        let rest: usize = self.size % self.align;
        if rest == 0 {
            self.size
        } else {
            self.size + (self.align - rest)
        }
    }

    /// The layout of the fewest whole pages that hold `len` bytes.
    ///
    /// # Errors
    ///
    /// Fails if the pages have no size, or do not fit into `isize::MAX` bytes.
    pub fn for_len(&self, len: usize) -> (r: Result<Layout, LayoutError>)
        ensures
            r is Ok <==> self.holds(len as nat),
            r matches Ok(layout) ==> {
                &&& layout.size() == self.block_size(len as nat)
                &&& layout.size() >= len
            },
    {
        let stride: usize = self.padded_size();
        if stride == 0 {
            return Err(LayoutError);
        }
        let count: usize = if len == 0 {
            0
        } else {
            (len - 1) / stride + 1
        };
        proof {
            lemma_div_up(len as nat, stride as nat);
            if len == 0 {
                assert((0 + stride - 1) / stride as int == 0) by (nonlinear_arith)
                    requires
                        stride > 0,
                ;
            } else {
                lemma_div_plus_one(len - 1, stride as int);
                assert(len - 1 + stride == len + stride - 1);
            }
            assert(count == div_up(len as nat, stride as nat));
            lemma_mul_is_commutative(count as int, stride as int);
        }
        match self.repeat(count) {
            Ok((layout, _)) => Ok(layout),
            Err(e) => Err(e),
        }
    }
}

/// The pieces that cover `n` bytes are at least as long as those, by less than one piece.
pub proof fn lemma_div_up(n: nat, unit: nat)
    requires
        unit > 0,
    ensures
        n <= div_up(n, unit) * unit < n + unit,
        div_up(n, unit) * unit == (if n % unit == 0 {
            n as int
        } else {
            n + (unit - n % unit)
        }),
{
    let u = unit as int;
    let q = (n + unit - 1) / u;
    lemma_fundamental_div_mod(n + unit - 1, u);
    lemma_mod_bound(n + unit - 1, u);
    lemma_mul_is_commutative(u, q);
    lemma_fundamental_div_mod(n as int, u);
    lemma_mod_bound(n as int, u);
    let p = n as int / u;
    let m = n as int % u;
    lemma_mul_is_commutative(u, p);
    assert(q >= 0) by (nonlinear_arith)
        requires
            u > 0,
            q * u + (n + u - 1) % u == n + u - 1,
            0 <= (n + u - 1) % u < u,
            n >= 0,
    ;
    if m == 0 {
        assert(q == p) by (nonlinear_arith)
            requires
                u > 0,
                q * u + (n + u - 1) % u == n + u - 1,
                0 <= (n + u - 1) % u < u,
                n == p * u,
        ;
    } else {
        assert(q == p + 1) by (nonlinear_arith)
            requires
                u > 0,
                q * u + (n + u - 1) % u == n + u - 1,
                0 <= (n + u - 1) % u < u,
                n == p * u + m,
                0 < m < u,
        ;
        assert((p + 1) * u == p * u + u) by (nonlinear_arith);
    }
}

} // verus!
