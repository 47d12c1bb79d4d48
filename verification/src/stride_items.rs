//! Strided views over buffers: a read-only iterator over every
//! `stride`-th element of a slice, a position iterator for writing
//! through the same grid, and re-striding of either, all with checked
//! index arithmetic in place of pointer arithmetic.

use vstd::prelude::*;
use vstd::slice::slice_index_get;
use vstd::arithmetic::div_mod::{
    lemma_div_is_ordered, lemma_div_multiples_vanish, lemma_fundamental_div_mod,
    lemma_mod_division_less_than_divisor,
};
use vstd::arithmetic::mul::{lemma_mul_inequality, lemma_mul_nonnegative};
use crate::FftError;

verus! {

/// How many elements a view with the given offset and stride finds in a
/// buffer of the given length: the ceiling of `(len - off) / stride`.
pub open spec fn stride_count(len: int, off: int, stride: int) -> int {
    if off >= len {
        0
    } else {
        (len - off - 1) / stride + 1
    }
}

/// The logical sequence of a strided view over a buffer: the elements
/// at `off`, `off + stride`, and so on, as far as the buffer reaches.
pub open spec fn strided_seq<T>(buf: Seq<T>, off: int, stride: int) -> Seq<T> {
    Seq::new(stride_count(buf.len() as int, off, stride) as nat, |j: int| buf[off + j * stride])
}

/// Every logical position below the count lands inside the buffer.
proof fn lemma_stride_pos_bound(len: int, off: int, stride: int, p: int)
    requires
        1 <= stride,
        0 <= off,
        0 <= p < stride_count(len, off, stride),
    ensures
        0 <= off + p * stride < len,
{
    lemma_mul_nonnegative(p, stride);
    lemma_fundamental_div_mod(len - off - 1, stride);
    lemma_mod_division_less_than_divisor(len - off - 1, stride);
    let q = (len - off - 1) / stride;
    assert(stride * q <= len - off - 1);
    lemma_mul_inequality(p, q, stride);
    assert(p * stride <= q * stride);
    assert(q * stride == stride * q) by (nonlinear_arith);
}

/// A position that lands inside the buffer lies below the count.
proof fn lemma_stride_count_from_pos(len: int, off: int, stride: int, p: int)
    requires
        1 <= stride,
        0 <= off,
        0 <= p,
        off + p * stride < len,
    ensures
        p < stride_count(len, off, stride),
{
    lemma_mul_nonnegative(p, stride);
    lemma_div_is_ordered(p * stride, len - off - 1, stride);
    lemma_div_multiples_vanish(p, stride);
}

/// A read-only strided iterator over a borrowed slice: yields the
/// elements at `off`, `off + stride`, ... from the front, and the same
/// elements from the back, between the cursors `lo` and `hi`.
pub struct StrideItems<'a, T> {
    items: &'a [T],
    off: usize,
    stride: usize,
    lo: usize,
    hi: usize,
}

impl<'a, T> StrideItems<'a, T> {
    /// The cursors sit inside the grid that the buffer supports.
    pub closed spec fn wf(self) -> bool {
        &&& 1 <= self.stride
        &&& self.lo <= self.hi
        &&& self.hi <= stride_count(self.items@.len() as int, self.off as int, self.stride as int)
    }

    /// The elements not yet yielded, in forward order.
    pub closed spec fn remaining(self) -> Seq<T> {
        Seq::new(
            (self.hi - self.lo) as nat,
            |j: int| self.items@[self.off + (self.lo + j) * self.stride],
        )
    }

    /// The backing buffer this view reads.
    pub closed spec fn backing(self) -> Seq<T> {
        self.items@
    }

    /// The stride of the view, at the specification level.
    pub closed spec fn stride_spec(self) -> int {
        self.stride as int
    }

    /// How many elements remain to be yielded.
    pub fn remaining_len(&self) -> (r: usize)
        requires
            self.wf(),
        ensures
            r == self.remaining().len(),
    {
        self.hi - self.lo
    }

    /// The stride of the view.
    pub fn stride_len(&self) -> (r: usize)
        ensures
            r == self.stride_spec(),
    {
        self.stride
    }

    /// Indexed read: the `j`-th element still to be yielded.
    pub fn nth(&self, j: usize) -> (r: &'a T)
        requires
            self.wf(),
            j < self.remaining().len(),
        ensures
            *r == self.remaining()[j as int],
    {
        proof {
            vstd::slice::axiom_spec_len::<T>(self.items);
            lemma_stride_pos_bound(
                self.items@.len() as int,
                self.off as int,
                self.stride as int,
                self.lo + j as int,
            );
        }
        slice_index_get(self.items, self.off + (self.lo + j) * self.stride)
    }

    /// Forward step: yields the first remaining element, or nothing
    /// once the view is exhausted.
    pub fn next(&mut self) -> (r: Option<&'a T>)
        requires
            old(self).wf(),
        ensures
            final(self).wf(),
            final(self).backing() == old(self).backing(),
            match r {
                Some(x) => {
                    &&& old(self).remaining().len() > 0
                    &&& *x == old(self).remaining()[0]
                    &&& final(self).remaining() == old(self).remaining().drop_first()
                },
                None => {
                    &&& old(self).remaining().len() == 0
                    &&& final(self).remaining() == old(self).remaining()
                },
            },
    {
        if self.lo < self.hi {
            proof {
                vstd::slice::axiom_spec_len::<T>(self.items);
                lemma_stride_pos_bound(
                    self.items@.len() as int,
                    self.off as int,
                    self.stride as int,
                    self.lo as int,
                );
            }
            let x = slice_index_get(self.items, self.off + self.lo * self.stride);
            self.lo = self.lo + 1;
            proof {
                assert(self.remaining() =~= old(self).remaining().drop_first());
            }
            Some(x)
        } else {
            None
        }
    }

    /// Backward step: yields the last remaining element, or nothing
    /// once the view is exhausted.
    pub fn next_back(&mut self) -> (r: Option<&'a T>)
        requires
            old(self).wf(),
        ensures
            final(self).wf(),
            final(self).backing() == old(self).backing(),
            match r {
                Some(x) => {
                    &&& old(self).remaining().len() > 0
                    &&& *x == old(self).remaining().last()
                    &&& final(self).remaining() == old(self).remaining().drop_last()
                },
                None => {
                    &&& old(self).remaining().len() == 0
                    &&& final(self).remaining() == old(self).remaining()
                },
            },
    {
        if self.lo < self.hi {
            proof {
                vstd::slice::axiom_spec_len::<T>(self.items);
                lemma_stride_pos_bound(
                    self.items@.len() as int,
                    self.off as int,
                    self.stride as int,
                    self.hi - 1 as int,
                );
            }
            let x = slice_index_get(self.items, self.off + (self.hi - 1) * self.stride);
            self.hi = self.hi - 1;
            proof {
                assert(self.remaining() =~= old(self).remaining().drop_last());
            }
            Some(x)
        } else {
            None
        }
    }
}

impl<'a, T: Copy> StrideItems<'a, T> {
    /// Drains the view front to back and collects what it yields: the
    /// result is exactly the remaining sequence, the elements of the
    /// backing buffer at `off`, `off + stride`, and so on.
    pub fn collect_forward(self) -> (r: Vec<T>)
        requires
            self.wf(),
        ensures
            r@ == self.remaining(),
    {
        let mut it = self;
        let mut out: Vec<T> = Vec::new();
        proof {
            assert(out@ + it.remaining() =~= self.remaining());
        }
        while it.lo < it.hi
            invariant
                it.wf(),
                out@ + it.remaining() == self.remaining(),
            decreases it.hi - it.lo,
        {
            let x = it.next();
            match x {
                Some(v) => {
                    out.push(*v);
                    proof {
                        assert(out@ + it.remaining() =~= self.remaining());
                    }
                },
                None => {},
            }
        }
        proof {
            assert(out@ =~= self.remaining());
        }
        out
    }

    /// Drains the view back to front and collects what it yields: the
    /// result is the remaining sequence reversed.
    pub fn collect_reversed(self) -> (r: Vec<T>)
        requires
            self.wf(),
        ensures
            r@ == self.remaining().reverse(),
    {
        let mut it = self;
        let mut out: Vec<T> = Vec::new();
        proof {
            assert(out@ + it.remaining().reverse() =~= self.remaining().reverse());
        }
        while it.lo < it.hi
            invariant
                it.wf(),
                out@ + it.remaining().reverse() == self.remaining().reverse(),
            decreases it.hi - it.lo,
        {
            let x = it.next_back();
            match x {
                Some(v) => {
                    out.push(*v);
                    proof {
                        assert(out@ + it.remaining().reverse() =~= self.remaining().reverse());
                    }
                },
                None => {},
            }
        }
        proof {
            assert(out@ =~= self.remaining().reverse());
        }
        out
    }
}

/// Builds a strided view over a slice from an offset and a stride. A
/// stride of zero or an offset past the end of the buffer is rejected
/// as an invalid view; an offset at the end yields the empty view. A
/// stride that does not evenly divide the remaining length truncates:
/// the view ends at the last grid position inside the buffer.
pub fn stride<'a, T>(items: &'a [T], offset: usize, step: usize) -> (r: Result<
    StrideItems<'a, T>,
    FftError,
>)
    ensures
        match r {
            Ok(it) => {
                &&& 1 <= step && offset <= items@.len()
                &&& it.wf()
                &&& it.backing() == items@
                &&& it.remaining() == strided_seq(items@, offset as int, step as int)
            },
            Err(e) => {
                &&& e == FftError::InvalidView
                &&& (step == 0 || offset > items@.len())
            },
        },
{
    if step == 0 || offset > items.len() {
        return Err(FftError::InvalidView);
    }
    let count = if offset == items.len() {
        0
    } else {
        (items.len() - offset - 1) / step + 1
    };
    let it = StrideItems { items, off: offset, stride: step, lo: 0, hi: count };
    proof {
        assert(it.remaining() =~= strided_seq(items@, offset as int, step as int));
    }
    Ok(it)
}

/// Derives a coarser view from an existing one without touching the
/// backing buffer: the new view yields every `k`-th element of what the
/// old one still had, starting from the same first element.
pub fn add_stride<'a, T>(orig: &StrideItems<'a, T>, k: usize) -> (r: StrideItems<'a, T>)
    requires
        orig.wf(),
        1 <= k,
        orig.stride_spec() * k <= usize::MAX,
    ensures
        r.wf(),
        r.backing() == orig.backing(),
        r.remaining().len() == stride_count(orig.remaining().len() as int, 0, k as int),
        forall|j: int|
            0 <= j < r.remaining().len() ==> r.remaining()[j] == orig.remaining()[#[trigger] (j
                * k)],
{
    if orig.hi == orig.lo {
        let empty = StrideItems {
            items: orig.items,
            off: orig.items.len(),
            stride: orig.stride * k,
            lo: 0,
            hi: 0,
        };
        proof {
            assert(1 <= empty.stride) by (nonlinear_arith)
                requires
                    1 <= orig.stride,
                    1 <= k,
                    empty.stride == orig.stride * k,
            ;
            assert(empty.remaining() =~= Seq::<T>::empty());
        }
        return empty;
    }
    proof {
        vstd::slice::axiom_spec_len::<T>(orig.items);
        lemma_stride_pos_bound(
            orig.items@.len() as int,
            orig.off as int,
            orig.stride as int,
            orig.lo as int,
        );
    }
    let off2 = orig.off + orig.lo * orig.stride;
    let stride2 = orig.stride * k;
    let rem = orig.hi - orig.lo;
    let count2 = if rem == 0 {
        0
    } else {
        (rem - 1) / k + 1
    };
    let it = StrideItems { items: orig.items, off: off2, stride: stride2, lo: 0, hi: count2 };
    proof {
        assert(1 <= stride2) by (nonlinear_arith)
            requires
                1 <= orig.stride,
                1 <= k,
                stride2 == orig.stride * k,
        ;
        if count2 > 0 {
            assert((count2 - 1) * k <= rem - 1) by {
                lemma_fundamental_div_mod(rem - 1, k as int);
                lemma_mod_division_less_than_divisor(rem - 1, k as int);
                let q = (rem - 1) as int / k as int;
                assert(q * k == k * q) by (nonlinear_arith);
            }
            assert(off2 + (count2 - 1) * (stride2 as int) == orig.off + (orig.lo + (count2 - 1)
                * k) * orig.stride) by (nonlinear_arith)
                requires
                    off2 == orig.off + orig.lo * orig.stride,
                    stride2 == orig.stride * k,
            ;
            lemma_stride_pos_bound(
                orig.items@.len() as int,
                orig.off as int,
                orig.stride as int,
                orig.lo + (count2 - 1) * k,
            );
            lemma_stride_count_from_pos(
                orig.items@.len() as int,
                off2 as int,
                stride2 as int,
                count2 - 1,
            );
        }
        assert forall|j: int| 0 <= j < it.remaining().len() implies it.remaining()[j]
            == orig.remaining()[#[trigger] (j * k)] by {
            assert(0 <= j * k < orig.hi - orig.lo && off2 + j * (stride2 as int) == orig.off + (
            orig.lo + j * k) * orig.stride) by (nonlinear_arith)
                requires
                    0 <= j <= count2 - 1,
                    (count2 - 1) * k <= orig.hi - orig.lo - 1,
                    1 <= k,
                    off2 == orig.off + orig.lo * orig.stride,
                    stride2 == orig.stride * k,
            ;
        }
    }
    it
}

/// The buffer positions a strided view covers: `off`, `off + stride`,
/// and so on, as far as a buffer of length `len` reaches.
pub open spec fn strided_positions(len: int, off: int, stride: int) -> Seq<int> {
    Seq::new(stride_count(len, off, stride) as nat, |j: int| off + j * stride)
}

/// A strided position iterator for writing: yields the buffer indices
/// of the grid `off`, `off + stride`, ... below the recorded buffer
/// length, forward or backward, without borrowing the buffer. The
/// caller writes through the indices it hands out, so a view being
/// read and a view being written never alias by construction.
pub struct MutStrideItems {
    cap: usize,
    off: usize,
    stride: usize,
    lo: usize,
    hi: usize,
}

impl MutStrideItems {
    /// The cursors sit inside the grid that the recorded length allows.
    pub closed spec fn wf(self) -> bool {
        &&& 1 <= self.stride
        &&& self.lo <= self.hi
        &&& self.hi <= stride_count(self.cap as int, self.off as int, self.stride as int)
    }

    /// The positions not yet yielded, in forward order.
    pub closed spec fn positions(self) -> Seq<int> {
        Seq::new((self.hi - self.lo) as nat, |j: int| self.off + (self.lo + j) * self.stride)
    }

    /// The buffer length this view was built for.
    pub closed spec fn cap_spec(self) -> int {
        self.cap as int
    }

    /// The stride of the view, at the specification level.
    pub closed spec fn stride_spec(self) -> int {
        self.stride as int
    }

    /// How many positions remain to be yielded.
    pub fn remaining_len(&self) -> (r: usize)
        requires
            self.wf(),
        ensures
            r == self.positions().len(),
    {
        self.hi - self.lo
    }

    /// Forward step: the first remaining position, always below the
    /// recorded buffer length, or nothing once the view is exhausted.
    pub fn next_index(&mut self) -> (r: Option<usize>)
        requires
            old(self).wf(),
        ensures
            final(self).wf(),
            final(self).cap_spec() == old(self).cap_spec(),
            match r {
                Some(i) => {
                    &&& old(self).positions().len() > 0
                    &&& i == old(self).positions()[0]
                    &&& i < old(self).cap_spec()
                    &&& final(self).positions() == old(self).positions().drop_first()
                },
                None => {
                    &&& old(self).positions().len() == 0
                    &&& final(self).positions() == old(self).positions()
                },
            },
    {
        if self.lo < self.hi {
            proof {
                lemma_stride_pos_bound(
                    self.cap as int,
                    self.off as int,
                    self.stride as int,
                    self.lo as int,
                );
            }
            let i = self.off + self.lo * self.stride;
            self.lo = self.lo + 1;
            proof {
                assert(self.positions() =~= old(self).positions().drop_first());
            }
            Some(i)
        } else {
            None
        }
    }

    /// Backward step: the last remaining position, always below the
    /// recorded buffer length, or nothing once the view is exhausted.
    pub fn next_back_index(&mut self) -> (r: Option<usize>)
        requires
            old(self).wf(),
        ensures
            final(self).wf(),
            final(self).cap_spec() == old(self).cap_spec(),
            match r {
                Some(i) => {
                    &&& old(self).positions().len() > 0
                    &&& i == old(self).positions().last()
                    &&& i < old(self).cap_spec()
                    &&& final(self).positions() == old(self).positions().drop_last()
                },
                None => {
                    &&& old(self).positions().len() == 0
                    &&& final(self).positions() == old(self).positions()
                },
            },
    {
        if self.lo < self.hi {
            proof {
                lemma_stride_pos_bound(
                    self.cap as int,
                    self.off as int,
                    self.stride as int,
                    self.hi - 1 as int,
                );
            }
            let i = self.off + (self.hi - 1) * self.stride;
            self.hi = self.hi - 1;
            proof {
                assert(self.positions() =~= old(self).positions().drop_last());
            }
            Some(i)
        } else {
            None
        }
    }
}

/// Builds a strided position iterator for a buffer of length `len`
/// from an offset and a stride. A stride of zero or an offset past the
/// end is rejected as an invalid view.
pub fn mut_stride(len: usize, offset: usize, step: usize) -> (r: Result<
    MutStrideItems,
    FftError,
>)
    ensures
        match r {
            Ok(it) => {
                &&& 1 <= step && offset <= len
                &&& it.wf()
                &&& it.cap_spec() == len
                &&& it.positions() == strided_positions(len as int, offset as int, step as int)
            },
            Err(e) => {
                &&& e == FftError::InvalidView
                &&& (step == 0 || offset > len)
            },
        },
{
    if step == 0 || offset > len {
        return Err(FftError::InvalidView);
    }
    let count = if offset == len {
        0
    } else {
        (len - offset - 1) / step + 1
    };
    let it = MutStrideItems { cap: len, off: offset, stride: step, lo: 0, hi: count };
    proof {
        assert(it.positions() =~= strided_positions(len as int, offset as int, step as int));
    }
    Ok(it)
}

/// Derives a coarser position iterator from an existing one without a
/// new bound check against the buffer: the new view yields every
/// `k`-th of the positions the old one still had, starting from its
/// first.
pub fn add_mut_stride(orig: &MutStrideItems, k: usize) -> (r: MutStrideItems)
    requires
        orig.wf(),
        1 <= k,
        orig.stride_spec() * k <= usize::MAX,
    ensures
        r.wf(),
        r.cap_spec() == orig.cap_spec(),
        r.positions().len() == stride_count(orig.positions().len() as int, 0, k as int),
        forall|j: int|
            0 <= j < r.positions().len() ==> r.positions()[j] == orig.positions()[#[trigger] (j
                * k)],
{
    if orig.hi == orig.lo {
        let empty = MutStrideItems {
            cap: orig.cap,
            off: orig.cap,
            stride: orig.stride * k,
            lo: 0,
            hi: 0,
        };
        proof {
            assert(1 <= empty.stride) by (nonlinear_arith)
                requires
                    1 <= orig.stride,
                    1 <= k,
                    empty.stride == orig.stride * k,
            ;
            assert(empty.positions() =~= Seq::<int>::empty());
        }
        return empty;
    }
    proof {
        lemma_stride_pos_bound(
            orig.cap as int,
            orig.off as int,
            orig.stride as int,
            orig.lo as int,
        );
    }
    let off2 = orig.off + orig.lo * orig.stride;
    let stride2 = orig.stride * k;
    let rem = orig.hi - orig.lo;
    let count2 = if rem == 0 {
        0
    } else {
        (rem - 1) / k + 1
    };
    let it = MutStrideItems { cap: orig.cap, off: off2, stride: stride2, lo: 0, hi: count2 };
    proof {
        assert(1 <= stride2) by (nonlinear_arith)
            requires
                1 <= orig.stride,
                1 <= k,
                stride2 == orig.stride * k,
        ;
        if count2 > 0 {
            assert((count2 - 1) * k <= rem - 1) by {
                lemma_fundamental_div_mod(rem - 1, k as int);
                lemma_mod_division_less_than_divisor(rem - 1, k as int);
                let q = (rem - 1) as int / k as int;
                assert(q * k == k * q) by (nonlinear_arith);
            }
            assert(off2 + (count2 - 1) * (stride2 as int) == orig.off + (orig.lo + (count2 - 1)
                * k) * orig.stride) by (nonlinear_arith)
                requires
                    off2 == orig.off + orig.lo * orig.stride,
                    stride2 == orig.stride * k,
            ;
            lemma_stride_pos_bound(
                orig.cap as int,
                orig.off as int,
                orig.stride as int,
                orig.lo + (count2 - 1) * k,
            );
            lemma_stride_count_from_pos(
                orig.cap as int,
                off2 as int,
                stride2 as int,
                count2 - 1,
            );
        }
        assert forall|j: int| 0 <= j < it.positions().len() implies it.positions()[j]
            == orig.positions()[#[trigger] (j * k)] by {
            assert(0 <= j * k < orig.hi - orig.lo && off2 + j * (stride2 as int) == orig.off + (
            orig.lo + j * k) * orig.stride) by (nonlinear_arith)
                requires
                    0 <= j <= count2 - 1,
                    (count2 - 1) * k <= orig.hi - orig.lo - 1,
                    1 <= k,
                    off2 == orig.off + orig.lo * orig.stride,
                    stride2 == orig.stride * k,
            ;
        }
    }
    it
}

} // verus!
