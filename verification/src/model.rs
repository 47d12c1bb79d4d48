//! The mathematical model of the transform: what a strided view denotes,
//! what the direct DFT of a sequence is, and what the mixed-radix
//! Cooley-Tukey recursion computes, all over the named complex
//! arithmetic of `crate::complex`.

use vstd::prelude::*;
use vstd::arithmetic::div_mod::{
    lemma_div_multiples_vanish, lemma_div_pos_is_pos, lemma_fundamental_div_mod,
    lemma_fundamental_div_mod_converse, lemma_mod_multiples_basic,
};
use vstd::arithmetic::mul::{
    lemma_mul_inequality, lemma_mul_nonnegative, lemma_mul_strict_inequality,
    lemma_mul_strict_inequality_converse,
};
use crate::complex::{add_of, mul_of, twiddle_of};
use crate::factorize::factor_seq;
use num::complex::Complex32;

verus! {

/// The logical sequence a strided view denotes: `count` elements of
/// `buf`, the first at `start`, each `stride` positions after the last.
pub open spec fn view_seq(buf: Seq<Complex32>, start: int, stride: int, count: int) -> Seq<
    Complex32,
> {
    Seq::new(count as nat, |j: int| buf[start + j * stride])
}

/// Whether buffer position `idx` belongs to the view `(start, stride,
/// count)`: on the grid and within its extent.
pub open spec fn in_view(idx: int, start: int, stride: int, count: int) -> bool {
    &&& start <= idx < start + count * stride
    &&& (idx - start) % stride == 0
}

/// The sum of the first `j` terms of bin `k` of the direct DFT of `s`:
/// term `i` is `twiddle_of(k*i, s.len()) * s[i]`, summed left to right,
/// exactly as the base kernel accumulates it.
pub open spec fn dft_partial(s: Seq<Complex32>, k: int, j: int) -> Complex32
    decreases j,
{
    if j <= 1 {
        mul_of(twiddle_of(0, s.len() as int), s[0])
    } else {
        add_of(
            dft_partial(s, k, j - 1),
            mul_of(twiddle_of(k * (j - 1), s.len() as int), s[j - 1]),
        )
    }
}

/// Bin `k` of the direct DFT of `s`.
pub open spec fn dft_bin(s: Seq<Complex32>, k: int) -> Complex32 {
    dft_partial(s, k, s.len() as int)
}

/// The direct DFT of `s`: bin `k` holds the sum over all `i` of
/// `twiddle_of(k*i, s.len()) * s[i]`.
pub open spec fn dft_seq(s: Seq<Complex32>) -> Seq<Complex32> {
    Seq::new(s.len(), |k: int| dft_bin(s, k))
}

/// Every `n1`-th element of `s` starting at `i`: the decimated
/// sub-sequence a Cooley-Tukey split hands to one recursive call.
pub open spec fn decimate(s: Seq<Complex32>, i: int, n1: int) -> Seq<Complex32> {
    Seq::new((s.len() as int / n1) as nat, |j: int| s[i + j * n1])
}

/// The twiddle pass over the recombination buffer: position
/// `k2*n1 + k1` is scaled by `twiddle_of(k1*k2, n1*n2)`.
pub open spec fn twiddled(t: Seq<Complex32>, n1: int, n2: int) -> Seq<Complex32> {
    Seq::new(t.len(), |m: int| mul_of(t[m], twiddle_of((m % n1) * (m / n1), n1 * n2)))
}

/// The final summation pass: output position `i + k*n2` is bin `k` of
/// the direct DFT of the `i`-th chunk of `n1` twiddled values.
pub open spec fn combine(t: Seq<Complex32>, n1: int, n2: int) -> Seq<Complex32> {
    Seq::new(
        (n1 * n2) as nat,
        |m: int| dft_bin(t.subrange((m % n2) * n1, (m % n2) * n1 + n1), m / n2),
    )
}

/// The split stage of one Cooley-Tukey level: position `j*n1 + i` holds
/// element `j` of the recursive transform of the decimation of `s` at
/// phase `i`, for the remaining factors `rest`.
pub open spec fn split_stage(s: Seq<Complex32>, n1: int, rest: Seq<int>) -> Seq<Complex32>
    decreases rest.len(), 1int,
{
    Seq::new(s.len(), |m: int| ct_spec(decimate(s, m % n1, n1), rest)[m / n1])
}

/// What the Cooley-Tukey recursion computes on `s` for the factor list
/// `factors`: with one factor left it is the direct DFT; otherwise the
/// split by `n1 = factors[0]` is transformed column by column, twiddled,
/// and recombined.
pub open spec fn ct_spec(s: Seq<Complex32>, factors: Seq<int>) -> Seq<Complex32>
    decreases factors.len(), 0int,
{
    if factors.len() <= 1 {
        dft_seq(s)
    } else {
        let n1 = factors[0];
        let n2 = s.len() as int / n1;
        combine(twiddled(split_stage(s, n1, factors.drop_first()), n1, n2), n1, n2)
    }
}

/// The spectrum the fast transform owes the caller: the identity on
/// lengths zero and one, and otherwise the Cooley-Tukey recursion over
/// the trial-division factor sequence of the length.
pub open spec fn ct_output(s: Seq<Complex32>) -> Seq<Complex32> {
    if s.len() <= 1 {
        s
    } else {
        ct_spec(s, factor_seq(s.len() as int))
    }
}

/// The grid position `start + m*stride` of a view lies in that view.
pub proof fn lemma_view_member(start: int, stride: int, count: int, m: int)
    requires
        1 <= stride,
        0 <= m < count,
    ensures
        in_view(start + m * stride, start, stride, count),
{
    lemma_mod_multiples_basic(m, stride);
    lemma_mul_nonnegative(m, stride);
    lemma_mul_strict_inequality(m, count, stride);
}

/// Every member of a view is `start + m*stride` for the unique
/// `m = (idx - start) / stride`, which lies below `count`.
pub proof fn lemma_view_index(idx: int, start: int, stride: int, count: int)
    requires
        1 <= stride,
        in_view(idx, start, stride, count),
    ensures
        0 <= (idx - start) / stride < count,
        idx == start + ((idx - start) / stride) * stride,
{
    lemma_fundamental_div_mod(idx - start, stride);
    lemma_div_pos_is_pos(idx - start, stride);
    let m = (idx - start) / stride;
    assert(idx - start == m * stride);
    lemma_mul_strict_inequality_converse(m, count, stride);
}

/// All positions of a view lie inside a buffer that holds its last one.
pub proof fn lemma_view_in_bounds(buf_len: int, start: int, stride: int, count: int)
    requires
        0 <= start,
        1 <= stride,
        count >= 1 ==> start + (count - 1) * stride < buf_len,
    ensures
        forall|m: int| 0 <= m < count ==> 0 <= start + #[trigger] (m * stride) < buf_len,
{
    assert forall|m: int| 0 <= m < count implies 0 <= start + #[trigger] (m * stride)
        < buf_len by {
        lemma_mul_nonnegative(m, stride);
        lemma_mul_inequality(m, count - 1, stride);
    }
}

/// Writing one grid position of a view updates the denoted sequence at
/// the matching logical index and nothing else.
pub proof fn lemma_view_seq_update(
    buf: Seq<Complex32>,
    start: int,
    stride: int,
    count: int,
    m: int,
    v: Complex32,
)
    requires
        1 <= stride,
        0 <= start,
        0 <= m < count,
        count >= 1 ==> start + (count - 1) * stride < buf.len(),
    ensures
        view_seq(buf.update(start + m * stride, v), start, stride, count) =~= view_seq(
            buf,
            start,
            stride,
            count,
        ).update(m, v),
{
    lemma_view_in_bounds(buf.len() as int, start, stride, count);
    assert forall|j: int| 0 <= j < count && j != m implies start + #[trigger] (j * stride)
        != start + m * stride by {
        assert(j * stride != m * stride) by (nonlinear_arith)
            requires
                stride >= 1,
                j != m,
        ;
    }
}

/// The interleaved sub-view `(start + i*stride, stride*f, c)` of a view
/// `(start, stride, f*c)` denotes its decimation by `f` at phase `i`,
/// and each of its positions is a position of the whole view.
pub proof fn lemma_subview_decimate(
    buf: Seq<Complex32>,
    start: int,
    stride: int,
    f: int,
    c: int,
    i: int,
)
    requires
        1 <= stride,
        1 <= f,
        0 <= i < f,
        0 <= c,
    ensures
        view_seq(buf, start + i * stride, stride * f, c) =~= decimate(
            view_seq(buf, start, stride, f * c),
            i,
            f,
        ),
{
    let whole = view_seq(buf, start, stride, f * c);
    assert(whole.len() == f * c) by {
        lemma_mul_nonnegative(f, c);
    }
    assert(whole.len() as int / f == c) by {
        lemma_div_multiples_vanish(c, f);
    }
    assert forall|j: int| 0 <= j < c implies view_seq(buf, start + i * stride, stride * f, c)[j]
        == decimate(whole, i, f)[j] by {
        assert(0 <= i + j * f < f * c && start + i * stride + j * (stride * f) == start + (i + j
            * f) * stride) by (nonlinear_arith)
            requires
                1 <= stride,
                1 <= f,
                0 <= i < f,
                0 <= j < c,
        ;
    }
}

/// A member of the interleaved sub-view at phase `i` is a member of the
/// whole view.
pub proof fn lemma_subview_member(
    idx: int,
    start: int,
    stride: int,
    f: int,
    c: int,
    i: int,
)
    requires
        1 <= stride,
        1 <= f,
        0 <= i < f,
        in_view(idx, start + i * stride, stride * f, c),
    ensures
        in_view(idx, start, stride, f * c),
{
    assert(stride * f >= 1) by (nonlinear_arith)
        requires
            1 <= stride,
            1 <= f,
    ;
    lemma_view_index(idx, start + i * stride, stride * f, c);
    let j = (idx - (start + i * stride)) / (stride * f);
    assert(idx == start + (i + j * f) * stride && 0 <= i + j * f < f * c) by (nonlinear_arith)
        requires
            idx == start + i * stride + j * (stride * f),
            1 <= stride,
            1 <= f,
            0 <= i < f,
            0 <= j < c,
    ;
    lemma_view_member(start, stride, f * c, i + j * f);
}

/// Two interleaved sub-views at different phases share no position.
pub proof fn lemma_subviews_disjoint(
    idx: int,
    start: int,
    stride: int,
    f: int,
    c: int,
    i1: int,
    i2: int,
)
    requires
        1 <= stride,
        1 <= f,
        0 <= i1 < f,
        0 <= i2 < f,
        i1 != i2,
        in_view(idx, start + i1 * stride, stride * f, c),
    ensures
        !in_view(idx, start + i2 * stride, stride * f, c),
{
    assert(stride * f >= 1) by (nonlinear_arith)
        requires
            1 <= stride,
            1 <= f,
    ;
    lemma_view_index(idx, start + i1 * stride, stride * f, c);
    let j1 = (idx - (start + i1 * stride)) / (stride * f);
    if in_view(idx, start + i2 * stride, stride * f, c) {
        lemma_view_index(idx, start + i2 * stride, stride * f, c);
        let j2 = (idx - (start + i2 * stride)) / (stride * f);
        assert(i1 + j1 * f == i2 + j2 * f) by (nonlinear_arith)
            requires
                idx == start + i1 * stride + j1 * (stride * f),
                idx == start + i2 * stride + j2 * (stride * f),
                1 <= stride,
        ;
        lemma_fundamental_div_mod_converse(i1 + j1 * f, f, j1, i1);
        lemma_fundamental_div_mod_converse(i2 + j2 * f, f, j2, i2);
    }
}

/// A view of the whole buffer at stride one denotes the buffer itself.
pub proof fn lemma_view_seq_whole(buf: Seq<Complex32>)
    ensures
        view_seq(buf, 0, 1, buf.len() as int) =~= buf,
{
}

} // verus!
