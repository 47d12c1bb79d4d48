//! The transform engine: the direct DFT base kernel over strided views,
//! the twiddle-factor pass, the recursive mixed-radix orchestrator, and
//! the two public entry points.

use vstd::prelude::*;
use vstd::arithmetic::div_mod::{
    lemma_div_by_self, lemma_div_multiples_vanish, lemma_fundamental_div_mod,
    lemma_fundamental_div_mod_converse, lemma_mod_division_less_than_divisor,
};
use vstd::arithmetic::mul::{
    lemma_mul_inequality, lemma_mul_nonnegative, lemma_mul_upper_bound,
};
use crate::complex::{c_add, c_dup, c_mul, c_zero, twiddle_factor, mul_of, twiddle_of};
use crate::factorize::{
    factor, factor_seq, ints, is_prime, lemma_factor_seq_props, lemma_product_bounds,
    lemma_product_skip, lemma_smallest_factor_props, product, smallest_factor,
};
use crate::model::{
    combine, ct_output, ct_spec, decimate, dft_bin, dft_partial, dft_seq, in_view,
    lemma_subview_decimate, lemma_subview_member, lemma_subviews_disjoint, lemma_view_in_bounds,
    lemma_view_member, lemma_view_seq_update, lemma_view_seq_whole, split_stage, twiddled,
    view_seq,
};
use crate::FftError;
use num::complex::Complex32;

verus! {

/// A checked strided read: the sample at buffer position `i`.
fn at(v: &Vec<Complex32>, i: usize) -> (r: &Complex32)
    requires
        i < v.len(),
    ensures
        *r == v@[i as int],
{
    &v[i]
}

/// The direct DFT base kernel over strided views: reads the `len`
/// logical elements of the input view and writes bin `k` of their
/// direct DFT to logical position `k` of the output view, touching
/// nothing outside that view.
fn cooley_tukey_base(
    input: &Vec<Complex32>,
    in_start: usize,
    in_stride: usize,
    output: &mut Vec<Complex32>,
    out_start: usize,
    out_stride: usize,
    len: usize,
)
    requires
        1 <= in_stride,
        1 <= out_stride,
        len <= 0xFFFF_FFFF,
        len >= 1 ==> in_start + (len - 1) * in_stride < input.len(),
        len >= 1 ==> out_start + (len - 1) * out_stride < old(output).len(),
    ensures
        final(output).len() == old(output).len(),
        view_seq(final(output)@, out_start as int, out_stride as int, len as int) == dft_seq(
            view_seq(input@, in_start as int, in_stride as int, len as int),
        ),
        forall|idx: int|
            0 <= idx < old(output).len() && !in_view(
                idx,
                out_start as int,
                out_stride as int,
                len as int,
            ) ==> final(output)@[idx] == old(output)@[idx],
{
    let ghost s = view_seq(input@, in_start as int, in_stride as int, len as int);
    proof {
        lemma_view_in_bounds(input.len() as int, in_start as int, in_stride as int, len as int);
        lemma_view_in_bounds(
            old(output).len() as int,
            out_start as int,
            out_stride as int,
            len as int,
        );
    }
    let mut k: usize = 0;
    while k < len
        invariant
            k <= len,
            len <= 0xFFFF_FFFF,
            1 <= in_stride,
            1 <= out_stride,
            output.len() == old(output).len(),
            len >= 1 ==> in_start + (len - 1) * in_stride < input.len(),
            len >= 1 ==> out_start + (len - 1) * out_stride < output.len(),
            s == view_seq(input@, in_start as int, in_stride as int, len as int),
            s.len() == len,
            forall|kk: int|
                0 <= kk < k ==> #[trigger] dft_seq(s)[kk] == output@[out_start + kk
                    * out_stride],
            forall|idx: int|
                0 <= idx < output.len() && !in_view(
                    idx,
                    out_start as int,
                    out_stride as int,
                    len as int,
                ) ==> output@[idx] == old(output)@[idx],
        decreases len - k,
    {
        proof {
            lemma_view_in_bounds(
                input.len() as int,
                in_start as int,
                in_stride as int,
                len as int,
            );
        }
        let mut sum = c_mul(&twiddle_factor(0, len as u64), at(input, in_start));
        assert(sum == dft_partial(s, k as int, 1));
        let mut j: usize = 1;
        while j < len
            invariant
                1 <= j <= len,
                k < len,
                len <= 0xFFFF_FFFF,
                1 <= in_stride,
                len >= 1 ==> in_start + (len - 1) * in_stride < input.len(),
                s == view_seq(input@, in_start as int, in_stride as int, len as int),
                s.len() == len,
                sum == dft_partial(s, k as int, j as int),
            decreases len - j,
        {
            proof {
                lemma_mul_inequality(j as int, len as int - 1, in_stride as int);
                lemma_mul_nonnegative(j as int, in_stride as int);
                lemma_mul_upper_bound(k as int, 0xFFFF_FFFE, j as int, 0xFFFF_FFFE);
            }
            let e = (k as u64) * (j as u64);
            let tw = twiddle_factor(e, len as u64);
            let term = c_mul(&tw, at(input, in_start + j * in_stride));
            sum = c_add(&sum, &term);
            proof {
                assert(s[j as int] == input@[in_start + j as int * in_stride]);
                assert(sum == dft_partial(s, k as int, j as int + 1));
            }
            j = j + 1;
        }
        assert(sum == dft_bin(s, k as int));
        proof {
            lemma_mul_inequality(k as int, len as int - 1, out_stride as int);
            lemma_mul_nonnegative(k as int, out_stride as int);
        }
        let idx0 = out_start + k * out_stride;
        let ghost prior = output@;
        output[idx0] = sum;
        proof {
            lemma_view_member(out_start as int, out_stride as int, len as int, k as int);
            assert forall|kk: int| 0 <= kk < k + 1 implies #[trigger] dft_seq(s)[kk]
                == output@[out_start + kk * out_stride] by {
                if kk < k {
                    assert(kk * out_stride != k as int * out_stride) by (nonlinear_arith)
                        requires
                            1 <= out_stride,
                            0 <= kk < k,
                    ;
                    lemma_mul_nonnegative(kk, out_stride as int);
                    lemma_mul_inequality(kk, len as int - 1, out_stride as int);
                    assert(output@[out_start + kk * out_stride] == prior[out_start + kk
                        * out_stride]);
                } else {
                    assert(output@[idx0 as int] == sum);
                }
            }
        }
        k = k + 1;
    }
    proof {
        assert(view_seq(output@, out_start as int, out_stride as int, len as int) =~= dft_seq(
            s,
        ));
    }
}

/// The twiddle pass: scales logical position `k2*n1 + k1` of the view
/// `(start, stride, n1*n2)` by `twiddle_of(k1*k2, n1*n2)`, in place,
/// touching nothing outside that view.
fn multiply_by_twiddles(
    xs: &mut Vec<Complex32>,
    start: usize,
    stride: usize,
    n1: usize,
    n2: usize,
)
    requires
        1 <= stride,
        1 <= n1,
        1 <= n2,
        n1 * n2 <= 0xFFFF_FFFF,
        start + (n1 * n2 - 1) * stride < old(xs).len(),
    ensures
        final(xs).len() == old(xs).len(),
        view_seq(final(xs)@, start as int, stride as int, (n1 * n2) as int) == twiddled(
            view_seq(old(xs)@, start as int, stride as int, (n1 * n2) as int),
            n1 as int,
            n2 as int,
        ),
        forall|idx: int|
            0 <= idx < old(xs).len() && !in_view(
                idx,
                start as int,
                stride as int,
                (n1 * n2) as int,
            ) ==> final(xs)@[idx] == old(xs)@[idx],
{
    let len = n1 * n2;
    let ghost t0 = view_seq(old(xs)@, start as int, stride as int, len as int);
    proof {
        lemma_view_in_bounds(old(xs).len() as int, start as int, stride as int, len as int);
        assert(n1 <= len && n2 <= len) by (nonlinear_arith)
            requires
                1 <= n1,
                1 <= n2,
                len == n1 * n2,
        ;
    }
    let mut k2: usize = 0;
    while k2 < n2
        invariant
            k2 <= n2,
            1 <= stride,
            1 <= n1,
            1 <= n2,
            len == n1 * n2,
            len <= 0xFFFF_FFFF,
            n1 <= len,
            n2 <= len,
            xs.len() == old(xs).len(),
            start + (len - 1) * stride < xs.len(),
            t0 == view_seq(old(xs)@, start as int, stride as int, len as int),
            forall|m: int|
                0 <= m < k2 * n1 ==> #[trigger] view_seq(
                    xs@,
                    start as int,
                    stride as int,
                    len as int,
                )[m] == twiddled(t0, n1 as int, n2 as int)[m],
            forall|m: int|
                k2 * n1 <= m < len ==> #[trigger] view_seq(
                    xs@,
                    start as int,
                    stride as int,
                    len as int,
                )[m] == t0[m],
            forall|idx: int|
                0 <= idx < xs.len() && !in_view(
                    idx,
                    start as int,
                    stride as int,
                    len as int,
                ) ==> xs@[idx] == old(xs)@[idx],
        decreases n2 - k2,
    {
        let mut k1: usize = 0;
        proof {
            lemma_mul_nonnegative(k2 as int, n1 as int);
            assert((k2 + 1) * n1 <= len && k2 * n1 + n1 == (k2 + 1) * n1) by (nonlinear_arith)
                requires
                    k2 < n2,
                    1 <= n1,
                    len == n1 * n2,
            ;
        }
        while k1 < n1
            invariant
                k1 <= n1,
                k2 < n2,
                1 <= stride,
                1 <= n1,
                1 <= n2,
                len == n1 * n2,
                len <= 0xFFFF_FFFF,
                n1 <= len,
                n2 <= len,
                k2 * n1 + n1 <= len,
                0 <= k2 * n1,
                xs.len() == old(xs).len(),
                start + (len - 1) * stride < xs.len(),
                t0 == view_seq(old(xs)@, start as int, stride as int, len as int),
                forall|m: int|
                    0 <= m < k2 * n1 + k1 ==> #[trigger] view_seq(
                        xs@,
                        start as int,
                        stride as int,
                        len as int,
                    )[m] == twiddled(t0, n1 as int, n2 as int)[m],
                forall|m: int|
                    k2 * n1 + k1 <= m < len ==> #[trigger] view_seq(
                        xs@,
                        start as int,
                        stride as int,
                        len as int,
                    )[m] == t0[m],
                forall|idx: int|
                    0 <= idx < xs.len() && !in_view(
                        idx,
                        start as int,
                        stride as int,
                        len as int,
                    ) ==> xs@[idx] == old(xs)@[idx],
            decreases n1 - k1,
        {
            let m = k2 * n1 + k1;
            proof {
                lemma_mul_inequality(m as int, len as int - 1, stride as int);
                lemma_mul_nonnegative(m as int, stride as int);
                lemma_mul_upper_bound(k1 as int, 0xFFFF_FFFE, k2 as int, 0xFFFF_FFFE);
            }
            let idx = start + m * stride;
            let e = (k1 as u64) * (k2 as u64);
            let tw = twiddle_factor(e, len as u64);
            let cur = c_dup(at(xs, idx));
            let scaled = c_mul(&cur, &tw);
            let ghost prior = xs@;
            xs[idx] = scaled;
            proof {
                lemma_view_member(start as int, stride as int, len as int, m as int);
                lemma_view_seq_update(
                    prior,
                    start as int,
                    stride as int,
                    len as int,
                    m as int,
                    scaled,
                );
                lemma_fundamental_div_mod_converse(m as int, n1 as int, k2 as int, k1 as int);
                assert(view_seq(prior, start as int, stride as int, len as int)[m as int]
                    == t0[m as int]);
                assert(view_seq(prior, start as int, stride as int, len as int)[m as int]
                    == prior[idx as int]);
                assert(view_seq(xs@, start as int, stride as int, len as int)[m as int]
                    == mul_of(t0[m as int], twiddle_of(k1 as int * k2 as int, len as int)));
                assert(view_seq(xs@, start as int, stride as int, len as int)[m as int]
                    == twiddled(t0, n1 as int, n2 as int)[m as int]);
            }
            k1 = k1 + 1;
        }
        proof {
            assert(k2 * n1 + n1 == (k2 + 1) * n1) by (nonlinear_arith);
        }
        k2 = k2 + 1;
    }
    proof {
        assert(k2 * n1 == len) by (nonlinear_arith)
            requires
                k2 == n2,
                len == n1 * n2,
        ;
        assert(view_seq(xs@, start as int, stride as int, len as int) =~= twiddled(
            t0,
            n1 as int,
            n2 as int,
        ));
    }
}

/// The recursive mixed-radix orchestrator over the view `(start,
/// stride, len)`: with one factor left it delegates to the base kernel;
/// otherwise it splits on the leading factor, recurses into the
/// interleaved sub-views with the spectrum and scratch roles swapped,
/// twiddles the scratch view, and recombines into the spectrum view.
/// Nothing outside the view is touched in either buffer.
#[verifier::rlimit(100)]
fn cooley_tukey_work(
    signal: &Vec<Complex32>,
    spectrum: &mut Vec<Complex32>,
    temp: &mut Vec<Complex32>,
    stride: usize,
    start: usize,
    len: usize,
    factors: &Vec<usize>,
    pos: usize,
)
    requires
        signal.len() == old(spectrum).len(),
        signal.len() == old(temp).len(),
        signal.len() <= 0xFFFF_FFFF,
        pos < factors.len(),
        forall|i: int| pos <= i < factors@.len() ==> 2 <= #[trigger] factors@[i],
        1 <= stride,
        start < stride,
        len as int == product(ints(factors@).skip(pos as int)),
        stride * len == signal.len(),
    ensures
        final(spectrum).len() == old(spectrum).len(),
        final(temp).len() == old(temp).len(),
        view_seq(final(spectrum)@, start as int, stride as int, len as int) == ct_spec(
            view_seq(signal@, start as int, stride as int, len as int),
            ints(factors@).skip(pos as int),
        ),
        forall|idx: int|
            0 <= idx < old(spectrum).len() && !in_view(
                idx,
                start as int,
                stride as int,
                len as int,
            ) ==> final(spectrum)@[idx] == old(spectrum)@[idx],
        forall|idx: int|
            0 <= idx < old(temp).len() && !in_view(
                idx,
                start as int,
                stride as int,
                len as int,
            ) ==> final(temp)@[idx] == old(temp)@[idx],
    decreases factors.len() - pos,
{
    let ghost fsk = ints(factors@).skip(pos as int);
    let ghost sview = view_seq(signal@, start as int, stride as int, len as int);
    proof {
        lemma_product_bounds(ints(factors@), pos as int);
        assert(2 <= len);
        assert(len <= stride * len) by (nonlinear_arith)
            requires
                1 <= stride,
                0 <= len,
        ;
    }
    if pos + 1 == factors.len() {
        proof {
            lemma_product_skip(ints(factors@), pos as int);
            assert(ints(factors@).skip(pos as int + 1) =~= Seq::empty());
            assert(fsk.len() == 1);
            assert(start + (len - 1) * stride < stride * len) by (nonlinear_arith)
                requires
                    start < stride,
                    1 <= len,
                    1 <= stride,
            ;
        }
        cooley_tukey_base(signal, start, stride, spectrum, start, stride, len);
        return ;
    }
    let n1 = factors[pos];
    proof {
        lemma_product_skip(ints(factors@), pos as int);
        lemma_product_bounds(ints(factors@), pos as int + 1);
        lemma_div_multiples_vanish(product(ints(factors@).skip(pos as int + 1)), n1 as int);
    }
    let n2 = len / n1;
    let ghost rest = ints(factors@).skip(pos as int + 1);
    let ghost t = split_stage(sview, n1 as int, rest);
    proof {
        assert(n2 as int == product(rest));
        assert(1 <= n2 && 2 <= n1);
        assert(n1 * n2 == len && n2 * n1 == len && n1 <= len && n2 <= len && stride * n1
            <= signal.len() && (stride * n1) * n2 == signal.len() && n2 * stride
            <= signal.len() && 1 <= stride * n1 && 1 <= n2 * stride && stride * n2 == n2
            * stride) by (nonlinear_arith)
            requires
                stride * len == signal.len(),
                len as int == (n1 as int) * (n2 as int),
                1 <= stride,
                1 <= n1,
                1 <= n2,
        ;
    }
    let big_stride = stride * n1;
    let mut i: usize = 0;
    while i < n1
        invariant
            i <= n1,
            1 <= stride,
            start < stride,
            2 <= n1,
            1 <= n2,
            pos + 1 < factors@.len(),
            n1 == factors@[pos as int],
            len == n1 * n2,
            n2 * n1 == len,
            big_stride == stride * n1,
            1 <= big_stride,
            stride * len == signal.len(),
            signal.len() <= 0xFFFF_FFFF,
            spectrum.len() == signal.len(),
            temp.len() == signal.len(),
            n2 as int == product(ints(factors@).skip(pos as int + 1)),
            forall|ii: int| pos <= ii < factors@.len() ==> 2 <= #[trigger] factors@[ii],
            rest == ints(factors@).skip(pos as int + 1),
            sview == view_seq(signal@, start as int, stride as int, len as int),
            forall|ii: int|
                0 <= ii < i ==> view_seq(
                    temp@,
                    start + ii * stride,
                    big_stride as int,
                    n2 as int,
                ) == ct_spec(#[trigger] decimate(sview, ii, n1 as int), rest),
            forall|idx: int|
                0 <= idx < temp.len() && !in_view(
                    idx,
                    start as int,
                    stride as int,
                    len as int,
                ) ==> temp@[idx] == old(temp)@[idx],
            forall|idx: int|
                0 <= idx < spectrum.len() && !in_view(
                    idx,
                    start as int,
                    stride as int,
                    len as int,
                ) ==> spectrum@[idx] == old(spectrum)@[idx],
        decreases n1 - i,
    {
        proof {
            assert(start + i * stride < big_stride) by (nonlinear_arith)
                requires
                    start < stride,
                    0 <= i < n1,
                    big_stride == stride * n1,
                    1 <= stride,
            ;
            assert(big_stride * n2 == signal.len()) by (nonlinear_arith)
                requires
                    big_stride == stride * n1,
                    stride * len == signal.len(),
                    len == n1 * n2,
            ;
        }
        let ghost temp_prev = temp@;
        let ghost spec_prev = spectrum@;
        cooley_tukey_work(
            signal,
            temp,
            spectrum,
            big_stride,
            start + i * stride,
            n2,
            factors,
            pos + 1,
        );
        proof {
            lemma_subview_decimate(
                signal@,
                start as int,
                stride as int,
                n1 as int,
                n2 as int,
                i as int,
            );
            assert(view_seq(temp@, start + i as int * stride, big_stride as int, n2 as int)
                == ct_spec(decimate(sview, i as int, n1 as int), rest));
            assert forall|ii: int| 0 <= ii < i + 1 implies view_seq(
                temp@,
                start + ii * stride,
                big_stride as int,
                n2 as int,
            ) == ct_spec(#[trigger] decimate(sview, ii, n1 as int), rest) by {
                if ii < i {
                    assert forall|j: int| 0 <= j < n2 implies temp@[start + ii * stride
                        + #[trigger] (j * (big_stride as int))] == temp_prev[start + ii * stride
                        + j * (big_stride as int)] by {
                        lemma_view_member(start + ii * stride, big_stride as int, n2 as int, j);
                        lemma_subviews_disjoint(
                            start + ii * stride + j * (big_stride as int),
                            start as int,
                            stride as int,
                            n1 as int,
                            n2 as int,
                            ii,
                            i as int,
                        );
                        assert(0 <= start + ii * stride + j * (big_stride as int)
                            < signal.len()) by (nonlinear_arith)
                            requires
                                0 <= start,
                                0 <= ii < n1,
                                0 <= j < n2,
                                1 <= stride,
                                big_stride == stride * n1,
                                stride * len == signal.len(),
                                len == n1 * n2,
                                start < stride,
                        ;
                    }
                    assert(view_seq(temp@, start + ii * stride, big_stride as int, n2 as int)
                        =~= view_seq(
                        temp_prev,
                        start + ii * stride,
                        big_stride as int,
                        n2 as int,
                    ));
                }
            }
            assert forall|idx: int|
                0 <= idx < temp.len() && !in_view(
                    idx,
                    start as int,
                    stride as int,
                    len as int,
                ) implies temp@[idx] == old(temp)@[idx] by {
                if in_view(idx, start + i as int * stride, big_stride as int, n2 as int) {
                    lemma_subview_member(
                        idx,
                        start as int,
                        stride as int,
                        n1 as int,
                        n2 as int,
                        i as int,
                    );
                }
            }
            assert forall|idx: int|
                0 <= idx < spectrum.len() && !in_view(
                    idx,
                    start as int,
                    stride as int,
                    len as int,
                ) implies spectrum@[idx] == old(spectrum)@[idx] by {
                if in_view(idx, start + i as int * stride, big_stride as int, n2 as int) {
                    lemma_subview_member(
                        idx,
                        start as int,
                        stride as int,
                        n1 as int,
                        n2 as int,
                        i as int,
                    );
                }
            }
        }
        i = i + 1;
    }
    proof {
        assert forall|m: int| 0 <= m < len implies view_seq(
            temp@,
            start as int,
            stride as int,
            len as int,
        )[m] == t[m] by {
            lemma_mod_division_less_than_divisor(m, n1 as int);
            lemma_fundamental_div_mod(m, n1 as int);
            let ii = m % (n1 as int);
            let j = m / (n1 as int);
            assert(0 <= j < n2 && start + ii * stride + j * (big_stride as int) == start + m
                * stride) by (nonlinear_arith)
                requires
                    m == (n1 as int) * j + ii,
                    0 <= ii < n1,
                    0 <= m < len,
                    len == n1 * n2,
                    big_stride == stride * n1,
                    1 <= stride,
                    1 <= n1,
            ;
            assert(view_seq(temp@, start + ii * stride, big_stride as int, n2 as int)[j]
                == temp@[start + ii * stride + j * (big_stride as int)]);
            assert(t[m] == ct_spec(decimate(sview, ii, n1 as int), rest)[j]);
        }
        assert(view_seq(temp@, start as int, stride as int, len as int) =~= t);
        assert(start + (len - 1) * stride < temp.len()) by (nonlinear_arith)
            requires
                start < stride,
                1 <= len,
                1 <= stride,
                stride * len == temp.len(),
        ;
    }
    multiply_by_twiddles(temp, start, stride, n1, n2);
    let ghost tw = twiddled(t, n1 as int, n2 as int);
    let out_stride = n2 * stride;
    let mut i: usize = 0;
    while i < n2
        invariant
            i <= n2,
            1 <= stride,
            start < stride,
            2 <= n1,
            1 <= n2,
            pos + 1 < factors@.len(),
            n1 == factors@[pos as int],
            len == n1 * n2,
            n2 * n1 == len,
            n1 <= len,
            n2 <= len,
            len <= 0xFFFF_FFFF,
            big_stride == stride * n1,
            1 <= big_stride,
            out_stride == n2 * stride,
            out_stride == stride * n2,
            1 <= out_stride,
            stride * len == signal.len(),
            signal.len() <= 0xFFFF_FFFF,
            spectrum.len() == signal.len(),
            temp.len() == signal.len(),
            rest == ints(factors@).skip(pos as int + 1),
            sview == view_seq(signal@, start as int, stride as int, len as int),
            tw == twiddled(t, n1 as int, n2 as int),
            tw.len() == len,
            view_seq(temp@, start as int, stride as int, len as int) == tw,
            forall|mm: int|
                0 <= mm < len && mm % (n2 as int) < i ==> #[trigger] view_seq(
                    spectrum@,
                    start as int,
                    stride as int,
                    len as int,
                )[mm] == combine(tw, n1 as int, n2 as int)[mm],
            forall|idx: int|
                0 <= idx < temp.len() && !in_view(
                    idx,
                    start as int,
                    stride as int,
                    len as int,
                ) ==> temp@[idx] == old(temp)@[idx],
            forall|idx: int|
                0 <= idx < spectrum.len() && !in_view(
                    idx,
                    start as int,
                    stride as int,
                    len as int,
                ) ==> spectrum@[idx] == old(spectrum)@[idx],
        decreases n2 - i,
    {
        proof {
            assert(i * big_stride + start + (n1 - 1) * stride < signal.len() && i * stride
                + start + (n1 - 1) * out_stride < signal.len() && start + i * big_stride
                == start + (i * n1) * stride) by (nonlinear_arith)
                requires
                    start < stride,
                    0 <= i < n2,
                    1 <= stride,
                    2 <= n1,
                    big_stride == stride * n1,
                    out_stride == n2 * stride,
                    stride * len == signal.len(),
                    len == n1 * n2,
            ;
        }
        let sub_start = start + i * big_stride;
        let ghost spec_prev = spectrum@;
        cooley_tukey_base(temp, sub_start, stride, spectrum, start + i * stride, out_stride, n1);
        proof {
            let chunk = tw.subrange(i as int * (n1 as int), i as int * (n1 as int) + n1 as int);
            assert(0 <= i as int * (n1 as int) && i as int * (n1 as int) + n1 as int
                <= len) by (nonlinear_arith)
                requires
                    0 <= i < n2,
                    2 <= n1,
                    len == n1 * n2,
            ;
            assert forall|j: int| 0 <= j < n1 implies view_seq(
                temp@,
                sub_start as int,
                stride as int,
                n1 as int,
            )[j] == chunk[j] by {
                assert(sub_start + j * stride == start + (i as int * (n1 as int) + j) * stride
                    && 0 <= i as int * (n1 as int) + j < len) by (nonlinear_arith)
                    requires
                        sub_start == start + i * big_stride,
                        big_stride == stride * n1,
                        0 <= j < n1,
                        0 <= i < n2,
                        len == n1 * n2,
                        1 <= stride,
                ;
                assert(view_seq(temp@, start as int, stride as int, len as int)[i as int
                    * (n1 as int) + j] == temp@[start + (i as int * (n1 as int) + j) * stride]);
            }
            assert(view_seq(temp@, sub_start as int, stride as int, n1 as int) =~= chunk);
            assert forall|mm: int| 0 <= mm < len && mm % (n2 as int) < i + 1 implies #[trigger] view_seq(
                spectrum@,
                start as int,
                stride as int,
                len as int,
            )[mm] == combine(tw, n1 as int, n2 as int)[mm] by {
                lemma_mod_division_less_than_divisor(mm, n2 as int);
                lemma_fundamental_div_mod(mm, n2 as int);
                let ph = mm % (n2 as int);
                let k = mm / (n2 as int);
                assert(0 <= k < n1 && start + mm * stride == (start + ph * stride) + k
                    * ((stride * n2) as int)) by (nonlinear_arith)
                    requires
                        mm == (n2 as int) * k + ph,
                        0 <= ph < n2,
                        0 <= mm < len,
                        len == n1 * n2,
                        1 <= stride,
                        1 <= n2,
                ;
                assert(0 <= start + mm * stride < signal.len()) by (nonlinear_arith)
                    requires
                        0 <= start < stride,
                        0 <= mm < len,
                        1 <= stride,
                        stride * len == signal.len(),
                ;
                if ph == i {
                    assert(view_seq(
                        spectrum@,
                        start + i as int * stride,
                        out_stride as int,
                        n1 as int,
                    )[k] == dft_bin(chunk, k));
                    assert(spectrum@[(start + i as int * stride) + k * (out_stride as int)]
                        == dft_bin(chunk, k));
                    assert(combine(tw, n1 as int, n2 as int)[mm] == dft_bin(
                        tw.subrange(ph * (n1 as int), ph * (n1 as int) + (n1 as int)),
                        k,
                    ));
                } else {
                    lemma_view_member(start + ph * stride, (stride * n2) as int, n1 as int, k);
                    lemma_subviews_disjoint(
                        start + mm * stride,
                        start as int,
                        stride as int,
                        n2 as int,
                        n1 as int,
                        ph,
                        i as int,
                    );
                    assert(spectrum@[start + mm * stride] == spec_prev[start + mm * stride]);
                    assert(view_seq(spec_prev, start as int, stride as int, len as int)[mm]
                        == combine(tw, n1 as int, n2 as int)[mm]);
                }
            }
            assert forall|idx: int|
                0 <= idx < spectrum.len() && !in_view(
                    idx,
                    start as int,
                    stride as int,
                    len as int,
                ) implies spectrum@[idx] == old(spectrum)@[idx] by {
                if in_view(idx, start + i as int * stride, (stride * n2) as int, n1 as int) {
                    lemma_subview_member(
                        idx,
                        start as int,
                        stride as int,
                        n2 as int,
                        n1 as int,
                        i as int,
                    );
                }
            }
        }
        i = i + 1;
    }
    proof {
        assert forall|mm: int| 0 <= mm < len implies view_seq(
            spectrum@,
            start as int,
            stride as int,
            len as int,
        )[mm] == combine(tw, n1 as int, n2 as int)[mm] by {
            lemma_mod_division_less_than_divisor(mm, n2 as int);
        }
        assert(view_seq(spectrum@, start as int, stride as int, len as int) =~= combine(
            tw,
            n1 as int,
            n2 as int,
        ));
        assert(fsk.len() >= 2);
        assert(fsk[0] == n1 as int);
        assert(fsk.drop_first() =~= rest);
        assert(sview.len() as int / (n1 as int) == n2 as int) by {
            lemma_div_multiples_vanish(n2 as int, n1 as int);
        }
        assert(split_stage(sview, fsk[0], fsk.drop_first()) == t);
        assert(ct_spec(sview, fsk) == combine(twiddled(t, n1 as int, n2 as int), n1 as int, n2 as int));
    }
}

/// The reference O(n^2) transform: one application of the base kernel
/// across the whole buffer at stride one. Succeeds exactly when the two
/// buffers have equal length; on failure the spectrum is untouched.
pub fn dft(signal: &Vec<Complex32>, spectrum: &mut Vec<Complex32>) -> (r: Result<(), FftError>)
    requires
        signal.len() <= 0xFFFF_FFFF,
    ensures
        match r {
            Ok(()) => signal.len() == old(spectrum).len() && final(spectrum)@ == dft_seq(signal@),
            Err(e) => {
                &&& e == FftError::LengthMismatch
                &&& signal.len() != old(spectrum).len()
                &&& final(spectrum)@ == old(spectrum)@
            },
        },
{
    if signal.len() != spectrum.len() {
        return Err(FftError::LengthMismatch);
    }
    let n = signal.len();
    cooley_tukey_base(signal, 0, 1, spectrum, 0, 1, n);
    proof {
        lemma_view_seq_whole(signal@);
        lemma_view_seq_whole(spectrum@);
    }
    Ok(())
}

/// The fast mixed-radix transform: factors the length, runs the
/// Cooley-Tukey recursion with a scratch buffer of its own, and leaves
/// the spectrum it owes in the caller's buffer. Lengths zero and one
/// are the identity; a length mismatch is rejected before any work,
/// with the spectrum untouched.
pub fn cooley_tukey(signal: &Vec<Complex32>, spectrum: &mut Vec<Complex32>) -> (r: Result<
    (),
    FftError,
>)
    requires
        signal.len() <= 0xFFFF_FFFF,
    ensures
        match r {
            Ok(()) => signal.len() == old(spectrum).len() && final(spectrum)@ == ct_output(
                signal@,
            ),
            Err(e) => {
                &&& e == FftError::LengthMismatch
                &&& signal.len() != old(spectrum).len()
                &&& final(spectrum)@ == old(spectrum)@
            },
        },
{
    if signal.len() != spectrum.len() {
        return Err(FftError::LengthMismatch);
    }
    let n = signal.len();
    if n == 0 {
        proof {
            assert(spectrum@ =~= signal@);
        }
        return Ok(());
    }
    if n == 1 {
        let x = c_dup(at(signal, 0));
        spectrum[0] = x;
        proof {
            assert(spectrum@ =~= signal@);
        }
        return Ok(());
    }
    let factors = factor(n);
    proof {
        lemma_factor_seq_props(n as int);
        assert(ints(factors@).skip(0) =~= ints(factors@));
    }
    let mut temp: Vec<Complex32> = Vec::new();
    while temp.len() < n
        invariant
            temp.len() <= n,
        decreases n - temp.len(),
    {
        temp.push(c_zero());
    }
    cooley_tukey_work(signal, spectrum, &mut temp, 1, 0, n, &factors, 0);
    proof {
        lemma_view_seq_whole(signal@);
        lemma_view_seq_whole(spectrum@);
    }
    Ok(())
}

/// The transform of a single sample is the identity: the spectrum the
/// fast transform owes for a one-element signal is that signal itself.
pub proof fn lemma_single_element_identity(s: Seq<Complex32>)
    requires
        s.len() == 1,
    ensures
        ct_output(s) == s,
{
}

/// On a prime length the factor sequence is the single factor, the
/// recursion hits its terminal case at once, and the fast transform
/// owes exactly the direct DFT of the signal.
pub proof fn lemma_prime_length_matches_dft(s: Seq<Complex32>)
    requires
        is_prime(s.len() as int),
    ensures
        ct_output(s) == dft_seq(s),
{
    let n = s.len() as int;
    lemma_smallest_factor_props(n);
    assert(smallest_factor(n) == n);
    lemma_div_by_self(n);
    assert(factor_seq(1) =~= Seq::<int>::empty());
    assert(factor_seq(n) == seq![n] + factor_seq(1));
    assert(factor_seq(n) =~= seq![n]);
    assert(factor_seq(n).len() == 1);
}

} // verus!
