//! Factorization of the transform length by trial division, smallest
//! factor first: the factor sequence that shapes the Cooley-Tukey
//! recursion.

use vstd::prelude::*;
use vstd::arithmetic::div_mod::{
    lemma_div_decreases, lemma_div_non_zero, lemma_fundamental_div_mod,
    lemma_mod_multiples_basic, lemma_mod_self_0,
};
use vstd::arithmetic::mul::lemma_mul_is_associative;

verus! {

/// Maps a sequence of machine integers to its mathematical image.
pub open spec fn ints(v: Seq<usize>) -> Seq<int> {
    v.map_values(|x: usize| x as int)
}

/// The product of a sequence of integers; one for the empty sequence.
pub open spec fn product(s: Seq<int>) -> int
    decreases s.len(),
{
    if s.len() == 0 {
        1
    } else {
        s[0] * product(s.drop_first())
    }
}

/// The smallest divisor of `n` that is at least `d`, or `n` itself if no
/// candidate below `n` divides it.
pub open spec fn smallest_divisor_from(n: int, d: int) -> int
    decreases n - d,
{
    if d >= n {
        n
    } else if n % d == 0 {
        d
    } else {
        smallest_divisor_from(n, d + 1)
    }
}

/// The smallest divisor of `n` that is at least two.
pub open spec fn smallest_factor(n: int) -> int {
    smallest_divisor_from(n, 2)
}

/// The factor sequence of `n`: repeatedly divide by the smallest factor,
/// smallest first, until one remains. One yields the empty sequence.
pub open spec fn factor_seq(n: int) -> Seq<int>
    decreases n,
{
    if n <= 1 {
        Seq::empty()
    } else {
        proof {
            lemma_smallest_divisor_from_props(n, 2);
            lemma_div_decreases(n, smallest_factor(n));
            lemma_div_non_zero(n, smallest_factor(n));
        }
        seq![smallest_factor(n)] + factor_seq(n / smallest_factor(n))
    }
}

/// `n` has no divisor strictly between one and itself.
pub open spec fn is_prime(n: int) -> bool {
    2 <= n && forall|d: int| 2 <= d < n ==> #[trigger] (n % d) != 0
}

/// What trial division finds: the result of `smallest_divisor_from(n, d)`
/// is a divisor of `n`, lies between `d` and `n`, and nothing smaller
/// from `d` on divides `n`.
pub proof fn lemma_smallest_divisor_from_props(n: int, d: int)
    requires
        2 <= d <= n,
    ensures
        d <= smallest_divisor_from(n, d) <= n,
        n % smallest_divisor_from(n, d) == 0,
        forall|e: int| d <= e < smallest_divisor_from(n, d) ==> #[trigger] (n % e) != 0,
    decreases n - d,
{
    if d >= n {
        lemma_mod_self_0(n);
    } else if n % d == 0 {
    } else {
        lemma_smallest_divisor_from_props(n, d + 1);
    }
}

/// The smallest factor of an `n` of at least two divides `n`, lies
/// between two and `n`, and is minimal among divisors of at least two.
pub proof fn lemma_smallest_factor_props(n: int)
    requires
        2 <= n,
    ensures
        2 <= smallest_factor(n) <= n,
        n % smallest_factor(n) == 0,
        forall|e: int| 2 <= e < smallest_factor(n) ==> #[trigger] (n % e) != 0,
{
    lemma_smallest_divisor_from_props(n, 2);
}

/// The factor sequence of an `n` of at least one multiplies back to `n`,
/// each entry is at least two, and the sequence is empty only for one.
pub proof fn lemma_factor_seq_props(n: int)
    requires
        1 <= n,
    ensures
        product(factor_seq(n)) == n,
        forall|i: int| 0 <= i < factor_seq(n).len() ==> 2 <= #[trigger] factor_seq(n)[i],
        factor_seq(n).len() == 0 <==> n == 1,
    decreases n,
{
    if n == 1 {
    } else {
        let p = smallest_factor(n);
        lemma_smallest_factor_props(n);
        lemma_div_decreases(n, p);
        lemma_div_non_zero(n, p);
        lemma_factor_seq_props(n / p);
        assert(factor_seq(n).drop_first() =~= factor_seq(n / p));
        lemma_fundamental_div_mod(n, p);
    }
}

/// Splitting off the head of a factor suffix splits its product.
pub proof fn lemma_product_skip(fs: Seq<int>, pos: int)
    requires
        0 <= pos < fs.len(),
    ensures
        product(fs.skip(pos)) == fs[pos] * product(fs.skip(pos + 1)),
{
    assert(fs.skip(pos).drop_first() =~= fs.skip(pos + 1));
}

/// The product of a suffix of factors of at least two is at least one,
/// and at least its head while a head remains.
pub proof fn lemma_product_bounds(fs: Seq<int>, pos: int)
    requires
        0 <= pos <= fs.len(),
        forall|i: int| pos <= i < fs.len() ==> 2 <= #[trigger] fs[i],
    ensures
        1 <= product(fs.skip(pos)),
        pos < fs.len() ==> fs[pos] <= product(fs.skip(pos)),
    decreases fs.len() - pos,
{
    if pos == fs.len() {
        assert(fs.skip(pos) =~= Seq::empty());
    } else {
        lemma_product_skip(fs, pos);
        lemma_product_bounds(fs, pos + 1);
        assert(fs[pos] <= fs[pos] * product(fs.skip(pos + 1))) by (nonlinear_arith)
            requires
                2 <= fs[pos],
                1 <= product(fs.skip(pos + 1)),
        ;
    }
}

/// Finds the smallest divisor of `n` that is at least two: two first,
/// then the odd candidates, as trial division wants it.
fn smallest_divisor(n: usize) -> (d: usize)
    requires
        2 <= n,
    ensures
        d as int == smallest_factor(n as int),
        2 <= d <= n,
        n % d == 0,
{
    proof {
        lemma_smallest_factor_props(n as int);
    }
    if n % 2 == 0 {
        return 2;
    }
    let mut d: usize = 3;
    while n % d != 0
        invariant
            2 <= n,
            n % 2 != 0,
            3 <= d <= n,
            d % 2 == 1,
            smallest_divisor_from(n as int, 2) == smallest_divisor_from(n as int, d as int),
            forall|e: int| 2 <= e < d ==> #[trigger] (n as int % e) != 0,
        decreases n - d,
    {
        proof {
            lemma_no_even_divisor(n as int, d as int + 1);
            assert(d < n) by {
                lemma_mod_self_0(n as int);
            }
            assert(d + 1 < n);
            assert(smallest_divisor_from(n as int, d as int + 1) == smallest_divisor_from(
                n as int,
                d as int + 2,
            ));
        }
        d = d + 2;
    }
    proof {
        assert(smallest_divisor_from(n as int, d as int) == d as int);
    }
    d
}

/// An odd number has no even divisor: if an even `e` divided `n`, two
/// would divide `n` as well.
proof fn lemma_no_even_divisor(n: int, e: int)
    requires
        2 <= e,
        e % 2 == 0,
        n % 2 == 1,
    ensures
        n % e != 0,
{
    if n % e == 0 {
        assert(n == (e / 2) * 2 * (n / e)) by {
            lemma_fundamental_div_mod(n, e);
            lemma_fundamental_div_mod(e, 2);
        }
        assert(n == ((e / 2) * (n / e)) * 2) by {
            lemma_mul_is_associative(e / 2, 2, n / e);
            assert((e / 2) * 2 * (n / e) == (e / 2) * (2 * (n / e)));
            assert((e / 2) * (2 * (n / e)) == ((e / 2) * (n / e)) * 2) by {
                lemma_mul_is_associative(e / 2, n / e, 2);
                assert(2 * (n / e) == (n / e) * 2);
            }
        }
        lemma_mod_multiples_basic((e / 2) * (n / e), 2);
    }
}

/// Decomposes the transform length into its ordered factor sequence by
/// trial division, smallest factor first. A length of one yields the
/// empty sequence: that transform is the identity.
pub fn factor(n: usize) -> (r: Vec<usize>)
    requires
        1 <= n,
    ensures
        ints(r@) == factor_seq(n as int),
        product(ints(r@)) == n as int,
        forall|i: int| 0 <= i < r@.len() ==> 2 <= #[trigger] r@[i],
{
    let mut factors: Vec<usize> = Vec::new();
    let mut next = n;
    proof {
        assert(ints(factors@) + factor_seq(n as int) =~= factor_seq(n as int));
    }
    while next > 1
        invariant
            1 <= next <= n,
            ints(factors@) + factor_seq(next as int) == factor_seq(n as int),
            forall|i: int| 0 <= i < factors@.len() ==> 2 <= #[trigger] factors@[i],
        decreases next,
    {
        let d = smallest_divisor(next);
        proof {
            lemma_smallest_factor_props(next as int);
            lemma_div_decreases(next as int, d as int);
            lemma_div_non_zero(next as int, d as int);
            assert(factor_seq(next as int) == seq![d as int] + factor_seq(
                next as int / d as int,
            ));
            assert(ints(factors@.push(d)) =~= ints(factors@) + seq![d as int]);
            assert((ints(factors@) + seq![d as int]) + factor_seq(next as int / d as int) =~= ints(
                factors@,
            ) + (seq![d as int] + factor_seq(next as int / d as int)));
        }
        factors.push(d);
        next = next / d;
    }
    proof {
        assert(ints(factors@) + factor_seq(next as int) =~= ints(factors@));
        lemma_factor_seq_props(n as int);
    }
    factors
}

} // verus!
