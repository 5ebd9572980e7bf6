//! NTT-based fast multiplication in `Z_q[x]/(x^n + 1)`.
//!
//! The cyclic convolution itself is done by the `ntt` crate; everything
//! around it — padding, the negacyclic fold, coefficient balancing, and the
//! proof that the result agrees with schoolbook multiplication — is verified.
use crate::arith::alt_sign;
use crate::arith::bal;
use crate::arith::balv;
use crate::arith::conv;
use crate::arith::conv_at;
use crate::arith::conv_part;
use crate::arith::fold;
use crate::arith::fold_fits;
use crate::arith::fold_part;
use crate::arith::lemma_fold_fits_bound;
use crate::arith::lemma_fold_part_stable;
use crate::arith::mod_coeffs;
use crate::arith::num_blocks;
use crate::arith::padded;
use crate::arith::poly_eq;
use crate::arith::polymul_spec;
use crate::arith::polyrem;
use crate::arith::Poly;
use vstd::arithmetic::div_mod::lemma_add_mod_noop;
use vstd::arithmetic::div_mod::lemma_mod_multiples_vanish;
use vstd::arithmetic::div_mod::lemma_small_mod;
use vstd::arithmetic::div_mod::lemma_sub_mod_noop;
use vstd::prelude::*;

verus! {

/// The sequence of a coefficient vector read as mathematical integers.
pub open spec fn ints(s: Seq<i64>) -> Seq<int> {
    Seq::new(s.len(), |i: int| s[i] as int)
}

/// `b^e` reduced modulo `m`.
pub open spec fn pow_mod(b: int, e: nat, m: int) -> int
    decreases e,
{
    if m < 1 {
        0
    } else if e == 0 {
        1int % m
    } else {
        (pow_mod(b, (e - 1) as nat, m) * (b % m)) % m
    }
}

/// `x` is a power of two.
pub open spec fn is_pow2(x: int) -> bool
    decreases x,
{
    if x <= 0 {
        false
    } else if x == 1 {
        true
    } else {
        x % 2 == 0 && is_pow2(x / 2)
    }
}

/// The least power of two that is at least `x` (and at least 1).
pub open spec fn np2(x: int) -> int
    decreases x,
{
    if x <= 1 {
        1
    } else {
        2 * np2((x + 1) / 2)
    }
}

/// `w` generates a transform of length `nn` modulo `q`: it is an `nn`-th
/// root of unity whose `nn/2`-th power is `-1`.  Together with `nn` a power
/// of two and `q` odd this makes the length-`nn` NTT modulo `q` exact.
pub open spec fn omega_ok(w: int, nn: int, q: int) -> bool {
    &&& q >= 3
    &&& q % 2 == 1
    &&& nn >= 2
    &&& nn % 2 == 0
    &&& 0 < w < q
    &&& pow_mod(w, nn as nat, q) == 1
    &&& pow_mod(w, (nn / 2) as nat, q) == q - 1
}

/// Partial cyclic convolution sum of length `nn`: the first `i` terms of
/// output coefficient `k`.
pub open spec fn cyc_part(a: Seq<int>, b: Seq<int>, nn: int, k: int, i: int) -> int
    decreases i,
{
    if i <= 0 {
        0
    } else {
        cyc_part(a, b, nn, k, i - 1) + padded(a, i - 1) * padded(b, (k - (i - 1)) % nn)
    }
}

/// Coefficient `k` of the length-`nn` cyclic convolution of `a` and `b`.
pub open spec fn cyc_at(a: Seq<int>, b: Seq<int>, nn: int, k: int) -> int {
    cyc_part(a, b, nn, k, nn)
}

/// Relies on `ntt::polymul_ntt`: forward NTT of both inputs, pointwise
/// multiplication, inverse NTT.  Given a length `nn` that is a power of two
/// and an `omega` with `omega_ok`, this is the cyclic convolution of the
/// inputs modulo `q`.  The crate computes with Rust's truncating `%`, which
/// keeps every value congruent modulo `q` and strictly between `-q` and `q`,
/// so the result coefficients are only promised up to congruence.
#[verifier::external_body]
fn ntt_cyclic_mul(x: &Vec<i64>, y: &Vec<i64>, nn: usize, q: i64, omega: i64) -> (r: Vec<i64>)
    requires
        x@.len() == nn,
        y@.len() == nn,
        nn >= 2,
        is_pow2(nn as int),
        nn as int <= i64::MAX as int,
        omega_ok(omega as int, nn as int, q as int),
        (q as int) * (q as int) <= i64::MAX as int / 4,
        forall|i: int| 0 <= i < nn ==> -(q as int) < (#[trigger] x@[i] as int) < q as int,
        forall|i: int| 0 <= i < nn ==> -(q as int) < (#[trigger] y@[i] as int) < q as int,
    ensures
        r@.len() == nn,
        forall|k: int| 0 <= k < nn ==> -(q as int) < (#[trigger] r@[k] as int) < q as int,
        forall|k: int|
            0 <= k < nn ==> (#[trigger] r@[k] as int) % (q as int) == cyc_at(
                ints(x@),
                ints(y@),
                nn as int,
                k,
            ) % (q as int),
{
    ntt::polymul_ntt(x, y, nn, q, omega)
}

/// `np2` really is a power of two at least as large as its argument.
pub proof fn lemma_np2_props(x: int)
    ensures
        np2(x) >= 1,
        np2(x) >= x,
        is_pow2(np2(x)),
        x >= 2 ==> np2(x) <= 2 * x - 2,
    decreases x,
{
    if x > 1 {
        lemma_np2_props((x + 1) / 2);
        if x >= 3 {
            assert((x + 1) / 2 >= 2);
            assert(np2((x + 1) / 2) <= 2 * ((x + 1) / 2) - 2);
            assert(2 * ((x + 1) / 2) <= x + 1);
        }
    }
}

/// Any minimal power of two at least `x` equals `np2(x)`.
proof fn lemma_np2_unique(x: int, r: int)
    requires
        is_pow2(r),
        r >= x,
        r == 1 || r / 2 < x,
    ensures
        r == np2(x),
    decreases r,
{
    if x <= 1 {
        if r != 1 {
            assert(r >= 2);
            assert(r / 2 < x);
            assert(false);
        }
    } else {
        assert(r >= 2);
        let r2 = r / 2;
        let y = (x + 1) / 2;
        assert(r == 2 * r2);
        assert(is_pow2(r2));
        assert(r2 >= y) by {
            if x % 2 == 0 {
                assert(y == x / 2);
            } else {
                assert(2 * r2 >= x + 1);
            }
        }
        assert(r2 == 1 || r2 / 2 < y) by {
            if r2 >= 2 {
                assert(r / 2 <= x - 1);
                assert(r2 / 2 <= (x - 1) / 2);
                assert((x - 1) / 2 < (x + 1) / 2);
            }
        }
        lemma_np2_unique(y, r2);
    }
}

/// The least power of two at least `x`.
pub fn next_pow2(x: usize) -> (r: usize)
    requires
        x as int <= usize::MAX as int / 2,
    ensures
        r as int == np2(x as int),
        r >= x,
        is_pow2(r as int),
{
    let mut r: usize = 1;
    while r < x
        invariant
            x as int <= usize::MAX as int / 2,
            1 <= r,
            is_pow2(r as int),
            r == 1 || r / 2 < x,
        decreases 2 * (x as int) - r,
    {
        r = r * 2;
    }
    proof {
        lemma_np2_unique(x as int, r as int);
    }
    r
}

/// A power of two is its own next power of two.
pub proof fn lemma_np2_of_pow2(x: int)
    requires
        is_pow2(x),
    ensures
        np2(x) == x,
{
    assert(x >= 1);
    lemma_np2_unique(x, x);
}

/// Replacing the first summand by an equal polynomial (up to padding) does
/// not change a balanced, folded sum.
pub proof fn lemma_polyadd_spec_respects(a1: Seq<int>, a2: Seq<int>, b: Seq<int>, q: int, n: int)
    requires
        q >= 1,
        n >= 1,
        poly_eq(a1, a2),
    ensures
        poly_eq(
            crate::arith::polyadd_spec(a1, b, q, n),
            crate::arith::polyadd_spec(a2, b, q, n),
        ),
{
    let s1 = crate::arith::addv(a1, b);
    let s2 = crate::arith::addv(a2, b);
    assert forall|t: int| #[trigger] padded(s1, t) % q == padded(s2, t) % q by {
        assert(padded(s1, t) == padded(a1, t) + padded(b, t)) by {
            if 0 <= t < s1.len() {
            } else {
                assert(padded(a1, t) == 0);
                assert(padded(b, t) == 0);
            }
        }
        assert(padded(s2, t) == padded(a2, t) + padded(b, t)) by {
            if 0 <= t < s2.len() {
            } else {
                assert(padded(a2, t) == 0);
                assert(padded(b, t) == 0);
            }
        }
        assert(padded(a1, t) == padded(a2, t));
    }
    lemma_fold_padded_congruent(s1, s2, n, q);
    lemma_balv_congruent(fold(s1, n), fold(s2, n), q);
}

/// Beyond the degree of the product, every convolution coefficient is zero.
proof fn lemma_conv_part_zero_beyond(x: Seq<int>, y: Seq<int>, k: int, i: int)
    requires
        k >= x.len() + y.len() - 1 || x.len() == 0 || y.len() == 0,
        0 <= k,
        0 <= i,
    ensures
        conv_part(x, y, k, i) == 0,
    decreases i,
{
    if i > 0 {
        lemma_conv_part_zero_beyond(x, y, k, i - 1);
        if i - 1 < x.len() && x.len() > 0 && y.len() > 0 {
            assert(padded(y, k - (i - 1)) == 0);
        } else {
            assert(padded(x, i - 1) == 0 || padded(y, k - (i - 1)) == 0);
        }
    }
}

/// Reading past the end of `conv(x, y)` agrees with the coefficient formula.
pub proof fn lemma_conv_padded(x: Seq<int>, y: Seq<int>, k: int)
    requires
        0 <= k,
    ensures
        padded(conv(x, y), k) == conv_at(x, y, k),
{
    if k < conv(x, y).len() {
    } else {
        lemma_conv_part_zero_beyond(x, y, k, k + 1);
    }
}

/// On zero-padded inputs that together fit in one transform length, the
/// cyclic convolution has no wrap-around: it equals the plain convolution.
proof fn lemma_cyc_part_eq_conv_part(
    xp: Seq<int>,
    yp: Seq<int>,
    x: Seq<int>,
    y: Seq<int>,
    nn: int,
    k: int,
    i: int,
)
    requires
        nn >= 1,
        forall|t: int| padded(xp, t) == padded(x, t),
        forall|t: int| padded(yp, t) == padded(y, t),
        x.len() + y.len() <= nn + 1,
        0 <= k < nn,
        0 <= i <= nn,
    ensures
        cyc_part(xp, yp, nn, k, i) == conv_part(x, y, k, i),
    decreases i,
{
    if i > 0 {
        lemma_cyc_part_eq_conv_part(xp, yp, x, y, nn, k, i - 1);
        let ii = i - 1;
        assert(cyc_part(xp, yp, nn, k, i) == cyc_part(xp, yp, nn, k, ii) + padded(xp, ii) * padded(
            yp,
            (k - ii) % nn,
        ));
        assert(conv_part(x, y, k, i) == conv_part(x, y, k, ii) + padded(x, ii) * padded(y, k - ii));
        if ii <= k {
            lemma_small_mod((k - ii) as nat, nn as nat);
            assert((k - ii) % nn == k - ii);
            assert(padded(xp, ii) == padded(x, ii));
            assert(padded(yp, (k - ii) % nn) == padded(y, k - ii));
            assert(padded(xp, ii) * padded(yp, (k - ii) % nn) == padded(x, ii) * padded(y, k - ii));
        } else {
            lemma_mod_multiples_vanish(-1, k - ii + nn, nn);
            assert(nn * -1 + (k - ii + nn) == k - ii);
            lemma_small_mod((k - ii + nn) as nat, nn as nat);
            assert((k - ii) % nn == k - ii + nn);
            assert(padded(y, k - ii) == 0);
            assert(padded(x, ii) * padded(y, k - ii) == 0);
            if ii < x.len() {
                assert(k - ii + nn >= y.len());
                assert(padded(yp, k - ii + nn) == padded(y, k - ii + nn));
                assert(padded(y, k - ii + nn) == 0);
                assert(padded(yp, (k - ii) % nn) == 0);
            } else {
                assert(padded(xp, ii) == 0);
            }
            let pa = padded(xp, ii);
            let pb = padded(yp, (k - ii) % nn);
            assert(pa * pb == 0) by (nonlinear_arith)
                requires
                    pa == 0 || pb == 0,
            ;
        }
        assert(cyc_part(xp, yp, nn, k, i) == conv_part(x, y, k, i));
    } else {
        assert(cyc_part(xp, yp, nn, k, 0) == 0);
        assert(conv_part(x, y, k, 0) == 0);
    }
}

/// The full no-wrap statement: one cyclic coefficient equals one plain
/// convolution coefficient.
pub proof fn lemma_cyc_eq_conv(xp: Seq<int>, yp: Seq<int>, x: Seq<int>, y: Seq<int>, nn: int, k: int)
    requires
        nn >= 1,
        forall|t: int| padded(xp, t) == padded(x, t),
        forall|t: int| padded(yp, t) == padded(y, t),
        x.len() + y.len() <= nn + 1,
        x.len() <= nn,
        0 <= k < nn,
    ensures
        cyc_at(xp, yp, nn, k) == conv_at(x, y, k),
{
    lemma_cyc_part_eq_conv_part(xp, yp, x, y, nn, k, nn);
    if nn >= k + 1 {
        lemma_conv_part_stable_from(x, y, k, k + 1, nn);
    } else {
        assert(false);
    }
}

/// Convolution terms past index `k` contribute nothing.
proof fn lemma_conv_part_stable_from(x: Seq<int>, y: Seq<int>, k: int, i: int, i2: int)
    requires
        k + 1 <= i <= i2,
    ensures
        conv_part(x, y, k, i2) == conv_part(x, y, k, i),
    decreases i2 - i,
{
    if i2 > i {
        lemma_conv_part_stable_from(x, y, k, i, i2 - 1);
        assert(padded(y, k - (i2 - 1)) == 0);
    }
}

/// Pointwise congruence modulo `q` is preserved by partial fold sums.
proof fn lemma_fold_part_congruent(a: Seq<int>, b: Seq<int>, n: int, j: int, k: int, q: int)
    requires
        q >= 1,
        forall|t: int| #[trigger] padded(a, t) % q == padded(b, t) % q,
    ensures
        fold_part(a, n, j, k) % q == fold_part(b, n, j, k) % q,
    decreases k,
{
    if k > 0 {
        lemma_fold_part_congruent(a, b, n, j, k - 1, q);
        let fa = fold_part(a, n, j, k - 1);
        let fb = fold_part(b, n, j, k - 1);
        let pa = padded(a, j + (k - 1) * n);
        let pb = padded(b, j + (k - 1) * n);
        if alt_sign(k - 1) == 1 {
            lemma_add_mod_noop(fa, pa, q);
            lemma_add_mod_noop(fb, pb, q);
            assert(fold_part(a, n, j, k) == fa + pa);
            assert(fold_part(b, n, j, k) == fb + pb);
        } else {
            lemma_sub_mod_noop(fa, pa, q);
            lemma_sub_mod_noop(fb, pb, q);
            assert(fold_part(a, n, j, k) == fa - pa);
            assert(fold_part(b, n, j, k) == fb - pb);
        }
    }
}

/// A fold of a sequence no longer than `n` reduces to its slot coefficient.
proof fn lemma_fold_part_short(s: Seq<int>, n: int, j: int, k: int)
    requires
        n >= 1,
        0 <= j,
        s.len() <= n,
        k >= 1,
    ensures
        fold_part(s, n, j, k) == padded(s, j),
{
    assert(fold_part(s, n, j, 0) == 0);
    assert(alt_sign(0) == 1);
    assert(j + 0 * n == j);
    assert(fold_part(s, n, j, 1) == padded(s, j));
    lemma_fold_part_stable(s, n, j, 1, k);
}

/// Past enough blocks, the padded fold value is the stabilized fold sum,
/// whether the sequence was folded or passed through.
pub(crate) proof fn lemma_fold_padded_as_part(s: Seq<int>, n: int, j: int, kk: int)
    requires
        n >= 1,
        0 <= j < n,
        kk >= 1,
        kk >= num_blocks(s.len() as int, n),
    ensures
        padded(fold(s, n), j) == fold_part(s, n, j, kk),
{
    let nb = num_blocks(s.len() as int, n);
    assert(nb * n >= s.len() && nb >= 0) by (nonlinear_arith)
        requires
            n >= 1,
            nb == (s.len() as int + n - 1) / n,
            s.len() >= 0,
    ;
    if s.len() >= n + 1 {
        lemma_fold_part_stable(s, n, j, nb, kk);
        assert(padded(fold(s, n), j) == fold_part(s, n, j, nb));
    } else {
        lemma_fold_part_short(s, n, j, kk);
        assert(padded(fold(s, n), j) == padded(s, j));
    }
}

/// Pointwise congruence modulo `q` is preserved by the negacyclic fold.
pub proof fn lemma_fold_padded_congruent(a: Seq<int>, b: Seq<int>, n: int, q: int)
    requires
        n >= 1,
        q >= 1,
        forall|t: int| #[trigger] padded(a, t) % q == padded(b, t) % q,
    ensures
        forall|j: int| #[trigger] padded(fold(a, n), j) % q == padded(fold(b, n), j) % q,
{
    let nba = num_blocks(a.len() as int, n);
    let nbb = num_blocks(b.len() as int, n);
    assert(nba * n >= a.len() && nba >= 0) by (nonlinear_arith)
        requires
            n >= 1,
            nba == (a.len() as int + n - 1) / n,
            a.len() >= 0,
    ;
    assert(nbb * n >= b.len() && nbb >= 0) by (nonlinear_arith)
        requires
            n >= 1,
            nbb == (b.len() as int + n - 1) / n,
            b.len() >= 0,
    ;
    let kk = 1 + if nba >= nbb {
        nba
    } else {
        nbb
    };
    assert forall|j: int| #[trigger] padded(fold(a, n), j) % q == padded(fold(b, n), j) % q by {
        if 0 <= j < n {
            // each side's value, folded or passed through, equals its
            // stabilized fold sum, and those sums are congruent
            lemma_fold_part_congruent(a, b, n, j, kk, q);
            if a.len() >= n + 1 {
                lemma_fold_part_stable(a, n, j, nba, kk);
                assert(padded(fold(a, n), j) == fold_part(a, n, j, nba));
            } else {
                lemma_fold_part_short(a, n, j, kk);
                assert(padded(fold(a, n), j) == padded(a, j));
            }
            assert(padded(fold(a, n), j) == fold_part(a, n, j, kk));
            if b.len() >= n + 1 {
                lemma_fold_part_stable(b, n, j, nbb, kk);
                assert(padded(fold(b, n), j) == fold_part(b, n, j, nbb));
            } else {
                lemma_fold_part_short(b, n, j, kk);
                assert(padded(fold(b, n), j) == padded(b, j));
            }
            assert(padded(fold(b, n), j) == fold_part(b, n, j, kk));
        } else {
            assert(padded(fold(a, n), j) == 0) by {
                if a.len() < n + 1 {
                    if 0 <= j < a.len() {
                        assert(false);
                    }
                }
            }
            assert(padded(fold(b, n), j) == 0) by {
                if b.len() < n + 1 {
                    if 0 <= j < b.len() {
                        assert(false);
                    }
                }
            }
        }
    }
}

/// Balancing maps pointwise-congruent sequences to equal polynomials.
pub proof fn lemma_balv_congruent(a: Seq<int>, b: Seq<int>, q: int)
    requires
        q >= 1,
        forall|t: int| #[trigger] padded(a, t) % q == padded(b, t) % q,
    ensures
        poly_eq(balv(a, q), balv(b, q)),
{
    assert forall|i: int| padded(balv(a, q), i) == padded(balv(b, q), i) by {
        assert(padded(balv(a, q), i) == bal(padded(a, i), q)) by {
            if 0 <= i < a.len() {
            } else {
                assert(0int % q == 0);
            }
        }
        assert(padded(balv(b, q), i) == bal(padded(b, i), q)) by {
            if 0 <= i < b.len() {
            } else {
                assert(0int % q == 0);
            }
        }
        assert(padded(a, i) % q == padded(b, i) % q);
    }
}

/// Multiply two polynomials with the number-theoretic transform, reduced
/// modulo `(q, f)`.  The caller supplies a root of unity matching the padded
/// transform length `2 * np2(max(len x, len y))`; the result then agrees with
/// schoolbook `polymul` as a polynomial (equal up to trailing zeros).
pub fn polymul_fast(x: &Poly, y: &Poly, q: i64, f: &Poly, omega: i64) -> (r: Poly)
    requires
        f@.len() >= 2,
        x@.len() <= 0x1000_0000,
        y@.len() <= 0x1000_0000,
        f@.len() <= 0x1000_0000,
        (q as int) * (q as int) <= i64::MAX as int / 4,
        omega_ok(
            omega as int,
            2 * np2(
                if x@.len() >= y@.len() {
                    x@.len() as int
                } else {
                    y@.len() as int
                },
            ),
            q as int,
        ),
        num_blocks(
            2 * np2(
                if x@.len() >= y@.len() {
                    x@.len() as int
                } else {
                    y@.len() as int
                },
            ),
            f@.len() - 1,
        ) * (q as int) <= i64::MAX as int,
        forall|i: int| 0 <= i < x@.len() ==> -(q as int) < #[trigger] x@[i] < q as int,
        forall|i: int| 0 <= i < y@.len() ==> -(q as int) < #[trigger] y@[i] < q as int,
    ensures
        poly_eq(r@, polymul_spec(x@, y@, q as int, f@.len() - 1)),
        r@.len() == if 2 * np2(
            if x@.len() >= y@.len() {
                x@.len() as int
            } else {
                y@.len() as int
            },
        ) < f@.len() {
            2 * np2(
                if x@.len() >= y@.len() {
                    x@.len() as int
                } else {
                    y@.len() as int
                },
            )
        } else {
            f@.len() - 1
        },
        forall|i: int|
            0 <= i < r@.len() ==> -(q as int) / 2 < #[trigger] r@[i] <= (q as int) / 2,
{
    let l1 = x.coeffs.len();
    let l2 = y.coeffs.len();
    let lm = if l1 >= l2 {
        l1
    } else {
        l2
    };
    let half = next_pow2(lm);
    proof {
        lemma_np2_props(lm as int);
        assert(half as int <= 0x2000_0000);
    }
    let nn = 2 * half;
    let mut xp: Vec<i64> = vstd::slice::slice_to_vec(x.coeffs.as_slice());
    while xp.len() < nn
        invariant
            l1 <= xp@.len() <= nn,
            l1 == x.coeffs@.len(),
            nn <= 0x4000_0000,
            forall|i: int| 0 <= i < l1 ==> xp@[i] == x.coeffs@[i],
            forall|i: int| l1 <= i < xp@.len() ==> xp@[i] == 0i64,
        decreases nn - xp@.len(),
    {
        xp.push(0);
    }
    let mut yp: Vec<i64> = vstd::slice::slice_to_vec(y.coeffs.as_slice());
    while yp.len() < nn
        invariant
            l2 <= yp@.len() <= nn,
            l2 == y.coeffs@.len(),
            nn <= 0x4000_0000,
            forall|i: int| 0 <= i < l2 ==> yp@[i] == y.coeffs@[i],
            forall|i: int| l2 <= i < yp@.len() ==> yp@[i] == 0i64,
        decreases nn - yp@.len(),
    {
        yp.push(0);
    }
    proof {
        assert(is_pow2(nn as int)) by {
            assert(nn as int == 2 * np2(lm as int));
            assert((2 * np2(lm as int)) % 2 == 0);
            assert((2 * np2(lm as int)) / 2 == np2(lm as int));
        }
        assert(forall|t: int| padded(ints(xp@), t) == padded(x@, t));
        assert(forall|t: int| padded(ints(yp@), t) == padded(y@, t));
        assert forall|i: int| 0 <= i < nn implies -(q as int) < (#[trigger] xp@[i] as int)
            < q as int by {
            if i < l1 {
                assert(xp@[i] == x.coeffs@[i]);
                assert(x@[i] == x.coeffs@[i] as int);
            } else {
                assert(xp@[i] == 0i64);
            }
        }
        assert forall|i: int| 0 <= i < nn implies -(q as int) < (#[trigger] yp@[i] as int)
            < q as int by {
            if i < l2 {
                assert(yp@[i] == y.coeffs@[i]);
                assert(y@[i] == y.coeffs@[i] as int);
            } else {
                assert(yp@[i] == 0i64);
            }
        }
    }
    let rv = ntt_cyclic_mul(&xp, &yp, nn, q, omega);
    let rp = Poly { coeffs: rv };
    let nf = f.coeffs.len() - 1;
    proof {
        // the fold of the NTT output stays within i64
        assert forall|i: int| 0 <= i < rp@.len() implies -((q as int) - 1) <= #[trigger] rp@[i]
            <= (q as int) - 1 by {
            assert(rp@[i] == rv@[i] as int);
        }
        assert(num_blocks(rp@.len() as int, nf as int) * ((q as int) - 1) <= i64::MAX as int) by {
            let nb = num_blocks(nn as int, nf as int);
            assert(nb >= 0) by (nonlinear_arith)
                requires
                    nb == (nn as int + nf as int - 1) / (nf as int),
                    nn as int >= 0,
                    nf as int >= 1,
            ;
            assert(nb * ((q as int) - 1) <= nb * (q as int)) by (nonlinear_arith)
                requires
                    nb >= 0,
            ;
        }
        lemma_fold_fits_bound(rp@, nf as int, (q as int) - 1);
    }
    let t = polyrem(&rp, f);
    let r = mod_coeffs(&t, q);
    proof {
        let qi = q as int;
        let nfi = nf as int;
        let cs = conv(x@, y@);
        // every padded coefficient of the NTT output is congruent to the
        // corresponding convolution coefficient
        assert forall|k: int| #[trigger] padded(rp@, k) % qi == padded(cs, k) % qi by {
            if 0 <= k < nn {
                assert(padded(rp@, k) == rv@[k] as int);
                assert((rv@[k] as int) % qi == cyc_at(ints(xp@), ints(yp@), nn as int, k) % qi);
                lemma_cyc_eq_conv(ints(xp@), ints(yp@), x@, y@, nn as int, k);
                lemma_conv_padded(x@, y@, k);
            } else if k >= nn {
                assert(cs.len() <= nn as int);
                assert(padded(rp@, k) == 0);
                assert(padded(cs, k) == 0);
            } else {
                assert(padded(rp@, k) == 0);
                assert(padded(cs, k) == 0);
            }
        }
        lemma_fold_padded_congruent(rp@, cs, nfi, qi);
        lemma_balv_congruent(fold(rp@, nfi), fold(cs, nfi), qi);
        assert(r@ == balv(fold(rp@, nfi), qi));
        assert(polymul_spec(x@, y@, qi, nfi) == balv(fold(cs, nfi), qi));
    }
    r
}

} // verus!
