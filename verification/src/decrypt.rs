//! Decryption for the RLWE scheme.
use crate::arith::nearest_int;
use crate::arith::nearest_int_spec;
use crate::arith::padded;
use crate::arith::poly_eq;
use crate::arith::polyadd;
use crate::arith::polyadd_spec;
use crate::arith::polymul_spec;
use crate::arith::Poly;
use crate::nttmul::lemma_np2_of_pow2;
use crate::nttmul::lemma_polyadd_spec_respects;
use crate::nttmul::polymul_fast;
use crate::params::Parameters;
use vstd::prelude::*;

verus! {

/// Decode one scaled coefficient: round `c * t / q` to the nearest integer
/// and reduce into `{0, ..., t-1}`.
pub open spec fn decode_coeff(c: int, t: int, q: int) -> int {
    nearest_int_spec(c * t, q) % t
}

/// Decode every coefficient of a scaled polynomial.
pub open spec fn decode_vec(s: Seq<int>, t: int, q: int) -> Seq<int> {
    Seq::new(s.len(), |i: int| decode_coeff(s[i], t, q))
}

/// Decoding maps equal polynomials (up to padding) to equal polynomials:
/// a zero coefficient decodes to zero.
proof fn lemma_decode_respects(a: Seq<int>, b: Seq<int>, t: int, q: int)
    requires
        1 <= t,
        1 <= q,
        poly_eq(a, b),
    ensures
        poly_eq(decode_vec(a, t, q), decode_vec(b, t, q)),
{
    assert(decode_coeff(0, t, q) == 0) by {
        assert(nearest_int_spec(0 * t, q) == -((0 + q / 2) / q));
        vstd::arithmetic::div_mod::lemma_basic_div(q / 2, q);
        assert((q / 2) / q == 0);
        assert(0int % t == 0);
    }
    assert forall|i: int| padded(decode_vec(a, t, q), i) == padded(decode_vec(b, t, q), i) by {
        assert(padded(decode_vec(a, t, q), i) == decode_coeff(padded(a, i), t, q)) by {
            if 0 <= i < a.len() {
            }
        }
        assert(padded(decode_vec(b, t, q), i) == decode_coeff(padded(b, i), t, q)) by {
            if 0 <= i < b.len() {
            }
        }
        assert(padded(a, i) == padded(b, i));
    }
}

/// Decrypt a ciphertext `(c0, c1)`: compute `c1 * sk + c0` in `R_q`, then
/// decode each balanced coefficient by nearest-integer rounding of the
/// ratio `c * t / q`, reduced into `{0, ..., t-1}`.
pub fn decrypt(sk: &Poly, ct: &[Poly; 2], params: &Parameters) -> (r: Poly)
    requires
        params.valid(),
        sk@.len() <= params.n,
        ct@[1]@.len() == params.n,
        ct@[0]@.len() <= params.n,
        forall|i: int| 0 <= i < sk@.len() ==> -(params.q as int) < #[trigger] sk@[i] < params.q as int,
        forall|i: int|
            0 <= i < ct@[0]@.len() ==> -(params.q as int) < #[trigger] ct@[0]@[i] < params.q as int,
        forall|i: int|
            0 <= i < ct@[1]@.len() ==> -(params.q as int) < #[trigger] ct@[1]@[i] < params.q as int,
    ensures
        r@.len() == params.n,
        forall|i: int| 0 <= i < r@.len() ==> 0 <= #[trigger] r@[i] < params.t,
        poly_eq(
            r@,
            decode_vec(
                polyadd_spec(
                    polymul_spec(ct@[1]@, sk@, params.q as int, params.n as int),
                    ct@[0]@,
                    params.q as int,
                    params.n as int,
                ),
                params.t as int,
                params.q as int,
            ),
        ),
{
    let n = params.n;
    let q = params.q;
    let t = params.t;
    let ghost qi = q as int;
    let ghost ni = n as int;
    let ghost ti = t as int;
    proof {
        lemma_np2_of_pow2(ni);
        crate::keygen::lemma_two_block_bound(ni, qi);
    }
    let t1 = polymul_fast(&ct[1], sk, q, &params.f, params.omega);
    proof {
        assert(3 * qi <= qi * qi) by (nonlinear_arith)
            requires
                qi >= 3,
        ;
        assert forall|i: int|
            i64::MIN <= #[trigger] padded(t1@, i) + padded(ct@[0]@, i) <= i64::MAX by {
            if 0 <= i < t1@.len() {
            }
            if 0 <= i < ct@[0]@.len() {
            }
        }
    }
    let scaled = polyadd(&t1, &ct[0], q, &params.f);
    let len = scaled.coeffs.len();
    let mut out: Vec<i64> = Vec::new();
    let mut i: usize = 0;
    while i < len
        invariant
            3 <= q,
            1 <= t <= q,
            (qi) * (qi) <= i64::MAX as int / 4,
            qi == q as int,
            ti == t as int,
            len == scaled.coeffs@.len(),
            forall|k: int|
                0 <= k < len ==> -(qi) / 2 < #[trigger] scaled@[k] <= qi / 2,
            0 <= i <= len,
            out@.len() == i,
            forall|k: int| 0 <= k < i ==> out@[k] as int == decode_coeff(scaled@[k], ti, qi),
        decreases len - i,
    {
        let c = scaled.coeffs[i];
        proof {
            assert(c as int == scaled@[i as int]);
            assert(-(qi * qi) <= (c as int) * (t as int) <= qi * qi) by (nonlinear_arith)
                requires
                    -(qi) <= c as int <= qi,
                    0 <= t as int <= qi,
            ;
        }
        let s = nearest_int(c * t, q);
        let d = s.checked_rem_euclid(t).unwrap();
        out.push(d);
        i += 1;
    }
    let r = Poly { coeffs: out };
    proof {
        assert(r@ =~= decode_vec(scaled@, ti, qi));
        let pm = polymul_spec(ct@[1]@, sk@, qi, ni);
        lemma_polyadd_spec_respects(t1@, pm, ct@[0]@, qi, ni);
        assert(poly_eq(scaled@, polyadd_spec(pm, ct@[0]@, qi, ni)));
        lemma_decode_respects(scaled@, polyadd_spec(pm, ct@[0]@, qi, ni), ti, qi);
        assert(r@.len() == ni);
        assert forall|i: int| 0 <= i < r@.len() implies 0 <= #[trigger] r@[i] < params.t by {
            assert(r@[i] == decode_coeff(scaled@[i], ti, qi));
        }
    }
    r
}

/// Strictly inside the window `(v*q - q/2, v*q + q/2)`, nearest-integer
/// rounding of `x / q` gives `v`, whichever way ties would break.
proof fn lemma_nearest_in_window(x: int, q: int, v: int)
    requires
        1 <= q,
        2 * x > 2 * v * q - q,
        2 * x < 2 * v * q + q,
    ensures
        nearest_int_spec(x, q) == v,
{
    let h = q / 2;
    vstd::arithmetic::div_mod::lemma_fundamental_div_mod(q, 2);
    assert(q == 2 * h + q % 2);
    assert(0 <= q % 2 < 2);
    assert(2 * (v * q) == 2 * v * q) by (nonlinear_arith);
    assert((-v) * q == -(v * q)) by (nonlinear_arith);
    if x > 0 {
        assert(2 * (x + h) > 2 * (v * q) - 1);
        assert(x + h >= v * q);
        assert(2 * (x + h) < 2 * (v * q) + 2 * q);
        assert(x + h <= v * q + q - 1);
        vstd::arithmetic::div_mod::lemma_fundamental_div_mod_converse(
            x + h,
            q,
            v,
            x + h - v * q,
        );
        assert((x + h) / q == v);
    } else {
        let y = -x;
        let w = -v;
        assert(w * q == -(v * q)) by (nonlinear_arith)
            requires
                w == -v,
        ;
        assert(2 * y > 2 * (w * q) - q);
        assert(2 * y < 2 * (w * q) + q);
        assert(2 * (y + h) > 2 * (w * q) - 1);
        assert(y + h >= w * q);
        assert(2 * (y + h) < 2 * (w * q) + 2 * q);
        assert(y + h <= w * q + q - 1);
        vstd::arithmetic::div_mod::lemma_fundamental_div_mod_converse(
            y + h,
            q,
            w,
            y + h - w * q,
        );
        assert((y + h) / q == w);
        assert(nearest_int_spec(x, q) == -((y + h) / q));
    }
}

/// Decoding correctness, the rounding heart of decryption: a balanced
/// coefficient congruent to `(q/t) * m` plus noise `e` decodes to exactly
/// `m`, whenever the noise is below the decryption budget
/// `2*t*|e| + 2*(q mod t)*m < q`.
pub proof fn lemma_decode_correct(c: int, m: int, e: int, q: int, t: int)
    requires
        1 <= t <= q,
        0 <= m < t,
        c % q == ((q / t) * m + e) % q,
        (-q) / 2 < c <= q / 2,
        2 * t * (if e >= 0 {
            e
        } else {
            -e
        }) + 2 * (q % t) * m < q,
    ensures
        decode_coeff(c, t, q) == m,
{
    let d = q / t;
    let r = q % t;
    let ea = if e >= 0 {
        e
    } else {
        -e
    };
    vstd::arithmetic::div_mod::lemma_fundamental_div_mod(q, t);
    assert(q == t * d + r);
    let x0 = d * m + e;
    // the noise term is small against q
    assert(r * m >= 0) by (nonlinear_arith)
        requires
            r >= 0,
            m >= 0,
    ;
    assert(2 * ea < q) by (nonlinear_arith)
        requires
            2 * t * ea + 2 * r * m < q,
            t >= 1,
            ea >= 0,
            r >= 0,
            m >= 0,
    ;
    // 0 <= d * m <= d * (t - 1) = q - r - d <= q - 1
    assert(0 <= d * m && d * m + d <= d * t) by (nonlinear_arith)
        requires
            d >= 0,
            0 <= m < t,
    ;
    assert(d * t == q - r) by (nonlinear_arith)
        requires
            q == t * d + r,
    ;
    assert(d >= 1) by {
        vstd::arithmetic::div_mod::lemma_div_non_zero(q, t);
    }
    // c and x0 are congruent, so they differ by a multiple of q
    vstd::arithmetic::div_mod::lemma_sub_mod_noop(x0, c, q);
    assert((x0 - c) % q == (x0 % q - c % q) % q);
    assert((x0 - c) % q == 0) by {
        assert(x0 % q - c % q == 0);
        assert(0int % q == 0);
    }
    vstd::arithmetic::div_mod::lemma_fundamental_div_mod(x0 - c, q);
    let k = (x0 - c) / q;
    assert(x0 - c == q * k);
    // the shift is 0 or 1: x0 lies in (-q/2, q), c in (-q/2, q/2]
    assert(2 * x0 > -q) by (nonlinear_arith)
        requires
            x0 == d * m + e,
            d >= 0,
            m >= 0,
            2 * ea < q,
            ea == (if e >= 0 {
                e
            } else {
                -e
            }),
    ;
    assert(x0 < q) by (nonlinear_arith)
        requires
            x0 == d * m + e,
            q == t * d + r,
            0 <= m < t,
            2 * t * ea + 2 * r * m < q,
            ea == (if e >= 0 {
                e
            } else {
                -e
            }),
            0 <= r,
            1 <= d,
            1 <= t,
    ;
    assert(2 * c > -q && 2 * c <= q) by {
        vstd::arithmetic::div_mod::lemma_fundamental_div_mod(-q, 2);
        vstd::arithmetic::div_mod::lemma_fundamental_div_mod(q, 2);
    }
    assert(0 <= k <= 1) by (nonlinear_arith)
        requires
            x0 - c == q * k,
            2 * x0 > -q,
            x0 < q,
            2 * c > -q,
            2 * c <= q,
            q >= 1,
    ;
    // c * t sits strictly inside the rounding window of m - k*t
    let v = m - k * t;
    assert(c * t == q * v + (e * t - r * m)) by (nonlinear_arith)
        requires
            c == d * m + e - q * k,
            q == t * d + r,
            v == m - k * t,
    ;
    assert(2 * (e * t - r * m) < q && 2 * (e * t - r * m) > -q) by (nonlinear_arith)
        requires
            2 * t * ea + 2 * r * m < q,
            ea == (if e >= 0 {
                e
            } else {
                -e
            }),
            r * m >= 0,
            t >= 1,
    ;
    assert(2 * (c * t) > 2 * v * q - q && 2 * (c * t) < 2 * v * q + q) by (nonlinear_arith)
        requires
            c * t == q * v + (e * t - r * m),
            2 * (e * t - r * m) < q,
            2 * (e * t - r * m) > -q,
    ;
    lemma_nearest_in_window(c * t, q, v);
    assert(nearest_int_spec(c * t, q) == m - k * t);
    // reducing modulo t removes the shift
    vstd::arithmetic::div_mod::lemma_mod_multiples_vanish(-k, m, t);
    assert(t * (-k) + m == m - k * t) by (nonlinear_arith);
    lemma_small_mod_int(m, t);
    assert((m - k * t) % t == m);
}

/// Correct decryption of a whole polynomial: when every balanced coefficient
/// of the scaled polynomial `c1 * sk + c0` is congruent modulo `q` to
/// `(q/t) * m_i + e_i` with the noise `e_i` below the decryption budget,
/// decoding returns exactly the plaintext coefficients.  This is the
/// round-trip guarantee of the scheme, stated over the accumulated noise.
pub proof fn lemma_decrypt_decodes(s: Seq<int>, m: Seq<int>, e: Seq<int>, q: int, t: int)
    requires
        1 <= t <= q,
        s.len() == m.len(),
        s.len() == e.len(),
        forall|i: int| 0 <= i < s.len() ==> 0 <= #[trigger] m[i] < t,
        forall|i: int| 0 <= i < s.len() ==> #[trigger] s[i] % q == ((q / t) * m[i] + e[i]) % q,
        forall|i: int| 0 <= i < s.len() ==> (-q) / 2 < #[trigger] s[i] <= q / 2,
        forall|i: int|
            0 <= i < s.len() ==> 2 * t * (if e[i] >= 0 {
                e[i]
            } else {
                -e[i]
            }) + 2 * (q % t) * #[trigger] m[i] < q,
    ensures
        decode_vec(s, t, q) == m,
{
    assert forall|i: int| 0 <= i < s.len() implies decode_vec(s, t, q)[i] == m[i] by {
        lemma_decode_correct(s[i], m[i], e[i], q, t);
    }
    assert(decode_vec(s, t, q) =~= m);
}

/// Convolution distributes over coefficientwise addition, partial sum by
/// partial sum.
proof fn lemma_conv_part_additive(a: Seq<int>, b: Seq<int>, c: Seq<int>, k: int, i: int)
    ensures
        crate::arith::conv_part(crate::arith::addv(a, b), c, k, i) == crate::arith::conv_part(
            a,
            c,
            k,
            i,
        ) + crate::arith::conv_part(b, c, k, i),
    decreases i,
{
    if i > 0 {
        lemma_conv_part_additive(a, b, c, k, i - 1);
        let ii = i - 1;
        assert(padded(crate::arith::addv(a, b), ii) == padded(a, ii) + padded(b, ii)) by {
            if 0 <= ii < crate::arith::addv(a, b).len() {
            } else {
                assert(padded(a, ii) == 0 && padded(b, ii) == 0);
            }
        }
        let pc = padded(c, k - ii);
        assert((padded(a, ii) + padded(b, ii)) * pc == padded(a, ii) * pc + padded(b, ii)
            * pc) by (nonlinear_arith);
    }
}

/// The negacyclic fold is additive on pointwise sums.
proof fn lemma_fold_part_additive(sa: Seq<int>, sb: Seq<int>, sc: Seq<int>, n: int, j: int, k: int)
    requires
        forall|x: int| #[trigger] padded(sa, x) == padded(sb, x) + padded(sc, x),
    ensures
        crate::arith::fold_part(sa, n, j, k) == crate::arith::fold_part(sb, n, j, k)
            + crate::arith::fold_part(sc, n, j, k),
    decreases k,
{
    if k > 0 {
        lemma_fold_part_additive(sa, sb, sc, n, j, k - 1);
        let x = j + (k - 1) * n;
        assert(padded(sa, x) == padded(sb, x) + padded(sc, x));
        if crate::arith::alt_sign(k - 1) == 1 {
        } else {
        }
    }
}

/// Balancing changes nothing modulo `q`.
proof fn lemma_balv_mod(x: Seq<int>, q: int, i: int)
    requires
        1 <= q,
    ensures
        padded(crate::arith::balv(x, q), i) % q == padded(x, i) % q,
{
    if 0 <= i < x.len() {
        let c = x[i];
        vstd::arithmetic::div_mod::lemma_mod_twice(c, q);
        if c % q > q / 2 {
            vstd::arithmetic::div_mod::lemma_mod_multiples_vanish(-1, c % q, q);
            assert(q * -1 + c % q == c % q - q);
        }
    } else {
        assert(padded(crate::arith::balv(x, q), i) == 0);
        assert(padded(x, i) == 0);
    }
}

/// Decryption is additive in the ciphertext: the scaled polynomial of a
/// componentwise ciphertext sum is congruent, coefficient by coefficient
/// modulo `q`, to the sum of the two scaled polynomials.  This is the
/// structural half of homomorphic addition; `lemma_decrypt_decodes` then
/// decodes the sum whenever the combined noise stays inside the budget.
pub proof fn lemma_scaled_sum_additive(
    sk: Seq<int>,
    u0: Seq<int>,
    u1: Seq<int>,
    v0: Seq<int>,
    v1: Seq<int>,
    q: int,
    n: int,
)
    requires
        1 <= q,
        1 <= n,
    ensures
        forall|j: int|
            #[trigger] padded(
                polyadd_spec(
                    polymul_spec(crate::arith::addv(u1, v1), sk, q, n),
                    crate::arith::addv(u0, v0),
                    q,
                    n,
                ),
                j,
            ) % q == (padded(polyadd_spec(polymul_spec(u1, sk, q, n), u0, q, n), j) + padded(
                polyadd_spec(polymul_spec(v1, sk, q, n), v0, q, n),
                j,
            )) % q,
{
    let cs = crate::arith::conv(crate::arith::addv(u1, v1), sk);
    let cu = crate::arith::conv(u1, sk);
    let cv = crate::arith::conv(v1, sk);
    let fs = crate::arith::fold(cs, n);
    let fu = crate::arith::fold(cu, n);
    let fv = crate::arith::fold(cv, n);
    let ps = crate::arith::balv(fs, q);
    let pu = crate::arith::balv(fu, q);
    let pv = crate::arith::balv(fv, q);
    // the convolution of the sum is the pointwise sum of the convolutions
    assert forall|k: int| #[trigger] padded(cs, k) == padded(cu, k) + padded(cv, k) by {
        if k >= 0 {
            crate::nttmul::lemma_conv_padded(crate::arith::addv(u1, v1), sk, k);
            crate::nttmul::lemma_conv_padded(u1, sk, k);
            crate::nttmul::lemma_conv_padded(v1, sk, k);
            lemma_conv_part_additive(u1, v1, sk, k, k + 1);
        }
    }
    // and the fold of a pointwise sum is the sum of the folds
    let nbs = crate::arith::num_blocks(cs.len() as int, n);
    let nbu = crate::arith::num_blocks(cu.len() as int, n);
    let nbv = crate::arith::num_blocks(cv.len() as int, n);
    let kk = 1 + if nbs >= nbu && nbs >= nbv {
        nbs
    } else if nbu >= nbv {
        nbu
    } else {
        nbv
    };
    assert forall|j: int| #[trigger] padded(fs, j) == padded(fu, j) + padded(fv, j) by {
        if 0 <= j < n {
            crate::nttmul::lemma_fold_padded_as_part(cs, n, j, kk);
            crate::nttmul::lemma_fold_padded_as_part(cu, n, j, kk);
            crate::nttmul::lemma_fold_padded_as_part(cv, n, j, kk);
            lemma_fold_part_additive(cs, cu, cv, n, j, kk);
        } else {
            assert(padded(fs, j) == 0) by {
                if cs.len() < n + 1 && 0 <= j < cs.len() {
                    assert(padded(cs, j) == padded(cu, j) + padded(cv, j));
                }
            }
            assert(padded(fu, j) == 0) by {
                if cu.len() < n + 1 && 0 <= j < cu.len() {
                }
            }
            assert(padded(fv, j) == 0) by {
                if cv.len() < n + 1 && 0 <= j < cv.len() {
                }
            }
        }
    }
    // the two argument sequences of the outer additions are congruent
    let a1 = crate::arith::addv(ps, crate::arith::addv(u0, v0));
    let bu = crate::arith::addv(fu, u0);
    let bv = crate::arith::addv(fv, v0);
    let a2 = crate::arith::addv(bu, bv);
    assert forall|x: int| #[trigger] padded(a1, x) % q == padded(a2, x) % q by {
        lemma_padded_addv(ps, crate::arith::addv(u0, v0), x);
        lemma_padded_addv(u0, v0, x);
        lemma_padded_addv(bu, bv, x);
        lemma_padded_addv(fu, u0, x);
        lemma_padded_addv(fv, v0, x);
        lemma_balv_mod(fs, q, x);
        let w = padded(u0, x) + padded(v0, x);
        vstd::arithmetic::div_mod::lemma_add_mod_noop(padded(ps, x), w, q);
        vstd::arithmetic::div_mod::lemma_add_mod_noop(padded(fs, x), w, q);
    }
    crate::nttmul::lemma_fold_padded_congruent(a1, a2, n, q);
    // fold the exact sum apart into the two block folds
    let nb1 = crate::arith::num_blocks(a2.len() as int, n);
    let nb2 = crate::arith::num_blocks(bu.len() as int, n);
    let nb3 = crate::arith::num_blocks(bv.len() as int, n);
    let kk2 = 1 + if nb1 >= nb2 && nb1 >= nb3 {
        nb1
    } else if nb2 >= nb3 {
        nb2
    } else {
        nb3
    };
    assert forall|j: int|
        #[trigger] padded(crate::arith::fold(a2, n), j) == padded(crate::arith::fold(bu, n), j)
            + padded(crate::arith::fold(bv, n), j) by {
        if 0 <= j < n {
            crate::nttmul::lemma_fold_padded_as_part(a2, n, j, kk2);
            crate::nttmul::lemma_fold_padded_as_part(bu, n, j, kk2);
            crate::nttmul::lemma_fold_padded_as_part(bv, n, j, kk2);
            assert forall|x: int| #[trigger] padded(a2, x) == padded(bu, x) + padded(bv, x) by {
                lemma_padded_addv(bu, bv, x);
            }
            lemma_fold_part_additive(a2, bu, bv, n, j, kk2);
        } else {
            assert(padded(crate::arith::fold(a2, n), j) == 0) by {
                if a2.len() < n + 1 && 0 <= j < a2.len() {
                }
            }
            assert(padded(crate::arith::fold(bu, n), j) == 0) by {
                if bu.len() < n + 1 && 0 <= j < bu.len() {
                }
            }
            assert(padded(crate::arith::fold(bv, n), j) == 0) by {
                if bv.len() < n + 1 && 0 <= j < bv.len() {
                }
            }
        }
    }
    // and each block fold is congruent to the balanced one actually used
    let bu2 = crate::arith::addv(pu, u0);
    let bv2 = crate::arith::addv(pv, v0);
    assert forall|x: int| #[trigger] padded(bu2, x) % q == padded(bu, x) % q by {
        lemma_padded_addv(pu, u0, x);
        lemma_padded_addv(fu, u0, x);
        lemma_balv_mod(fu, q, x);
        vstd::arithmetic::div_mod::lemma_add_mod_noop(padded(pu, x), padded(u0, x), q);
        vstd::arithmetic::div_mod::lemma_add_mod_noop(padded(fu, x), padded(u0, x), q);
    }
    assert forall|x: int| #[trigger] padded(bv2, x) % q == padded(bv, x) % q by {
        lemma_padded_addv(pv, v0, x);
        lemma_padded_addv(fv, v0, x);
        lemma_balv_mod(fv, q, x);
        vstd::arithmetic::div_mod::lemma_add_mod_noop(padded(pv, x), padded(v0, x), q);
        vstd::arithmetic::div_mod::lemma_add_mod_noop(padded(fv, x), padded(v0, x), q);
    }
    crate::nttmul::lemma_fold_padded_congruent(bu2, bu, n, q);
    crate::nttmul::lemma_fold_padded_congruent(bv2, bv, n, q);
    // assemble
    assert forall|j: int|
        #[trigger] padded(
            polyadd_spec(polymul_spec(crate::arith::addv(u1, v1), sk, q, n), crate::arith::addv(u0, v0), q, n),
            j,
        ) % q == (padded(polyadd_spec(polymul_spec(u1, sk, q, n), u0, q, n), j) + padded(
            polyadd_spec(polymul_spec(v1, sk, q, n), v0, q, n),
            j,
        )) % q by {
        lemma_balv_mod(crate::arith::fold(a1, n), q, j);
        lemma_balv_mod(crate::arith::fold(bu2, n), q, j);
        lemma_balv_mod(crate::arith::fold(bv2, n), q, j);
        let lhs = padded(
            polyadd_spec(
                polymul_spec(crate::arith::addv(u1, v1), sk, q, n),
                crate::arith::addv(u0, v0),
                q,
                n,
            ),
            j,
        );
        let su = padded(polyadd_spec(polymul_spec(u1, sk, q, n), u0, q, n), j);
        let sv = padded(polyadd_spec(polymul_spec(v1, sk, q, n), v0, q, n), j);
        let gu = padded(crate::arith::fold(bu, n), j);
        let gv = padded(crate::arith::fold(bv, n), j);
        let gu2 = padded(crate::arith::fold(bu2, n), j);
        let gv2 = padded(crate::arith::fold(bv2, n), j);
        assert(lhs == padded(crate::arith::balv(crate::arith::fold(a1, n), q), j));
        assert(su == padded(crate::arith::balv(crate::arith::fold(bu2, n), q), j));
        assert(sv == padded(crate::arith::balv(crate::arith::fold(bv2, n), q), j));
        assert(lhs % q == padded(crate::arith::fold(a1, n), j) % q);
        assert(padded(crate::arith::fold(a1, n), j) % q == padded(crate::arith::fold(a2, n), j)
            % q);
        assert(padded(crate::arith::fold(a2, n), j) == gu + gv);
        assert(su % q == gu2 % q && sv % q == gv2 % q);
        assert(gu2 % q == gu % q && gv2 % q == gv % q);
        vstd::arithmetic::div_mod::lemma_add_mod_noop(gu, gv, q);
        vstd::arithmetic::div_mod::lemma_add_mod_noop(su, sv, q);
        assert((su + sv) % q == (su % q + sv % q) % q);
        assert((gu + gv) % q == (gu % q + gv % q) % q);
        assert(lhs % q == (su + sv) % q);
    }
}

/// The padded value of a coefficientwise sum is the sum of the padded values.
proof fn lemma_padded_addv(a: Seq<int>, b: Seq<int>, x: int)
    ensures
        padded(crate::arith::addv(a, b), x) == padded(a, x) + padded(b, x),
{
    if 0 <= x < crate::arith::addv(a, b).len() {
    } else {
        assert(padded(a, x) == 0 && padded(b, x) == 0);
    }
}

/// `m % t == m` for `0 <= m < t`.
proof fn lemma_small_mod_int(m: int, t: int)
    requires
        0 <= m < t,
    ensures
        m % t == m,
{
    vstd::arithmetic::div_mod::lemma_small_mod(m as nat, t as nat);
}

/// What decrypting one ciphertext block `(c0, c1)` yields.
pub open spec fn decrypt_block_spec(
    sk: Seq<int>,
    c0: Seq<int>,
    c1: Seq<int>,
    q: int,
    t: int,
    n: int,
) -> Seq<int> {
    decode_vec(polyadd_spec(polymul_spec(c1, sk, q, n), c0, q, n), t, q)
}

/// A sequence zero-extended or cut to length `n`.
pub open spec fn pad_to(s: Seq<int>, n: int) -> Seq<int> {
    Seq::new(n as nat, |i: int| padded(s, i))
}

/// The concatenated plaintext bits of the first `k` ciphertext blocks of a
/// coefficient stream laid out as `c0 || c1` per block, each decrypted and
/// zero-extended to `n` bits.
pub open spec fn blocks_bits(
    sk: Seq<int>,
    cts: Seq<int>,
    q: int,
    t: int,
    n: int,
    k: int,
) -> Seq<int>
    decreases k,
{
    if k <= 0 {
        Seq::empty()
    } else {
        blocks_bits(sk, cts, q, t, n, k - 1) + pad_to(
            decrypt_block_spec(
                sk,
                cts.subrange(2 * (k - 1) * n, (2 * (k - 1) + 1) * n),
                cts.subrange((2 * (k - 1) + 1) * n, (2 * (k - 1) + 2) * n),
                q,
                t,
                n,
            ),
            n,
        )
    }
}

/// The two inputs decode to `skv` and `ctv`: the key string encodes the
/// length-`n` vector `skv`, the ciphertext string encodes `ctv` as whole
/// `2n`-blocks, and both stay in `i64` range.
pub open spec fn decodes_to(
    sk_b64: Seq<char>,
    ct_b64: Seq<char>,
    skv: Seq<int>,
    ctv: Seq<int>,
    n: int,
) -> bool {
    &&& sk_b64 == crate::codec::b64_of(crate::codec::enc_data(skv))
    &&& ct_b64 == crate::codec::b64_of(crate::codec::enc_data(ctv))
    &&& crate::codec::fits_i64(skv)
    &&& crate::codec::fits_i64(ctv)
    &&& skv.len() == n
    &&& (ctv.len() as int) % (2 * n) == 0
}

/// When the string interface reports a dimension mismatch: the key decodes
/// but not to length `n`, or the key is fully well-formed and the ciphertext
/// decodes but not to whole `2n`-blocks.
pub open spec fn dimension_mismatch(sk_b64: Seq<char>, ct_b64: Seq<char>, q: int, n: int) -> bool {
    ||| exists|w: Seq<int>|
        #![auto]
        sk_b64 == crate::codec::b64_of(crate::codec::enc_data(w)) && crate::codec::fits_i64(w)
            && w.len() != n
    ||| ((exists|skv: Seq<int>|
        #![auto]
        sk_b64 == crate::codec::b64_of(crate::codec::enc_data(skv)) && crate::codec::fits_i64(skv)
            && skv.len() == n && (forall|i: int|
            0 <= i < skv.len() ==> -q < #[trigger] skv[i] < q)) && (exists|w: Seq<int>|
        #![auto]
        ct_b64 == crate::codec::b64_of(crate::codec::enc_data(w)) && crate::codec::fits_i64(w) && (
        w.len() as int) % (2 * n) != 0))
}

/// Decrypt a base64-encoded ciphertext under a base64-encoded secret key.
/// The coefficient stream is cut into blocks of `2n`, each block is
/// decrypted to `n` bits, and the bits are read as MSB-first bytes with
/// trailing NULs trimmed.  Fails when either input does not decode, the key
/// does not have exactly `n` coefficients, the stream is not a multiple of
/// `2n`, or a coefficient lies outside `(-q, q)`.
pub fn decrypt_string(
    sk_base64: &String,
    ciphertext_base64: &String,
    params: &Parameters,
) -> (r: Result<String, crate::codec::CryptoError>)
    requires
        params.valid(),
        params.t == 2,
        params.n % 8 == 0,
    ensures
        match r {
            Ok(out) => {
                &&& exists|skv: Seq<int>, ctv: Seq<int>|
                    #![auto]
                    {
                        &&& decodes_to(
                            sk_base64@,
                            ciphertext_base64@,
                            skv,
                            ctv,
                            params.n as int,
                        )
                        &&& forall|i: int|
                            0 <= i < skv.len() ==> -(params.q as int) < #[trigger] skv[i]
                                < params.q as int
                        &&& forall|i: int|
                            0 <= i < ctv.len() ==> -(params.q as int) < #[trigger] ctv[i]
                                < params.q as int
                    }
                &&& forall|skv: Seq<int>, ctv: Seq<int>|
                    #[trigger] decodes_to(sk_base64@, ciphertext_base64@, skv, ctv, params.n as int)
                        ==> out@ == crate::bits::trim_nuls(
                        crate::bits::bits_to_chars(
                            blocks_bits(
                                skv,
                                ctv,
                                params.q as int,
                                params.t as int,
                                params.n as int,
                                ctv.len() as int / (2 * params.n as int),
                            ),
                        ),
                    )
            },
            Err(_) => true,
        },
        forall|skv: Seq<int>, ctv: Seq<int>|
            sk_base64@ == crate::codec::b64_of(#[trigger] crate::codec::enc_data(skv))
                && ciphertext_base64@ == crate::codec::b64_of(
                #[trigger] crate::codec::enc_data(ctv),
            ) && skv.len() == params.n && (ctv.len() as int) % (2 * params.n as int) == 0 && (forall|i: int|
                0 <= i < skv.len() ==> -(params.q as int) < #[trigger] skv[i] < params.q as int)
                && (forall|i: int|
                0 <= i < ctv.len() ==> -(params.q as int) < #[trigger] ctv[i] < params.q as int)
                ==> r is Ok,
        (r == Err::<String, crate::codec::CryptoError>(
            crate::codec::CryptoError::DimensionMismatch,
        )) <==> dimension_mismatch(
            sk_base64@,
            ciphertext_base64@,
            params.q as int,
            params.n as int,
        ),
        r == Err::<String, crate::codec::CryptoError>(
            crate::codec::CryptoError::MalformedEncoding,
        ) ==> forall|skv: Seq<int>, ctv: Seq<int>|
            sk_base64@ == crate::codec::b64_of(#[trigger] crate::codec::enc_data(skv))
                && ciphertext_base64@ == crate::codec::b64_of(
                #[trigger] crate::codec::enc_data(ctv),
            ) && crate::codec::fits_i64(skv) && crate::codec::fits_i64(ctv) && skv.len()
                == params.n && (ctv.len() as int) % (2 * params.n as int) == 0 ==> ((exists|i: int|
                #[trigger] crate::codec::coeff_out_of_range(skv, params.q as int, i)) || (exists|
                i: int,
            |
                #[trigger] crate::codec::coeff_out_of_range(ctv, params.q as int, i))),
{
    let n = params.n;
    let q = params.q;
    proof {
        assert(n <= 0x0100_0000);
        assert(3 <= q);
    }
    let sk_arr = match crate::codec::decompress(sk_base64.as_str()) {
        Some(v) => v,
        None => {
            proof {
                // nothing in i64 range encodes to the key string at all
                assert forall|skv: Seq<int>|
                    sk_base64@ == crate::codec::b64_of(#[trigger] crate::codec::enc_data(skv))
                        && crate::codec::fits_i64(skv) implies false by {}
                assert forall|skv: Seq<int>|
                    sk_base64@ == crate::codec::b64_of(#[trigger] crate::codec::enc_data(skv)) && (
                    forall|i2: int|
                        0 <= i2 < skv.len() ==> -(params.q as int) < #[trigger] skv[i2]
                            < params.q as int) implies false by {
                    assert(crate::codec::fits_i64(skv)) by {
                        assert forall|i2: int|
                            0 <= i2 < skv.len() implies i64::MIN <= #[trigger] skv[i2]
                            <= i64::MAX by {
                            assert(-(params.q as int) < skv[i2] < params.q as int);
                        }
                    }
                }
            }
            return Err(crate::codec::CryptoError::MalformedEncoding);
        },
    };
    if sk_arr.len() != n {
        proof {
            let w = crate::nttmul::ints(sk_arr@);
            crate::codec::lemma_ints_fits(sk_arr@);
            assert(sk_base64@ == crate::codec::b64_of(crate::codec::enc_data(w)));
            assert(w.len() != params.n);
            assert forall|skv: Seq<int>|
                sk_base64@ == crate::codec::b64_of(#[trigger] crate::codec::enc_data(skv))
                    && skv.len() == params.n && (forall|i2: int|
                    0 <= i2 < skv.len() ==> -(params.q as int) < #[trigger] skv[i2]
                        < params.q as int) implies false by {
                assert(crate::codec::fits_i64(skv)) by {
                    assert forall|i2: int|
                        0 <= i2 < skv.len() implies i64::MIN <= #[trigger] skv[i2]
                        <= i64::MAX by {
                        assert(-(params.q as int) < skv[i2] < params.q as int);
                    }
                }
                assert(w == skv);
            }
        }
        return Err(crate::codec::CryptoError::DimensionMismatch);
    }
    let mut i: usize = 0;
    while i < n
        invariant
            3 <= q,
            n == params.n,
            q == params.q,
            sk_arr@.len() == n,
            0 <= i <= n,
            forall|v: Seq<int>|
                sk_base64@ == crate::codec::b64_of(#[trigger] crate::codec::enc_data(v))
                    && crate::codec::fits_i64(v) ==> crate::nttmul::ints(sk_arr@) == v,
            forall|k: int| 0 <= k < i ==> -(q as int) < (#[trigger] sk_arr@[k] as int) < q as int,
        decreases n - i,
    {
        let c = sk_arr[i];
        if c <= -q || c >= q {
            proof {
                assert forall|skv: Seq<int>, ctv: Seq<int>|
                    sk_base64@ == crate::codec::b64_of(#[trigger] crate::codec::enc_data(skv))
                        && ciphertext_base64@ == crate::codec::b64_of(
                        #[trigger] crate::codec::enc_data(ctv),
                    ) && skv.len() == params.n && (ctv.len() as int) % (2 * params.n as int) == 0 && (
                    forall|i2: int|
                        0 <= i2 < skv.len() ==> -(params.q as int) < #[trigger] skv[i2]
                            < params.q as int) && (forall|i2: int|
                        0 <= i2 < ctv.len() ==> -(params.q as int) < #[trigger] ctv[i2]
                            < params.q as int) implies false by {
                    assert(crate::codec::fits_i64(skv)) by {
                        assert forall|i2: int|
                            0 <= i2 < skv.len() implies i64::MIN <= #[trigger] skv[i2]
                            <= i64::MAX by {
                            assert(-(params.q as int) < skv[i2] < params.q as int);
                        }
                    }
                    assert(crate::nttmul::ints(sk_arr@) == skv);
                    assert(skv[i as int] == sk_arr@[i as int] as int);
                }
                assert forall|skv: Seq<int>, ctv: Seq<int>|
                    sk_base64@ == crate::codec::b64_of(#[trigger] crate::codec::enc_data(skv))
                        && ciphertext_base64@ == crate::codec::b64_of(
                        #[trigger] crate::codec::enc_data(ctv),
                    ) && crate::codec::fits_i64(skv) && crate::codec::fits_i64(ctv) && skv.len()
                        == params.n && (ctv.len() as int) % (2 * params.n as int) == 0
                    implies ((exists|i2: int|
                        #[trigger] crate::codec::coeff_out_of_range(skv, params.q as int, i2))
                        || (exists|i2: int|
                        #[trigger] crate::codec::coeff_out_of_range(
                            ctv,
                            params.q as int,
                            i2,
                        ))) by {
                    assert(crate::nttmul::ints(sk_arr@) == skv);
                    assert(skv[i as int] == sk_arr@[i as int] as int);
                    assert(crate::codec::coeff_out_of_range(skv, params.q as int, i as int));
                }
                assert(!dimension_mismatch(
                    sk_base64@,
                    ciphertext_base64@,
                    params.q as int,
                    params.n as int,
                )) by {
                    if exists|w: Seq<int>|
                        #![auto]
                        sk_base64@ == crate::codec::b64_of(crate::codec::enc_data(w))
                            && crate::codec::fits_i64(w) && w.len() != params.n {
                        let w = choose|w: Seq<int>|
                            #![auto]
                            sk_base64@ == crate::codec::b64_of(crate::codec::enc_data(w))
                                && crate::codec::fits_i64(w) && w.len() != params.n;
                        assert(crate::nttmul::ints(sk_arr@) == w);
                        assert(false);
                    }
                    if exists|skv: Seq<int>|
                        #![auto]
                        sk_base64@ == crate::codec::b64_of(crate::codec::enc_data(skv))
                            && crate::codec::fits_i64(skv) && skv.len() == params.n && (forall|
                            i3: int,
                        |
                            0 <= i3 < skv.len() ==> -(params.q as int) < #[trigger] skv[i3]
                                < params.q as int) {
                        let skv = choose|skv: Seq<int>|
                            #![auto]
                            sk_base64@ == crate::codec::b64_of(crate::codec::enc_data(skv))
                                && crate::codec::fits_i64(skv) && skv.len() == params.n && (forall|
                                i3: int,
                            |
                                0 <= i3 < skv.len() ==> -(params.q as int) < #[trigger] skv[i3]
                                    < params.q as int);
                        assert(crate::nttmul::ints(sk_arr@) == skv);
                        assert(skv[i as int] == sk_arr@[i as int] as int);
                        assert(false);
                    }
                }
            }
            return Err(crate::codec::CryptoError::MalformedEncoding);
        }
        i += 1;
    }
    let sk = Poly { coeffs: sk_arr };
    proof {
        assert(sk@ =~= crate::nttmul::ints(sk.coeffs@));
        assert forall|v: Seq<int>|
            sk_base64@ == crate::codec::b64_of(#[trigger] crate::codec::enc_data(v))
                && crate::codec::fits_i64(v) implies v == sk@ by {}
    }
    let ct_arr = match crate::codec::decompress(ciphertext_base64.as_str()) {
        Some(v) => v,
        None => {
            proof {
                // nothing in i64 range encodes to the ciphertext string at all
                assert forall|ctv: Seq<int>|
                    ciphertext_base64@ == crate::codec::b64_of(
                        #[trigger] crate::codec::enc_data(ctv),
                    ) && crate::codec::fits_i64(ctv) implies false by {}
                assert forall|ctv: Seq<int>|
                    ciphertext_base64@ == crate::codec::b64_of(
                        #[trigger] crate::codec::enc_data(ctv),
                    ) && (forall|i2: int|
                        0 <= i2 < ctv.len() ==> -(params.q as int) < #[trigger] ctv[i2]
                            < params.q as int) implies false by {
                    assert(crate::codec::fits_i64(ctv)) by {
                        assert forall|i2: int|
                            0 <= i2 < ctv.len() implies i64::MIN <= #[trigger] ctv[i2]
                            <= i64::MAX by {
                            assert(-(params.q as int) < ctv[i2] < params.q as int);
                        }
                    }
                }
            }
            return Err(crate::codec::CryptoError::MalformedEncoding);
        },
    };
    let clen = ct_arr.len();
    let two_n = 2 * n;
    if clen % two_n != 0 {
        proof {
            let w = crate::nttmul::ints(ct_arr@);
            crate::codec::lemma_ints_fits(ct_arr@);
            assert(ciphertext_base64@ == crate::codec::b64_of(crate::codec::enc_data(w)));
            assert((w.len() as int) % (2 * params.n as int) != 0);
            assert forall|ctv: Seq<int>|
                ciphertext_base64@ == crate::codec::b64_of(#[trigger] crate::codec::enc_data(ctv))
                    && (ctv.len() as int) % (2 * params.n as int) == 0 && (forall|i2: int|
                    0 <= i2 < ctv.len() ==> -(params.q as int) < #[trigger] ctv[i2]
                        < params.q as int) implies false by {
                assert(crate::codec::fits_i64(ctv)) by {
                    assert forall|i2: int|
                        0 <= i2 < ctv.len() implies i64::MIN <= #[trigger] ctv[i2]
                        <= i64::MAX by {
                        assert(-(params.q as int) < ctv[i2] < params.q as int);
                    }
                }
                assert(w == ctv);
            }
        }
        return Err(crate::codec::CryptoError::DimensionMismatch);
    }
    let mut i2: usize = 0;
    while i2 < clen
        invariant
            3 <= q,
            q == params.q,
            n == params.n,
            sk@.len() == n,
            forall|v: Seq<int>|
                sk_base64@ == crate::codec::b64_of(#[trigger] crate::codec::enc_data(v))
                    && crate::codec::fits_i64(v) ==> v == sk@,
            (ct_arr@.len() as int) % (2 * params.n as int) == 0,
            ct_arr@.len() == clen,
            0 <= i2 <= clen,
            forall|v: Seq<int>|
                ciphertext_base64@ == crate::codec::b64_of(#[trigger] crate::codec::enc_data(v))
                    && crate::codec::fits_i64(v) ==> crate::nttmul::ints(ct_arr@) == v,
            forall|k: int| 0 <= k < i2 ==> -(q as int) < (#[trigger] ct_arr@[k] as int) < q as int,
        decreases clen - i2,
    {
        let c = ct_arr[i2];
        if c <= -q || c >= q {
            proof {
                assert forall|skv: Seq<int>, ctv: Seq<int>|
                    sk_base64@ == crate::codec::b64_of(#[trigger] crate::codec::enc_data(skv))
                        && ciphertext_base64@ == crate::codec::b64_of(
                        #[trigger] crate::codec::enc_data(ctv),
                    ) && skv.len() == params.n && (ctv.len() as int) % (2 * params.n as int) == 0 && (
                    forall|i3: int|
                        0 <= i3 < skv.len() ==> -(params.q as int) < #[trigger] skv[i3]
                            < params.q as int) && (forall|i3: int|
                        0 <= i3 < ctv.len() ==> -(params.q as int) < #[trigger] ctv[i3]
                            < params.q as int) implies false by {
                    assert(crate::codec::fits_i64(ctv)) by {
                        assert forall|i3: int|
                            0 <= i3 < ctv.len() implies i64::MIN <= #[trigger] ctv[i3]
                            <= i64::MAX by {
                            assert(-(params.q as int) < ctv[i3] < params.q as int);
                        }
                    }
                    assert(crate::nttmul::ints(ct_arr@) == ctv);
                    assert(ctv[i2 as int] == ct_arr@[i2 as int] as int);
                }
                assert forall|skv: Seq<int>, ctv: Seq<int>|
                    sk_base64@ == crate::codec::b64_of(#[trigger] crate::codec::enc_data(skv))
                        && ciphertext_base64@ == crate::codec::b64_of(
                        #[trigger] crate::codec::enc_data(ctv),
                    ) && crate::codec::fits_i64(skv) && crate::codec::fits_i64(ctv) && skv.len()
                        == params.n && (ctv.len() as int) % (2 * params.n as int) == 0
                    implies ((exists|i3: int|
                        #[trigger] crate::codec::coeff_out_of_range(skv, params.q as int, i3))
                        || (exists|i3: int|
                        #[trigger] crate::codec::coeff_out_of_range(
                            ctv,
                            params.q as int,
                            i3,
                        ))) by {
                    assert(crate::nttmul::ints(ct_arr@) == ctv);
                    assert(ctv[i2 as int] == ct_arr@[i2 as int] as int);
                    assert(crate::codec::coeff_out_of_range(ctv, params.q as int, i2 as int));
                }
                assert(!dimension_mismatch(
                    sk_base64@,
                    ciphertext_base64@,
                    params.q as int,
                    params.n as int,
                )) by {
                    if exists|w: Seq<int>|
                        #![auto]
                        sk_base64@ == crate::codec::b64_of(crate::codec::enc_data(w))
                            && crate::codec::fits_i64(w) && w.len() != params.n {
                        let w = choose|w: Seq<int>|
                            #![auto]
                            sk_base64@ == crate::codec::b64_of(crate::codec::enc_data(w))
                                && crate::codec::fits_i64(w) && w.len() != params.n;
                        assert(w == sk@);
                        assert(false);
                    }
                    if exists|w: Seq<int>|
                        #![auto]
                        ciphertext_base64@ == crate::codec::b64_of(crate::codec::enc_data(w))
                            && crate::codec::fits_i64(w) && (w.len() as int) % (2
                            * params.n as int) != 0 {
                        let w = choose|w: Seq<int>|
                            #![auto]
                            ciphertext_base64@ == crate::codec::b64_of(crate::codec::enc_data(w))
                                && crate::codec::fits_i64(w) && (w.len() as int) % (2
                                * params.n as int) != 0;
                        assert(crate::nttmul::ints(ct_arr@) == w);
                        assert(false);
                    }
                }
            }
            return Err(crate::codec::CryptoError::MalformedEncoding);
        }
        i2 += 1;
    }
    let num_blocks = clen / two_n;
    let ghost skv = crate::nttmul::ints(sk.coeffs@);
    let ghost ctv = crate::nttmul::ints(ct_arr@);
    let ghost qi = q as int;
    let ghost ti = params.t as int;
    let ghost ni = n as int;
    proof {
        assert(two_n * (num_blocks as int) == clen) by (nonlinear_arith)
            requires
                num_blocks as int == clen as int / (two_n as int),
                clen as int % (two_n as int) == 0,
                two_n as int >= 1,
                clen >= 0,
        ;
        assert(sk@ =~= skv);
    }
    let mut decrypted_bits: Vec<i64> = Vec::new();
    let mut blk: usize = 0;
    let mut pos: usize = 0;
    while blk < num_blocks
        invariant
            params.valid(),
            params.t == 2,
            n == params.n,
            q == params.q,
            qi == q as int,
            ti == params.t as int,
            ni == n as int,
            sk@.len() == n,
            sk@ == skv,
            forall|k: int| 0 <= k < n ==> -(q as int) < #[trigger] sk@[k] < q as int,
            ct_arr@.len() == clen,
            ctv == crate::nttmul::ints(ct_arr@),
            forall|k: int| 0 <= k < clen ==> -(q as int) < (#[trigger] ct_arr@[k] as int) < q as int,
            two_n == 2 * n,
            two_n * (num_blocks as int) == clen,
            0 <= blk <= num_blocks,
            pos == 2 * blk * n,
            pos <= clen,
            decrypted_bits@.len() == blk * n,
            crate::nttmul::ints(decrypted_bits@) == blocks_bits(skv, ctv, qi, ti, ni, blk as int),
            forall|k: int|
                0 <= k < decrypted_bits@.len() ==> 0 <= #[trigger] decrypted_bits@[k] <= 1,
        decreases num_blocks - blk,
    {
        proof {
            assert(2 * (blk + 1) * ni == 2 * blk * ni + 2 * ni && (2 * blk + 1) * ni == 2 * blk
                * ni + ni && (2 * blk + 2) * ni == 2 * blk * ni + 2 * ni) by (nonlinear_arith);
            assert(2 * (blk + 1) * ni <= two_n * (num_blocks as int)) by (nonlinear_arith)
                requires
                    blk + 1 <= num_blocks,
                    two_n == 2 * ni,
                    ni >= 1,
            ;
        }
        let mut c0v: Vec<i64> = Vec::new();
        let mut a: usize = 0;
        while a < n
            invariant
                0 <= a <= n,
                pos + 2 * n <= clen,
                ct_arr@.len() == clen,
                c0v@.len() == a,
                forall|k: int| 0 <= k < a ==> c0v@[k] == ct_arr@[pos + k],
            decreases n - a,
        {
            c0v.push(ct_arr[pos + a]);
            a += 1;
        }
        let mut c1v: Vec<i64> = Vec::new();
        let mut b: usize = 0;
        while b < n
            invariant
                0 <= b <= n,
                pos + 2 * n <= clen,
                ct_arr@.len() == clen,
                c1v@.len() == b,
                forall|k: int| 0 <= k < b ==> c1v@[k] == ct_arr@[pos + n + k],
            decreases n - b,
        {
            c1v.push(ct_arr[pos + n + b]);
            b += 1;
        }
        let ct = [Poly { coeffs: c0v }, Poly { coeffs: c1v }];
        proof {
            assert(ct@[0]@ =~= ctv.subrange(2 * (blk as int) * ni, (2 * (blk as int) + 1) * ni));
            assert(ct@[1]@ =~= ctv.subrange(
                (2 * (blk as int) + 1) * ni,
                (2 * (blk as int) + 2) * ni,
            ));
        }
        let dec = decrypt(&sk, &ct, params);
        let ghost old_bits = decrypted_bits@;
        let mut m: usize = 0;
        while m < n
            invariant
                0 <= m <= n,
                dec@.len() == n,
                forall|k: int| 0 <= k < dec@.len() ==> 0 <= #[trigger] dec@[k] < 2,
                decrypted_bits@.len() == old_bits.len() + m,
                decrypted_bits@.subrange(0, old_bits.len() as int) == old_bits,
                forall|k: int|
                    0 <= k < m ==> decrypted_bits@[old_bits.len() + k] as int == dec@[k],
            decreases n - m,
        {
            decrypted_bits.push(dec.coeffs[m]);
            m += 1;
            proof {
                assert(decrypted_bits@.subrange(0, old_bits.len() as int) =~= old_bits);
            }
        }
        proof {
            let bspec = decrypt_block_spec(
                skv,
                ctv.subrange(2 * (blk as int) * ni, (2 * (blk as int) + 1) * ni),
                ctv.subrange((2 * (blk as int) + 1) * ni, (2 * (blk as int) + 2) * ni),
                qi,
                ti,
                ni,
            );
            assert forall|m2: int| 0 <= m2 < ni implies pad_to(bspec, ni)[m2] == dec@[m2] by {
                assert(crate::arith::padded(bspec, m2) == crate::arith::padded(dec@, m2));
            }
            assert forall|m2: int| 0 <= m2 < old_bits.len() implies decrypted_bits@[m2]
                == old_bits[m2] by {
                assert(decrypted_bits@.subrange(0, old_bits.len() as int)[m2]
                    == decrypted_bits@[m2]);
            }
            assert(crate::nttmul::ints(decrypted_bits@) =~= blocks_bits(
                skv,
                ctv,
                qi,
                ti,
                ni,
                blk + 1,
            ));
            assert((blk + 1) * ni == blk * ni + ni) by (nonlinear_arith);
            assert forall|k: int|
                0 <= k < decrypted_bits@.len() implies 0 <= #[trigger] decrypted_bits@[k]
                <= 1 by {
                if k < old_bits.len() {
                    assert(decrypted_bits@[k] == old_bits[k]);
                } else {
                    assert(decrypted_bits@[k] as int == dec@[k - old_bits.len()]);
                }
            }
        }
        pos = pos + two_n;
        blk += 1;
    }
    proof {
        let nbi = num_blocks as int;
        assert(n as int == 8 * (n as int / 8));
        assert((blk as int) * (n as int) == 8 * ((n as int / 8) * nbi)) by (nonlinear_arith)
            requires
                blk == num_blocks,
                n as int == 8 * (n as int / 8),
                nbi == num_blocks as int,
        ;
        vstd::arithmetic::div_mod::lemma_mod_multiples_basic((n as int / 8) * nbi, 8);
        assert(decrypted_bits@.len() % 8 == 0);
    }
    let out = crate::bits::bits_to_string(&decrypted_bits);
    proof {
        assert(crate::nttmul::ints(decrypted_bits@) == blocks_bits(
            skv,
            ctv,
            qi,
            ti,
            ni,
            clen as int / (2 * ni),
        )) by {
            assert(num_blocks as int == clen as int / (2 * ni));
        }
        crate::codec::lemma_ints_fits(sk.coeffs@);
        crate::codec::lemma_ints_fits(ct_arr@);
        assert(decodes_to(sk_base64@, ciphertext_base64@, skv, ctv, ni));
        assert forall|skv2: Seq<int>, ctv2: Seq<int>|
            #[trigger] decodes_to(
                sk_base64@,
                ciphertext_base64@,
                skv2,
                ctv2,
                params.n as int,
            ) implies out@ == crate::bits::trim_nuls(
            crate::bits::bits_to_chars(
                blocks_bits(
                    skv2,
                    ctv2,
                    params.q as int,
                    params.t as int,
                    params.n as int,
                    ctv2.len() as int / (2 * params.n as int),
                ),
            ),
        ) by {
            assert(skv2 == skv);
            assert(ctv2 == ctv);
        }
    }
    Ok(out)
}


} // verus!
