//! Key generation for the RLWE scheme.
use crate::arith::poly_eq;
use crate::arith::polyadd;
use crate::arith::polyadd_spec;
use crate::arith::polyinv;
use crate::arith::polyinv_spec;
use crate::arith::polymul_spec;
use crate::arith::Poly;
use crate::nttmul::lemma_np2_of_pow2;
use crate::nttmul::lemma_polyadd_spec_respects;
use crate::nttmul::polymul_fast;
use crate::params::Parameters;
use crate::sample::gen_ternary_poly;
use crate::sample::gen_uniform_poly;
use crate::sample::is_ternary;
use crate::sample::seeded_ternary;
use crate::sample::seeded_uniform;
use vstd::arithmetic::div_mod::lemma_fundamental_div_mod_converse;
use vstd::prelude::*;

verus! {

/// A public key `(b, a)` stands in the key relation to a secret key `sk`
/// when `b = (-a) * sk + (-e) (mod q, x^n + 1)` for some ternary error `e`.
pub open spec fn key_relation(b: Seq<int>, a: Seq<int>, sk: Seq<int>, q: int, n: int) -> bool {
    exists|e: Seq<int>|
        #![auto]
        {
            &&& is_ternary(e)
            &&& e.len() == n
            &&& poly_eq(
                b,
                polyadd_spec(
                    polymul_spec(polyinv_spec(a, q), sk, q, n),
                    polyinv_spec(e, q),
                    q,
                    n,
                ),
            )
        }
}

/// In a valid parameter set, a sum of two length-`n` polynomials needs only
/// two fold blocks, whose size bound is far below `i64`.
pub(crate) proof fn lemma_two_block_bound(n: int, q: int)
    requires
        2 <= n,
        3 <= q,
        q * q <= i64::MAX as int / 4,
    ensures
        crate::arith::num_blocks(2 * n, n) * q <= i64::MAX as int,
{
    lemma_fundamental_div_mod_converse(2 * n + n - 1, n, 2, n - 1);
    assert(crate::arith::num_blocks(2 * n, n) == 2);
    assert(2 * q <= q * q) by (nonlinear_arith)
        requires
            q >= 2,
    ;
}

/// Generate a key pair: a ternary secret `sk` and a public key
/// `pk = (b, a)` with `a` uniform and `b = (-a) * sk - e` in `R_q`.  With a
/// seed, all three draws are pinned functions of it (the secret and the
/// error share the stream, as each sampler reseeds afresh), so two seeded
/// calls agree: exactly on `sk` and `a`, and up to trailing zeros on `b`.
pub fn keygen(params: &Parameters, seed: Option<u64>) -> (r: ([Poly; 2], Poly))
    requires
        params.valid(),
    ensures
        r.1@.len() == params.n,
        is_ternary(r.1@),
        r.0@[0]@.len() == params.n,
        r.0@[1]@.len() == params.n,
        forall|i: int|
            0 <= i < params.n ==> -(params.q as int) / 2 < #[trigger] r.0@[0]@[i] <= (
            params.q as int) / 2,
        forall|i: int|
            0 <= i < params.n ==> -(params.q as int) / 2 < #[trigger] r.0@[1]@[i] <= (
            params.q as int) / 2,
        key_relation(r.0@[0]@, r.0@[1]@, r.1@, params.q as int, params.n as int),
        seed matches Some(sd) ==> {
            &&& r.1@ == seeded_ternary(sd, params.n as int)
            &&& r.0@[1]@ == seeded_uniform(sd, params.q, params.n as int)
            &&& poly_eq(
                r.0@[0]@,
                polyadd_spec(
                    polymul_spec(
                        polyinv_spec(
                            seeded_uniform(sd, params.q, params.n as int),
                            params.q as int,
                        ),
                        seeded_ternary(sd, params.n as int),
                        params.q as int,
                        params.n as int,
                    ),
                    polyinv_spec(seeded_ternary(sd, params.n as int), params.q as int),
                    params.q as int,
                    params.n as int,
                ),
            )
        },
{
    let n = params.n;
    let q = params.q;
    let sk = gen_ternary_poly(n, seed);
    let a = gen_uniform_poly(n, q, seed);
    let e = gen_ternary_poly(n, seed);
    let a_inv = polyinv(&a, q);
    proof {
        lemma_np2_of_pow2(n as int);
        lemma_two_block_bound(n as int, q as int);
        assert forall|i: int| 0 <= i < a_inv@.len() implies -(q as int) < #[trigger] a_inv@[i]
            < q as int by {
            assert(a_inv@[i] == crate::arith::bal(crate::arith::negv(a@)[i], q as int));
        }
    }
    let t = polymul_fast(&a_inv, &sk, q, &params.f, params.omega);
    let e_inv = polyinv(&e, q);
    proof {
        assert forall|i: int|
            i64::MIN <= #[trigger] crate::arith::padded(t@, i) + crate::arith::padded(
                e_inv@,
                i,
            ) <= i64::MAX by {
            if 0 <= i < t@.len() {
            }
            if 0 <= i < e_inv@.len() {
                assert(e_inv@[i] == crate::arith::bal(crate::arith::negv(e@)[i], q as int));
            }
        }
    }
    let b = polyadd(&t, &e_inv, q, &params.f);
    proof {
        let qi = q as int;
        let ni = n as int;
        let pm = polymul_spec(polyinv_spec(a@, qi), sk@, qi, ni);
        lemma_polyadd_spec_respects(t@, pm, e_inv@, qi, ni);
        assert(poly_eq(b@, polyadd_spec(pm, polyinv_spec(e@, qi), qi, ni)));
        assert(b@.len() == ni);
    }
    ([b, a], sk)
}

/// Generate a key pair and return both keys as base64-encoded coefficient
/// vectors: the public key as `b`'s coefficients followed by `a`'s (length
/// `2n`), the secret key as `sk`'s coefficients (length `n`).
pub fn keygen_string(params: &Parameters, seed: Option<u64>) -> (r: crate::models::KeygenResponse)
    requires
        params.valid(),
    ensures
        exists|b: Seq<int>, a: Seq<int>, sk: Seq<int>|
            #![auto]
            {
                &&& key_relation(b, a, sk, params.q as int, params.n as int)
                &&& is_ternary(sk)
                &&& sk.len() == params.n
                &&& b.len() == params.n
                &&& a.len() == params.n
                &&& forall|i: int|
                    0 <= i < params.n ==> -(params.q as int) / 2 < #[trigger] b[i] <= (
                    params.q as int) / 2
                &&& forall|i: int|
                    0 <= i < params.n ==> -(params.q as int) / 2 < #[trigger] a[i] <= (
                    params.q as int) / 2
                &&& r.secret_key@ == crate::codec::b64_of(crate::codec::enc_data(sk))
                &&& r.public_key@ == crate::codec::b64_of(crate::codec::enc_data(b + a))
            },
{
    let (pk, sk) = keygen(params, seed);
    let n = params.n;
    let mut pk_coeffs: Vec<i64> = Vec::new();
    let mut i: usize = 0;
    while i < n
        invariant
            0 <= i <= n,
            pk@[0]@.len() == n,
            pk@[1]@.len() == n,
            pk_coeffs@.len() == i,
            forall|k: int| 0 <= k < i ==> pk_coeffs@[k] as int == pk@[0]@[k],
        decreases n - i,
    {
        pk_coeffs.push(pk[0].coeffs[i]);
        i += 1;
    }
    let mut j: usize = 0;
    while j < n
        invariant
            0 <= j <= n,
            pk@[0]@.len() == n,
            pk@[1]@.len() == n,
            pk_coeffs@.len() == n + j,
            forall|k: int| 0 <= k < n ==> pk_coeffs@[k] as int == pk@[0]@[k],
            forall|k: int| 0 <= k < j ==> pk_coeffs@[n + k] as int == pk@[1]@[k],
        decreases n - j,
    {
        pk_coeffs.push(pk[1].coeffs[j]);
        j += 1;
    }
    proof {
        assert(crate::nttmul::ints(pk_coeffs@) =~= pk@[0]@ + pk@[1]@);
        assert(crate::nttmul::ints(sk.coeffs@) =~= sk@);
    }
    let secret = crate::codec::compress(&sk.coeffs);
    let public = crate::codec::compress(&pk_coeffs);
    crate::models::KeygenResponse { public_key: public, secret_key: secret }
}

} // verus!
