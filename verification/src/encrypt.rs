//! Encryption for the RLWE scheme.
use crate::arith::balv;
use crate::arith::padded;
use crate::arith::poly_eq;
use crate::arith::polyadd;
use crate::arith::polyadd_spec;
use crate::arith::polymul_spec;
use crate::arith::Poly;
use crate::nttmul::lemma_np2_of_pow2;
use crate::nttmul::lemma_polyadd_spec_respects;
use crate::nttmul::polymul_fast;
use crate::params::Parameters;
use crate::sample::gen_ternary_poly;
use crate::sample::is_ternary;
use crate::sample::seeded_ternary;
use vstd::prelude::*;

verus! {

/// The plaintext embedded in `R_q`: each coefficient `c` becomes the
/// balanced representative of `c * q / t` (multiply first, then divide, so
/// that nothing is lost when `t` does not divide `q`).
pub open spec fn scale_spec(m: Seq<int>, q: int, t: int) -> Seq<int> {
    balv(Seq::new(m.len(), |i: int| m[i] * q / t), q)
}

/// A ciphertext `(c0, c1)` encrypts `m` under `pk = (b, a)` when
/// `c0 = b*u + e1 + scale(m)` and `c1 = a*u + e2` in `R_q` for some ternary
/// `u`, `e1`, `e2`.
pub open spec fn encrypt_relation(
    c0: Seq<int>,
    c1: Seq<int>,
    b: Seq<int>,
    a: Seq<int>,
    m: Seq<int>,
    q: int,
    t: int,
    n: int,
) -> bool {
    exists|u: Seq<int>, e1: Seq<int>, e2: Seq<int>|
        #![auto]
        {
            &&& is_ternary(u) && u.len() == n
            &&& is_ternary(e1) && e1.len() == n
            &&& is_ternary(e2) && e2.len() == n
            &&& poly_eq(
                c0,
                polyadd_spec(
                    polyadd_spec(polymul_spec(b, u, q, n), e1, q, n),
                    scale_spec(m, q, t),
                    q,
                    n,
                ),
            )
            &&& poly_eq(c1, polyadd_spec(polymul_spec(a, u, q, n), e2, q, n))
        }
}

/// Scale a plaintext polynomial into `R_q`.
fn scale_plaintext(m: &Poly, q: i64, t: i64) -> (r: Poly)
    requires
        3 <= q,
        1 <= t <= q,
        (q as int) * (q as int) <= i64::MAX as int / 4,
        forall|i: int| 0 <= i < m@.len() ==> 0 <= #[trigger] m@[i] < t,
    ensures
        r@ == scale_spec(m@, q as int, t as int),
        r@.len() == m@.len(),
        forall|i: int| 0 <= i < r@.len() ==> -(q as int) / 2 < #[trigger] r@[i] <= (q as int) / 2,
{
    let len = m.coeffs.len();
    let mut out: Vec<i64> = Vec::new();
    let mut i: usize = 0;
    while i < len
        invariant
            3 <= q,
            1 <= t <= q,
            (q as int) * (q as int) <= i64::MAX as int / 4,
            forall|i: int| 0 <= i < m@.len() ==> 0 <= #[trigger] m@[i] < t,
            len == m.coeffs@.len(),
            0 <= i <= len,
            out@.len() == i,
            forall|k: int| 0 <= k < i ==> out@[k] as int == m@[k] * (q as int) / (t as int),
        decreases len - i,
    {
        let c = m.coeffs[i];
        proof {
            assert(c as int == m@[i as int]);
            assert(0 <= (c as int) * (q as int) <= (q as int) * (q as int)) by (nonlinear_arith)
                requires
                    0 <= c as int,
                    (c as int) < (t as int),
                    (t as int) <= (q as int),
                    3 <= q as int,
            ;
        }
        let s = c * q / t;
        out.push(s);
        i += 1;
    }
    let raw = Poly { coeffs: out };
    let r = crate::arith::mod_coeffs(&raw, q);
    proof {
        assert(r@ =~= scale_spec(m@, q as int, t as int));
    }
    r
}

/// Encrypt a plaintext polynomial with coefficients in `{0, ..., t-1}` under
/// the public key `pk = (b, a)`, producing a ciphertext `(c0, c1)` in
/// `R_q x R_q`.  With a seed, the three noise draws are the same pinned
/// ternary polynomial (each sampler reseeds afresh), so two seeded calls
/// agree up to trailing zeros.
pub fn encrypt(pk: &[Poly; 2], m: &Poly, params: &Parameters, seed: Option<u64>) -> (r: [Poly; 2])
    requires
        params.valid(),
        pk@[0]@.len() == params.n,
        pk@[1]@.len() == params.n,
        forall|i: int|
            0 <= i < params.n ==> -(params.q as int) < #[trigger] pk@[0]@[i] < params.q as int,
        forall|i: int|
            0 <= i < params.n ==> -(params.q as int) < #[trigger] pk@[1]@[i] < params.q as int,
        m@.len() <= params.n,
        forall|i: int| 0 <= i < m@.len() ==> 0 <= #[trigger] m@[i] < params.t,
    ensures
        r@[0]@.len() == params.n,
        r@[1]@.len() == params.n,
        forall|i: int|
            0 <= i < params.n ==> -(params.q as int) / 2 < #[trigger] r@[0]@[i] <= (
            params.q as int) / 2,
        forall|i: int|
            0 <= i < params.n ==> -(params.q as int) / 2 < #[trigger] r@[1]@[i] <= (
            params.q as int) / 2,
        encrypt_relation(
            r@[0]@,
            r@[1]@,
            pk@[0]@,
            pk@[1]@,
            m@,
            params.q as int,
            params.t as int,
            params.n as int,
        ),
        seed matches Some(sd) ==> {
            &&& poly_eq(
                r@[0]@,
                polyadd_spec(
                    polyadd_spec(
                        polymul_spec(
                            pk@[0]@,
                            seeded_ternary(sd, params.n as int),
                            params.q as int,
                            params.n as int,
                        ),
                        seeded_ternary(sd, params.n as int),
                        params.q as int,
                        params.n as int,
                    ),
                    scale_spec(m@, params.q as int, params.t as int),
                    params.q as int,
                    params.n as int,
                ),
            )
            &&& poly_eq(
                r@[1]@,
                polyadd_spec(
                    polymul_spec(
                        pk@[1]@,
                        seeded_ternary(sd, params.n as int),
                        params.q as int,
                        params.n as int,
                    ),
                    seeded_ternary(sd, params.n as int),
                    params.q as int,
                    params.n as int,
                ),
            )
        },
{
    let n = params.n;
    let q = params.q;
    let t = params.t;
    let ghost qi = q as int;
    let ghost ni = n as int;
    let scaled_m = scale_plaintext(m, q, t);
    let e1 = gen_ternary_poly(n, seed);
    let e2 = gen_ternary_poly(n, seed);
    let u = gen_ternary_poly(n, seed);
    proof {
        lemma_np2_of_pow2(ni);
        crate::keygen::lemma_two_block_bound(ni, qi);
    }
    let t0 = polymul_fast(&pk[0], &u, q, &params.f, params.omega);
    let s1 = polyadd(&t0, &e1, q, &params.f);
    let c0 = polyadd(&s1, &scaled_m, q, &params.f);
    let t1 = polymul_fast(&pk[1], &u, q, &params.f, params.omega);
    let c1 = polyadd(&t1, &e2, q, &params.f);
    proof {
        let pm0 = polymul_spec(pk@[0]@, u@, qi, ni);
        let pm1 = polymul_spec(pk@[1]@, u@, qi, ni);
        lemma_polyadd_spec_respects(t0@, pm0, e1@, qi, ni);
        assert(poly_eq(s1@, polyadd_spec(pm0, e1@, qi, ni)));
        lemma_polyadd_spec_respects(s1@, polyadd_spec(pm0, e1@, qi, ni), scaled_m@, qi, ni);
        assert(poly_eq(
            c0@,
            polyadd_spec(polyadd_spec(pm0, e1@, qi, ni), scale_spec(m@, qi, t as int), qi, ni),
        ));
        lemma_polyadd_spec_respects(t1@, pm1, e2@, qi, ni);
        assert(poly_eq(c1@, polyadd_spec(pm1, e2@, qi, ni)));
        assert(c0@.len() == ni);
        assert(c1@.len() == ni);
    }
    [c0, c1]
}

/// Chunk `blk` of a bitstream, `n` bits per chunk; the last chunk may be
/// shorter.
pub open spec fn chunk(bits: Seq<int>, blk: int, n: int) -> Seq<int> {
    bits.subrange(
        blk * n,
        if (blk + 1) * n <= bits.len() {
            (blk + 1) * n
        } else {
            bits.len() as int
        },
    )
}

/// Encrypt each length-`n` chunk of a bitstream under `pk` and concatenate
/// the ciphertext coefficients: per block, `c0`'s `n` coefficients followed
/// by `c1`'s.
fn encrypt_blocks(pk: &[Poly; 2], bits: &Vec<i64>, params: &Parameters, seed: Option<u64>) -> (r:
    Vec<i64>)
    requires
        params.valid(),
        pk@[0]@.len() == params.n,
        pk@[1]@.len() == params.n,
        forall|i: int|
            0 <= i < params.n ==> -(params.q as int) < #[trigger] pk@[0]@[i] < params.q as int,
        forall|i: int|
            0 <= i < params.n ==> -(params.q as int) < #[trigger] pk@[1]@[i] < params.q as int,
        2 <= params.t,
        forall|i: int| 0 <= i < bits@.len() ==> 0 <= #[trigger] bits@[i] <= 1,
        bits@.len() <= 0x1000_0000,
    ensures
        r@.len() == 2 * params.n * crate::arith::num_blocks(bits@.len() as int, params.n as int),
        forall|i: int|
            0 <= i < r@.len() ==> -(params.q as int) / 2 < (#[trigger] r@[i] as int) <= (
            params.q as int) / 2,
        forall|blk: int|
            0 <= blk < crate::arith::num_blocks(bits@.len() as int, params.n as int)
                ==> encrypt_relation(
                crate::nttmul::ints(r@).subrange(
                    2 * blk * params.n,
                    (2 * blk + 1) * params.n as int,
                ),
                crate::nttmul::ints(r@).subrange(
                    (2 * blk + 1) * params.n as int,
                    (2 * blk + 2) * params.n as int,
                ),
                pk@[0]@,
                pk@[1]@,
                chunk(crate::nttmul::ints(bits@), blk, params.n as int),
                params.q as int,
                params.t as int,
                params.n as int,
            ),
{
    let n = params.n;
    let total = bits.len();
    let ghost bi = crate::nttmul::ints(bits@);
    let ghost nblocks = crate::arith::num_blocks(total as int, n as int);
    let mut out: Vec<i64> = Vec::new();
    let mut start: usize = 0;
    let mut count: usize = 0;
    proof {
        assert(nblocks * (n as int) >= total && nblocks >= 0) by (nonlinear_arith)
            requires
                n as int >= 1,
                nblocks == (total as int + n as int - 1) / (n as int),
                total >= 0,
        ;
    }
    while start < total
        invariant
            params.valid(),
            pk@[0]@.len() == params.n,
            pk@[1]@.len() == params.n,
            forall|i: int|
                0 <= i < params.n ==> -(params.q as int) < #[trigger] pk@[0]@[i] < params.q as int,
            forall|i: int|
                0 <= i < params.n ==> -(params.q as int) < #[trigger] pk@[1]@[i] < params.q as int,
            2 <= params.t,
            forall|i: int| 0 <= i < bits@.len() ==> 0 <= #[trigger] bits@[i] <= 1,
            n == params.n,
            total == bits@.len(),
            total <= 0x1000_0000,
            bi == crate::nttmul::ints(bits@),
            nblocks == crate::arith::num_blocks(total as int, n as int),
            nblocks * (n as int) >= total,
            0 <= count <= nblocks,
            start <= total,
            start < total ==> start == count * n,
            start == total ==> count * (n as int) >= total,
            start < total ==> count < nblocks,
            out@.len() == 2 * count * n,
            forall|i: int|
                0 <= i < out@.len() ==> -(params.q as int) / 2 < (#[trigger] out@[i] as int) <= (
                params.q as int) / 2,
            forall|blk: int|
                0 <= blk < count ==> encrypt_relation(
                    crate::nttmul::ints(out@).subrange(2 * blk * n, (2 * blk + 1) * n as int),
                    crate::nttmul::ints(out@).subrange(
                        (2 * blk + 1) * n as int,
                        (2 * blk + 2) * n as int,
                    ),
                    pk@[0]@,
                    pk@[1]@,
                    chunk(bi, blk, n as int),
                    params.q as int,
                    params.t as int,
                    params.n as int,
                ),
        decreases total - start,
    {
        let end = if start + n <= total {
            start + n
        } else {
            total
        };
        let mut mv: Vec<i64> = Vec::new();
        let mut i: usize = start;
        while i < end
            invariant
                start <= i <= end,
                end <= total,
                total == bits@.len(),
                forall|k: int| 0 <= k < bits@.len() ==> 0 <= #[trigger] bits@[k] <= 1,
                mv@.len() == i - start,
                forall|k: int| 0 <= k < mv@.len() ==> mv@[k] == bits@[start + k],
            decreases end - i,
        {
            mv.push(bits[i]);
            i += 1;
        }
        let m = Poly { coeffs: mv };
        proof {
            assert((count + 1) * (n as int) == count * (n as int) + (n as int)) by (nonlinear_arith);
            assert(m@ =~= chunk(bi, count as int, n as int));
            assert(m@.len() <= n);
            assert forall|k: int| 0 <= k < m@.len() implies 0 <= #[trigger] m@[k]
                < params.t by {
                assert(m@[k] == bits@[start + k] as int);
            }
        }
        let ct = encrypt(pk, &m, params, seed);
        let ghost old_out = out@;
        let mut a: usize = 0;
        while a < n
            invariant
                0 <= a <= n,
                ct@[0]@.len() == n,
                ct@[1]@.len() == n,
                out@.len() == old_out.len() + a,
                out@.subrange(0, old_out.len() as int) == old_out,
                forall|k: int| 0 <= k < a ==> out@[old_out.len() + k] as int == ct@[0]@[k],
            decreases n - a,
        {
            out.push(ct[0].coeffs[a]);
            a += 1;
            proof {
                assert(out@.subrange(0, old_out.len() as int) =~= old_out);
            }
        }
        let ghost mid_out = out@;
        let mut bb: usize = 0;
        while bb < n
            invariant
                0 <= bb <= n,
                ct@[0]@.len() == n,
                ct@[1]@.len() == n,
                out@.len() == mid_out.len() + bb,
                out@.subrange(0, mid_out.len() as int) == mid_out,
                forall|k: int| 0 <= k < bb ==> out@[mid_out.len() + k] as int == ct@[1]@[k],
            decreases n - bb,
        {
            out.push(ct[1].coeffs[bb]);
            bb += 1;
            proof {
                assert(out@.subrange(0, mid_out.len() as int) =~= mid_out);
            }
        }
        proof {
            let ni = n as int;
            let ci = count as int;
            let qi = params.q as int;
            let ti = params.t as int;
            let oi = crate::nttmul::ints(out@);
            let o_old = crate::nttmul::ints(old_out);
            assert(2 * (ci + 1) * ni == 2 * ci * ni + 2 * ni && (2 * ci + 1) * ni == 2 * ci * ni
                + ni && (2 * ci + 2) * ni == 2 * ci * ni + 2 * ni) by (nonlinear_arith);
            assert(out@.len() == 2 * (ci + 1) * ni);
            assert forall|m2: int| 0 <= m2 < mid_out.len() implies out@[m2] == mid_out[m2] by {
                assert(out@.subrange(0, mid_out.len() as int)[m2] == out@[m2]);
            }
            assert forall|m2: int| 0 <= m2 < old_out.len() implies out@[m2] == old_out[m2] by {
                assert(out@.subrange(0, mid_out.len() as int)[m2] == out@[m2]);
                assert(mid_out.subrange(0, old_out.len() as int)[m2] == mid_out[m2]);
            }
            assert forall|i3: int|
                0 <= i3 < out@.len() implies -(params.q as int) / 2 < (#[trigger] out@[i3] as int)
                <= (params.q as int) / 2 by {
                if i3 < old_out.len() {
                    assert(out@[i3] == old_out[i3]);
                } else if i3 < mid_out.len() {
                    assert(out@[i3] == mid_out[i3]);
                    assert(mid_out[i3] as int == ct@[0]@[i3 - old_out.len()]);
                } else {
                    assert(out@[i3] as int == ct@[1]@[i3 - mid_out.len()]);
                }
            }
            assert forall|blk: int| 0 <= blk < ci + 1 implies encrypt_relation(
                oi.subrange(2 * blk * ni, (2 * blk + 1) * ni),
                oi.subrange((2 * blk + 1) * ni, (2 * blk + 2) * ni),
                pk@[0]@,
                pk@[1]@,
                chunk(bi, blk, ni),
                qi,
                ti,
                ni,
            ) by {
                assert(0 <= 2 * blk * ni <= (2 * blk + 1) * ni <= (2 * blk + 2) * ni <= 2 * (ci
                    + 1) * ni) by (nonlinear_arith)
                    requires
                        0 <= blk <= ci,
                        ni >= 1,
                ;
                if blk < ci {
                    assert((2 * blk + 2) * ni <= 2 * ci * ni) by (nonlinear_arith)
                        requires
                            0 <= blk < ci,
                            ni >= 1,
                    ;
                    assert(oi.subrange(2 * blk * ni, (2 * blk + 1) * ni) =~= o_old.subrange(
                        2 * blk * ni,
                        (2 * blk + 1) * ni,
                    ));
                    assert(oi.subrange((2 * blk + 1) * ni, (2 * blk + 2) * ni) =~= o_old.subrange(
                        (2 * blk + 1) * ni,
                        (2 * blk + 2) * ni,
                    ));
                } else {
                    assert(oi.subrange(2 * ci * ni, (2 * ci + 1) * ni) =~= ct@[0]@);
                    assert(oi.subrange((2 * ci + 1) * ni, (2 * ci + 2) * ni) =~= ct@[1]@);
                }
            }
        }
        start = end;
        count += 1;
    }
    proof {
        let ni = n as int;
        let ci = count as int;
        assert(ci * ni >= total) by {
            if start < total {
                assert(false);
            }
            if start == count * n {
            }
        }
        assert(total as int + ni - 1 < ni * (ci + 1)) by (nonlinear_arith)
            requires
                ci * ni >= total as int,
                ni >= 1,
                total >= 0,
        ;
        vstd::arithmetic::div_mod::lemma_multiply_divide_lt(total as int + ni - 1, ni, ci + 1);
        assert(nblocks <= ci);
        assert(count == nblocks);
        assert(2 * (params.n as int) * nblocks == 2 * nblocks * (n as int)) by (nonlinear_arith)
            requires
                params.n == n,
        ;
    }
    out
}

/// The key string is the encoding of `pkv`: a length-`2n` coefficient
/// vector in `i64` range.
pub open spec fn decodes_to_key(pk_b64: Seq<char>, pkv: Seq<int>, n: int) -> bool {
    &&& pk_b64 == crate::codec::b64_of(crate::codec::enc_data(pkv))
    &&& crate::codec::fits_i64(pkv)
    &&& pkv.len() == 2 * n
}

/// `out` encodes a blockwise encryption of `msg` under the key vector
/// `pkv = b || a`: one balanced `2n`-coefficient group per `n`-bit chunk of
/// the message's MSB-first bitstream, each in the encryption relation.
pub open spec fn ciphertext_of(
    out: Seq<char>,
    pkv: Seq<int>,
    msg: Seq<char>,
    q: int,
    t: int,
    n: int,
) -> bool {
    exists|cts: Seq<int>|
        #![auto]
        {
            &&& out == crate::codec::b64_of(crate::codec::enc_data(cts))
            &&& cts.len() == 2 * n * crate::arith::num_blocks(
                8 * vstd::utf8::encode_utf8(msg).len() as int,
                n,
            )
            &&& (forall|i: int| 0 <= i < cts.len() ==> -q / 2 < #[trigger] cts[i] <= q / 2)
            &&& (forall|blk: int|
                0 <= blk < crate::arith::num_blocks(
                    8 * vstd::utf8::encode_utf8(msg).len() as int,
                    n,
                ) ==> encrypt_relation(
                    cts.subrange(2 * blk * n, (2 * blk + 1) * n),
                    cts.subrange((2 * blk + 1) * n, (2 * blk + 2) * n),
                    pkv.subrange(0, n),
                    pkv.subrange(n, 2 * n),
                    chunk(crate::bits::msg_bits(vstd::utf8::encode_utf8(msg)), blk, n),
                    q,
                    t,
                    n,
                ))
        }
}

/// Encrypt a message under a base64-encoded public key.  The message's
/// bytes are split into bits (most significant first), chunked into
/// plaintext blocks of `n` bits, and each block is encrypted; the result is
/// the base64 encoding of all ciphertext coefficients.  Fails when the key
/// does not decode, has a length other than `2n`, or holds a coefficient
/// outside `(-q, q)`.
pub fn encrypt_string(
    pk_base64: &String,
    message: &String,
    params: &Parameters,
    seed: Option<u64>,
) -> (r: Result<String, crate::codec::CryptoError>)
    requires
        params.valid(),
        2 <= params.t,
        vstd::utf8::encode_utf8(message@).len() <= 0x0010_0000,
    ensures
        match r {
            Ok(out) => {
                &&& exists|pkv: Seq<int>|
                    #![auto]
                    {
                        &&& decodes_to_key(pk_base64@, pkv, params.n as int)
                        &&& forall|i: int|
                            0 <= i < pkv.len() ==> -(params.q as int) < #[trigger] pkv[i]
                                < params.q as int
                    }
                &&& forall|pkv: Seq<int>|
                    #[trigger] decodes_to_key(pk_base64@, pkv, params.n as int)
                        ==> ciphertext_of(
                        out@,
                        pkv,
                        message@,
                        params.q as int,
                        params.t as int,
                        params.n as int,
                    )
            },
            Err(_) => true,
        },
        forall|pkv: Seq<int>|
            pk_base64@ == crate::codec::b64_of(#[trigger] crate::codec::enc_data(pkv)) && pkv.len()
                == 2 * params.n && (forall|i: int|
                0 <= i < pkv.len() ==> -(params.q as int) < #[trigger] pkv[i] < params.q as int)
                ==> r is Ok,
        (r == Err::<String, crate::codec::CryptoError>(
            crate::codec::CryptoError::DimensionMismatch,
        )) <==> exists|pkv: Seq<int>|
            #![auto]
            {
                &&& pk_base64@ == crate::codec::b64_of(crate::codec::enc_data(pkv))
                &&& crate::codec::fits_i64(pkv)
                &&& pkv.len() != 2 * params.n
            },
        r == Err::<String, crate::codec::CryptoError>(
            crate::codec::CryptoError::MalformedEncoding,
        ) ==> forall|pkv: Seq<int>|
            pk_base64@ == crate::codec::b64_of(#[trigger] crate::codec::enc_data(pkv))
                && crate::codec::fits_i64(pkv) && pkv.len() == 2 * params.n ==> exists|i: int|
                #[trigger] crate::codec::coeff_out_of_range(pkv, params.q as int, i),
{
    let n = params.n;
    let q = params.q;
    proof {
        assert(n <= 0x0100_0000);
        assert(3 <= q);
    }
    let two_n = 2 * n;
    let pk_arr = match crate::codec::decompress(pk_base64.as_str()) {
        Some(v) => v,
        None => {
            proof {
                // nothing in i64 range encodes to this string at all
                assert forall|pkv: Seq<int>|
                    pk_base64@ == crate::codec::b64_of(#[trigger] crate::codec::enc_data(pkv))
                        && crate::codec::fits_i64(pkv) implies false by {}
                assert forall|pkv: Seq<int>|
                    pk_base64@ == crate::codec::b64_of(#[trigger] crate::codec::enc_data(pkv))
                        && pkv.len() == 2 * params.n && (forall|i2: int|
                        0 <= i2 < pkv.len() ==> -(params.q as int) < #[trigger] pkv[i2]
                            < params.q as int) implies false by {
                    assert(crate::codec::fits_i64(pkv)) by {
                        assert forall|i2: int|
                            0 <= i2 < pkv.len() implies i64::MIN <= #[trigger] pkv[i2]
                            <= i64::MAX by {
                            assert(-(params.q as int) < pkv[i2] < params.q as int);
                        }
                    }
                }
            }
            return Err(crate::codec::CryptoError::MalformedEncoding);
        },
    };
    if pk_arr.len() != two_n {
        proof {
            let w = crate::nttmul::ints(pk_arr@);
            crate::codec::lemma_ints_fits(pk_arr@);
            assert(pk_base64@ == crate::codec::b64_of(crate::codec::enc_data(w)));
            assert(w.len() != 2 * params.n);
            assert forall|pkv: Seq<int>|
                pk_base64@ == crate::codec::b64_of(#[trigger] crate::codec::enc_data(pkv))
                    && pkv.len() == 2 * params.n && (forall|i2: int|
                    0 <= i2 < pkv.len() ==> -(params.q as int) < #[trigger] pkv[i2]
                        < params.q as int) implies false by {
                assert(crate::codec::fits_i64(pkv)) by {
                    assert forall|i2: int|
                        0 <= i2 < pkv.len() implies i64::MIN <= #[trigger] pkv[i2]
                        <= i64::MAX by {
                        assert(-(params.q as int) < pkv[i2] < params.q as int);
                    }
                }
                assert(w == pkv);
            }
        }
        return Err(crate::codec::CryptoError::DimensionMismatch);
    }
    let mut i: usize = 0;
    while i < two_n
        invariant
            3 <= q,
            two_n == 2 * n,
            pk_arr@.len() == 2 * n,
            0 <= i <= 2 * n,
            q == params.q,
            n == params.n,
            forall|v: Seq<int>|
                pk_base64@ == crate::codec::b64_of(#[trigger] crate::codec::enc_data(v))
                    && crate::codec::fits_i64(v) ==> crate::nttmul::ints(pk_arr@) == v,
            forall|k: int| 0 <= k < i ==> -(q as int) < (#[trigger] pk_arr@[k] as int) < q as int,
        decreases 2 * n - i,
    {
        let c = pk_arr[i];
        if c <= -q || c >= q {
            proof {
                assert forall|pkv: Seq<int>|
                    pk_base64@ == crate::codec::b64_of(#[trigger] crate::codec::enc_data(pkv))
                        && pkv.len() == 2 * params.n && (forall|i2: int|
                        0 <= i2 < pkv.len() ==> -(params.q as int) < #[trigger] pkv[i2]
                            < params.q as int) implies false by {
                    assert(crate::codec::fits_i64(pkv)) by {
                        assert forall|i2: int|
                            0 <= i2 < pkv.len() implies i64::MIN <= #[trigger] pkv[i2]
                            <= i64::MAX by {
                            assert(-(params.q as int) < pkv[i2] < params.q as int);
                        }
                    }
                    assert(crate::nttmul::ints(pk_arr@) == pkv);
                    assert(pkv[i as int] == pk_arr@[i as int] as int);
                }
                assert forall|pkv: Seq<int>|
                    pk_base64@ == crate::codec::b64_of(#[trigger] crate::codec::enc_data(pkv))
                        && crate::codec::fits_i64(pkv) && pkv.len() == 2 * params.n
                    implies exists|i2: int|
                        #[trigger] crate::codec::coeff_out_of_range(
                            pkv,
                            params.q as int,
                            i2,
                        ) by {
                    assert(crate::nttmul::ints(pk_arr@) == pkv);
                    assert(pkv[i as int] == pk_arr@[i as int] as int);
                    assert(crate::codec::coeff_out_of_range(pkv, params.q as int, i as int));
                }
            }
            return Err(crate::codec::CryptoError::MalformedEncoding);
        }
        i += 1;
    }
    let mut bv: Vec<i64> = Vec::new();
    let mut k: usize = 0;
    while k < n
        invariant
            n <= 0x0100_0000,
            pk_arr@.len() == 2 * n,
            0 <= k <= n,
            bv@.len() == k,
            forall|m2: int| 0 <= m2 < k ==> bv@[m2] == pk_arr@[m2],
        decreases n - k,
    {
        bv.push(pk_arr[k]);
        k += 1;
    }
    let mut av: Vec<i64> = Vec::new();
    let mut k2: usize = 0;
    while k2 < n
        invariant
            n <= 0x0100_0000,
            pk_arr@.len() == 2 * n,
            0 <= k2 <= n,
            av@.len() == k2,
            forall|m2: int| 0 <= m2 < k2 ==> av@[m2] == pk_arr@[n + m2],
        decreases n - k2,
    {
        av.push(pk_arr[n + k2]);
        k2 += 1;
    }
    let pk = [Poly { coeffs: bv }, Poly { coeffs: av }];
    let ghost pkv = crate::nttmul::ints(pk_arr@);
    proof {
        assert(pk@[0]@ =~= pkv.subrange(0, n as int));
        assert(pk@[1]@ =~= pkv.subrange(n as int, 2 * n as int));
    }
    let bytes = vstd::string::StrSliceExecFns::as_bytes_vec(message.as_str());
    let bits = crate::bits::string_to_bits(&bytes);
    proof {
        assert forall|i2: int| 0 <= i2 < bits@.len() implies 0 <= #[trigger] bits@[i2]
            < params.t by {
            assert(0 <= bits@[i2] <= 1);
        }
        assert(crate::nttmul::ints(bits@) =~= crate::bits::msg_bits(bytes@));
    }
    let cts = encrypt_blocks(&pk, &bits, params, seed);
    let out = crate::codec::compress(&cts);
    proof {
        let ctsv = crate::nttmul::ints(cts@);
        assert(pk_base64@ == crate::codec::b64_of(crate::codec::enc_data(pkv)));
        assert(out@ == crate::codec::b64_of(crate::codec::enc_data(ctsv)));
        assert(bits@.len() == 8 * bytes@.len());
        assert forall|i2: int|
            0 <= i2 < ctsv.len() implies -(params.q as int) / 2 < #[trigger] ctsv[i2] <= (
            params.q as int) / 2 by {
            assert(ctsv[i2] == cts@[i2] as int);
        }
        crate::codec::lemma_ints_fits(pk_arr@);
        assert(decodes_to_key(pk_base64@, pkv, n as int));
        assert forall|k: int| 0 <= k < pkv.len() implies -(params.q as int) < #[trigger] pkv[k]
            < params.q as int by {
            assert(pkv[k] == pk_arr@[k] as int);
        }
        assert(ciphertext_of(
            out@,
            pkv,
            message@,
            params.q as int,
            params.t as int,
            params.n as int,
        ));
        assert forall|pkv2: Seq<int>|
            #[trigger] decodes_to_key(pk_base64@, pkv2, params.n as int) implies ciphertext_of(
            out@,
            pkv2,
            message@,
            params.q as int,
            params.t as int,
            params.n as int,
        ) by {
            assert(crate::nttmul::ints(pk_arr@) == pkv2);
        }
    }
    Ok(out)
}


} // verus!
