//! Ring-LWE parameters: dimension, moduli, reduction polynomial, and a
//! primitive root of unity for the NTT.
use crate::arith::Poly;
use crate::nttmul::is_pow2;
use crate::nttmul::omega_ok;
use crate::nttmul::pow_mod;
use vstd::prelude::*;

verus! {

/// Trial division up to the square root: no `d` with `2 <= d` and
/// `d * d <= p` divides `p`.  The counter only bounds the recursion; since a
/// composite has a factor at most its square root, `p` steps always suffice.
pub open spec fn no_small_factor(p: int, d: int, steps: nat) -> bool
    decreases steps,
{
    if steps == 0 || p < 2 || d < 1 || d * d > p {
        true
    } else {
        p % d != 0 && no_small_factor(p, d + 1, (steps - 1) as nat)
    }
}

/// `p` is a prime number.
pub open spec fn is_prime(p: int) -> bool {
    p >= 2 && no_small_factor(p, 2, p as nat)
}

/// The default ciphertext modulus 12289 is prime: explicit trial
/// division by every candidate divisor up to its square root.
proof fn lemma_default_modulus_prime()
    ensures
        is_prime(12289),
{
    assert(no_small_factor(12289, 111, 12180nat));
    assert(no_small_factor(12289, 110, 12181nat));
    assert(no_small_factor(12289, 109, 12182nat));
    assert(no_small_factor(12289, 108, 12183nat));
    assert(no_small_factor(12289, 107, 12184nat));
    assert(no_small_factor(12289, 106, 12185nat));
    assert(no_small_factor(12289, 105, 12186nat));
    assert(no_small_factor(12289, 104, 12187nat));
    assert(no_small_factor(12289, 103, 12188nat));
    assert(no_small_factor(12289, 102, 12189nat));
    assert(no_small_factor(12289, 101, 12190nat));
    assert(no_small_factor(12289, 100, 12191nat));
    assert(no_small_factor(12289, 99, 12192nat));
    assert(no_small_factor(12289, 98, 12193nat));
    assert(no_small_factor(12289, 97, 12194nat));
    assert(no_small_factor(12289, 96, 12195nat));
    assert(no_small_factor(12289, 95, 12196nat));
    assert(no_small_factor(12289, 94, 12197nat));
    assert(no_small_factor(12289, 93, 12198nat));
    assert(no_small_factor(12289, 92, 12199nat));
    assert(no_small_factor(12289, 91, 12200nat));
    assert(no_small_factor(12289, 90, 12201nat));
    assert(no_small_factor(12289, 89, 12202nat));
    assert(no_small_factor(12289, 88, 12203nat));
    assert(no_small_factor(12289, 87, 12204nat));
    assert(no_small_factor(12289, 86, 12205nat));
    assert(no_small_factor(12289, 85, 12206nat));
    assert(no_small_factor(12289, 84, 12207nat));
    assert(no_small_factor(12289, 83, 12208nat));
    assert(no_small_factor(12289, 82, 12209nat));
    assert(no_small_factor(12289, 81, 12210nat));
    assert(no_small_factor(12289, 80, 12211nat));
    assert(no_small_factor(12289, 79, 12212nat));
    assert(no_small_factor(12289, 78, 12213nat));
    assert(no_small_factor(12289, 77, 12214nat));
    assert(no_small_factor(12289, 76, 12215nat));
    assert(no_small_factor(12289, 75, 12216nat));
    assert(no_small_factor(12289, 74, 12217nat));
    assert(no_small_factor(12289, 73, 12218nat));
    assert(no_small_factor(12289, 72, 12219nat));
    assert(no_small_factor(12289, 71, 12220nat));
    assert(no_small_factor(12289, 70, 12221nat));
    assert(no_small_factor(12289, 69, 12222nat));
    assert(no_small_factor(12289, 68, 12223nat));
    assert(no_small_factor(12289, 67, 12224nat));
    assert(no_small_factor(12289, 66, 12225nat));
    assert(no_small_factor(12289, 65, 12226nat));
    assert(no_small_factor(12289, 64, 12227nat));
    assert(no_small_factor(12289, 63, 12228nat));
    assert(no_small_factor(12289, 62, 12229nat));
    assert(no_small_factor(12289, 61, 12230nat));
    assert(no_small_factor(12289, 60, 12231nat));
    assert(no_small_factor(12289, 59, 12232nat));
    assert(no_small_factor(12289, 58, 12233nat));
    assert(no_small_factor(12289, 57, 12234nat));
    assert(no_small_factor(12289, 56, 12235nat));
    assert(no_small_factor(12289, 55, 12236nat));
    assert(no_small_factor(12289, 54, 12237nat));
    assert(no_small_factor(12289, 53, 12238nat));
    assert(no_small_factor(12289, 52, 12239nat));
    assert(no_small_factor(12289, 51, 12240nat));
    assert(no_small_factor(12289, 50, 12241nat));
    assert(no_small_factor(12289, 49, 12242nat));
    assert(no_small_factor(12289, 48, 12243nat));
    assert(no_small_factor(12289, 47, 12244nat));
    assert(no_small_factor(12289, 46, 12245nat));
    assert(no_small_factor(12289, 45, 12246nat));
    assert(no_small_factor(12289, 44, 12247nat));
    assert(no_small_factor(12289, 43, 12248nat));
    assert(no_small_factor(12289, 42, 12249nat));
    assert(no_small_factor(12289, 41, 12250nat));
    assert(no_small_factor(12289, 40, 12251nat));
    assert(no_small_factor(12289, 39, 12252nat));
    assert(no_small_factor(12289, 38, 12253nat));
    assert(no_small_factor(12289, 37, 12254nat));
    assert(no_small_factor(12289, 36, 12255nat));
    assert(no_small_factor(12289, 35, 12256nat));
    assert(no_small_factor(12289, 34, 12257nat));
    assert(no_small_factor(12289, 33, 12258nat));
    assert(no_small_factor(12289, 32, 12259nat));
    assert(no_small_factor(12289, 31, 12260nat));
    assert(no_small_factor(12289, 30, 12261nat));
    assert(no_small_factor(12289, 29, 12262nat));
    assert(no_small_factor(12289, 28, 12263nat));
    assert(no_small_factor(12289, 27, 12264nat));
    assert(no_small_factor(12289, 26, 12265nat));
    assert(no_small_factor(12289, 25, 12266nat));
    assert(no_small_factor(12289, 24, 12267nat));
    assert(no_small_factor(12289, 23, 12268nat));
    assert(no_small_factor(12289, 22, 12269nat));
    assert(no_small_factor(12289, 21, 12270nat));
    assert(no_small_factor(12289, 20, 12271nat));
    assert(no_small_factor(12289, 19, 12272nat));
    assert(no_small_factor(12289, 18, 12273nat));
    assert(no_small_factor(12289, 17, 12274nat));
    assert(no_small_factor(12289, 16, 12275nat));
    assert(no_small_factor(12289, 15, 12276nat));
    assert(no_small_factor(12289, 14, 12277nat));
    assert(no_small_factor(12289, 13, 12278nat));
    assert(no_small_factor(12289, 12, 12279nat));
    assert(no_small_factor(12289, 11, 12280nat));
    assert(no_small_factor(12289, 10, 12281nat));
    assert(no_small_factor(12289, 9, 12282nat));
    assert(no_small_factor(12289, 8, 12283nat));
    assert(no_small_factor(12289, 7, 12284nat));
    assert(no_small_factor(12289, 6, 12285nat));
    assert(no_small_factor(12289, 5, 12286nat));
    assert(no_small_factor(12289, 4, 12287nat));
    assert(no_small_factor(12289, 3, 12288nat));
    assert(no_small_factor(12289, 2, 12289nat));
}

/// Relies on `ntt::omega`: for an odd prime modulus `p` with `n` dividing
/// `p - 1`, it returns `g^((p-1)/n) mod p` for a primitive root `g` of
/// `Z_p`, an element of multiplicative order exactly `n`.  Its `n/2`-th
/// power is then the unique element of order two, `p - 1`.
#[verifier::external_body]
pub(crate) fn root_of_unity(modulus: i64, n: usize) -> (r: i64)
    requires
        is_prime(modulus as int),
        3 <= modulus,
        modulus % 2 == 1,
        (modulus as int) * (modulus as int) <= i64::MAX as int / 4,
        2 <= n,
        n % 2 == 0,
        n as int <= modulus as int,
        ((modulus - 1) as int) % (n as int) == 0,
    ensures
        0 < r < modulus,
        pow_mod(r as int, n as nat, modulus as int) == 1,
        pow_mod(r as int, (n as int / 2) as nat, modulus as int) == modulus as int - 1,
{
    ntt::omega(modulus, n)
}

/// Ring-LWE parameters.
#[derive(Debug, Clone)]
pub struct Parameters {
    /// Ring dimension: a power of two.
    pub n: usize,
    /// Ciphertext modulus.
    pub q: i64,
    /// Plaintext modulus.
    pub t: i64,
    /// A primitive `2n`-th root of unity modulo `q`.
    pub omega: i64,
    /// The reduction polynomial `x^n + 1`.
    pub f: Poly,
}

impl Parameters {
    /// The parameters fit together: the dimension is a power of two, the
    /// moduli are in range, `f = x^n + 1`, and `omega` drives an exact
    /// length-`2n` NTT modulo `q`.
    pub open spec fn valid(self) -> bool {
        &&& 2 <= self.n
        &&& self.n <= 0x0100_0000
        &&& is_pow2(self.n as int)
        &&& 3 <= self.q
        &&& self.q % 2 == 1
        &&& 1 <= self.t <= self.q
        &&& (self.q as int) * (self.q as int) <= i64::MAX as int / 4
        &&& self.f@.len() == self.n + 1
        &&& self.f@[0] == 1
        &&& self.f@[self.n as int] == 1
        &&& forall|i: int| 0 < i < self.n ==> self.f@[i] == 0
        &&& omega_ok(self.omega as int, 2 * self.n as int, self.q as int)
    }
}

impl Default for Parameters {
    /// The default parameter set: `n = 1024`, `q = 12289`, `t = 2`, and a
    /// freshly computed primitive `2048`-th root of unity modulo `q`.
    fn default() -> (r: Self)
        ensures
            r.valid(),
            r.n == 1024,
            r.q == 12289,
            r.t == 2,
    {
        let n: usize = 1024;
        let q: i64 = 12289;
        let t: i64 = 2;
        proof {
            lemma_default_modulus_prime();
            assert(is_pow2(1024)) by {
                reveal_with_fuel(is_pow2, 12);
            }
        }
        let omega = root_of_unity(q, 2 * n);
        let mut fv: Vec<i64> = vec![0i64; n + 1];
        fv[0] = 1;
        fv[n] = 1;
        let f = Poly { coeffs: fv };
        let r = Parameters { n, q, t, omega, f };
        proof {
            assert(r.f@.len() == 1025);
            assert(r.f@[0] == 1);
            assert(r.f@[1024] == 1);
            assert(forall|i: int| 0 < i < 1024 ==> r.f@[i] == 0);
            assert(omega_ok(r.omega as int, 2048, 12289));
        }
        r
    }
}

} // verus!
