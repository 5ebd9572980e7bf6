//! Seeded sampling of binary, ternary, and uniform coefficient polynomials.
//!
//! With a seed the generator is deterministic: under the pinned rand
//! version, `StdRng` is a pure function of its 64-bit seed, so each drawn
//! value is named as a function of the seed and the ranges drawn so far.
//! Without a seed the generator comes from the operating system's entropy
//! source and nothing is assumed beyond the range of each draw.
use crate::arith::bal;
use crate::arith::mod_coeffs;
use crate::arith::Poly;
use rand::Rng;
use rand::SeedableRng;
use vstd::prelude::*;

verus! {

/// Every coefficient lies in `{-1, 0, 1}`.
pub open spec fn is_ternary(s: Seq<int>) -> bool {
    forall|i: int| 0 <= i < s.len() ==> -1 <= #[trigger] s[i] <= 1
}

/// Every coefficient lies in `{0, 1}`.
pub open spec fn is_binary(s: Seq<int>) -> bool {
    forall|i: int| 0 <= i < s.len() ==> 0 <= #[trigger] s[i] <= 1
}

#[verifier::external_type_specification]
#[verifier::external_body]
pub struct ExStdRng(rand::rngs::StdRng);

/// The value rand's `StdRng` draws for the given seed after the given range
/// history: entry `k` of `los`/`his` is the `k`-th range `[lo, hi)` asked of
/// the generator, and the result is the draw for the last entry.  Under the
/// pinned rand version the generator state is a pure, platform-independent
/// function of its 64-bit seed and of the ranges drawn, so this is a
/// function of its arguments alone.
pub uninterp spec fn seeded_draw(seed: u64, los: Seq<i64>, his: Seq<i64>) -> i64;

/// A generator together with the seed and range history that produced its
/// state.  The fields are private: the only constructors are `from_seed` and
/// `from_entropy`, and the only draw is `sample_range`, so the ghost record
/// always matches how the generator was driven.  A `None` seed means the
/// state came from the operating system's entropy source.
pub struct SampleRng {
    rng: rand::rngs::StdRng,
    seed: Ghost<Option<u64>>,
    los: Ghost<Seq<i64>>,
    his: Ghost<Seq<i64>>,
}

impl SampleRng {
    /// The seed this generator was built from, if any.
    pub closed spec fn seed_view(self) -> Option<u64> {
        self.seed@
    }

    /// The lower bounds of the ranges drawn so far.
    pub closed spec fn los_view(self) -> Seq<i64> {
        self.los@
    }

    /// The upper bounds of the ranges drawn so far.
    pub closed spec fn his_view(self) -> Seq<i64> {
        self.his@
    }
}

/// Relies on rand's `SeedableRng::seed_from_u64` for `StdRng`: a
/// deterministic generator derived from the given seed.
#[verifier::external_body]
fn rng_from_seed(seed: u64) -> rand::rngs::StdRng {
    rand::rngs::StdRng::seed_from_u64(seed)
}

/// Relies on rand's `SeedableRng::from_entropy`: a generator seeded from the
/// operating system's entropy source.
#[verifier::external_body]
fn rng_from_entropy() -> rand::rngs::StdRng {
    rand::rngs::StdRng::from_entropy()
}

/// A fresh deterministic generator with an empty draw history.
pub fn from_seed(seed: u64) -> (r: SampleRng)
    ensures
        r.seed_view() == Some(seed),
        r.los_view() == Seq::<i64>::empty(),
        r.his_view() == Seq::<i64>::empty(),
{
    SampleRng {
        rng: rng_from_seed(seed),
        seed: Ghost(Some(seed)),
        los: Ghost(Seq::empty()),
        his: Ghost(Seq::empty()),
    }
}

/// A fresh entropy-seeded generator with an empty draw history.
pub fn from_entropy() -> (r: SampleRng)
    ensures
        r.seed_view() == None::<u64>,
        r.los_view() == Seq::<i64>::empty(),
        r.his_view() == Seq::<i64>::empty(),
{
    SampleRng {
        rng: rng_from_entropy(),
        seed: Ghost(None),
        los: Ghost(Seq::empty()),
        his: Ghost(Seq::empty()),
    }
}

/// Relies on rand's `Rng::gen_range`: a value in `[lo, hi)`; the call panics
/// only on an empty range, which the precondition rules out.  For a
/// generator built by `from_seed` and driven only through this function, the
/// value is the named draw for its seed and range history, since `StdRng`
/// and `gen_range` are deterministic under the pinned rand version.
#[verifier::external_body]
fn sample_range(s: &mut SampleRng, lo: i64, hi: i64) -> (r: i64)
    requires
        lo < hi,
    ensures
        lo <= r < hi,
        final(s).seed_view() == old(s).seed_view(),
        final(s).los_view() == old(s).los_view().push(lo),
        final(s).his_view() == old(s).his_view().push(hi),
        old(s).seed_view() matches Some(sd) ==> r == seeded_draw(
            sd,
            old(s).los_view().push(lo),
            old(s).his_view().push(hi),
        ),
{
    s.rng.gen_range(lo..hi)
}

/// The sequence holding `k` copies of one bound.
pub open spec fn const_seq(v: i64, k: int) -> Seq<i64> {
    Seq::new(k as nat, |j: int| v)
}

/// The binary polynomial a fresh generator draws from a seed.
pub open spec fn seeded_binary(sd: u64, n: int) -> Seq<int> {
    Seq::new(n as nat, |i: int| seeded_draw(sd, const_seq(0i64, i + 1), const_seq(2i64, i + 1)) as int)
}

/// The ternary polynomial a fresh generator draws from a seed.
pub open spec fn seeded_ternary(sd: u64, n: int) -> Seq<int> {
    Seq::new(
        n as nat,
        |i: int| seeded_draw(sd, const_seq(-1i64, i + 1), const_seq(2i64, i + 1)) as int,
    )
}

/// The balanced uniform polynomial a fresh generator draws from a seed.
pub open spec fn seeded_uniform(sd: u64, q: i64, n: int) -> Seq<int> {
    Seq::new(
        n as nat,
        |i: int|
            bal(seeded_draw(sd, const_seq(0i64, i + 1), const_seq(q, i + 1)) as int, q as int),
    )
}

/// Draw `size` coefficients in `[lo, hi)`; deterministic when seeded.
fn gen_range_poly(size: usize, lo: i64, hi: i64, seed: Option<u64>) -> (r: Poly)
    requires
        lo < hi,
    ensures
        r@.len() == size,
        forall|i: int| 0 <= i < size ==> lo as int <= #[trigger] r@[i] < hi as int,
        seed matches Some(sd) ==> forall|i: int|
            0 <= i < size ==> #[trigger] r@[i] == seeded_draw(
                sd,
                const_seq(lo, i + 1),
                const_seq(hi, i + 1),
            ) as int,
{
    let mut rng = match seed {
        Some(s) => from_seed(s),
        None => from_entropy(),
    };
    proof {
        assert(rng.los_view() =~= const_seq(lo, 0));
        assert(rng.his_view() =~= const_seq(hi, 0));
    }
    let mut coeffs: Vec<i64> = Vec::new();
    let mut i: usize = 0;
    while i < size
        invariant
            lo < hi,
            0 <= i <= size,
            coeffs@.len() == i,
            rng.seed_view() == seed,
            rng.los_view() == const_seq(lo, i as int),
            rng.his_view() == const_seq(hi, i as int),
            forall|k: int| 0 <= k < i ==> lo <= #[trigger] coeffs@[k] < hi,
            seed matches Some(sd) ==> forall|k: int|
                0 <= k < i ==> #[trigger] coeffs@[k] == seeded_draw(
                    sd,
                    const_seq(lo, k + 1),
                    const_seq(hi, k + 1),
                ),
        decreases size - i,
    {
        let c = sample_range(&mut rng, lo, hi);
        proof {
            assert(const_seq(lo, i as int).push(lo) =~= const_seq(lo, i + 1));
            assert(const_seq(hi, i as int).push(hi) =~= const_seq(hi, i + 1));
        }
        coeffs.push(c);
        i += 1;
    }
    Poly { coeffs }
}

/// A uniform polynomial with `size` coefficients in `{0, 1}`; for a given
/// seed the result is the same on every call.
pub fn gen_binary_poly(size: usize, seed: Option<u64>) -> (r: Poly)
    ensures
        r@.len() == size,
        is_binary(r@),
        seed matches Some(sd) ==> r@ == seeded_binary(sd, size as int),
{
    let r = gen_range_poly(size, 0, 2, seed);
    proof {
        match seed {
            Some(sd) => {
                assert(r@ =~= seeded_binary(sd, size as int));
            },
            None => {},
        }
    }
    r
}

/// A uniform polynomial with `size` coefficients in `{-1, 0, 1}`; for a
/// given seed the result is the same on every call.
pub fn gen_ternary_poly(size: usize, seed: Option<u64>) -> (r: Poly)
    ensures
        r@.len() == size,
        is_ternary(r@),
        seed matches Some(sd) ==> r@ == seeded_ternary(sd, size as int),
{
    let r = gen_range_poly(size, -1, 2, seed);
    proof {
        match seed {
            Some(sd) => {
                assert(r@ =~= seeded_ternary(sd, size as int));
            },
            None => {},
        }
    }
    r
}

/// A uniform polynomial with `size` coefficients drawn from `{0, ..., q-1}`
/// and balanced into `(-q/2, q/2]`; for a given seed the result is the same
/// on every call.
pub fn gen_uniform_poly(size: usize, q: i64, seed: Option<u64>) -> (r: Poly)
    requires
        1 <= q,
    ensures
        r@.len() == size,
        forall|i: int| 0 <= i < size ==> -(q as int) / 2 < #[trigger] r@[i] <= (q as int) / 2,
        seed matches Some(sd) ==> r@ == seeded_uniform(sd, q, size as int),
{
    let raw = gen_range_poly(size, 0, q, seed);
    let r = mod_coeffs(&raw, q);
    proof {
        match seed {
            Some(sd) => {
                assert(r@ =~= seeded_uniform(sd, q, size as int));
            },
            None => {},
        }
    }
    r
}

} // verus!
