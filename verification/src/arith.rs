//! Ring arithmetic over `Z[x]` and `Z_q[x]/(x^n + 1)`.
//!
//! A polynomial is a vector of signed 64-bit coefficients, index 0 being the
//! constant term.  Trailing zero coefficients carry no meaning: two
//! polynomials are equal when their zero-padded coefficient sequences agree.
use vstd::prelude::*;

verus! {

/// A polynomial with signed integer coefficients; `coeffs[i]` multiplies `x^i`.
#[derive(Debug, Clone)]
pub struct Poly {
    pub coeffs: Vec<i64>,
}

impl View for Poly {
    type V = Seq<int>;

    open spec fn view(&self) -> Seq<int> {
        Seq::new(self.coeffs@.len() as nat, |i: int| self.coeffs@[i] as int)
    }
}

/// Coefficient `i` of the sequence, reading absent positions as zero.
pub open spec fn padded(s: Seq<int>, i: int) -> int {
    if 0 <= i < s.len() {
        s[i]
    } else {
        0
    }
}

/// Mathematical equality of polynomials: equal after zero-padding.
pub open spec fn poly_eq(a: Seq<int>, b: Seq<int>) -> bool {
    forall|i: int| padded(a, i) == padded(b, i)
}

/// The balanced representative of `c` modulo `m`: the member of the class of
/// `c` in the interval `(-m/2, m/2]`.
pub open spec fn bal(c: int, m: int) -> int
    recommends
        m >= 1,
{
    let r = c % m;
    if r > m / 2 {
        r - m
    } else {
        r
    }
}

/// Every coefficient balanced modulo `m`.
pub open spec fn balv(s: Seq<int>, m: int) -> Seq<int> {
    Seq::new(s.len(), |i: int| bal(s[i], m))
}

/// Coefficientwise sum, zero-padding the shorter operand.
pub open spec fn addv(a: Seq<int>, b: Seq<int>) -> Seq<int> {
    Seq::new(if a.len() >= b.len() { a.len() } else { b.len() }, |i: int| padded(a, i) + padded(b, i))
}

/// Coefficientwise negation.
pub open spec fn negv(a: Seq<int>) -> Seq<int> {
    Seq::new(a.len(), |i: int| -a[i])
}

/// Partial convolution sum: the first `i` terms of coefficient `k` of `a * b`.
pub open spec fn conv_part(a: Seq<int>, b: Seq<int>, k: int, i: int) -> int
    decreases i,
{
    if i <= 0 {
        0
    } else {
        conv_part(a, b, k, i - 1) + padded(a, i - 1) * padded(b, k - (i - 1))
    }
}

/// Coefficient `k` of the product `a * b`.
pub open spec fn conv_at(a: Seq<int>, b: Seq<int>, k: int) -> int {
    conv_part(a, b, k, k + 1)
}

/// The full product of two coefficient sequences.
pub open spec fn conv(a: Seq<int>, b: Seq<int>) -> Seq<int> {
    if a.len() == 0 || b.len() == 0 {
        Seq::empty()
    } else {
        Seq::new((a.len() + b.len() - 1) as nat, |k: int| conv_at(a, b, k))
    }
}

/// `(-1)^k`.
pub open spec fn alt_sign(k: int) -> int {
    if k % 2 == 0 {
        1
    } else {
        -1
    }
}

/// Partial negacyclic fold: slot `j` after the first `k` blocks of length `n`.
pub open spec fn fold_part(s: Seq<int>, n: int, j: int, k: int) -> int
    decreases k,
{
    if k <= 0 {
        0
    } else {
        fold_part(s, n, j, k - 1) + alt_sign(k - 1) * padded(s, j + (k - 1) * n)
    }
}

/// Number of length-`n` blocks covering a sequence of length `len`.
pub open spec fn num_blocks(len: int, n: int) -> int {
    (len + n - 1) / n
}

/// Reduction modulo `x^n + 1`: fold the coefficients into `n` slots with
/// alternating block signs.  Sequences shorter than `n + 1` pass through.
pub open spec fn fold(s: Seq<int>, n: int) -> Seq<int> {
    if s.len() < n + 1 {
        s
    } else {
        Seq::new(n as nat, |j: int| fold_part(s, n, j, num_blocks(s.len() as int, n)))
    }
}

/// All partial fold sums of `s` into `n` slots stay inside `i64`.
pub open spec fn fold_fits(s: Seq<int>, n: int) -> bool {
    forall|j: int, k: int|
        0 <= j < n && 0 <= k ==> i64::MIN <= #[trigger] fold_part(s, n, j, k) <= i64::MAX
}

/// All partial convolution sums of `a * b` stay inside `i64`.
pub open spec fn conv_fits(a: Seq<int>, b: Seq<int>) -> bool {
    forall|k: int, i: int|
        0 <= k && 0 <= i ==> i64::MIN <= #[trigger] conv_part(a, b, k, i) <= i64::MAX
}

/// All coefficient products of `a` and `b` stay inside `i64`.
pub open spec fn prod_fits(a: Seq<int>, b: Seq<int>) -> bool {
    forall|i: int, j: int|
        i64::MIN <= #[trigger] (padded(a, i) * padded(b, j)) <= i64::MAX
}

/// What `polyadd` returns: the padded sum folded modulo `x^n + 1`, balanced
/// modulo `m` unless `m == 0` signals arithmetic over `Z`.
pub open spec fn polyadd_spec(x: Seq<int>, y: Seq<int>, m: int, n: int) -> Seq<int> {
    if m != 0 {
        balv(fold(addv(x, y), n), m)
    } else {
        fold(addv(x, y), n)
    }
}

/// What `polyinv` returns.
pub open spec fn polyinv_spec(x: Seq<int>, m: int) -> Seq<int> {
    if m != 0 {
        balv(negv(x), m)
    } else {
        negv(x)
    }
}

/// What `polymul` returns: the convolution folded modulo `x^n + 1`, balanced
/// modulo `q` unless `q == 0`.
pub open spec fn polymul_spec(x: Seq<int>, y: Seq<int>, q: int, n: int) -> Seq<int> {
    if q != 0 {
        balv(fold(conv(x, y), n), q)
    } else {
        fold(conv(x, y), n)
    }
}

impl Poly {
    /// Wrap a coefficient vector as a polynomial.
    pub fn new(coeffs: Vec<i64>) -> (r: Poly)
        ensures
            r.coeffs@ == coeffs@,
            r@ == coeffs@.map_values(|c: i64| c as int),
    {
        let r = Poly { coeffs };
        proof {
            assert(r@ =~= r.coeffs@.map_values(|c: i64| c as int));
        }
        r
    }

    /// Number of stored coefficients.
    pub fn len(&self) -> (r: usize)
        ensures
            r == self@.len(),
    {
        self.coeffs.len()
    }
}

impl PartialEq for Poly {
    /// Mathematical equality: the zero-padded coefficient sequences agree.
    fn eq(&self, other: &Poly) -> (r: bool) {
        let l1 = self.coeffs.len();
        let l2 = other.coeffs.len();
        let n = if l1 >= l2 {
            l1
        } else {
            l2
        };
        let mut i: usize = 0;
        while i < n
            invariant
                0 <= i <= n,
                l1 == self.coeffs@.len(),
                l2 == other.coeffs@.len(),
                n == if l1 >= l2 { l1 as int } else { l2 as int },
                forall|k: int| 0 <= k < i ==> padded(self@, k) == padded(other@, k),
            decreases n - i,
        {
            let a = if i < l1 {
                self.coeffs[i]
            } else {
                0
            };
            let b = if i < l2 {
                other.coeffs[i]
            } else {
                0
            };
            if a != b {
                assert(padded(self@, i as int) != padded(other@, i as int));
                return false;
            }
            i += 1;
        }
        proof {
            assert forall|k: int| padded(self@, k) == padded(other@, k) by {
                if 0 <= k < n {
                } else {
                    assert(padded(self@, k) == 0);
                    assert(padded(other@, k) == 0);
                }
            }
        }
        true
    }
}

impl vstd::std_specs::cmp::PartialEqSpecImpl for Poly {
    open spec fn obeys_eq_spec() -> bool {
        true
    }

    open spec fn eq_spec(&self, other: &Poly) -> bool {
        poly_eq(self@, other@)
    }
}

/// Reduce every coefficient into the balanced range `(-m/2, m/2]`.
pub fn mod_coeffs(x: &Poly, modulus: i64) -> (r: Poly)
    requires
        1 <= modulus,
    ensures
        r@ == balv(x@, modulus as int),
        r@.len() == x@.len(),
        forall|i: int|
            0 <= i < r@.len() ==> (-(modulus as int)) / 2 < #[trigger] r@[i] <= (modulus as int)
                / 2,
{
    let len = x.coeffs.len();
    let mut out: Vec<i64> = Vec::new();
    let mut i: usize = 0;
    while i < len
        invariant
            1 <= modulus,
            0 <= i <= len,
            len == x.coeffs@.len(),
            out@.len() == i,
            forall|k: int| 0 <= k < i ==> out@[k] as int == bal(x@[k], modulus as int),
        decreases len - i,
    {
        let c0 = x.coeffs[i];
        let c1 = c0.checked_rem_euclid(modulus).unwrap();
        assert(c1 as int == (c0 as int) % (modulus as int));
        let c2 = if c1 > modulus / 2 {
            c1 - modulus
        } else {
            c1
        };
        assert(c2 as int == bal(x@[i as int], modulus as int));
        out.push(c2);
        i += 1;
    }
    let r = Poly { coeffs: out };
    proof {
        assert(r@ =~= balv(x@, modulus as int));
        assert forall|i: int| 0 <= i < r@.len() implies (-(modulus as int)) / 2 < #[trigger] r@[i]
            <= (modulus as int) / 2 by {
            assert(r@[i] == bal(x@[i], modulus as int));
        }
    }
    r
}

/// The integer nearest to the ratio `a / b`, rounding half away from zero.
pub open spec fn nearest_int_spec(a: int, b: int) -> int {
    if a > 0 {
        (a + b / 2) / b
    } else {
        -((-a + b / 2) / b)
    }
}

/// Nearest integer to `a / b`, rounding half toward +infinity for `a > 0`
/// and toward -infinity otherwise.
pub fn nearest_int(a: i64, b: i64) -> (r: i64)
    requires
        1 <= b,
        a <= i64::MAX - b / 2,
        i64::MIN + b / 2 < a,
    ensures
        r == nearest_int_spec(a as int, b as int),
{
    if a > 0 {
        (a + b / 2) / b
    } else {
        -((-a + b / 2) / b)
    }
}

/// Blocks at or past index `k` contribute nothing once `j + k*n` is past the
/// end of the sequence.
pub proof fn lemma_fold_part_stable(s: Seq<int>, n: int, j: int, k: int, k2: int)
    requires
        n >= 1,
        0 <= j,
        0 <= k <= k2,
        j + k * n >= s.len(),
    ensures
        fold_part(s, n, j, k2) == fold_part(s, n, j, k),
    decreases k2 - k,
{
    if k2 > k {
        lemma_fold_part_stable(s, n, j, k, k2 - 1);
        assert((k2 - 1) * n >= k * n) by (nonlinear_arith)
            requires
                k2 - 1 >= k,
                n >= 1,
        ;
        assert(padded(s, j + (k2 - 1) * n) == 0);
    }
}

/// For any `k`, the partial fold sum is bounded by `k * b` when the
/// coefficients are bounded by `b`.
proof fn lemma_fold_part_bound_tight(s: Seq<int>, n: int, j: int, k: int, b: int)
    requires
        n >= 1,
        0 <= j,
        0 <= k,
        b >= 0,
        forall|i: int| 0 <= i < s.len() ==> -b <= #[trigger] s[i] <= b,
    ensures
        -(k * b) <= fold_part(s, n, j, k) <= k * b,
    decreases k,
{
    if k > 0 {
        lemma_fold_part_bound_tight(s, n, j, k - 1, b);
        let p = padded(s, j + (k - 1) * n);
        assert(-b <= p <= b);
        assert(-((k - 1) * b) - b == -(k * b) && (k - 1) * b + b == k * b) by (nonlinear_arith);
    } else {
        assert(fold_part(s, n, j, k) == 0);
    }
}

/// A uniform coefficient bound gives a bound on every partial fold sum:
/// only `num_blocks` blocks ever contribute.
pub proof fn lemma_fold_part_bound(s: Seq<int>, n: int, j: int, k: int, b: int)
    requires
        n >= 1,
        0 <= j,
        0 <= k,
        b >= 0,
        forall|i: int| 0 <= i < s.len() ==> -b <= #[trigger] s[i] <= b,
    ensures
        -(num_blocks(s.len() as int, n) * b) <= fold_part(s, n, j, k) <= num_blocks(
            s.len() as int,
            n,
        ) * b,
{
    let nb = num_blocks(s.len() as int, n);
    assert(nb * n >= s.len() && nb >= 0) by (nonlinear_arith)
        requires
            n >= 1,
            nb == (s.len() as int + n - 1) / n,
            s.len() >= 0,
    ;
    if k <= nb {
        lemma_fold_part_bound_tight(s, n, j, k, b);
        assert(k * b <= nb * b && -(nb * b) <= -(k * b)) by (nonlinear_arith)
            requires
                0 <= k <= nb,
                b >= 0,
        ;
    } else {
        lemma_fold_part_stable(s, n, j, nb, k);
        lemma_fold_part_bound_tight(s, n, j, nb, b);
    }
}

/// A uniform coefficient bound keeps every partial fold sum inside `i64`.
pub proof fn lemma_fold_fits_bound(s: Seq<int>, n: int, b: int)
    requires
        n >= 1,
        b >= 0,
        forall|i: int| 0 <= i < s.len() ==> -b <= #[trigger] s[i] <= b,
        num_blocks(s.len() as int, n) * b <= i64::MAX,
    ensures
        fold_fits(s, n),
{
    assert forall|j: int, k: int| 0 <= j < n && 0 <= k implies i64::MIN <= #[trigger] fold_part(
        s,
        n,
        j,
        k,
    ) <= i64::MAX by {
        lemma_fold_part_bound(s, n, j, k, b);
    }
}

/// Convolution terms with first index past `x` contribute nothing.
proof fn lemma_conv_part_stable_x(x: Seq<int>, y: Seq<int>, k: int, i: int, i2: int)
    requires
        x.len() <= i <= i2,
    ensures
        conv_part(x, y, k, i2) == conv_part(x, y, k, i),
    decreases i2 - i,
{
    if i2 > i {
        lemma_conv_part_stable_x(x, y, k, i, i2 - 1);
        assert(padded(x, i2 - 1) == 0);
    }
}

/// Convolution terms with first index past `k` contribute nothing.
proof fn lemma_conv_part_stable_k(x: Seq<int>, y: Seq<int>, k: int, i: int, i2: int)
    requires
        k + 1 <= i <= i2,
    ensures
        conv_part(x, y, k, i2) == conv_part(x, y, k, i),
    decreases i2 - i,
{
    if i2 > i {
        lemma_conv_part_stable_k(x, y, k, i, i2 - 1);
        assert(padded(y, k - (i2 - 1)) == 0);
    }
}

/// The partial sum over all of `x` is the full convolution coefficient.
pub proof fn lemma_conv_part_complete(x: Seq<int>, y: Seq<int>, k: int)
    requires
        0 <= k,
    ensures
        conv_part(x, y, k, x.len() as int) == conv_at(x, y, k),
{
    if x.len() >= k + 1 {
        lemma_conv_part_stable_k(x, y, k, k + 1, x.len() as int);
    } else {
        lemma_conv_part_stable_x(x, y, k, x.len() as int, k + 1);
    }
}

/// Reduce a polynomial modulo `f = x^n + 1`, where `n = f.len() - 1`: fold the
/// coefficient vector into `n` slots with alternating block signs.  Inputs
/// shorter than `n + 1` pass through unchanged.
pub fn polyrem(x: &Poly, f: &Poly) -> (r: Poly)
    requires
        f@.len() >= 2,
        x@.len() + f@.len() <= usize::MAX,
        x@.len() >= f@.len() ==> fold_fits(x@, f@.len() - 1),
    ensures
        r@ == fold(x@, f@.len() - 1),
        r@.len() <= f@.len() - 1,
{
    let n = f.coeffs.len() - 1;
    let len = x.coeffs.len();
    if len < n + 1 {
        let r = Poly { coeffs: vstd::slice::slice_to_vec(x.coeffs.as_slice()) };
        proof {
            assert(r@ =~= fold(x@, n as int));
        }
        return r;
    }
    let ghost nb = num_blocks(len as int, n as int);
    let mut out: Vec<i64> = Vec::new();
    let mut j: usize = 0;
    while j < n
        invariant
            1 <= n,
            n + 1 <= len == x.coeffs@.len(),
            len + n + 1 <= usize::MAX,
            fold_fits(x@, n as int),
            nb == num_blocks(len as int, n as int),
            0 <= j <= n,
            out@.len() == j,
            forall|jj: int| 0 <= jj < j ==> out@[jj] as int == fold_part(x@, n as int, jj, nb),
        decreases n - j,
    {
        let mut acc: i64 = x.coeffs[j];
        let mut k: usize = 1;
        proof {
            assert(fold_part(x@, n as int, j as int, 0) == 0);
            assert(alt_sign(0) == 1);
            assert(j + 0 * (n as int) == j as int);
            assert(fold_part(x@, n as int, j as int, 1) == padded(x@, j as int));
        }
        while j + k * n < len
            invariant
                1 <= n,
                n + 1 <= len == x.coeffs@.len(),
                len + n + 1 <= usize::MAX,
                fold_fits(x@, n as int),
                0 <= j < n,
                1 <= k,
                j + k * n < len + n,
                acc as int == fold_part(x@, n as int, j as int, k as int),
            decreases len + n - (j + k * n),
        {
            let idx = j + k * n;
            let c = x.coeffs[idx];
            proof {
                assert(padded(x@, j + k * n) == x@[idx as int]);
                assert(fold_part(x@, n as int, j as int, k + 1) == fold_part(
                    x@,
                    n as int,
                    j as int,
                    k as int,
                ) + alt_sign(k as int) * padded(x@, j + k * n));
                assert(i64::MIN <= fold_part(x@, n as int, j as int, k + 1) <= i64::MAX);
            }
            if k % 2 == 0 {
                acc = acc + c;
            } else {
                acc = acc - c;
            }
            proof {
                assert((k + 1) * (n as int) == k * (n as int) + (n as int)) by (nonlinear_arith);
                assert(k * (n as int) >= k) by (nonlinear_arith)
                    requires
                        n as int >= 1,
                        k >= 0,
                ;
            }
            k += 1;
        }
        proof {
            let kk = if k as int <= nb {
                nb
            } else {
                k as int
            };
            assert(nb * n >= len) by (nonlinear_arith)
                requires
                    n >= 1,
                    nb == (len as int + n as int - 1) / (n as int),
                    len >= 0,
            ;
            lemma_fold_part_stable(x@, n as int, j as int, k as int, kk);
            lemma_fold_part_stable(x@, n as int, j as int, nb, kk);
        }
        out.push(acc);
        j += 1;
    }
    let r = Poly { coeffs: out };
    proof {
        assert(r@ =~= fold(x@, n as int));
    }
    r
}

/// Add two polynomials and reduce modulo `(modulus, f)`; `modulus == 0` skips
/// the coefficient balancing and computes over `Z`.
pub fn polyadd(x: &Poly, y: &Poly, modulus: i64, f: &Poly) -> (r: Poly)
    requires
        modulus == 0 || modulus >= 1,
        f@.len() >= 2,
        x@.len() + y@.len() + f@.len() <= usize::MAX,
        forall|i: int| i64::MIN <= #[trigger] padded(x@, i) + padded(y@, i) <= i64::MAX,
        addv(x@, y@).len() >= f@.len() ==> fold_fits(addv(x@, y@), f@.len() - 1),
    ensures
        r@ == polyadd_spec(x@, y@, modulus as int, f@.len() - 1),
        r@.len() <= if x@.len() >= y@.len() {
            x@.len()
        } else {
            y@.len()
        },
        r@.len() <= f@.len() - 1 || r@.len() <= if x@.len() >= y@.len() {
            x@.len()
        } else {
            y@.len()
        },
{
    let l1 = x.coeffs.len();
    let l2 = y.coeffs.len();
    let lm = if l1 >= l2 {
        l1
    } else {
        l2
    };
    let mut sum: Vec<i64> = Vec::new();
    let mut i: usize = 0;
    while i < lm
        invariant
            l1 == x.coeffs@.len(),
            l2 == y.coeffs@.len(),
            lm == if l1 >= l2 { l1 as int } else { l2 as int },
            0 <= i <= lm,
            sum@.len() == i,
            forall|i: int| i64::MIN <= #[trigger] padded(x@, i) + padded(y@, i) <= i64::MAX,
            forall|kk: int| 0 <= kk < i ==> sum@[kk] as int == padded(x@, kk) + padded(y@, kk),
        decreases lm - i,
    {
        let a = if i < l1 {
            x.coeffs[i]
        } else {
            0
        };
        let b = if i < l2 {
            y.coeffs[i]
        } else {
            0
        };
        proof {
            assert(a as int == padded(x@, i as int));
            assert(b as int == padded(y@, i as int));
        }
        sum.push(a + b);
        i += 1;
    }
    let s = Poly { coeffs: sum };
    proof {
        assert(s@ =~= addv(x@, y@));
    }
    let t = polyrem(&s, f);
    if modulus != 0 {
        mod_coeffs(&t, modulus)
    } else {
        t
    }
}

/// Additive inverse of a polynomial, balanced modulo `modulus` unless it is 0.
pub fn polyinv(x: &Poly, modulus: i64) -> (r: Poly)
    requires
        modulus == 0 || modulus >= 1,
        forall|i: int| 0 <= i < x@.len() ==> i64::MIN < #[trigger] x@[i],
    ensures
        r@ == polyinv_spec(x@, modulus as int),
{
    let len = x.coeffs.len();
    let mut out: Vec<i64> = Vec::new();
    let mut i: usize = 0;
    while i < len
        invariant
            len == x.coeffs@.len(),
            0 <= i <= len,
            out@.len() == i,
            forall|i: int| 0 <= i < x@.len() ==> i64::MIN < #[trigger] x@[i],
            forall|kk: int| 0 <= kk < i ==> out@[kk] as int == -x@[kk],
        decreases len - i,
    {
        let c = x.coeffs[i];
        proof {
            assert(c as int == x@[i as int]);
        }
        out.push(-c);
        i += 1;
    }
    let s = Poly { coeffs: out };
    proof {
        assert(s@ =~= negv(x@));
    }
    if modulus != 0 {
        let r = mod_coeffs(&s, modulus);
        proof {
            assert(r@ =~= polyinv_spec(x@, modulus as int));
        }
        r
    } else {
        s
    }
}

/// Subtract two polynomials and reduce modulo `(modulus, f)`.
pub fn polysub(x: &Poly, y: &Poly, modulus: i64, f: &Poly) -> (r: Poly)
    requires
        modulus == 0 || modulus >= 1,
        f@.len() >= 2,
        x@.len() + y@.len() + f@.len() <= usize::MAX,
        forall|i: int| 0 <= i < y@.len() ==> i64::MIN < #[trigger] y@[i],
        forall|i: int|
            i64::MIN <= #[trigger] padded(x@, i) + padded(polyinv_spec(y@, modulus as int), i)
                <= i64::MAX,
        addv(x@, polyinv_spec(y@, modulus as int)).len() >= f@.len() ==> fold_fits(
            addv(x@, polyinv_spec(y@, modulus as int)),
            f@.len() - 1,
        ),
    ensures
        r@ == polyadd_spec(x@, polyinv_spec(y@, modulus as int), modulus as int, f@.len() - 1),
{
    let yinv = polyinv(y, modulus);
    polyadd(x, &yinv, modulus, f)
}

/// Schoolbook multiplication of two polynomials, reduced modulo `(q, f)`;
/// `q == 0` skips the coefficient balancing.  This is the reference multiplier
/// that the NTT-based one must agree with.
pub fn polymul(x: &Poly, y: &Poly, q: i64, f: &Poly) -> (r: Poly)
    requires
        q == 0 || q >= 1,
        f@.len() >= 2,
        x@.len() + y@.len() + f@.len() <= usize::MAX,
        prod_fits(x@, y@),
        conv_fits(x@, y@),
        conv(x@, y@).len() >= f@.len() ==> fold_fits(conv(x@, y@), f@.len() - 1),
    ensures
        r@ == polymul_spec(x@, y@, q as int, f@.len() - 1),
{
    let l1 = x.coeffs.len();
    let l2 = y.coeffs.len();
    if l1 == 0 || l2 == 0 {
        let e = Poly { coeffs: Vec::new() };
        proof {
            assert(e@ =~= polymul_spec(x@, y@, q as int, f@.len() - 1));
        }
        return e;
    }
    let clen = l1 + l2 - 1;
    let mut out: Vec<i64> = vec![0i64; clen];
    proof {
        assert(forall|k: int| 0 <= k < clen ==> out@[k] as int == conv_part(x@, y@, k, 0));
    }
    let mut i: usize = 0;
    while i < l1
        invariant
            1 <= l1 == x.coeffs@.len(),
            1 <= l2 == y.coeffs@.len(),
            clen == l1 + l2 - 1,
            out@.len() == clen,
            prod_fits(x@, y@),
            conv_fits(x@, y@),
            0 <= i <= l1,
            forall|k: int| 0 <= k < clen ==> out@[k] as int == conv_part(x@, y@, k, i as int),
        decreases l1 - i,
    {
        let mut j: usize = 0;
        while j < l2
            invariant
                1 <= l1 == x.coeffs@.len(),
                1 <= l2 == y.coeffs@.len(),
                clen == l1 + l2 - 1,
                out@.len() == clen,
                prod_fits(x@, y@),
                conv_fits(x@, y@),
                0 <= i < l1,
                0 <= j <= l2,
                forall|k: int|
                    0 <= k < clen && i <= k < i + j ==> out@[k] as int == conv_part(
                        x@,
                        y@,
                        k,
                        i + 1,
                    ),
                forall|k: int|
                    0 <= k < clen && !(i <= k < i + j) ==> out@[k] as int == conv_part(
                        x@,
                        y@,
                        k,
                        i as int,
                    ),
            decreases l2 - j,
        {
            let k = i + j;
            proof {
                assert(padded(x@, i as int) == x@[i as int]);
                assert(padded(y@, k - i) == y@[j as int]);
                assert(conv_part(x@, y@, k as int, i + 1) == conv_part(x@, y@, k as int, i as int)
                    + padded(x@, i as int) * padded(y@, (k - i) as int));
                assert(i64::MIN <= conv_part(x@, y@, k as int, i + 1) <= i64::MAX);
                assert(i64::MIN <= padded(x@, i as int) * padded(y@, (k - i) as int) <= i64::MAX);
            }
            let p = x.coeffs[i] * y.coeffs[j];
            out[k] = out[k] + p;
            j += 1;
        }
        proof {
            // a row never touches coefficients below its own index
            assert forall|k: int| 0 <= k < i implies conv_part(x@, y@, k, i + 1) == conv_part(
                x@,
                y@,
                k,
                i as int,
            ) by {
                assert(padded(y@, k - (i as int)) == 0);
            }
        }
        i += 1;
    }
    proof {
        assert forall|k: int| 0 <= k < clen implies out@[k] as int == conv_at(x@, y@, k) by {
            lemma_conv_part_complete(x@, y@, k);
        }
    }
    let c = Poly { coeffs: out };
    proof {
        assert(c@ =~= conv(x@, y@));
    }
    let t = polyrem(&c, f);
    if q != 0 {
        mod_coeffs(&t, q)
    } else {
        t
    }
}

} // verus!

