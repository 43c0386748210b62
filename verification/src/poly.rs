//! The residue polynomial ring `Z_q[X]/(X^N + 1)` with `q = 2^32`:
//! coefficient-wise wrapping arithmetic, monomial rotation, and negacyclic
//! multiplication through a Karatsuba kernel.

use crate::modular::{w32, wadd, wsub};
use crate::N;
use vstd::prelude::*;

verus! {

broadcast use
    crate::modular::lemma_wrapping_add_is_wadd,
    crate::modular::lemma_wrapping_sub_is_wsub,
    crate::modular::lemma_wrapping_mul_is_wmul;

/// An element of `Z_q[X]/(X^N + 1)`, stored as its `N` coefficients.
pub struct ResiduePoly {
    pub coefs: Vec<u32>,
}

impl View for ResiduePoly {
    type V = Seq<u32>;

    open spec fn view(&self) -> Seq<u32> {
        self.coefs@
    }
}

/// One term `a[j] * b[d - j]` of an acyclic convolution, zero when either
/// index falls outside its sequence.
pub open spec fn conv_term(a: Seq<u32>, b: Seq<u32>, d: int, j: int) -> int {
    if 0 <= j < a.len() && 0 <= d - j < b.len() {
        a[j] * b[d - j]
    } else {
        0
    }
}

/// The partial convolution sum over the first `n` indices of `a`.
pub open spec fn conv_upto(a: Seq<u32>, b: Seq<u32>, d: int, n: int) -> int
    decreases n,
{
    if n <= 0 {
        0
    } else {
        conv_upto(a, b, d, n - 1) + conv_term(a, b, d, n - 1)
    }
}

/// Coefficient `d` of the acyclic product of `a` and `b`, over the
/// unbounded integers.
pub open spec fn conv(a: Seq<u32>, b: Seq<u32>, d: int) -> int {
    conv_upto(a, b, d, a.len() as int)
}

/// Coefficient `i` of the negacyclic product: the reduction by `X^n + 1`
/// folds coefficient `i + n` of the acyclic product in with a negative
/// sign, since `X^n == -1`.
pub open spec fn negacyclic_coef(a: Seq<u32>, b: Seq<u32>, i: int) -> u32 {
    w32(conv(a, b, i) - conv(a, b, i + a.len()))
}

/// Coefficient `i` of the product by the monomial `X^e`, `e` reduced modulo
/// `2n`: a rotation of the coefficients in which the entries that wrap
/// around the degree bound change sign.
pub open spec fn monomial_rotate(a: Seq<u32>, e: int, i: int) -> u32 {
    let n = a.len() as int;
    let reverse = e >= n;
    let e0 = if reverse {
        e - n
    } else {
        e
    };
    if i < e0 {
        if reverse {
            a[i + n - e0]
        } else {
            wsub(0, a[i + n - e0])
        }
    } else {
        if reverse {
            wsub(0, a[i - e0])
        } else {
            a[i - e0]
        }
    }
}

impl Default for ResiduePoly {
    /// The zero polynomial.
    fn default() -> (r: ResiduePoly)
        ensures
            r.wf(),
            forall|i: int| 0 <= i < N ==> r@[i] == 0u32,
    {
        ResiduePoly::new()
    }
}

/// Whether `n` is a power of two.
pub open spec fn is_pow2(n: nat) -> bool
    decreases n,
{
    if n == 0 {
        false
    } else if n == 1 {
        true
    } else {
        n % 2 == 0 && is_pow2(n / 2)
    }
}

proof fn lemma_conv_upto_zero(a: Seq<u32>, b: Seq<u32>, d: int, n: int)
    requires
        d < 0 || d > a.len() + b.len() - 2,
    ensures
        conv_upto(a, b, d, n) == 0,
    decreases n,
{
    if n > 0 {
        lemma_conv_upto_zero(a, b, d, n - 1);
        assert(conv_term(a, b, d, n - 1) == 0);
    }
}

/// The acyclic product has no coefficients outside the degree range of its
/// factors.
pub proof fn lemma_conv_zero(a: Seq<u32>, b: Seq<u32>, d: int)
    requires
        d < 0 || d > a.len() + b.len() - 2,
    ensures
        conv(a, b, d) == 0,
{
    lemma_conv_upto_zero(a, b, d, a.len() as int);
}

proof fn lemma_conv_upto_concat_low(x: Seq<u32>, y: Seq<u32>, b: Seq<u32>, d: int, n: int)
    requires
        n <= x.len(),
    ensures
        conv_upto(x + y, b, d, n) == conv_upto(x, b, d, n),
    decreases n,
{
    if n > 0 {
        lemma_conv_upto_concat_low(x, y, b, d, n - 1);
        assert((x + y)[n - 1] == x[n - 1]);
    }
}

proof fn lemma_conv_upto_concat_high(x: Seq<u32>, y: Seq<u32>, b: Seq<u32>, d: int, t: int)
    requires
        0 <= t <= y.len(),
    ensures
        conv_upto(x + y, b, d, x.len() + t) == conv_upto(x, b, d, x.len() as int) + conv_upto(
            y,
            b,
            d - x.len(),
            t,
        ),
    decreases t,
{
    if t == 0 {
        lemma_conv_upto_concat_low(x, y, b, d, x.len() as int);
    } else {
        lemma_conv_upto_concat_high(x, y, b, d, t - 1);
        assert((x + y)[x.len() + t - 1] == y[t - 1]);
        assert(conv_term(x + y, b, d, x.len() + t - 1) == conv_term(y, b, d - x.len(), t - 1));
    }
}

/// Splitting the left factor of a convolution: the high half contributes at
/// an offset of the low half's length.
pub proof fn lemma_conv_concat_left(x: Seq<u32>, y: Seq<u32>, b: Seq<u32>, d: int)
    ensures
        conv(x + y, b, d) == conv(x, b, d) + conv(y, b, d - x.len()),
{
    lemma_conv_upto_concat_high(x, y, b, d, y.len() as int);
}

proof fn lemma_conv_upto_concat_right(a: Seq<u32>, u: Seq<u32>, v: Seq<u32>, d: int, n: int)
    ensures
        conv_upto(a, u + v, d, n) == conv_upto(a, u, d, n) + conv_upto(a, v, d - u.len(), n),
    decreases n,
{
    if n > 0 {
        lemma_conv_upto_concat_right(a, u, v, d, n - 1);
        let j = n - 1;
        if 0 <= j < a.len() && 0 <= d - j < u.len() + v.len() {
            if d - j < u.len() {
                assert((u + v)[d - j] == u[d - j]);
            } else {
                assert((u + v)[d - j] == v[d - j - u.len()]);
            }
        }
        assert(conv_term(a, u + v, d, j) == conv_term(a, u, d, j) + conv_term(a, v, d - u.len(), j));
    }
}

/// Splitting the right factor of a convolution.
pub proof fn lemma_conv_concat_right(a: Seq<u32>, u: Seq<u32>, v: Seq<u32>, d: int)
    ensures
        conv(a, u + v, d) == conv(a, u, d) + conv(a, v, d - u.len()),
{
    lemma_conv_upto_concat_right(a, u, v, d, a.len() as int);
}

proof fn lemma_conv_upto_padd_left(s: Seq<u32>, x: Seq<u32>, y: Seq<u32>, b: Seq<u32>, d: int, n: int)
    requires
        s.len() == x.len(),
        s.len() == y.len(),
        forall|j: int| 0 <= j < s.len() ==> s[j] == wadd(x[j], y[j]),
    ensures
        conv_upto(s, b, d, n) % 0x100000000 == (conv_upto(x, b, d, n) + conv_upto(y, b, d, n))
            % 0x100000000,
    decreases n,
{
    broadcast use crate::modular::lemma_w32_mod;

    if n > 0 {
        lemma_conv_upto_padd_left(s, x, y, b, d, n - 1);
        let j = n - 1;
        if 0 <= j < s.len() && 0 <= d - j < b.len() {
            assert(s[j] as int % 0x100000000 == (x[j] + y[j]) % 0x100000000);
            vstd::arithmetic::div_mod::lemma_mul_mod_noop_left(s[j] as int, b[d - j] as int, 0x100000000);
            vstd::arithmetic::div_mod::lemma_mul_mod_noop_left(x[j] + y[j], b[d - j] as int, 0x100000000);
            vstd::arithmetic::mul::lemma_mul_is_distributive_add_other_way(
                b[d - j] as int,
                x[j] as int,
                y[j] as int,
            );
            assert(conv_term(s, b, d, j) % 0x100000000 == (conv_term(x, b, d, j) + conv_term(
                y,
                b,
                d,
                j,
            )) % 0x100000000);
        } else {
            assert(conv_term(s, b, d, j) == 0 && conv_term(x, b, d, j) == 0 && conv_term(y, b, d, j) == 0);
        }
        vstd::arithmetic::div_mod::lemma_add_mod_noop(
            conv_upto(s, b, d, n - 1),
            conv_term(s, b, d, j),
            0x100000000,
        );
        vstd::arithmetic::div_mod::lemma_add_mod_noop(
            conv_upto(x, b, d, n - 1) + conv_upto(y, b, d, n - 1),
            conv_term(x, b, d, j) + conv_term(y, b, d, j),
            0x100000000,
        );
    }
}

/// A convolution whose left factor is a coefficient-wise wrapping sum is
/// congruent to the sum of the two convolutions.
pub proof fn lemma_conv_padd_left(s: Seq<u32>, x: Seq<u32>, y: Seq<u32>, b: Seq<u32>, d: int)
    requires
        s.len() == x.len(),
        s.len() == y.len(),
        forall|j: int| 0 <= j < s.len() ==> s[j] == wadd(x[j], y[j]),
    ensures
        conv(s, b, d) % 0x100000000 == (conv(x, b, d) + conv(y, b, d)) % 0x100000000,
{
    lemma_conv_upto_padd_left(s, x, y, b, d, s.len() as int);
}

proof fn lemma_conv_upto_padd_right(a: Seq<u32>, s: Seq<u32>, u: Seq<u32>, v: Seq<u32>, d: int, n: int)
    requires
        s.len() == u.len(),
        s.len() == v.len(),
        forall|j: int| 0 <= j < s.len() ==> s[j] == wadd(u[j], v[j]),
    ensures
        conv_upto(a, s, d, n) % 0x100000000 == (conv_upto(a, u, d, n) + conv_upto(a, v, d, n))
            % 0x100000000,
    decreases n,
{
    broadcast use crate::modular::lemma_w32_mod;

    if n > 0 {
        lemma_conv_upto_padd_right(a, s, u, v, d, n - 1);
        let j = n - 1;
        if 0 <= j < a.len() && 0 <= d - j < s.len() {
            assert(s[d - j] as int % 0x100000000 == (u[d - j] + v[d - j]) % 0x100000000);
            vstd::arithmetic::div_mod::lemma_mul_mod_noop_right(a[j] as int, s[d - j] as int, 0x100000000);
            vstd::arithmetic::div_mod::lemma_mul_mod_noop_right(a[j] as int, u[d - j] + v[d - j], 0x100000000);
            vstd::arithmetic::mul::lemma_mul_is_distributive_add(
                a[j] as int,
                u[d - j] as int,
                v[d - j] as int,
            );
            assert(conv_term(a, s, d, j) % 0x100000000 == (conv_term(a, u, d, j) + conv_term(
                a,
                v,
                d,
                j,
            )) % 0x100000000);
        } else {
            assert(conv_term(a, s, d, j) == 0 && conv_term(a, u, d, j) == 0 && conv_term(a, v, d, j) == 0);
        }
        vstd::arithmetic::div_mod::lemma_add_mod_noop(
            conv_upto(a, s, d, n - 1),
            conv_term(a, s, d, j),
            0x100000000,
        );
        vstd::arithmetic::div_mod::lemma_add_mod_noop(
            conv_upto(a, u, d, n - 1) + conv_upto(a, v, d, n - 1),
            conv_term(a, u, d, j) + conv_term(a, v, d, j),
            0x100000000,
        );
    }
}

proof fn lemma_conv_upto_psub_left(
    s: Seq<u32>,
    x: Seq<u32>,
    y: Seq<u32>,
    b: Seq<u32>,
    d: int,
    n: int,
)
    requires
        s.len() == x.len(),
        s.len() == y.len(),
        forall|j: int| 0 <= j < s.len() ==> s[j] == wsub(x[j], y[j]),
    ensures
        conv_upto(s, b, d, n) % 0x100000000 == (conv_upto(x, b, d, n) - conv_upto(y, b, d, n))
            % 0x100000000,
    decreases n,
{
    broadcast use crate::modular::lemma_w32_mod;

    if n > 0 {
        lemma_conv_upto_psub_left(s, x, y, b, d, n - 1);
        let j = n - 1;
        if 0 <= j < s.len() && 0 <= d - j < b.len() {
            assert(s[j] as int % 0x100000000 == (x[j] - y[j]) % 0x100000000);
            vstd::arithmetic::div_mod::lemma_mul_mod_noop_left(
                s[j] as int,
                b[d - j] as int,
                0x100000000,
            );
            vstd::arithmetic::div_mod::lemma_mul_mod_noop_left(
                x[j] - y[j],
                b[d - j] as int,
                0x100000000,
            );
            vstd::arithmetic::mul::lemma_mul_is_distributive_sub_other_way(
                b[d - j] as int,
                x[j] as int,
                y[j] as int,
            );
            assert(conv_term(s, b, d, j) % 0x100000000 == (conv_term(x, b, d, j) - conv_term(
                y,
                b,
                d,
                j,
            )) % 0x100000000);
        } else {
            assert(conv_term(s, b, d, j) == 0 && conv_term(x, b, d, j) == 0 && conv_term(
                y,
                b,
                d,
                j,
            ) == 0);
        }
        vstd::arithmetic::div_mod::lemma_add_mod_noop(
            conv_upto(s, b, d, n - 1),
            conv_term(s, b, d, j),
            0x100000000,
        );
        vstd::arithmetic::div_mod::lemma_add_mod_noop(
            conv_upto(x, b, d, n - 1) - conv_upto(y, b, d, n - 1),
            conv_term(x, b, d, j) - conv_term(y, b, d, j),
            0x100000000,
        );
    }
}

/// A convolution whose left factor is a coefficient-wise wrapping
/// difference is congruent to the difference of the two convolutions.
pub proof fn lemma_conv_psub_left(s: Seq<u32>, x: Seq<u32>, y: Seq<u32>, b: Seq<u32>, d: int)
    requires
        s.len() == x.len(),
        s.len() == y.len(),
        forall|j: int| 0 <= j < s.len() ==> s[j] == wsub(x[j], y[j]),
    ensures
        conv(s, b, d) % 0x100000000 == (conv(x, b, d) - conv(y, b, d)) % 0x100000000,
{
    lemma_conv_upto_psub_left(s, x, y, b, d, s.len() as int);
}

/// A convolution whose right factor is a coefficient-wise wrapping sum is
/// congruent to the sum of the two convolutions.
pub proof fn lemma_conv_padd_right(a: Seq<u32>, s: Seq<u32>, u: Seq<u32>, v: Seq<u32>, d: int)
    requires
        s.len() == u.len(),
        s.len() == v.len(),
        forall|j: int| 0 <= j < s.len() ==> s[j] == wadd(u[j], v[j]),
    ensures
        conv(a, s, d) % 0x100000000 == (conv(a, u, d) + conv(a, v, d)) % 0x100000000,
{
    lemma_conv_upto_padd_right(a, s, u, v, d, a.len() as int);
}

proof fn lemma_conv_upto_bump0(m: Seq<u32>, m2: Seq<u32>, b: Seq<u32>, d: int, n: int)
    requires
        m.len() == m2.len(),
        m.len() > 0,
        forall|i: int| 1 <= i < m.len() ==> m2[i] == m[i],
        n >= 1,
    ensures
        conv_upto(m2, b, d, n) == conv_upto(m, b, d, n) + conv_term(m2, b, d, 0) - conv_term(
            m,
            b,
            d,
            0,
        ),
    decreases n,
{
    if n > 1 {
        lemma_conv_upto_bump0(m, m2, b, d, n - 1);
        assert(conv_term(m2, b, d, n - 1) == conv_term(m, b, d, n - 1));
    } else {
        assert(conv_upto(m2, b, d, 0) == 0 && conv_upto(m, b, d, 0) == 0);
    }
}

/// Adding a constant (wrapping) to the degree-zero coefficient of the left
/// factor shifts each convolution coefficient by the constant times the
/// matching coefficient of the right factor.
pub proof fn lemma_conv_bump0(m: Seq<u32>, m2: Seq<u32>, b: Seq<u32>, c: u32, d: int)
    requires
        m.len() == m2.len(),
        m.len() > 0,
        m2[0] == wadd(m[0], c),
        forall|i: int| 1 <= i < m.len() ==> m2[i] == m[i],
    ensures
        conv(m2, b, d) % 0x100000000 == (conv(m, b, d) + if 0 <= d < b.len() {
            c * b[d]
        } else {
            0
        }) % 0x100000000,
{
    broadcast use crate::modular::lemma_w32_mod;

    lemma_conv_upto_bump0(m, m2, b, d, m.len() as int);
    let t0 = conv_term(m, b, d, 0);
    let t2 = conv_term(m2, b, d, 0);
    let delta = if 0 <= d < b.len() {
        c * b[d]
    } else {
        0
    };
    assert(t2 % 0x100000000 == (t0 + delta) % 0x100000000) by {
        if 0 <= d < b.len() {
            vstd::arithmetic::div_mod::lemma_mul_mod_noop_left(
                m2[0] as int,
                b[d] as int,
                0x100000000,
            );
            vstd::arithmetic::div_mod::lemma_mul_mod_noop_left(
                m[0] + c,
                b[d] as int,
                0x100000000,
            );
            vstd::arithmetic::mul::lemma_mul_is_distributive_add_other_way(
                b[d] as int,
                m[0] as int,
                c as int,
            );
        }
    }
    vstd::arithmetic::div_mod::lemma_add_mod_noop(conv(m, b, d), t2 - t0, 0x100000000);
    vstd::arithmetic::div_mod::lemma_sub_mod_noop(t2, t0, 0x100000000);
    vstd::arithmetic::div_mod::lemma_sub_mod_noop(t0 + delta, t0, 0x100000000);
    vstd::arithmetic::div_mod::lemma_add_mod_noop(conv(m, b, d), delta, 0x100000000);
}

/// The coefficients of the monomial `X^e` reduced by `X^n + 1`, for
/// `0 <= e < 2n`: a single `1` at position `e` when `e < n`, and a single
/// `-1` at position `e - n` otherwise.
pub open spec fn monomial(n: nat, e: int) -> Seq<u32> {
    Seq::new(
        n,
        |i: int|
            if e < n {
                if i == e {
                    1u32
                } else {
                    0u32
                }
            } else {
                if i == e - n {
                    0xFFFFFFFFu32
                } else {
                    0u32
                }
            },
    )
}

proof fn lemma_conv_upto_single(a: Seq<u32>, b: Seq<u32>, pos: int, d: int, n: int)
    requires
        0 <= pos < b.len(),
        forall|j: int| 0 <= j < b.len() && j != pos ==> b[j] == 0,
    ensures
        conv_upto(a, b, d, n) == if 0 <= d - pos && d - pos < n && d - pos < a.len() {
            a[d - pos] * b[pos]
        } else {
            0
        },
    decreases n,
{
    if n > 0 {
        lemma_conv_upto_single(a, b, pos, d, n - 1);
        let j = n - 1;
        if 0 <= j < a.len() && 0 <= d - j < b.len() && d - j != pos {
            assert(conv_term(a, b, d, j) == a[j] * 0);
        }
    }
}

/// Convolving with a sequence that has a single nonzero entry picks out one
/// shifted coefficient.
proof fn lemma_conv_single(a: Seq<u32>, b: Seq<u32>, pos: int, d: int)
    requires
        0 <= pos < b.len(),
        forall|j: int| 0 <= j < b.len() && j != pos ==> b[j] == 0,
    ensures
        conv(a, b, d) == if 0 <= d - pos < a.len() {
            a[d - pos] * b[pos]
        } else {
            0
        },
{
    lemma_conv_upto_single(a, b, pos, d, a.len() as int);
}

/// Multiplying by the monomial `X^e` in the negacyclic ring rotates the
/// coefficients, flipping the sign of the entries that wrap around.
pub proof fn lemma_mul_by_monomial(a: Seq<u32>, e: int, i: int)
    requires
        a.len() > 0,
        0 <= e < 2 * a.len(),
        0 <= i < a.len(),
    ensures
        negacyclic_coef(a, monomial(a.len(), e), i) == monomial_rotate(a, e, i),
{
    broadcast use crate::modular::lemma_w32_mod;

    let n = a.len() as int;
    let m = monomial(a.len(), e);
    if e < n {
        lemma_conv_single(a, m, e, i);
        lemma_conv_single(a, m, e, i + n);
        if i >= e {
            assert(conv(a, m, i) == a[i - e] * 1);
            assert(conv(a, m, i + n) == 0);
            vstd::arithmetic::div_mod::lemma_small_mod(a[i - e] as nat, 0x100000000);
        } else {
            assert(conv(a, m, i) == 0);
            assert(conv(a, m, i + n) == a[i + n - e] * 1);
        }
    } else {
        let e0 = e - n;
        lemma_conv_single(a, m, e0, i);
        lemma_conv_single(a, m, e0, i + n);
        if i >= e0 {
            let v = a[i - e0];
            assert(conv(a, m, i) == v * 0xFFFFFFFF);
            assert(conv(a, m, i + n) == 0);
            assert(v * 0xFFFFFFFF == 0x100000000 * v + (0 - v)) by {
                vstd::arithmetic::mul::lemma_mul_is_distributive_sub(
                    v as int,
                    0x100000000,
                    1,
                );
            }
            vstd::arithmetic::div_mod::lemma_mod_multiples_vanish(
                v as int,
                0 - v,
                0x100000000,
            );
            assert(negacyclic_coef(a, m, i) == w32(0 - v));
        } else {
            let v = a[i + n - e0];
            assert(conv(a, m, i) == 0);
            assert(conv(a, m, i + n) == v * 0xFFFFFFFF);
            assert(v * 0xFFFFFFFF == 0x100000000 * v + (0 - v)) by {
                vstd::arithmetic::mul::lemma_mul_is_distributive_sub(
                    v as int,
                    0x100000000,
                    1,
                );
            }
            vstd::arithmetic::div_mod::lemma_mod_multiples_vanish(
                0 - v,
                v as int,
                0x100000000,
            );
            assert(negacyclic_coef(a, m, i) == w32(v as int));
            vstd::arithmetic::div_mod::lemma_small_mod(v as nat, 0x100000000);
        }
    }
}

/// A vector of `n` zero words.
pub(crate) fn zero_vec(n: usize) -> (r: Vec<u32>)
    ensures
        r.len() == n,
        forall|i: int| 0 <= i < n ==> r@[i] == 0u32,
{
    let mut r: Vec<u32> = Vec::new();
    for i in 0..n
        invariant
            r.len() == i,
            forall|t: int| 0 <= t < i ==> r@[t] == 0u32,
    {
        r.push(0u32);
    }
    r
}

impl ResiduePoly {
    /// The coefficient buffer always holds exactly `N` words.
    pub open spec fn wf(&self) -> bool {
        self.coefs.len() == N
    }

    /// The zero polynomial.
    pub fn new() -> (r: ResiduePoly)
        ensures
            r.wf(),
            forall|i: int| 0 <= i < N ==> r@[i] == 0u32,
    {
        ResiduePoly { coefs: zero_vec(N) }
    }

    pub fn add(&self, rhs: &ResiduePoly) -> (r: ResiduePoly)
        requires
            self.wf(),
            rhs.wf(),
        ensures
            r.wf(),
            forall|i: int| 0 <= i < N ==> r@[i] == wadd(self@[i], rhs@[i]),
    {
        let mut coefs: Vec<u32> = Vec::new();
        for i in 0..N
            invariant
                self.wf(),
                rhs.wf(),
                coefs.len() == i,
                forall|t: int| 0 <= t < i ==> coefs@[t] == wadd(self@[t], rhs@[t]),
        {
            coefs.push(self.coefs[i].wrapping_add(rhs.coefs[i]));
        }
        ResiduePoly { coefs }
    }

    pub fn add_assign(&mut self, rhs: &ResiduePoly)
        requires
            old(self).wf(),
            rhs.wf(),
        ensures
            final(self).wf(),
            forall|i: int| 0 <= i < N ==> final(self)@[i] == wadd(old(self)@[i], rhs@[i]),
    {
        for i in 0..N
            invariant
                self.wf(),
                old(self).wf(),
                rhs.wf(),
                forall|t: int| 0 <= t < i ==> self@[t] == wadd(old(self)@[t], rhs@[t]),
                forall|t: int| i <= t < N ==> self@[t] == old(self)@[t],
        {
            let ghost prev = self@;
            self.coefs[i] = self.coefs[i].wrapping_add(rhs.coefs[i]);
            proof {
                assert forall|t: int| 0 <= t < i + 1 implies self@[t] == wadd(
                    old(self)@[t],
                    rhs@[t],
                ) by {
                    if t < i {
                        assert(self@[t] == prev[t]);
                    } else {
                        assert(prev[t] == old(self)@[t]);
                    }
                }
            }
        }
    }

    pub fn add_constant(&self, constant: u32) -> (r: ResiduePoly)
        requires
            self.wf(),
        ensures
            r.wf(),
            r@[0] == wadd(self@[0], constant),
            forall|i: int| 1 <= i < N ==> r@[i] == self@[i],
    {
        let mut res = self.clone_poly();
        res.add_constant_assign(constant);
        res
    }

    pub fn add_constant_assign(&mut self, constant: u32)
        requires
            old(self).wf(),
        ensures
            final(self).wf(),
            final(self)@[0] == wadd(old(self)@[0], constant),
            forall|i: int| 1 <= i < N ==> final(self)@[i] == old(self)@[i],
    {
        self.coefs[0] = self.coefs[0].wrapping_add(constant);
    }

    pub fn sub(&self, rhs: &ResiduePoly) -> (r: ResiduePoly)
        requires
            self.wf(),
            rhs.wf(),
        ensures
            r.wf(),
            forall|i: int| 0 <= i < N ==> r@[i] == wsub(self@[i], rhs@[i]),
    {
        let mut coefs: Vec<u32> = Vec::new();
        for i in 0..N
            invariant
                self.wf(),
                rhs.wf(),
                coefs.len() == i,
                forall|t: int| 0 <= t < i ==> coefs@[t] == wsub(self@[t], rhs@[t]),
        {
            coefs.push(self.coefs[i].wrapping_sub(rhs.coefs[i]));
        }
        ResiduePoly { coefs }
    }

    /// An identical copy of the polynomial.
    pub fn clone_poly(&self) -> (r: ResiduePoly)
        ensures
            r@ == self@,
            r.wf() <==> self.wf(),
    {
        let mut coefs: Vec<u32> = Vec::new();
        for i in 0..self.coefs.len()
            invariant
                coefs.len() == i,
                i <= self.coefs.len(),
                forall|t: int| 0 <= t < i ==> coefs@[t] == self@[t],
        {
            coefs.push(self.coefs[i]);
        }
        proof {
            assert(coefs@ =~= self@);
        }
        ResiduePoly { coefs }
    }

    /// A polynomial with uniformly random coefficients in `[0, 2^32)`.
    pub fn get_random() -> (r: ResiduePoly)
        ensures
            r.wf(),
    {
        let mut coefs: Vec<u32> = Vec::new();
        for i in 0..N
            invariant
                coefs.len() == i,
        {
            coefs.push(crate::sampling::random_word());
        }
        ResiduePoly { coefs }
    }

    /// A polynomial with uniformly random coefficients in `{0, 1}`.
    pub fn get_random_bin() -> (r: ResiduePoly)
        ensures
            r.wf(),
            forall|i: int| 0 <= i < N ==> r@[i] <= 1,
    {
        let mut coefs: Vec<u32> = Vec::new();
        for i in 0..N
            invariant
                coefs.len() == i,
                forall|t: int| 0 <= t < i ==> coefs@[t] <= 1,
        {
            coefs.push(crate::sampling::random_bit());
        }
        ResiduePoly { coefs }
    }

    /// Multiplies the polynomial by the monomial `X^exponent`, where
    /// `exponent` has already been reduced modulo `2N`.
    pub fn multiply_by_monomial(&self, exponent: usize) -> (r: ResiduePoly)
        requires
            self.wf(),
            exponent < 2 * N,
        ensures
            r.wf(),
            forall|i: int| 0 <= i < N ==> r@[i] == monomial_rotate(self@, exponent as int, i),
    {
        let mut rotated_coefs: Vec<u32> = Vec::new();

        let reverse = exponent >= N;
        let e = exponent % N;

        for i in 0..N
            invariant
                self.wf(),
                exponent < 2 * N,
                reverse == (exponent >= N),
                e == exponent % N,
                e < N,
                rotated_coefs.len() == i,
                forall|t: int| 0 <= t < i
                    ==> rotated_coefs@[t] == monomial_rotate(self@, exponent as int, t),
        {
            rotated_coefs.push(
                if i < e {
                    if reverse {
                        self.coefs[i + N - e]
                    } else {
                        0u32.wrapping_sub(self.coefs[i + N - e])
                    }
                } else if reverse {
                    0u32.wrapping_sub(self.coefs[i - e])
                } else {
                    self.coefs[i - e]
                },
            );
        }

        ResiduePoly { coefs: rotated_coefs }
    }
}

/// The copy of `v[start .. start + len]`.
fn subvec(v: &Vec<u32>, start: usize, len: usize) -> (r: Vec<u32>)
    requires
        start + len <= v.len(),
    ensures
        r@ == v@.subrange(start as int, start + len),
{
    let mut r: Vec<u32> = Vec::new();
    for i in 0..len
        invariant
            start + len <= v.len(),
            r.len() == i,
            forall|t: int| 0 <= t < i ==> r@[t] == v@[start + t],
    {
        r.push(v[start + i]);
    }
    proof {
        assert(r@ =~= v@.subrange(start as int, start + len));
    }
    r
}

/// Fills `output` with the coefficient-wise wrapping sum of `lhs` and
/// `rhs`.
pub fn slice_wrapping_add(output: &mut Vec<u32>, lhs: &Vec<u32>, rhs: &Vec<u32>)
    requires
        lhs.len() == rhs.len(),
        old(output).len() == lhs.len(),
    ensures
        final(output).len() == lhs.len(),
        forall|i: int| 0 <= i < lhs.len() ==> final(output)@[i] == wadd(lhs@[i], rhs@[i]),
{
    for i in 0..lhs.len()
        invariant
            lhs.len() == rhs.len(),
            output.len() == lhs.len(),
            forall|t: int| 0 <= t < i ==> output@[t] == wadd(lhs@[t], rhs@[t]),
    {
        output[i] = lhs[i].wrapping_add(rhs[i]);
    }
}

/// Adds `rhs` coefficient-wise into `lhs`, wrapping.
pub fn slice_wrapping_add_assign(lhs: &mut Vec<u32>, rhs: &Vec<u32>)
    requires
        old(lhs).len() == rhs.len(),
    ensures
        final(lhs).len() == rhs.len(),
        forall|i: int| 0 <= i < rhs.len() ==> final(lhs)@[i] == wadd(old(lhs)@[i], rhs@[i]),
{
    for i in 0..rhs.len()
        invariant
            lhs.len() == rhs.len(),
            forall|t: int| 0 <= t < i ==> lhs@[t] == wadd(old(lhs)@[t], rhs@[t]),
            forall|t: int| i <= t < rhs.len() ==> lhs@[t] == old(lhs)@[t],
    {
        let ghost prev = lhs@;
        lhs[i] = lhs[i].wrapping_add(rhs[i]);
        proof {
            assert(forall|t: int| 0 <= t < i ==> lhs@[t] == prev[t]);
        }
    }
}

/// Fills `output` with the coefficient-wise wrapping difference of `lhs`
/// and `rhs`.
pub fn slice_wrapping_sub(output: &mut Vec<u32>, lhs: &Vec<u32>, rhs: &Vec<u32>)
    requires
        lhs.len() == rhs.len(),
        old(output).len() == lhs.len(),
    ensures
        final(output).len() == lhs.len(),
        forall|i: int| 0 <= i < lhs.len() ==> final(output)@[i] == wsub(lhs@[i], rhs@[i]),
{
    for i in 0..lhs.len()
        invariant
            lhs.len() == rhs.len(),
            output.len() == lhs.len(),
            forall|t: int| 0 <= t < i ==> output@[t] == wsub(lhs@[t], rhs@[t]),
    {
        output[i] = lhs[i].wrapping_sub(rhs[i]);
    }
}

/// Subtracts `rhs` coefficient-wise from `lhs`, wrapping.
pub fn slice_wrapping_sub_assign(lhs: &mut Vec<u32>, rhs: &Vec<u32>)
    requires
        old(lhs).len() == rhs.len(),
    ensures
        final(lhs).len() == rhs.len(),
        forall|i: int| 0 <= i < rhs.len() ==> final(lhs)@[i] == wsub(old(lhs)@[i], rhs@[i]),
{
    for i in 0..rhs.len()
        invariant
            lhs.len() == rhs.len(),
            forall|t: int| 0 <= t < i ==> lhs@[t] == wsub(old(lhs)@[t], rhs@[t]),
            forall|t: int| i <= t < rhs.len() ==> lhs@[t] == old(lhs)@[t],
    {
        let ghost prev = lhs@;
        lhs[i] = lhs[i].wrapping_sub(rhs[i]);
        proof {
            assert(forall|t: int| 0 <= t < i ==> lhs@[t] == prev[t]);
        }
    }
}

/// Adds `src[soff .. soff + len]` into `dst[doff .. doff + len]`, wrapping;
/// all other entries of `dst` are untouched.
fn range_add_assign(dst: &mut Vec<u32>, doff: usize, src: &Vec<u32>, soff: usize, len: usize)
    requires
        doff + len <= old(dst).len(),
        soff + len <= src.len(),
    ensures
        final(dst).len() == old(dst).len(),
        forall|t: int| doff <= t < doff + len
            ==> final(dst)@[t] == wadd(old(dst)@[t], src@[soff + (t - doff)]),
        forall|t: int| 0 <= t < old(dst).len() && !(doff <= t < doff + len)
            ==> final(dst)@[t] == old(dst)@[t],
{
    for i in 0..len
        invariant
            doff + len <= dst.len(),
            soff + len <= src.len(),
            dst.len() == old(dst).len(),
            forall|t: int| doff <= t < doff + i
                ==> dst@[t] == wadd(old(dst)@[t], src@[soff + (t - doff)]),
            forall|t: int| 0 <= t < dst.len() && !(doff <= t < doff + i) ==> dst@[t] == old(dst)@[t],
    {
        let ghost prev = dst@;
        dst[doff + i] = dst[doff + i].wrapping_add(src[soff + i]);
        proof {
            assert(forall|t: int| 0 <= t < dst.len() && t != doff + i ==> dst@[t] == prev[t]);
        }
    }
}

/// Subtracts `src[soff .. soff + len]` from `dst[doff .. doff + len]`,
/// wrapping; all other entries of `dst` are untouched.
fn range_sub_assign(dst: &mut Vec<u32>, doff: usize, src: &Vec<u32>, soff: usize, len: usize)
    requires
        doff + len <= old(dst).len(),
        soff + len <= src.len(),
    ensures
        final(dst).len() == old(dst).len(),
        forall|t: int| doff <= t < doff + len
            ==> final(dst)@[t] == wsub(old(dst)@[t], src@[soff + (t - doff)]),
        forall|t: int| 0 <= t < old(dst).len() && !(doff <= t < doff + len)
            ==> final(dst)@[t] == old(dst)@[t],
{
    for i in 0..len
        invariant
            doff + len <= dst.len(),
            soff + len <= src.len(),
            dst.len() == old(dst).len(),
            forall|t: int| doff <= t < doff + i
                ==> dst@[t] == wsub(old(dst)@[t], src@[soff + (t - doff)]),
            forall|t: int| 0 <= t < dst.len() && !(doff <= t < doff + i) ==> dst@[t] == old(dst)@[t],
    {
        let ghost prev = dst@;
        dst[doff + i] = dst[doff + i].wrapping_sub(src[soff + i]);
        proof {
            assert(forall|t: int| 0 <= t < dst.len() && t != doff + i ==> dst@[t] == prev[t]);
        }
    }
}

/// Accumulates the acyclic (full, unreduced) product of `p` and `q` into
/// the zeroed buffer `res`: the Karatsuba recursion, with a schoolbook base
/// case once the operands are short.
#[verifier::rlimit(100)]
fn induction_karatsuba(res: &mut Vec<u32>, p: &Vec<u32>, q: &Vec<u32>)
    requires
        p.len() == q.len(),
        is_pow2(p.len() as nat),
        old(res).len() == 2 * p.len(),
        forall|d: int| 0 <= d < old(res).len() ==> old(res)@[d] == 0u32,
    ensures
        final(res).len() == old(res).len(),
        forall|d: int| 0 <= d < old(res).len() ==> final(res)@[d] == w32(conv(p@, q@, d)),
    decreases p.len(),
{
    if p.len() <= 64 {
        // schoolbook algorithm
        for i in 0..p.len()
            invariant
                p.len() == q.len(),
                res.len() == 2 * p.len(),
                forall|d: int| 0 <= d < res.len() ==> res@[d] == w32(conv_upto(p@, q@, d, i as int)),
        {
            for j in 0..q.len()
                invariant
                    p.len() == q.len(),
                    i < p.len(),
                    res.len() == 2 * p.len(),
                    forall|d: int| 0 <= d < res.len() ==> res@[d] == w32(
                        conv_upto(p@, q@, d, i as int) + if i <= d < i + j {
                            p@[i as int] * q@[d - i]
                        } else {
                            0
                        },
                    ),
            {
                let ghost prev = res@;
                res[i + j] = res[i + j].wrapping_add(p[i].wrapping_mul(q[j]));
                proof {
                    let d0 = (i + j) as int;
                    crate::modular::lemma_w32_add(
                        conv_upto(p@, q@, d0, i as int),
                        p@[i as int] * q@[j as int],
                    );
                    assert forall|d: int| 0 <= d < res.len() implies res@[d] == w32(
                        conv_upto(p@, q@, d, i as int) + if i <= d < i + j + 1 {
                            p@[i as int] * q@[d - i]
                        } else {
                            0
                        },
                    ) by {
                        if d != d0 {
                            assert(res@[d] == prev[d]);
                        }
                    }
                }
            }
            proof {
                assert forall|d: int| 0 <= d < res.len() implies res@[d] == w32(
                    conv_upto(p@, q@, d, i + 1),
                ) by {
                    if i <= d < i + q.len() {
                        assert(conv_term(p@, q@, d, i as int) == p@[i as int] * q@[d - i]);
                    } else {
                        assert(conv_term(p@, q@, d, i as int) == 0);
                    }
                }
            }
        }
    } else {
        let half = p.len() / 2;
        proof {
            assert(p.len() % 2 == 0 && is_pow2((p.len() / 2) as nat));
        }
        let p0 = subvec(p, 0, half);
        let p1 = subvec(p, half, half);
        let q0 = subvec(q, 0, half);
        let q1 = subvec(q, half, half);

        let mut a0 = zero_vec(p.len());
        induction_karatsuba(&mut a0, &p0, &q0);
        let mut a1 = zero_vec(p.len());
        induction_karatsuba(&mut a1, &p1, &q1);

        let mut input_a2_p = zero_vec(half);
        slice_wrapping_add(&mut input_a2_p, &p0, &p1);
        let mut input_a2_q = zero_vec(half);
        slice_wrapping_add(&mut input_a2_q, &q0, &q1);
        let mut a2 = zero_vec(p.len());
        induction_karatsuba(&mut a2, &input_a2_p, &input_a2_q);

        let m = p.len();
        range_add_assign(res, half, &a2, 0, m);
        let ghost r1 = res@;
        range_sub_assign(res, half, &a0, 0, m);
        let ghost r2 = res@;
        range_sub_assign(res, half, &a1, 0, m);
        let ghost r3 = res@;
        range_add_assign(res, 0, &a0, 0, m);
        let ghost r4 = res@;
        range_add_assign(res, m, &a1, 0, m);

        proof {
            let mi = m as int;
            let hi = half as int;
            assert(p0@ + p1@ =~= p@);
            assert(q0@ + q1@ =~= q@);
            assert forall|d: int| 0 <= d < 2 * mi implies res@[d] == w32(conv(p@, q@, d)) by {
                lemma_conv_concat_left(p0@, p1@, q@, d);
                lemma_conv_concat_right(p0@, q0@, q1@, d);
                lemma_conv_concat_right(p1@, q0@, q1@, d - hi);
                let c00 = |x: int| conv(p0@, q0@, x);
                let c01 = |x: int| conv(p0@, q1@, x);
                let c10 = |x: int| conv(p1@, q0@, x);
                let c11 = |x: int| conv(p1@, q1@, x);
                let t = d - hi;
                assert(conv(p@, q@, d) == c00(d) + c01(d - hi) + c10(d - hi) + c11(d - mi));
                if hi <= d < hi + mi {
                    // the middle band carries a2 - a0 - a1
                    lemma_conv_padd_left(input_a2_p@, p0@, p1@, input_a2_q@, t);
                    lemma_conv_padd_right(p0@, input_a2_q@, q0@, q1@, t);
                    lemma_conv_padd_right(p1@, input_a2_q@, q0@, q1@, t);
                    vstd::arithmetic::div_mod::lemma_add_mod_noop(
                        conv(p0@, input_a2_q@, t),
                        conv(p1@, input_a2_q@, t),
                        0x100000000,
                    );
                    vstd::arithmetic::div_mod::lemma_add_mod_noop(
                        c00(t) + c01(t),
                        c10(t) + c11(t),
                        0x100000000,
                    );
                    crate::modular::lemma_w32_eq(
                        conv(input_a2_p@, input_a2_q@, t),
                        c00(t) + c01(t) + c10(t) + c11(t),
                    );
                    assert(r1[d] == w32(c00(t) + c01(t) + c10(t) + c11(t))) by {
                        crate::modular::lemma_w32_add(0, c00(t) + c01(t) + c10(t) + c11(t));
                    }
                    crate::modular::lemma_w32_sub(c00(t) + c01(t) + c10(t) + c11(t), c00(t));
                    assert(r2[d] == w32(c01(t) + c10(t) + c11(t)));
                    crate::modular::lemma_w32_sub(c01(t) + c10(t) + c11(t), c11(t));
                    assert(r3[d] == w32(c01(t) + c10(t)));
                    if d < mi {
                        crate::modular::lemma_w32_add(c01(t) + c10(t), c00(d));
                        assert(res@[d] == r4[d]);
                        assert(res@[d] == w32(c01(t) + c10(t) + c00(d)));
                        lemma_conv_zero(p1@, q1@, d - mi);
                    } else {
                        assert(r4[d] == r3[d]);
                        crate::modular::lemma_w32_add(c01(t) + c10(t), c11(d - mi));
                        assert(res@[d] == w32(c01(t) + c10(t) + c11(d - mi)));
                        lemma_conv_zero(p0@, q0@, d);
                    }
                } else if d < hi {
                    assert(r1[d] == 0u32 && r2[d] == 0u32 && r3[d] == 0u32);
                    crate::modular::lemma_w32_add(0, c00(d));
                    assert(res@[d] == r4[d]);
                    assert(res@[d] == w32(c00(d)));
                    lemma_conv_zero(p0@, q1@, d - hi);
                    lemma_conv_zero(p1@, q0@, d - hi);
                    lemma_conv_zero(p1@, q1@, d - mi);
                } else {
                    // d >= hi + mi
                    assert(r1[d] == 0u32 && r2[d] == 0u32 && r3[d] == 0u32 && r4[d] == 0u32);
                    crate::modular::lemma_w32_add(0, c11(d - mi));
                    assert(res@[d] == w32(c11(d - mi)));
                    lemma_conv_zero(p0@, q0@, d);
                    lemma_conv_zero(p0@, q1@, d - hi);
                    lemma_conv_zero(p1@, q0@, d - hi);
                }
            }
        }
    }
}

/// Negacyclic multiplication in `Z_q[X]/(X^n + 1)` for a power-of-two
/// length `n`: one Karatsuba split into bottom and top halves, followed by
/// the recombination that folds the degrees at and above `n` back in with a
/// negative sign.
#[verifier::rlimit(100)]
pub fn polynomial_karatsuba_wrapping_mul(output: &mut Vec<u32>, p: &Vec<u32>, q: &Vec<u32>)
    requires
        p.len() == q.len(),
        old(output).len() == p.len(),
        is_pow2(p.len() as nat),
        p.len() >= 2,
    ensures
        final(output).len() == p.len(),
        forall|i: int| 0 <= i < p.len() ==> final(output)@[i] == negacyclic_coef(p@, q@, i),
{
    let poly_size = p.len();
    let half = poly_size / 2;
    proof {
        assert(poly_size % 2 == 0 && is_pow2((poly_size / 2) as nat));
    }

    let p_bot = subvec(p, 0, half);
    let p_top = subvec(p, half, half);
    let q_bot = subvec(q, 0, half);
    let q_top = subvec(q, half, half);

    let mut a0 = zero_vec(poly_size);
    induction_karatsuba(&mut a0, &p_bot, &q_bot);
    let mut a1 = zero_vec(poly_size);
    induction_karatsuba(&mut a1, &p_top, &q_top);

    let mut input_a2_p = zero_vec(half);
    slice_wrapping_add(&mut input_a2_p, &p_bot, &p_top);
    let mut input_a2_q = zero_vec(half);
    slice_wrapping_add(&mut input_a2_q, &q_bot, &q_top);
    let mut a2 = zero_vec(poly_size);
    induction_karatsuba(&mut a2, &input_a2_p, &input_a2_q);

    slice_wrapping_sub(output, &a0, &a1);
    let ghost r1 = output@;
    range_sub_assign(output, 0, &a2, half, half);
    let ghost r2 = output@;
    range_add_assign(output, 0, &a0, half, half);
    let ghost r3 = output@;
    range_add_assign(output, 0, &a1, half, half);
    let ghost r4 = output@;
    range_add_assign(output, half, &a2, 0, half);
    let ghost r5 = output@;
    range_sub_assign(output, half, &a0, 0, half);
    let ghost r6 = output@;
    range_sub_assign(output, half, &a1, 0, half);

    proof {
        let ni = poly_size as int;
        let hi = half as int;
        assert(p_bot@ + p_top@ =~= p@);
        assert(q_bot@ + q_top@ =~= q@);
        assert forall|i: int| 0 <= i < ni implies output@[i] == negacyclic_coef(p@, q@, i) by {
            let c00 = |x: int| conv(p_bot@, q_bot@, x);
            let c01 = |x: int| conv(p_bot@, q_top@, x);
            let c10 = |x: int| conv(p_top@, q_bot@, x);
            let c11 = |x: int| conv(p_top@, q_top@, x);
            lemma_conv_concat_left(p_bot@, p_top@, q@, i);
            lemma_conv_concat_right(p_bot@, q_bot@, q_top@, i);
            lemma_conv_concat_right(p_top@, q_bot@, q_top@, i - hi);
            assert(conv(p@, q@, i) == c00(i) + c01(i - hi) + c10(i - hi) + c11(i - ni));
            lemma_conv_concat_left(p_bot@, p_top@, q@, i + ni);
            lemma_conv_concat_right(p_bot@, q_bot@, q_top@, i + ni);
            lemma_conv_concat_right(p_top@, q_bot@, q_top@, i + ni - hi);
            assert(conv(p@, q@, i + ni) == c00(i + ni) + c01(i + hi) + c10(i + hi) + c11(i));
            lemma_conv_zero(p_bot@, q_bot@, i + ni);
            crate::modular::lemma_w32_sub(c00(i), c11(i));
            assert(r1[i] == w32(c00(i) - c11(i)));
            if i < hi {
                let t = i + hi;
                lemma_conv_padd_left(input_a2_p@, p_bot@, p_top@, input_a2_q@, t);
                lemma_conv_padd_right(p_bot@, input_a2_q@, q_bot@, q_top@, t);
                lemma_conv_padd_right(p_top@, input_a2_q@, q_bot@, q_top@, t);
                vstd::arithmetic::div_mod::lemma_add_mod_noop(
                    conv(p_bot@, input_a2_q@, t),
                    conv(p_top@, input_a2_q@, t),
                    0x100000000,
                );
                vstd::arithmetic::div_mod::lemma_add_mod_noop(
                    c00(t) + c01(t),
                    c10(t) + c11(t),
                    0x100000000,
                );
                crate::modular::lemma_w32_eq(
                    conv(input_a2_p@, input_a2_q@, t),
                    c00(t) + c01(t) + c10(t) + c11(t),
                );
                crate::modular::lemma_w32_sub(
                    c00(i) - c11(i),
                    c00(t) + c01(t) + c10(t) + c11(t),
                );
                assert(r2[i] == w32(c00(i) - c11(i) - c00(t) - c01(t) - c10(t) - c11(t)));
                crate::modular::lemma_w32_add(
                    c00(i) - c11(i) - c00(t) - c01(t) - c10(t) - c11(t),
                    c00(t),
                );
                assert(r3[i] == w32(c00(i) - c11(i) - c01(t) - c10(t) - c11(t)));
                crate::modular::lemma_w32_add(c00(i) - c11(i) - c01(t) - c10(t) - c11(t), c11(t));
                assert(r4[i] == w32(c00(i) - c11(i) - c01(t) - c10(t)));
                assert(output@[i] == r4[i]);
                lemma_conv_zero(p_bot@, q_top@, i - hi);
                lemma_conv_zero(p_top@, q_bot@, i - hi);
                lemma_conv_zero(p_top@, q_top@, i - ni);
                assert(conv(p@, q@, i) - conv(p@, q@, i + ni) == c00(i) - c11(i) - c01(t) - c10(
                    t,
                ));
            } else {
                let t = i - hi;
                lemma_conv_padd_left(input_a2_p@, p_bot@, p_top@, input_a2_q@, t);
                lemma_conv_padd_right(p_bot@, input_a2_q@, q_bot@, q_top@, t);
                lemma_conv_padd_right(p_top@, input_a2_q@, q_bot@, q_top@, t);
                vstd::arithmetic::div_mod::lemma_add_mod_noop(
                    conv(p_bot@, input_a2_q@, t),
                    conv(p_top@, input_a2_q@, t),
                    0x100000000,
                );
                vstd::arithmetic::div_mod::lemma_add_mod_noop(
                    c00(t) + c01(t),
                    c10(t) + c11(t),
                    0x100000000,
                );
                crate::modular::lemma_w32_eq(
                    conv(input_a2_p@, input_a2_q@, t),
                    c00(t) + c01(t) + c10(t) + c11(t),
                );
                assert(r4[i] == r1[i]);
                crate::modular::lemma_w32_add(
                    c00(i) - c11(i),
                    c00(t) + c01(t) + c10(t) + c11(t),
                );
                assert(r5[i] == w32(c00(i) - c11(i) + c00(t) + c01(t) + c10(t) + c11(t)));
                crate::modular::lemma_w32_sub(
                    c00(i) - c11(i) + c00(t) + c01(t) + c10(t) + c11(t),
                    c00(t),
                );
                assert(r6[i] == w32(c00(i) - c11(i) + c01(t) + c10(t) + c11(t)));
                crate::modular::lemma_w32_sub(
                    c00(i) - c11(i) + c01(t) + c10(t) + c11(t),
                    c11(t),
                );
                assert(output@[i] == w32(c00(i) - c11(i) + c01(t) + c10(t)));
                lemma_conv_zero(p_top@, q_top@, i - ni);
                lemma_conv_zero(p_bot@, q_top@, i + hi);
                lemma_conv_zero(p_top@, q_bot@, i + hi);
                assert(conv(p@, q@, i) - conv(p@, q@, i + ni) == c00(i) + c01(t) + c10(t) - c11(
                    i,
                ));
            }
        }
    }
}

impl ResiduePoly {
    /// The negacyclic product of the two polynomials.
    pub fn mul(&self, rhs: &ResiduePoly) -> (r: ResiduePoly)
        requires
            self.wf(),
            rhs.wf(),
        ensures
            r.wf(),
            forall|i: int| 0 <= i < N ==> r@[i] == negacyclic_coef(self@, rhs@, i),
    {
        proof {
            reveal_with_fuel(is_pow2, 12);
            assert(is_pow2(1024nat));
        }
        let mut res = ResiduePoly::new();
        polynomial_karatsuba_wrapping_mul(&mut res.coefs, &self.coefs, &rhs.coefs);
        res
    }
}

} // verus!
