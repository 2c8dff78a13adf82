//! Polynomials over `GF(2^8)`, given by their coefficients from the
//! constant term up: evaluation, division by `x - a`, and the fact that a
//! polynomial with fewer coefficients than it has distinct roots is zero.
//! This is what makes every square Vandermonde matrix with distinct points
//! nonsingular.
use crate::gf256::{
    gf_mul, gf_pow, lemma_mul_assoc, lemma_mul_comm, lemma_mul_distrib, lemma_mul_zero_one,
    lemma_no_zero_divisors,
};
use vstd::prelude::*;

verus! {

/// `c[0] + a*(c[1] + a*(c[2] + ...))`.
pub open spec fn horner(c: Seq<u8>, a: u8) -> u8
    decreases c.len(),
{
    if c.len() == 0 {
        0u8
    } else {
        (c[0] ^ gf_mul(a, horner(c.drop_first(), a))) as u8
    }
}

/// `c[0]*a^0 + ... + c[n-1]*a^(n-1)`, summed from the front.
pub open spec fn power_sum(c: Seq<u8>, a: u8, n: nat) -> u8
    decreases n,
{
    if n == 0 {
        0u8
    } else {
        (power_sum(c, a, (n - 1) as nat) ^ gf_mul(gf_pow(a, (n - 1) as nat), c[n - 1])) as u8
    }
}

/// The quotient of `c` by `x - a` (which is `x + a` here).
pub open spec fn quotient(c: Seq<u8>, a: u8) -> Seq<u8>
    decreases c.len(),
{
    if c.len() <= 1 {
        Seq::empty()
    } else {
        seq![horner(c.drop_first(), a)] + quotient(c.drop_first(), a)
    }
}

/// All coefficients are zero.
pub open spec fn all_zero(c: Seq<u8>) -> bool {
    forall|j: int| 0 <= j < c.len() ==> #[trigger] c[j] == 0u8
}

proof fn lemma_xor(a: u8, b: u8, c: u8, d: u8)
    by (bit_vector)
    ensures
        a ^ 0u8 == a,
        0u8 ^ a == a,
        a ^ a == 0u8,
        (a ^ b == 0u8) ==> a == b,
        (a ^ b) ^ c == a ^ (b ^ c),
        a ^ b == b ^ a,
        ((a ^ b) ^ c) ^ d == (a ^ c) ^ (b ^ d),
{
}

pub proof fn lemma_quotient_len(c: Seq<u8>, a: u8)
    ensures
        c.len() >= 1 ==> quotient(c, a).len() == c.len() - 1,
        c.len() == 0 ==> quotient(c, a).len() == 0,
    decreases c.len(),
{
    if c.len() > 1 {
        lemma_quotient_len(c.drop_first(), a);
    }
}

/// `c(x) = (x + a) * q(x) + c(a)`.
pub proof fn lemma_division(c: Seq<u8>, a: u8, x: u8)
    ensures
        horner(c, x) == gf_mul(x ^ a, horner(quotient(c, a), x)) ^ horner(c, a),
    decreases c.len(),
{
    lemma_mul_zero_one(x ^ a);
    lemma_mul_zero_one(x);
    lemma_mul_zero_one(a);
    if c.len() == 0 {
        lemma_xor(0u8, 0u8, 0u8, 0u8);
    } else if c.len() == 1 {
        assert(c.drop_first().len() == 0);
        assert(horner(c.drop_first(), x) == 0u8);
        assert(horner(c.drop_first(), a) == 0u8);
        assert(quotient(c, a).len() == 0);
        assert(horner(quotient(c, a), x) == 0u8);
        lemma_xor(c[0], 0u8, 0u8, 0u8);
    } else {
        let d = c.drop_first();
        lemma_division(d, a, x);
        let q1 = quotient(d, a);
        let qq = quotient(c, a);
        assert(qq.drop_first() =~= q1);
        assert(qq[0] == horner(d, a));
        let da = horner(d, a);
        let dx = horner(d, x);
        let qx = horner(q1, x);
        let xa = x ^ a;
        // c(x) = c0 + x*d(x), d(x) = xa*qx + da
        // Q(x) = da + x*qx
        lemma_mul_distrib(x, gf_mul(xa, qx), da);
        lemma_mul_distrib(xa, da, gf_mul(x, qx));
        lemma_mul_distrib(da, x, a);
        lemma_mul_comm(da, x);
        lemma_mul_comm(da, a);
        lemma_mul_comm(da, xa);
        lemma_mul_assoc(x, xa, qx);
        lemma_mul_assoc(xa, x, qx);
        lemma_mul_comm(x, xa);
        let p = gf_mul(x, gf_mul(xa, qx));
        let xd = gf_mul(x, da);
        let ad = gf_mul(a, da);
        assert(gf_mul(xa, gf_mul(x, qx)) == p);
        assert(gf_mul(xa, da) == xd ^ ad);
        assert(horner(c, x) == c[0] ^ gf_mul(x, dx));
        assert(gf_mul(x, dx) == p ^ xd);
        assert(horner(qq, x) == da ^ gf_mul(x, qx));
        assert(gf_mul(xa, horner(qq, x)) == (xd ^ ad) ^ p);
        assert(horner(c, a) == c[0] ^ ad);
        let c0 = c[0];
        assert(c0 ^ (p ^ xd) == ((xd ^ ad) ^ p) ^ (c0 ^ ad)) by (bit_vector);
    }
}

/// A zero quotient and a root at `a` leave only the zero polynomial.
proof fn lemma_zero_quotient(c: Seq<u8>, a: u8)
    requires
        all_zero(quotient(c, a)),
        horner(c, a) == 0u8,
    ensures
        all_zero(c),
    decreases c.len(),
{
    lemma_mul_zero_one(a);
    if c.len() == 1 {
        assert(c.drop_first().len() == 0);
        assert(horner(c.drop_first(), a) == 0u8);
        lemma_xor(c[0], 0u8, 0u8, 0u8);
        assert(c[0] == 0u8);
        assert forall|j: int| 0 <= j < c.len() implies #[trigger] c[j] == 0u8 by {
            assert(j == 0);
        }
    } else if c.len() > 1 {
        let d = c.drop_first();
        let qq = quotient(c, a);
        assert(qq[0] == horner(d, a));
        assert(qq.drop_first() =~= quotient(d, a));
        assert(all_zero(quotient(d, a))) by {
            assert forall|j: int| 0 <= j < quotient(d, a).len() implies #[trigger] quotient(d, a)[j]
                == 0u8 by {
                assert(quotient(d, a)[j] == qq[j + 1]);
            }
        }
        assert(horner(d, a) == 0u8);
        lemma_zero_quotient(d, a);
        lemma_xor(c[0], 0u8, 0u8, 0u8);
        assert forall|j: int| 0 <= j < c.len() implies #[trigger] c[j] == 0u8 by {
            if j > 0 {
                assert(c[j] == d[j - 1]);
            }
        }
    }
}

/// Points no two of which are equal.
pub open spec fn distinct_points(xs: Seq<u8>) -> bool {
    forall|i: int, j: int| 0 <= i < xs.len() && 0 <= j < xs.len() && i != j ==> #[trigger] xs[i]
        != #[trigger] xs[j]
}

/// A polynomial with `k` coefficients that vanishes at `k` distinct points
/// is zero.
pub proof fn lemma_roots(c: Seq<u8>, xs: Seq<u8>)
    requires
        c.len() == xs.len(),
        distinct_points(xs),
        forall|i: int| 0 <= i < xs.len() ==> #[trigger] horner(c, xs[i]) == 0u8,
    ensures
        all_zero(c),
    decreases c.len(),
{
    if c.len() > 0 {
        let k = c.len();
        let a = xs[k - 1];
        let q = quotient(c, a);
        lemma_quotient_len(c, a);
        let ys = xs.take(k - 1);
        assert forall|i: int| 0 <= i < ys.len() implies #[trigger] horner(q, ys[i]) == 0u8 by {
            let x = ys[i];
            assert(x == xs[i]);
            assert(horner(c, xs[i]) == 0u8);
            assert(horner(c, xs[k - 1]) == 0u8);
            lemma_division(c, a, x);
            lemma_xor(gf_mul(x ^ a, horner(q, x)), 0u8, 0u8, 0u8);
            assert(x != a);
            lemma_xor(x, a, 0u8, 0u8);
            if horner(q, x) != 0u8 {
                lemma_no_zero_divisors(x ^ a, horner(q, x));
            }
        }
        assert(distinct_points(ys)) by {
            assert forall|i: int, j: int|
                0 <= i < ys.len() && 0 <= j < ys.len() && i != j implies #[trigger] ys[i]
                != #[trigger] ys[j] by {
                assert(ys[i] == xs[i] && ys[j] == xs[j]);
            }
        }
        lemma_roots(q, ys);
        assert(horner(c, xs[k - 1]) == 0u8);
        lemma_zero_quotient(c, a);
    }
}

/// `a^(j+1) = a * a^j`.
proof fn lemma_pow_succ(a: u8, j: nat)
    ensures
        gf_pow(a, j + 1) == gf_mul(a, gf_pow(a, j)),
{
    lemma_mul_comm(gf_pow(a, j), a);
}

/// Summing from the front agrees with Horner's rule.
pub proof fn lemma_power_sum_horner(c: Seq<u8>, a: u8)
    ensures
        power_sum(c, a, c.len()) == horner(c, a),
    decreases c.len(),
{
    if c.len() > 0 {
        let d = c.drop_first();
        lemma_power_sum_horner(d, a);
        lemma_power_sum_shift(c, a, c.len());
    }
}

/// `power_sum(c, a, n) = c[0] + a * power_sum(c[1..], a, n - 1)`.
proof fn lemma_power_sum_shift(c: Seq<u8>, a: u8, n: nat)
    requires
        1 <= n <= c.len(),
    ensures
        power_sum(c, a, n) == c[0] ^ gf_mul(a, power_sum(c.drop_first(), a, (n - 1) as nat)),
    decreases n,
{
    let d = c.drop_first();
    lemma_mul_zero_one(a);
    if n == 1 {
        lemma_mul_zero_one(c[0]);
        lemma_xor(c[0], 0u8, 0u8, 0u8);
        assert(power_sum(c, a, 0) == 0u8);
        assert(gf_pow(a, 0) == 1u8);
    } else {
        lemma_power_sum_shift(c, a, (n - 1) as nat);
        let m = (n - 2) as nat;
        let prev = power_sum(d, a, m);
        let t = c[n - 1];
        assert(d[m as int] == t);
        let pm = gf_pow(a, m);
        lemma_pow_succ(a, m);
        lemma_mul_assoc(a, pm, t);
        lemma_mul_distrib(a, prev, gf_mul(pm, t));
        let x = gf_mul(a, prev);
        let y = gf_mul(a, gf_mul(pm, t));
        assert(power_sum(d, a, (n - 1) as nat) == prev ^ gf_mul(pm, t));
        assert(power_sum(c, a, n) == (c[0] ^ x) ^ y);
        lemma_xor(c[0], x, y, 0u8);
    }
}

} // verus!
