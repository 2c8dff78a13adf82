//! Arithmetic in `GF(2^8)` with the reduction polynomial
//! `x^8 + x^4 + x^3 + x^2 + 1` (`0x11D`). Addition is XOR; multiplication is
//! the carry-less shift-and-add product reduced by the polynomial.
use vstd::prelude::*;

verus! {

/// Multiplication of a field element by `x`: shift left, reducing by the
/// low byte of the polynomial when the top bit falls off.
pub open spec fn xtime(a: u8) -> u8 {
    if a & 0x80u8 != 0u8 {
        ((a << 1u8) ^ 0x1Du8) as u8
    } else {
        (a << 1u8) as u8
    }
}

/// One shift-and-add step: add `a` into the running product when the low
/// bit of `b` is set.
pub open spec fn mul_step(a: u8, b: u8, rest: u8) -> u8 {
    if b & 1u8 != 0u8 {
        (a ^ rest) as u8
    } else {
        rest
    }
}

/// The shift-and-add product given the eight successive `xtime` images
/// `a0 .. a7` of the left operand.
pub open spec fn mul_parts(
    a0: u8,
    a1: u8,
    a2: u8,
    a3: u8,
    a4: u8,
    a5: u8,
    a6: u8,
    a7: u8,
    b: u8,
) -> u8 {
    mul_step(
        a0,
        b,
        mul_step(
            a1,
            (b >> 1u8) as u8,
            mul_step(
                a2,
                (b >> 2u8) as u8,
                mul_step(
                    a3,
                    (b >> 3u8) as u8,
                    mul_step(
                        a4,
                        (b >> 4u8) as u8,
                        mul_step(
                            a5,
                            (b >> 5u8) as u8,
                            mul_step(
                                a6,
                                (b >> 6u8) as u8,
                                mul_step(a7, (b >> 7u8) as u8, 0u8),
                            ),
                        ),
                    ),
                ),
            ),
        ),
    )
}

/// `a1 .. a7` are the successive `xtime` images of `a0`.
pub open spec fn xtime_chain(a0: u8, a1: u8, a2: u8, a3: u8, a4: u8, a5: u8, a6: u8, a7: u8) -> bool {
    &&& a1 == xtime(a0)
    &&& a2 == xtime(a1)
    &&& a3 == xtime(a2)
    &&& a4 == xtime(a3)
    &&& a5 == xtime(a4)
    &&& a6 == xtime(a5)
    &&& a7 == xtime(a6)
}

/// The product of two field elements.
pub open spec fn gf_mul(a: u8, b: u8) -> u8 {
    let a1 = xtime(a);
    let a2 = xtime(a1);
    let a3 = xtime(a2);
    let a4 = xtime(a3);
    let a5 = xtime(a4);
    let a6 = xtime(a5);
    let a7 = xtime(a6);
    mul_parts(a, a1, a2, a3, a4, a5, a6, a7, b)
}

/// The product computed by the last `n` steps of the algorithm, starting
/// from the partially shifted operands `a` and `b`.
pub open spec fn mul_from(a: u8, b: u8, n: nat) -> u8
    decreases n,
{
    if n == 0 {
        0u8
    } else {
        mul_step(a, b, mul_from(xtime(a), (b >> 1u8) as u8, (n - 1) as nat))
    }
}

/// `base` raised to `exp` by repeated multiplication.
pub open spec fn gf_pow(base: u8, exp: nat) -> u8
    decreases exp,
{
    if exp == 0 {
        1u8
    } else {
        gf_mul(gf_pow(base, (exp - 1) as nat), base)
    }
}

/// The inverse of a nonzero element, `a^254`, as a square-and-multiply
/// chain `a^2 * a^4 * ... * a^128`.
pub open spec fn gf_inv(a: u8) -> u8 {
    let s1 = gf_mul(a, a);
    let s2 = gf_mul(s1, s1);
    let s3 = gf_mul(s2, s2);
    let s4 = gf_mul(s3, s3);
    let s5 = gf_mul(s4, s4);
    let s6 = gf_mul(s5, s5);
    let s7 = gf_mul(s6, s6);
    gf_mul(s1, gf_mul(s2, gf_mul(s3, gf_mul(s4, gf_mul(s5, gf_mul(s6, s7))))))
}

proof fn lemma_mul_from_eight(a: u8, b: u8)
    ensures
        mul_from(a, b, 8) == gf_mul(a, b),
{
    reveal_with_fuel(mul_from, 9);
    let c1 = (b >> 1u8) as u8;
    let c2 = (c1 >> 1u8) as u8;
    let c3 = (c2 >> 1u8) as u8;
    let c4 = (c3 >> 1u8) as u8;
    let c5 = (c4 >> 1u8) as u8;
    let c6 = (c5 >> 1u8) as u8;
    let c7 = (c6 >> 1u8) as u8;
    assert(c2 == (b >> 2u8) && c3 == (b >> 3u8) && c4 == (b >> 4u8) && c5 == (b >> 5u8) && c6
        == (b >> 6u8) && c7 == (b >> 7u8)) by (bit_vector)
        requires
            c1 == (b >> 1u8),
            c2 == (c1 >> 1u8),
            c3 == (c2 >> 1u8),
            c4 == (c3 >> 1u8),
            c5 == (c4 >> 1u8),
            c6 == (c5 >> 1u8),
            c7 == (c6 >> 1u8),
    ;
}

/// Zero annihilates and one is neutral, on both sides.
pub proof fn lemma_mul_zero_one(a: u8)
    ensures
        gf_mul(a, 0) == 0,
        gf_mul(0, a) == 0,
        gf_mul(a, 1) == a,
        gf_mul(1, a) == a,
{
    let (a1, a2, a3, a4, a5, a6, a7) = (
        xtime(a),
        xtime(xtime(a)),
        xtime(xtime(xtime(a))),
        xtime(xtime(xtime(xtime(a)))),
        xtime(xtime(xtime(xtime(xtime(a))))),
        xtime(xtime(xtime(xtime(xtime(xtime(a)))))),
        xtime(xtime(xtime(xtime(xtime(xtime(xtime(a))))))),
    );
    assert(xtime(0) == 0 && xtime(1) == 2 && xtime(2) == 4 && xtime(4) == 8 && xtime(8) == 16
        && xtime(16) == 32 && xtime(32) == 64 && xtime(64) == 128) by (bit_vector);
    assert(mul_parts(a, a1, a2, a3, a4, a5, a6, a7, 0) == 0 && mul_parts(a, a1, a2, a3, a4, a5, a6, a7, 1) == a
        && mul_parts(0, 0, 0, 0, 0, 0, 0, 0, a) == 0 && mul_parts(1, 2, 4, 8, 16, 32, 64, 128, a)
        == a) by (bit_vector);
}

/// Multiplication is commutative.
#[verifier::rlimit(100)]
pub proof fn lemma_mul_comm(a: u8, b: u8)
    ensures
        gf_mul(a, b) == gf_mul(b, a),
{
    let a1 = xtime(a);
    let a2 = xtime(a1);
    let a3 = xtime(a2);
    let a4 = xtime(a3);
    let a5 = xtime(a4);
    let a6 = xtime(a5);
    let a7 = xtime(a6);
    let b1 = xtime(b);
    let b2 = xtime(b1);
    let b3 = xtime(b2);
    let b4 = xtime(b3);
    let b5 = xtime(b4);
    let b6 = xtime(b5);
    let b7 = xtime(b6);
    assert(mul_parts(a, a1, a2, a3, a4, a5, a6, a7, b) == mul_parts(b, b1, b2, b3, b4, b5, b6, b7, a))
        by (bit_vector)
        requires
            xtime_chain(a, a1, a2, a3, a4, a5, a6, a7),
            xtime_chain(b, b1, b2, b3, b4, b5, b6, b7),
    ;
}

/// Multiplication distributes over addition (XOR).
#[verifier::rlimit(100)]
pub proof fn lemma_mul_distrib(a: u8, b: u8, c: u8)
    ensures
        gf_mul(a, b ^ c) == gf_mul(a, b) ^ gf_mul(a, c),
        gf_mul(b ^ c, a) == gf_mul(b, a) ^ gf_mul(c, a),
{
    let a1 = xtime(a);
    let a2 = xtime(a1);
    let a3 = xtime(a2);
    let a4 = xtime(a3);
    let a5 = xtime(a4);
    let a6 = xtime(a5);
    let a7 = xtime(a6);
    assert(mul_parts(a, a1, a2, a3, a4, a5, a6, a7, b ^ c) == mul_parts(
        a,
        a1,
        a2,
        a3,
        a4,
        a5,
        a6,
        a7,
        b,
    ) ^ mul_parts(a, a1, a2, a3, a4, a5, a6, a7, c)) by (bit_vector);
    lemma_mul_comm(a, b ^ c);
    lemma_mul_comm(a, b);
    lemma_mul_comm(a, c);
}

/// Multiplying by `x` commutes with multiplication.
#[verifier::rlimit(100)]
pub proof fn lemma_mul_xtime(a: u8, y: u8)
    ensures
        gf_mul(a, xtime(y)) == xtime(gf_mul(a, y)),
{
    let a1 = xtime(a);
    let a2 = xtime(a1);
    let a3 = xtime(a2);
    let a4 = xtime(a3);
    let a5 = xtime(a4);
    let a6 = xtime(a5);
    let a7 = xtime(a6);
    let xy = xtime(y);
    let m = mul_parts(a, a1, a2, a3, a4, a5, a6, a7, y);
    assert(mul_parts(a, a1, a2, a3, a4, a5, a6, a7, xy) == xtime(m)) by (bit_vector)
        requires
            xtime_chain(a, a1, a2, a3, a4, a5, a6, a7),
            xy == xtime(y),
            m == mul_parts(a, a1, a2, a3, a4, a5, a6, a7, y),
    ;
}

proof fn lemma_mul_over_step(a: u8, x: u8, s: u8, rest: u8)
    ensures
        gf_mul(a, mul_step(x, s, rest)) == mul_step(gf_mul(a, x), s, gf_mul(a, rest)),
{
    lemma_mul_distrib(a, x, rest);
}

/// Multiplication is associative.
pub proof fn lemma_mul_assoc(a: u8, b: u8, c: u8)
    ensures
        gf_mul(gf_mul(a, b), c) == gf_mul(a, gf_mul(b, c)),
{
    let b1 = xtime(b);
    let b2 = xtime(b1);
    let b3 = xtime(b2);
    let b4 = xtime(b3);
    let b5 = xtime(b4);
    let b6 = xtime(b5);
    let b7 = xtime(b6);
    lemma_mul_xtime(a, b);
    lemma_mul_xtime(a, b1);
    lemma_mul_xtime(a, b2);
    lemma_mul_xtime(a, b3);
    lemma_mul_xtime(a, b4);
    lemma_mul_xtime(a, b5);
    lemma_mul_xtime(a, b6);
    lemma_mul_zero_one(a);
    let r7 = mul_step(b7, (c >> 7u8) as u8, 0u8);
    let r6 = mul_step(b6, (c >> 6u8) as u8, r7);
    let r5 = mul_step(b5, (c >> 5u8) as u8, r6);
    let r4 = mul_step(b4, (c >> 4u8) as u8, r5);
    let r3 = mul_step(b3, (c >> 3u8) as u8, r4);
    let r2 = mul_step(b2, (c >> 2u8) as u8, r3);
    let r1 = mul_step(b1, (c >> 1u8) as u8, r2);
    let r0 = mul_step(b, c, r1);
    lemma_mul_over_step(a, b7, (c >> 7u8) as u8, 0u8);
    lemma_mul_over_step(a, b6, (c >> 6u8) as u8, r7);
    lemma_mul_over_step(a, b5, (c >> 5u8) as u8, r6);
    lemma_mul_over_step(a, b4, (c >> 4u8) as u8, r5);
    lemma_mul_over_step(a, b3, (c >> 3u8) as u8, r4);
    lemma_mul_over_step(a, b2, (c >> 2u8) as u8, r3);
    lemma_mul_over_step(a, b1, (c >> 1u8) as u8, r2);
    lemma_mul_over_step(a, b, c, r1);
    assert(gf_mul(b, c) == r0);
}

/// `gf_inv(a)` is a true inverse of every nonzero `a`.
pub proof fn lemma_inv_correct(a: u8)
    requires
        a != 0,
    ensures
        gf_mul(a, gf_inv(a)) == 1,
        gf_mul(gf_inv(a), a) == 1,
        gf_inv(a) != 0,
{
    let a1 = xtime(a);
    let a2 = xtime(a1);
    let a3 = xtime(a2);
    let a4 = xtime(a3);
    let a5 = xtime(a4);
    let a6 = xtime(a5);
    let a7 = xtime(a6);
    let s = gf_mul(a, a);
    let s1 = xtime(s);
    let s2 = xtime(s1);
    let s3 = xtime(s2);
    let s4 = xtime(s3);
    let s5 = xtime(s4);
    let s6 = xtime(s5);
    let s7 = xtime(s6);
    let u = gf_mul(s, s);
    let u1 = xtime(u);
    let u2 = xtime(u1);
    let u3 = xtime(u2);
    let u4 = xtime(u3);
    let u5 = xtime(u4);
    let u6 = xtime(u5);
    let u7 = xtime(u6);
    let v = gf_mul(u, u);
    let v1 = xtime(v);
    let v2 = xtime(v1);
    let v3 = xtime(v2);
    let v4 = xtime(v3);
    let v5 = xtime(v4);
    let v6 = xtime(v5);
    let v7 = xtime(v6);
    let w = gf_mul(v, v);
    let w1 = xtime(w);
    let w2 = xtime(w1);
    let w3 = xtime(w2);
    let w4 = xtime(w3);
    let w5 = xtime(w4);
    let w6 = xtime(w5);
    let w7 = xtime(w6);
    let x = gf_mul(w, w);
    let x1 = xtime(x);
    let x2 = xtime(x1);
    let x3 = xtime(x2);
    let x4 = xtime(x3);
    let x5 = xtime(x4);
    let x6 = xtime(x5);
    let x7 = xtime(x6);
    let y = gf_mul(x, x);
    let y1 = xtime(y);
    let y2 = xtime(y1);
    let y3 = xtime(y2);
    let y4 = xtime(y3);
    let y5 = xtime(y4);
    let y6 = xtime(y5);
    let y7 = xtime(y6);
    let z = gf_mul(y, y);
    let t6 = gf_mul(y, z);
    let t5 = gf_mul(x, t6);
    let t4 = gf_mul(w, t5);
    let t3 = gf_mul(v, t4);
    let t2 = gf_mul(u, t3);
    let t1 = gf_mul(s, t2);
    assert(t1 == gf_inv(a));
    assert(a != 0 ==> mul_parts(a, a1, a2, a3, a4, a5, a6, a7, t1) == 1) by (bit_vector)
        requires
            xtime_chain(a, a1, a2, a3, a4, a5, a6, a7),
            s == mul_parts(a, a1, a2, a3, a4, a5, a6, a7, a),
            xtime_chain(s, s1, s2, s3, s4, s5, s6, s7),
            u == mul_parts(s, s1, s2, s3, s4, s5, s6, s7, s),
            xtime_chain(u, u1, u2, u3, u4, u5, u6, u7),
            v == mul_parts(u, u1, u2, u3, u4, u5, u6, u7, u),
            xtime_chain(v, v1, v2, v3, v4, v5, v6, v7),
            w == mul_parts(v, v1, v2, v3, v4, v5, v6, v7, v),
            xtime_chain(w, w1, w2, w3, w4, w5, w6, w7),
            x == mul_parts(w, w1, w2, w3, w4, w5, w6, w7, w),
            xtime_chain(x, x1, x2, x3, x4, x5, x6, x7),
            y == mul_parts(x, x1, x2, x3, x4, x5, x6, x7, x),
            xtime_chain(y, y1, y2, y3, y4, y5, y6, y7),
            z == mul_parts(y, y1, y2, y3, y4, y5, y6, y7, y),
            t6 == mul_parts(y, y1, y2, y3, y4, y5, y6, y7, z),
            t5 == mul_parts(x, x1, x2, x3, x4, x5, x6, x7, t6),
            t4 == mul_parts(w, w1, w2, w3, w4, w5, w6, w7, t5),
            t3 == mul_parts(v, v1, v2, v3, v4, v5, v6, v7, t4),
            t2 == mul_parts(u, u1, u2, u3, u4, u5, u6, u7, t3),
            t1 == mul_parts(s, s1, s2, s3, s4, s5, s6, s7, t2),
    ;
    lemma_mul_comm(a, gf_inv(a));
    lemma_mul_zero_one(a);
}

/// A nonzero element has exactly one inverse.
pub proof fn lemma_inverse_unique(a: u8, c: u8)
    requires
        a != 0,
        gf_mul(a, c) == 1,
    ensures
        c == gf_inv(a),
{
    lemma_inv_correct(a);
    let d = gf_inv(a);
    lemma_mul_assoc(d, a, c);
    lemma_mul_zero_one(c);
    lemma_mul_zero_one(d);
}

/// A product is zero only when a factor is zero.
pub proof fn lemma_no_zero_divisors(a: u8, b: u8)
    requires
        a != 0,
        b != 0,
    ensures
        gf_mul(a, b) != 0,
{
    lemma_inv_correct(a);
    lemma_mul_assoc(gf_inv(a), a, b);
    lemma_mul_zero_one(b);
    lemma_mul_zero_one(gf_inv(a));
}

/// Multiply two field elements with the shift-and-add algorithm.
pub fn mul(a: u8, b: u8) -> (product: u8)
    ensures
        product == gf_mul(a, b),
{
    let mut x: u8 = a;
    let mut y: u8 = b;
    let mut product: u8 = 0;
    let mut i: u8 = 0;
    proof {
        lemma_mul_from_eight(a, b);
        let g = gf_mul(a, b);
        assert(0u8 ^ g == g) by (bit_vector);
    }
    while i < 8
        invariant
            i <= 8,
            product ^ mul_from(x, y, (8 - i) as nat) == gf_mul(a, b),
        decreases 8 - i,
    {
        let ghost rest = mul_from(xtime(x), (y >> 1u8) as u8, (8 - i - 1) as nat);
        assert(mul_from(x, y, (8 - i) as nat) == mul_step(x, y, rest));
        if y & 1 != 0 {
            assert((product ^ x) ^ rest == product ^ (x ^ rest)) by (bit_vector);
            product = product ^ x;
        }
        let carry = x & 0x80;
        let shifted: u8 = x << 1;
        if carry != 0 {
            x = shifted ^ 0x1D;
        } else {
            x = shifted;
        }
        y = y >> 1;
        i = i + 1;
    }
    proof {
        assert(product ^ 0u8 == product) by (bit_vector);
    }
    product
}

/// The multiplicative inverse of a nonzero field element, found by
/// searching the nonzero elements in increasing order.
pub fn inv(a: u8) -> (result: u8)
    requires
        a != 0,
    ensures
        gf_mul(a, result) == 1,
        result == gf_inv(a),
{
    proof {
        lemma_inv_correct(a);
    }
    let mut candidate: u8 = 1;
    loop
        invariant
            a != 0,
            1 <= candidate,
            candidate <= gf_inv(a),
            gf_mul(a, gf_inv(a)) == 1,
        decreases gf_inv(a) - candidate,
    {
        let p = self::mul(a, candidate);
        if p == 1 {
            proof {
                lemma_inverse_unique(a, candidate);
            }
            return candidate;
        }
        candidate = candidate + 1;
    }
}

/// `base` raised to the `exp`-th power by repeated multiplication.
pub fn pow(base: u8, exp: u32) -> (result: u8)
    ensures
        result == gf_pow(base, exp as nat),
{
    let mut result: u8 = 1;
    let mut i: u32 = 0;
    while i < exp
        invariant
            i <= exp,
            result == gf_pow(base, i as nat),
        decreases exp - i,
    {
        result = self::mul(result, base);
        i = i + 1;
    }
    result
}

} // verus!
